//! The references that flows make, one for each two ends.
use vstd::prelude::*;

use crate::address::Address;
use crate::flags::ReferenceProperties;
use crate::flow::{FlowKind, FlowTarget};
use crate::order::{ascending, holds_key, lemma_ascending_determined, SortedMap};
use crate::reference::{
    flow_properties, Reference, ReferenceKey, ReferenceKind, ReferenceOrigin, ReferenceTarget,
};

verus! {

/// The flow as a function sees it that makes tail calls at the given addresses.
pub open spec fn classified(sites: Seq<Address>, flow: FlowTarget) -> FlowTarget {
    if flow.kind is Branch && sites.contains(flow.from) {
        FlowTarget { kind: FlowKind::TailCallBranch, ..flow }
    } else {
        flow
    }
}

/// The flows as a function sees them that makes tail calls at the given addresses.
pub open spec fn all_classified(sites: Seq<Address>, flows: Seq<FlowTarget>) -> Seq<FlowTarget> {
    flows.map_values(|f: FlowTarget| classified(sites, f))
}

/// Turns a branch at one of the ascending `sites` into a tail call.
pub fn classify(sites: &Vec<Address>, flow: FlowTarget) -> (r: FlowTarget)
    requires
        ascending(sites@),
    ensures
        r == classified(sites@, flow),
{
    let branch: bool = match flow.kind() {
        FlowKind::Branch => true,
        _ => false,
    };
    if branch && holds_key(sites.as_slice(), &flow.from) {
        return FlowTarget { from: flow.from, to: flow.to, kind: FlowKind::TailCallBranch };
    }
    flow
}

/// What the reference that a flow makes is filed under.
pub open spec fn flow_key(flow: FlowTarget) -> ReferenceKey {
    ReferenceKey { from: flow.from, target: ReferenceTarget::Address(flow.to) }
}

/// Whether one of the flows leaves the function with the given two ends.
pub open spec fn leaves_by(flows: Seq<FlowTarget>, key: ReferenceKey) -> bool {
    exists|i: int|
        0 <= i < flows.len() && (#[trigger] flows[i]).kind.leaves() && flow_key(flows[i]) == key
}

/// The flags that all flows with the given two ends have together.
pub open spec fn merged_flags(flows: Seq<FlowTarget>, key: ReferenceKey) -> u16
    decreases flows.len(),
{
    if flows.len() == 0 {
        0
    } else {
        let before = merged_flags(flows.drop_last(), key);
        if flows.last().kind.leaves() && flow_key(flows.last()) == key {
            before | flow_properties(flows.last().kind)
        } else {
            before
        }
    }
}

/// The one reference for all flows with the given two ends.
pub open spec fn merged_reference(flows: Seq<FlowTarget>, key: ReferenceKey) -> Reference {
    Reference {
        from: key.from,
        target: key.target,
        kind: ReferenceKind::Flow,
        properties: ReferenceProperties { bits: merged_flags(flows, key) },
        origin: ReferenceOrigin::Derived,
    }
}

/// What references are filed under.
pub open spec fn reference_keys(references: Seq<Reference>) -> Seq<ReferenceKey> {
    references.map_values(|r: Reference| r.filed())
}

/// Whether these are the references that the flows out of a function make: one for each two
/// ends, in the order of the ends, with the flags of all flows between them.
pub open spec fn coalesces(references: Seq<Reference>, flows: Seq<FlowTarget>) -> bool {
    &&& ascending(reference_keys(references))
    &&& forall|key: ReferenceKey| #[trigger]
        reference_keys(references).contains(key) <==> leaves_by(flows, key)
    &&& forall|i: int|
        0 <= i < references.len() ==> #[trigger] references[i] == merged_reference(
            flows,
            references[i].filed(),
        )
}

/// The references that flows make are determined by the flows.
pub proof fn law_coalescing_determined(
    a: Seq<Reference>,
    b: Seq<Reference>,
    flows: Seq<FlowTarget>,
)
    requires
        coalesces(a, flows),
        coalesces(b, flows),
    ensures
        a == b,
{
    let (ka, kb) = (reference_keys(a), reference_keys(b));
    assert forall|key: ReferenceKey| ka.contains(key) <==> kb.contains(key) by {
        assert(ka.contains(key) <==> leaves_by(flows, key));
        assert(kb.contains(key) <==> leaves_by(flows, key));
    }
    lemma_ascending_determined(ka, kb);
    assert forall|i: int| 0 <= i < a.len() implies a[i] == b[i] by {
        assert(ka[i] == kb[i]);
        assert(a[i].filed() == ka[i]);
        assert(b[i].filed() == kb[i]);
    }
    assert(ka.len() == a.len());
    assert(kb.len() == b.len());
    assert(a =~= b);
}

/// One more flow adds its flags to those of its ends and leaves the others alone.
proof fn lemma_one_more(flows: Seq<FlowTarget>, i: int, key: ReferenceKey)
    requires
        0 <= i < flows.len(),
    ensures
        leaves_by(flows.take(i + 1), key) <==> leaves_by(flows.take(i), key) || (
        flows[i].kind.leaves() && flow_key(flows[i]) == key),
        merged_flags(flows.take(i + 1), key) == if flows[i].kind.leaves() && flow_key(flows[i])
            == key {
            merged_flags(flows.take(i), key) | flow_properties(flows[i].kind)
        } else {
            merged_flags(flows.take(i), key)
        },
{
    let (a, b) = (flows.take(i), flows.take(i + 1));
    assert(b.drop_last() =~= a);
    assert(b.last() == flows[i]);
    if leaves_by(a, key) {
        let j = choose|j: int|
            0 <= j < a.len() && (#[trigger] a[j]).kind.leaves() && flow_key(a[j]) == key;
        assert(b[j] == a[j]);
    }
    if leaves_by(b, key) {
        let j = choose|j: int|
            0 <= j < b.len() && (#[trigger] b[j]).kind.leaves() && flow_key(b[j]) == key;
        if j < i {
            assert(a[j] == b[j]);
        }
    }
    if flows[i].kind.leaves() && flow_key(flows[i]) == key {
        assert(b[i] == flows[i]);
    }
}

/// Ends between which nothing flows have no flags.
proof fn lemma_no_flags(flows: Seq<FlowTarget>, key: ReferenceKey)
    requires
        !leaves_by(flows, key),
    ensures
        merged_flags(flows, key) == 0,
    decreases flows.len(),
{
    if flows.len() > 0 {
        let rest = flows.drop_last();
        assert(!leaves_by(rest, key)) by {
            if leaves_by(rest, key) {
                let j = choose|j: int|
                    0 <= j < rest.len() && (#[trigger] rest[j]).kind.leaves() && flow_key(rest[j])
                        == key;
                assert(flows[j] == rest[j]);
            }
        }
        lemma_no_flags(rest, key);
        assert(flows[flows.len() - 1] == flows.last());
    }
}

/// The references that the flows out of a function make.
pub fn coalesce_flows(flows: &Vec<FlowTarget>) -> (references: Vec<Reference>)
    ensures
        coalesces(references@, flows@),
{
    let mut merged: SortedMap<ReferenceKey, ReferenceProperties> = SortedMap::new();
    let mut i: usize = 0;
    while i < flows.len()
        invariant
            i <= flows@.len(),
            merged.wf(),
            forall|key: ReferenceKey| #[trigger]
                merged@.dom().contains(key) <==> leaves_by(flows@.take(i as int), key),
            forall|key: ReferenceKey| #[trigger]
                merged@.dom().contains(key) ==> merged@[key].bits == merged_flags(
                    flows@.take(i as int),
                    key,
                ),
        decreases flows@.len() - i,
    {
        let flow: FlowTarget = flows[i];
        let ghost before = merged@;
        if flow.kind().is_global() {
            let key: ReferenceKey = ReferenceKey {
                from: flow.from(),
                target: ReferenceTarget::Address(flow.to()),
            };
            let added: ReferenceProperties = ReferenceProperties::from_flow(flow.kind());
            let known: Option<ReferenceProperties> = match merged.get(&key) {
                Some(known) => Some(*known),
                None => None,
            };
            let together: ReferenceProperties = match known {
                Some(known) => known.union(added),
                None => added,
            };
            merged.insert(key, together);
            proof {
                assert forall|k: ReferenceKey| #[trigger]
                    merged@.dom().contains(k) <==> leaves_by(flows@.take(i + 1), k) by {
                    lemma_one_more(flows@, i as int, k);
                    assert(before.dom().contains(k) <==> leaves_by(flows@.take(i as int), k));
                }
                assert forall|k: ReferenceKey| #[trigger]
                    merged@.dom().contains(k) implies merged@[k].bits == merged_flags(
                    flows@.take(i + 1),
                    k,
                ) by {
                    lemma_one_more(flows@, i as int, k);
                    if k == key {
                        if !before.dom().contains(k) {
                            assert(!leaves_by(flows@.take(i as int), k));
                            lemma_no_flags(flows@.take(i as int), k);
                            let bits = added.bits;
                            assert(0u16 | bits == bits) by (bit_vector);
                        }
                    } else {
                        assert(before.dom().contains(k));
                    }
                }
            }
        } else {
            proof {
                assert forall|k: ReferenceKey| #[trigger]
                    merged@.dom().contains(k) <==> leaves_by(flows@.take(i + 1), k) by {
                    lemma_one_more(flows@, i as int, k);
                }
                assert forall|k: ReferenceKey| #[trigger]
                    merged@.dom().contains(k) implies merged@[k].bits == merged_flags(
                    flows@.take(i + 1),
                    k,
                ) by {
                    lemma_one_more(flows@, i as int, k);
                }
            }
        }
        i = i + 1;
    }
    assert(flows@.take(i as int) =~= flows@);
    let mut references: Vec<Reference> = Vec::new();
    let mut k: usize = 0;
    while k < merged.keys.len()
        invariant
            k <= merged.keys@.len(),
            merged.wf(),
            forall|key: ReferenceKey| #[trigger]
                merged@.dom().contains(key) ==> merged@[key].bits == merged_flags(flows@, key),
            references@.len() == k,
            forall|j: int|
                0 <= j < k ==> #[trigger] references@[j] == merged_reference(
                    flows@,
                    merged.keys@[j],
                ),
        decreases merged.keys@.len() - k,
    {
        let key: ReferenceKey = merged.keys[k];
        proof {
            merged.lemma_entry(k as int);
        }
        references.push(
            Reference {
                from: key.from(),
                target: key.target(),
                kind: ReferenceKind::Flow,
                properties: merged.values[k],
                origin: ReferenceOrigin::Derived,
            },
        );
        k = k + 1;
    }
    proof {
        let keys = reference_keys(references@);
        assert(keys =~= merged.keys@) by {
            assert forall|j: int| 0 <= j < keys.len() implies keys[j] == merged.keys@[j] by {
                assert(references@[j] == merged_reference(flows@, merged.keys@[j]));
            }
        }
        assert forall|key: ReferenceKey| #[trigger]
            keys.contains(key) <==> leaves_by(flows@, key) by {
            assert(merged@.dom().contains(key) <==> leaves_by(flows@, key));
        }
    }
    references
}

} // verus!
