//! What indexes list.
use vstd::prelude::*;

use crate::address::Address;
use crate::address_set::AddressRangeSet;
use crate::anchored::law_pages_hold_all;
use crate::call_graph::{CallGraphEdgeKey, CallGraphIndex};
use crate::coalesce::reference_keys;
use crate::flow::FlowTarget;
use crate::insn::leaving_references;
use crate::order::Ranked;
use crate::provenance::{entry_key, visible, InverseReferenceEntryKey, ReferenceEntryKey};
use crate::provenance_index::{entry_keys, inverse_entry_keys, inverted_entry_keys};
use crate::reference::{
    flow_properties, InverseReferenceKey, Reference, ReferenceKey, ReferenceTarget,
};
use crate::reference_index::{inverse_keys, inverted_keys, option_filed, option_inverted};

verus! {

/// The references from an address that an index lists, from the beginning or behind one of
/// them, are all that it holds from there and that come later.
pub proof fn law_references_from_an_address_are_listed(
    index: crate::reference_index::ReferenceIndex,
    from: Address,
    after: Option<Reference>,
    references: Vec<Reference>,
    reference: Reference,
)
    requires
        index.wf(),
        call_ensures(
            crate::reference_index::ReferenceIndex::references_from,
            (&index, from, after),
            references,
        ),
        after matches Some(last) ==> last.from == from,
    ensures
        references@.contains(reference) <==> index@.contains_key(
            ReferenceKey { from, target: reference.target },
        ) && index@[ReferenceKey { from, target: reference.target }] == reference && (
        after matches Some(last) ==> last.filed().rank() < reference.filed().rank()),
{
    let keys = reference_keys(references@);
    let key = ReferenceKey { from, target: reference.target };
    law_pages_hold_all(keys, index@.dom(), from, option_filed(after), reference.filed());
    if references@.contains(reference) {
        let i = references@.index_of(reference);
        assert(keys[i] == reference.filed());
        assert(keys.contains(reference.filed()));
    }
    if index@.contains_key(key) && index@[key] == reference {
        assert(index@[key].filed() == key);
        if keys.contains(key) {
            let i = keys.index_of(key);
            assert(references@[i].filed() == key);
            assert(references@[i] == reference);
        }
    }
}

/// The references to a target that an index lists, from the beginning or behind one of them,
/// are all that it holds to there and that come later.
pub proof fn law_references_to_a_target_are_listed(
    index: crate::reference_index::ReferenceIndex,
    target: ReferenceTarget,
    after: Option<Reference>,
    references: Vec<Reference>,
    reference: Reference,
)
    requires
        index.wf(),
        call_ensures(
            crate::reference_index::ReferenceIndex::references_to,
            (&index, target, after),
            references,
        ),
        after matches Some(last) ==> last.target == target,
    ensures
        references@.contains(reference) <==> index@.contains_key(
            ReferenceKey { from: reference.from, target },
        ) && index@[ReferenceKey { from: reference.from, target }] == reference && (
        after matches Some(last) ==> last.from.rank() < reference.from.rank()),
{
    let keys = inverse_keys(references@);
    let key = ReferenceKey { from: reference.from, target };
    let inverse = InverseReferenceKey { target: reference.target, from: reference.from };
    law_pages_hold_all(keys, inverted_keys(index@.dom()), target, option_inverted(after), inverse);
    assert(inverted_keys(index@.dom()).contains(inverse) <==> index@.contains_key(
        reference.filed(),
    ));
    if references@.contains(reference) {
        let i = references@.index_of(reference);
        assert(keys[i] == inverse);
        assert(keys.contains(inverse));
    }
    if index@.contains_key(key) && index@[key] == reference {
        assert(index@[key].filed() == key);
        if keys.contains(inverse) {
            let i = keys.index_of(inverse);
            assert(references@[i].filed() == key);
            assert(references@[i] == reference);
        }
    }
}

/// The references in a region are those that the index holds from its addresses.
pub proof fn law_references_in_a_region_are_listed(
    index: crate::reference_index::ReferenceIndex,
    coverage: AddressRangeSet,
    references: Vec<Reference>,
    reference: Reference,
)
    requires
        index.wf(),
        call_ensures(
            crate::reference_index::ReferenceIndex::references_in,
            (&index, &coverage),
            references,
        ),
    ensures
        references@.contains(reference) <==> coverage@.contains(reference.from)
            && index@.contains_key(reference.filed()) && index@[reference.filed()] == reference,
{
    let keys = reference_keys(references@);
    let key = reference.filed();
    assert(keys.contains(key) <==> index@.dom().contains(key) && coverage@.contains(key.from));
    if references@.contains(reference) {
        let i = references@.index_of(reference);
        assert(keys[i] == key);
        assert(keys.contains(key));
    }
    if keys.contains(key) && index@[key] == reference {
        let i = keys.index_of(key);
        assert(references@[i] == reference);
    }
}

/// The references from an address that an index lists are what its entries from there show.
pub proof fn law_entries_from_an_address_are_listed(
    index: crate::provenance_index::ReferenceIndex,
    from: Address,
    after: Option<ReferenceEntryKey>,
    references: Vec<Reference>,
    reference: Reference,
)
    requires
        index.wf(),
        call_ensures(
            crate::provenance_index::ReferenceIndex::references_from,
            (&index, from, after),
            references,
        ),
        after matches Some(last) ==> last.from == from,
    ensures
        references@.contains(reference) <==> reference.from == from && index@.contains_key(
            entry_key(reference),
        ) && visible(entry_key(reference), index@[entry_key(reference)]) == Some(reference) && (
        after matches Some(last) ==> last.rank() < entry_key(reference).rank()),
{
    let keys = entry_keys(references@);
    let key = entry_key(reference);
    law_pages_hold_all(keys, index@.dom(), from, after, key);
    if references@.contains(reference) {
        let i = references@.index_of(reference);
        assert(keys[i] == key);
        assert(keys.contains(key));
    }
    if keys.contains(key) && visible(key, index@[key]) == Some(reference) {
        let i = keys.index_of(key);
        assert(entry_key(references@[i]) == key);
        assert(references@[i] == reference);
    }
}

/// The references to a target that an index lists are what its entries to there show.
pub proof fn law_entries_to_a_target_are_listed(
    index: crate::provenance_index::ReferenceIndex,
    target: ReferenceTarget,
    after: Option<ReferenceEntryKey>,
    references: Vec<Reference>,
    reference: Reference,
)
    requires
        index.wf(),
        call_ensures(
            crate::provenance_index::ReferenceIndex::references_to,
            (&index, target, after),
            references,
        ),
        after matches Some(last) ==> last.target == target,
    ensures
        references@.contains(reference) <==> reference.target == target && index@.contains_key(
            entry_key(reference),
        ) && visible(entry_key(reference), index@[entry_key(reference)]) == Some(reference) && (
        after matches Some(last) ==> last.inverted().rank() < entry_key(
            reference,
        ).inverted().rank()),
{
    let keys = inverse_entry_keys(references@);
    let key = entry_key(reference);
    let inverse = InverseReferenceEntryKey {
        target: reference.target,
        from: reference.from,
        kind: reference.kind,
    };
    let cursor = match after {
        Some(key) => Some(key.inverted()),
        None => None,
    };
    law_pages_hold_all(keys, inverted_entry_keys(index@.dom()), target, cursor, inverse);
    assert(inverted_entry_keys(index@.dom()).contains(inverse) <==> index@.contains_key(key));
    if references@.contains(reference) {
        let i = references@.index_of(reference);
        assert(keys[i] == inverse);
        assert(keys.contains(inverse));
    }
    if keys.contains(inverse) && visible(key, index@[key]) == Some(reference) {
        let i = keys.index_of(inverse);
        assert(entry_key(references@[i]) == key);
        assert(references@[i] == reference);
    }
}

/// The references in a region are what the entries from its addresses show.
pub proof fn law_entries_in_a_region_are_listed(
    index: crate::provenance_index::ReferenceIndex,
    coverage: AddressRangeSet,
    references: Vec<Reference>,
    reference: Reference,
)
    requires
        index.wf(),
        call_ensures(
            crate::provenance_index::ReferenceIndex::references_in,
            (&index, &coverage),
            references,
        ),
    ensures
        references@.contains(reference) <==> coverage@.contains(reference.from)
            && index@.contains_key(entry_key(reference)) && visible(
            entry_key(reference),
            index@[entry_key(reference)],
        ) == Some(reference),
{
    let keys = entry_keys(references@);
    let key = entry_key(reference);
    assert(keys.contains(key) <==> index@.dom().contains(key) && coverage@.contains(key.from));
    if references@.contains(reference) {
        let i = references@.index_of(reference);
        assert(keys[i] == key);
        assert(keys.contains(key));
    }
    if keys.contains(key) && visible(key, index@[key]) == Some(reference) {
        let i = keys.index_of(key);
        assert(entry_key(references@[i]) == key);
        assert(references@[i] == reference);
    }
}

/// The callees listed for a function and the callers listed for one are the two ends of the
/// same calls.
pub proof fn law_both_ends_of_calls_are_listed(
    index: CallGraphIndex,
    caller: Address,
    callee: Address,
    callees: Vec<Address>,
    callers: Vec<Address>,
)
    requires
        index.wf(),
        call_ensures(CallGraphIndex::callees, (&index, caller, None::<Address>), callees),
        call_ensures(CallGraphIndex::callers, (&index, callee, None::<Address>), callers),
    ensures
        callees@.contains(callee) <==> index@.contains(
            CallGraphEdgeKey { source: caller, target: callee },
        ),
        callers@.contains(caller) <==> index@.contains(
            CallGraphEdgeKey { source: caller, target: callee },
        ),
{
}

/// The references of flows, one after another: each call and each return makes one, from where
/// it is to where it leads and with the flags of its kind, and no other flow does.
pub proof fn law_calls_and_returns_refer(flows: Seq<FlowTarget>, reference: Reference)
    ensures
        leaving_references(flows).contains(reference) <==> reference.kind is Flow
            && reference.origin is Derived && exists|k: int|
            0 <= k < flows.len() && ((#[trigger] flows[k]).kind.calls() || flows[k].kind is Return)
                && flows[k].from == reference.from && reference.target == ReferenceTarget::Address(
                flows[k].to,
            ) && reference.properties.bits == flow_properties(flows[k].kind),
        leaving_references(flows).len() <= flows.len(),
    decreases flows.len(),
{
    if flows.len() > 0 {
        let rest = flows.drop_last();
        let last = flows.last();
        law_calls_and_returns_refer(rest, reference);
        let before = leaving_references(rest);
        crate::body::lemma_push_contains(
            before,
            crate::reference::flow_reference(last),
            reference,
        );
        assert(flows[flows.len() - 1] == last);
        if before.contains(reference) {
            let k = choose|k: int|
                0 <= k < rest.len() && ((#[trigger] rest[k]).kind.calls() || rest[k].kind is Return)
                    && rest[k].from == reference.from && reference.target
                    == ReferenceTarget::Address(rest[k].to) && reference.properties.bits
                    == flow_properties(rest[k].kind);
            assert(flows[k] == rest[k]);
        }
        if exists|k: int|
            0 <= k < flows.len() && ((#[trigger] flows[k]).kind.calls() || flows[k].kind is Return)
                && flows[k].from == reference.from && reference.target == ReferenceTarget::Address(
                flows[k].to,
            ) && reference.properties.bits == flow_properties(flows[k].kind) {
            let k = choose|k: int|
                0 <= k < flows.len() && ((#[trigger] flows[k]).kind.calls()
                    || flows[k].kind is Return) && flows[k].from == reference.from
                    && reference.target == ReferenceTarget::Address(flows[k].to)
                    && reference.properties.bits == flow_properties(flows[k].kind);
            if k < rest.len() {
                assert(rest[k] == flows[k]);
            }
        }
    }
}

} // verus!
