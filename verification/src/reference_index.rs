//! References listed from both of their ends.
use vstd::prelude::*;

use crate::address::Address;
use crate::address_set::AddressRangeSet;
use crate::anchored::{anchored_keys, covered_keys, lists_covered, pages, Anchored};
use crate::block_table::CodeBlockTable;
use crate::body::{body_flows, Blocks};
use crate::coalesce::{coalesces, leaves_by, merged_reference, reference_keys};
use crate::flags::ReferenceProperties;
use crate::function::{Function, FunctionId, FunctionView};
use crate::function_table::FunctionTable;
use crate::order::{lemma_ascending_determined, same_keys, Ranked, SortedMap, SortedSet};
use crate::reference::{
    addresses, target_stride, InverseReferenceKey, Reference, ReferenceKey, ReferenceKind,
    ReferenceRecord, ReferenceTarget,
};
use crate::types::Revision;

verus! {

impl Anchored<Address> for ReferenceKey {
    open spec fn anchor(self) -> Address {
        self.from
    }

    proof fn lemma_anchor_order(a: Self, b: Self) {
        ReferenceTarget::lemma_rank_bounds(a.target);
        ReferenceTarget::lemma_rank_bounds(b.target);
    }

    fn anchor_of(&self) -> (anchor: Address) {
        self.from
    }

    fn first_of(anchor: Address) -> (key: Self) {
        let key = ReferenceKey::minimum_for(anchor);
        proof {
            assert forall|other: ReferenceKey|
                other.anchor() == anchor implies key.rank() <= #[trigger] other.rank() by {
                ReferenceTarget::lemma_rank_bounds(other.target);
            }
        }
        key
    }
}

impl Anchored<ReferenceTarget> for InverseReferenceKey {
    open spec fn anchor(self) -> ReferenceTarget {
        self.target
    }

    proof fn lemma_anchor_order(a: Self, b: Self) {
        ReferenceTarget::lemma_rank_bounds(ReferenceTarget::Address(a.from));
        ReferenceTarget::lemma_rank_bounds(ReferenceTarget::Address(b.from));
    }

    fn anchor_of(&self) -> (anchor: ReferenceTarget) {
        self.target
    }

    fn first_of(anchor: ReferenceTarget) -> (key: Self) {
        let key = InverseReferenceKey::minimum_for(anchor);
        proof {
            assert forall|other: InverseReferenceKey|
                other.anchor() == anchor implies key.rank() <= #[trigger] other.rank() by {
                ReferenceTarget::lemma_rank_bounds(ReferenceTarget::Address(other.from));
            }
        }
        key
    }
}

impl ReferenceTarget {
    /// The places of targets are counted from zero and stay below the stride.
    proof fn lemma_rank_bounds(target: ReferenceTarget)
        ensures
            0 <= target.rank() < addresses() <= target_stride(),
    {
        match target {
            ReferenceTarget::Address(address) => {},
        }
    }
}

impl ReferenceKey {
    /// The same two ends as the target sees them.
    pub open spec fn inverted(self) -> InverseReferenceKey {
        InverseReferenceKey { target: self.target, from: self.from }
    }
}

impl InverseReferenceKey {
    /// The same two ends as the referring address sees them.
    pub open spec fn reverted(self) -> ReferenceKey {
        ReferenceKey { from: self.from, target: self.target }
    }
}

/// What references are filed under as their targets see them.
pub open spec fn inverse_keys(references: Seq<Reference>) -> Seq<InverseReferenceKey> {
    references.map_values(|r: Reference| r.filed().inverted())
}

/// The same keys as the targets see them.
pub open spec fn inverted_keys(keys: Set<ReferenceKey>) -> Set<InverseReferenceKey> {
    Set::new(|key: InverseReferenceKey| keys.contains(key.reverted()))
}

/// Whether references are those of an index.
pub open spec fn read_from(
    references: Seq<Reference>,
    index: Map<ReferenceKey, Reference>,
) -> bool {
    forall|i: int|
        0 <= i < references.len() ==> index.contains_key((#[trigger] references[i]).filed())
            && index[references[i].filed()] == references[i]
}

/// What a reference is filed under, where there is one.
pub open spec fn option_filed(reference: Option<Reference>) -> Option<ReferenceKey> {
    match reference {
        Some(reference) => Some(reference.filed()),
        None => None,
    }
}

/// The same as the target sees it.
pub open spec fn option_inverted(reference: Option<Reference>) -> Option<InverseReferenceKey> {
    match reference {
        Some(reference) => Some(reference.filed().inverted()),
        None => None,
    }
}

/// A change of a reference: what is filed under a key from now on.
#[derive(Debug, Clone, Copy)]
pub struct PreparedReferenceIndexRecord {
    pub key: ReferenceKey,
    pub reference: Option<Reference>,
}

impl PreparedReferenceIndexRecord {
    pub fn new(key: ReferenceKey, reference: Option<Reference>) -> (record: Self)
        ensures
            record == (PreparedReferenceIndexRecord { key, reference }),
    {
        PreparedReferenceIndexRecord { key, reference }
    }

    pub fn key(&self) -> (key: ReferenceKey)
        ensures
            key == self.key,
    {
        self.key
    }

    pub fn reference(&self) -> (reference: Option<Reference>)
        ensures
            reference == self.reference,
    {
        self.reference
    }
}

/// What is written of a change where references are stored: an entry for each end, or that
/// there is none any more.
#[derive(Debug, Clone, Copy)]
pub enum ReferenceWrite {
    Forward { key: ReferenceKey, record: Option<ReferenceRecord> },
    Inverse { key: InverseReferenceKey, record: Option<ReferenceRecord> },
}

/// What is stored of a reference.
pub open spec fn stored(reference: Reference) -> ReferenceRecord {
    ReferenceRecord {
        kind: reference.kind,
        properties: reference.properties,
        origin: reference.origin,
    }
}

/// The references after changes, one after another.
pub open spec fn references_changed(
    index: Map<ReferenceKey, Reference>,
    records: Seq<PreparedReferenceIndexRecord>,
) -> Map<ReferenceKey, Reference>
    decreases records.len(),
{
    if records.len() == 0 {
        index
    } else {
        let before = references_changed(index, records.drop_last());
        match records.last().reference {
            Some(reference) => before.insert(reference.filed(), reference),
            None => before.remove(records.last().key),
        }
    }
}

/// What references say of each two ends; of references with the same ends the last.
pub open spec fn said(
    references: Seq<Reference>,
    chosen: spec_fn(Reference) -> bool,
) -> Map<ReferenceKey, ReferenceProperties>
    decreases references.len(),
{
    if references.len() == 0 {
        Map::empty()
    } else {
        let before = said(references.drop_last(), chosen);
        let last = references.last();
        if chosen(last) {
            before.insert(last.filed(), last.properties)
        } else {
            before
        }
    }
}

/// References that an analysis found of a kind.
pub open spec fn found_of(kind: ReferenceKind) -> spec_fn(Reference) -> bool {
    |reference: Reference| reference.origin is Derived && reference.kind == kind
}

/// Whether two ends are taken by a reference of another kind or one that someone stated.
pub open spec fn is_taken(current: Seq<Reference>, kind: ReferenceKind, key: ReferenceKey) -> bool {
    exists|i: int|
        0 <= i < current.len() && (#[trigger] current[i]).filed() == key && !found_of(kind)(
            current[i],
        )
}

/// References whose two ends are free.
pub open spec fn free_of(current: Seq<Reference>, kind: ReferenceKind) -> spec_fn(
    Reference,
) -> bool {
    |reference: Reference| !is_taken(current, kind, reference.filed())
}

/// Whether a sequence gives all functions in the order of their places in the table.
pub open spec fn lists_functions(
    listed: Seq<FunctionView>,
    functions: Map<FunctionId, FunctionView>,
) -> bool {
    &&& forall|i: int|
        0 <= i < listed.len() ==> functions.contains_key((#[trigger] listed[i]).id)
            && functions[listed[i].id] == listed[i]
    &&& forall|i: int, j: int|
        0 <= i < j < listed.len() ==> (#[trigger] listed[i]).id.id < (#[trigger] listed[j]).id.id
    &&& forall|id: FunctionId| #[trigger]
        functions.contains_key(id) ==> exists|i: int|
            0 <= i < listed.len() && (#[trigger] listed[i]).id == id
}

/// All flows of a function.
pub open spec fn flows_of(function: FunctionView, blocks: Blocks) -> Seq<crate::flow::FlowTarget> {
    body_flows(function, blocks, function.blocks.len() as int)
}

/// The reference that functions make with given two ends: that of the last one that makes any.
pub open spec fn made_by(
    listed: Seq<FunctionView>,
    blocks: Blocks,
    key: ReferenceKey,
) -> Option<Reference>
    decreases listed.len(),
{
    if listed.len() == 0 {
        None
    } else if leaves_by(flows_of(listed.last(), blocks), key) {
        Some(merged_reference(flows_of(listed.last(), blocks), key))
    } else {
        made_by(listed.drop_last(), blocks, key)
    }
}

/// Whether an index holds a reference that someone stated.
pub open spec fn is_stated(index: Map<ReferenceKey, Reference>, key: ReferenceKey) -> bool {
    index.contains_key(key) && index[key].origin is Asserted
}

/// The references that someone stated, and for all other ends those that functions make.
pub open spec fn rederived(
    index: Map<ReferenceKey, Reference>,
    listed: Seq<FunctionView>,
    blocks: Blocks,
) -> Map<ReferenceKey, Reference> {
    Map::new(
        |key: ReferenceKey| is_stated(index, key) || made_by(listed, blocks, key) is Some,
        |key: ReferenceKey|
            if is_stated(index, key) {
                index[key]
            } else {
                made_by(listed, blocks, key)->0
            },
    )
}

/// Whether an index was derived anew from functions.
pub open spec fn is_rederived(
    after: Map<ReferenceKey, Reference>,
    before: Map<ReferenceKey, Reference>,
    functions: Map<FunctionId, FunctionView>,
    blocks: Blocks,
) -> bool {
    exists|listed: Seq<FunctionView>| #[trigger]
        lists_functions(listed, functions) && after == rederived(before, listed, blocks)
}

/// References by their two ends, listed from both.
pub struct ReferenceIndex {
    pub forward: SortedMap<ReferenceKey, Reference>,
    pub inverse: SortedMap<InverseReferenceKey, Reference>,
}

impl View for ReferenceIndex {
    type V = Map<ReferenceKey, Reference>;

    open spec fn view(&self) -> Map<ReferenceKey, Reference> {
        self.forward@
    }
}

impl ReferenceIndex {
    /// Both listings are in order, hold the same references, and hold each under its own ends.
    pub open spec fn wf(&self) -> bool {
        &&& self.forward.wf()
        &&& self.inverse.wf()
        &&& forall|key: ReferenceKey| #[trigger]
            self.forward@.contains_key(key) ==> self.forward@[key].filed() == key
        &&& forall|key: InverseReferenceKey| #[trigger]
            self.inverse@.contains_key(key) <==> self.forward@.contains_key(key.reverted())
        &&& forall|key: InverseReferenceKey| #[trigger]
            self.inverse@.contains_key(key) ==> self.inverse@[key] == self.forward@[key.reverted()]
    }

    pub fn new_transient() -> (index: Self)
        ensures
            index.wf(),
            index@ == Map::<ReferenceKey, Reference>::empty(),
    {
        ReferenceIndex { forward: SortedMap::new(), inverse: SortedMap::new() }
    }

    /// Files a reference in place of what had its two ends.
    pub fn insert(&mut self, reference: &Reference)
        requires
            old(self).wf(),
        ensures
            final(self).wf(),
            final(self)@ == old(self)@.insert(reference.filed(), *reference),
    {
        let forward_key = ReferenceKey::new(reference.from(), reference.target());
        let inverse_key = InverseReferenceKey::new(reference.target(), reference.from());
        self.forward.insert(forward_key, *reference);
        self.inverse.insert(inverse_key, *reference);
    }

    /// Takes out what has the two ends.
    pub fn remove(&mut self, from: Address, target: ReferenceTarget)
        requires
            old(self).wf(),
        ensures
            final(self).wf(),
            final(self)@ == old(self)@.remove(ReferenceKey { from, target }),
    {
        self.forward.remove(&ReferenceKey::new(from, target));
        self.inverse.remove(&InverseReferenceKey::new(target, from));
    }

    pub fn get(&self, from: Address, target: ReferenceTarget) -> (reference: Option<Reference>)
        requires
            self.wf(),
        ensures
            reference == self@.get(ReferenceKey { from, target }),
    {
        match self.forward.get(&ReferenceKey::new(from, target)) {
            Some(reference) => Some(*reference),
            None => None,
        }
    }

    /// A change of what is filed under a key, and what is to be written for it where
    /// references are stored.
    pub fn prepare_record(key: ReferenceKey, reference: Option<Reference>) -> (prepared: (
        PreparedReferenceIndexRecord,
        Vec<ReferenceWrite>,
    ))
        ensures
            prepared.0 == (PreparedReferenceIndexRecord { key, reference }),
            ({
                let record = match reference {
                    Some(reference) => Some(stored(reference)),
                    None => None,
                };
                prepared.1@ == seq![
                    ReferenceWrite::Forward { key, record },
                    ReferenceWrite::Inverse { key: key.inverted(), record },
                ]
            }),
    {
        let record: Option<ReferenceRecord> = match reference {
            Some(reference) => Some(ReferenceRecord::of(&reference)),
            None => None,
        };
        let inverse_key = InverseReferenceKey::new(key.target(), key.from());
        let mut writes: Vec<ReferenceWrite> = Vec::new();
        writes.push(ReferenceWrite::Forward { key, record });
        writes.push(ReferenceWrite::Inverse { key: inverse_key, record });
        assert(writes@ =~= seq![
            ReferenceWrite::Forward { key, record },
            ReferenceWrite::Inverse { key: key.inverted(), record },
        ]);
        (PreparedReferenceIndexRecord::new(key, reference), writes)
    }

    /// Makes changes.
    pub fn publish_records(&mut self, records: &Vec<PreparedReferenceIndexRecord>)
        requires
            old(self).wf(),
        ensures
            final(self).wf(),
            final(self)@ == references_changed(old(self)@, records@),
    {
        let ghost before = self@;
        let mut i: usize = 0;
        assert(records@.take(0) =~= Seq::empty());
        while i < records.len()
            invariant
                i <= records@.len(),
                self.wf(),
                self@ == references_changed(before, records@.take(i as int)),
            decreases records@.len() - i,
        {
            let record: PreparedReferenceIndexRecord = records[i];
            match record.reference {
                Some(reference) => self.insert(&reference),
                None => self.remove(record.key.from, record.key.target),
            }
            assert(records@.take(i + 1).drop_last() =~= records@.take(i as int));
            i = i + 1;
        }
        assert(records@.take(i as int) =~= records@);
    }

    /// The references from an address in the order of their targets, behind `after`.
    pub fn references_from(&self, from: Address, after: Option<Reference>) -> (references: Vec<
        Reference,
    >)
        requires
            self.wf(),
        ensures
            read_from(references@, self@),
            pages(reference_keys(references@), self@.dom(), from, option_filed(after)),
    {
        let after_key: Option<ReferenceKey> = match after {
            Some(after) => Some(ReferenceKey::new(after.from(), after.target())),
            None => None,
        };
        let keys: Vec<ReferenceKey> = anchored_keys(&self.forward.keys, from, after_key);
        proof {
            assert(self.forward.keys@.to_set() =~= self@.dom());
            assert forall|i: int| 0 <= i < keys@.len() implies self@.contains_key(
                #[trigger] keys@[i],
            ) by {
                assert(keys@.contains(keys@[i]));
            }
        }
        self.look_up(&keys)
    }

    /// The references under keys.
    fn look_up(&self, keys: &Vec<ReferenceKey>) -> (references: Vec<Reference>)
        requires
            self.wf(),
            forall|i: int| 0 <= i < keys@.len() ==> self@.contains_key(#[trigger] keys@[i]),
        ensures
            read_from(references@, self@),
            reference_keys(references@) == keys@,
    {
        let mut references: Vec<Reference> = Vec::new();
        let mut i: usize = 0;
        while i < keys.len()
            invariant
                i <= keys@.len(),
                self.wf(),
                forall|k: int| 0 <= k < keys@.len() ==> self@.contains_key(#[trigger] keys@[k]),
                references@.len() == i,
                forall|k: int| 0 <= k < i ==> #[trigger] references@[k] == self@[keys@[k]],
            decreases keys@.len() - i,
        {
            if let Some(reference) = self.forward.get(&keys[i]) {
                references.push(*reference);
            }
            i = i + 1;
        }
        proof {
            assert forall|k: int| 0 <= k < keys@.len() implies (
            #[trigger] references@[k]).filed() == keys@[k] by {
                assert(self@.contains_key(keys@[k]));
            }
            assert(reference_keys(references@) =~= keys@);
        }
        references
    }

    /// The references to a target in the order of where they come from, behind `after`.
    pub fn references_to(&self, target: ReferenceTarget, after: Option<Reference>) -> (references:
        Vec<Reference>)
        requires
            self.wf(),
        ensures
            read_from(references@, self@),
            pages(
                inverse_keys(references@),
                inverted_keys(self@.dom()),
                target,
                option_inverted(after),
            ),
    {
        let after_key: Option<InverseReferenceKey> = match after {
            Some(after) => Some(InverseReferenceKey::new(after.target(), after.from())),
            None => None,
        };
        let keys: Vec<InverseReferenceKey> = anchored_keys(&self.inverse.keys, target, after_key);
        proof {
            assert forall|key: InverseReferenceKey| #[trigger]
                self.inverse.keys@.to_set().contains(key) <==> inverted_keys(self@.dom()).contains(
                    key,
                ) by {
                assert(self.inverse@.contains_key(key) <==> self.forward@.contains_key(
                    key.reverted(),
                ));
            }
            assert(self.inverse.keys@.to_set() =~= inverted_keys(self@.dom()));
            assert forall|i: int| 0 <= i < keys@.len() implies self.inverse@.contains_key(
                #[trigger] keys@[i],
            ) by {
                assert(keys@.contains(keys@[i]));
            }
        }
        let mut references: Vec<Reference> = Vec::new();
        let mut i: usize = 0;
        while i < keys.len()
            invariant
                i <= keys@.len(),
                self.wf(),
                forall|k: int|
                    0 <= k < keys@.len() ==> self.inverse@.contains_key(#[trigger] keys@[k]),
                references@.len() == i,
                forall|k: int| 0 <= k < i ==> #[trigger] references@[k] == self.inverse@[keys@[k]],
            decreases keys@.len() - i,
        {
            if let Some(reference) = self.inverse.get(&keys[i]) {
                references.push(*reference);
            }
            i = i + 1;
        }
        proof {
            assert forall|k: int| 0 <= k < keys@.len() implies (
            #[trigger] references@[k]).filed().inverted() == keys@[k] && self@.contains_key(
                references@[k].filed(),
            ) && self@[references@[k].filed()] == references@[k] by {
                assert(self.inverse@.contains_key(keys@[k]));
                assert(self.forward@.contains_key(keys@[k].reverted()));
            }
            assert(inverse_keys(references@) =~= keys@);
        }
        references
    }

    /// The references from covered addresses, in order.
    pub fn references_in(&self, coverage: &AddressRangeSet) -> (references: Vec<Reference>)
        requires
            self.wf(),
            coverage.wf(),
        ensures
            read_from(references@, self@),
            lists_covered(reference_keys(references@), self@.dom(), coverage@),
    {
        let keys: Vec<ReferenceKey> = covered_keys(&self.forward.keys, coverage);
        proof {
            assert(self.forward.keys@.to_set() =~= self@.dom());
            assert forall|i: int| 0 <= i < keys@.len() implies self@.contains_key(
                #[trigger] keys@[i],
            ) by {
                assert(keys@.contains(keys@[i]));
            }
        }
        self.look_up(&keys)
    }

    /// Takes out all references that an analysis found and gives the ends of the others.
    pub fn clear_derived(&mut self) -> (stated: SortedSet<ReferenceKey>)
        requires
            old(self).wf(),
        ensures
            final(self).wf(),
            final(self)@ == old(self)@.restrict(
                Set::new(|key: ReferenceKey| is_stated(old(self)@, key)),
            ),
            stated.wf(),
            stated@ == final(self)@.dom(),
    {
        let ghost before = self@;
        let mut kept: ReferenceIndex = ReferenceIndex::new_transient();
        let mut stated: SortedSet<ReferenceKey> = SortedSet::new();
        let mut i: usize = 0;
        while i < self.forward.keys.len()
            invariant
                i <= self.forward.keys@.len(),
                self.wf(),
                self@ == before,
                kept.wf(),
                stated.wf(),
                stated@ == kept@.dom(),
                forall|key: ReferenceKey| #[trigger]
                    kept@.contains_key(key) <==> is_stated(before, key)
                        && self.forward.keys@.take(i as int).contains(key),
                forall|key: ReferenceKey| #[trigger]
                    kept@.contains_key(key) ==> kept@[key] == before[key],
            decreases self.forward.keys@.len() - i,
        {
            let ghost seen = self.forward.keys@.take(i as int);
            let ghost kept_before = kept@;
            let key: ReferenceKey = self.forward.keys[i];
            let reference: Reference = self.forward.values[i];
            proof {
                self.forward.lemma_entry(i as int);
                assert(before.contains_key(key) && before[key] == reference);
            }
            if !reference.origin().is_derived() {
                kept.insert(&reference);
                stated.insert(key);
                assert(stated@ =~= kept@.dom());
            }
            proof {
                assert(self.forward.keys@.take(i + 1) =~= seen.push(key));
                assert forall|k: ReferenceKey| #[trigger]
                    kept@.contains_key(k) <==> is_stated(before, k) && self.forward.keys@.take(
                        i + 1,
                    ).contains(k) by {
                    lemma_push_holds(seen, key, k);
                    assert(kept@.contains_key(k) <==> kept_before.contains_key(k) || (k == key
                        && reference.origin is Asserted));
                }
            }
            i = i + 1;
        }
        proof {
            assert(self.forward.keys@.take(i as int) =~= self.forward.keys@);
            assert forall|key: ReferenceKey| #[trigger]
                kept@.contains_key(key) <==> is_stated(before, key) by {
                if is_stated(before, key) {
                    let k = self.forward.lemma_place(key);
                    assert(self.forward.keys@.contains(key));
                }
            }
            assert(kept@ =~= before.restrict(
                Set::new(|key: ReferenceKey| is_stated(before, key)),
            ));
        }
        *self = kept;
        stated
    }

    /// Derives the references of functions anew. What someone stated stays and is not
    /// overwritten.
    pub fn rebuild(&mut self, functions: &FunctionTable, blocks: &CodeBlockTable)
        requires
            old(self).wf(),
            functions.wf(),
            blocks.wf(),
        ensures
            final(self).wf(),
            is_rederived(final(self)@, old(self)@, functions@, blocks@),
    {
        let ghost before = self@;
        let stated: SortedSet<ReferenceKey> = self.clear_derived();
        let listed: Vec<&Function> = functions.iter();
        let ghost views = Seq::new(listed@.len(), |k: int| listed@[k]@);
        proof {
            functions.lemma_sound();
            assert forall|k: int| 0 <= k < views.len() implies functions@.contains_key(
                (#[trigger] views[k]).id,
            ) && functions@[views[k].id] == views[k] by {
                assert(functions@.contains_key(listed@[k].id));
            }
            assert forall|id: FunctionId| #[trigger]
                functions@.contains_key(id) implies exists|k: int|
                0 <= k < views.len() && (#[trigger] views[k]).id == id by {
                let k = choose|k: int| 0 <= k < listed@.len() && (#[trigger] listed@[k]).id == id;
                assert(views[k].id == id);
            }
            assert(lists_functions(views, functions@));
            assert(views.take(0) =~= Seq::empty());
            assert(self@ =~= rederived(before, views.take(0), blocks@));
        }
        let mut i: usize = 0;
        while i < listed.len()
            invariant
                i <= listed@.len(),
                self.wf(),
                blocks.wf(),
                stated.wf(),
                forall|key: ReferenceKey| #[trigger] stated@.contains(key) <==> is_stated(before, key),
                views == Seq::new(listed@.len(), |k: int| listed@[k]@),
                forall|k: int| 0 <= k < views.len() ==> (#[trigger] views[k]).wf(),
                self@ == rederived(before, views.take(i as int), blocks@),
            decreases listed@.len() - i,
        {
            let function: &Function = listed[i];
            let ghost view = views[i as int];
            assert(view == function@);
            let ghost flows = flows_of(view, blocks@);
            let ghost seen = views.take(i as int);
            let ghost more = views.take(i + 1);
            let ghost start = self@;
            let references: Vec<Reference> = function.flow_references(blocks);
            let mut k: usize = 0;
            while k < references.len()
                invariant
                    k <= references@.len(),
                    self.wf(),
                    stated.wf(),
                    forall|key: ReferenceKey| #[trigger]
                        stated@.contains(key) <==> is_stated(before, key),
                    coalesces(references@, flows),
                    forall|key: ReferenceKey| #[trigger]
                        self@.contains_key(key) <==> start.contains_key(key) || (!is_stated(
                            before,
                            key,
                        ) && reference_keys(references@).take(k as int).contains(key)),
                    forall|key: ReferenceKey| #[trigger]
                        self@.contains_key(key) ==> self@[key] == if !is_stated(before, key)
                            && reference_keys(references@).take(k as int).contains(key) {
                            merged_reference(flows, key)
                        } else {
                            start[key]
                        },
                decreases references@.len() - k,
            {
                let reference: Reference = references[k];
                let key = ReferenceKey::new(reference.from(), reference.target());
                let ghost keys = reference_keys(references@);
                let ghost now = self@;
                if !stated.contains(&key) {
                    self.insert(&reference);
                }
                proof {
                    assert(keys[k as int] == key);
                    assert(references@[k as int] == merged_reference(flows, key));
                    assert(keys.take(k + 1) =~= keys.take(k as int).push(key));
                    assert forall|other: ReferenceKey| #[trigger]
                        keys.take(k + 1).contains(other) <==> keys.take(k as int).contains(other)
                            || other == key by {
                        lemma_push_holds(keys.take(k as int), key, other);
                    }
                    assert forall|other: ReferenceKey| #[trigger]
                        self@.contains_key(other) <==> start.contains_key(other) || (!is_stated(
                            before,
                            other,
                        ) && keys.take(k + 1).contains(other)) by {
                        assert(now.contains_key(other) <==> start.contains_key(other)
                            || (!is_stated(before, other) && keys.take(k as int).contains(other)));
                        assert(keys.take(k + 1).contains(other) <==> keys.take(k as int).contains(
                            other,
                        ) || other == key);
                    }
                    assert forall|other: ReferenceKey| #[trigger]
                        self@.contains_key(other) implies self@[other] == if !is_stated(
                        before,
                        other,
                    ) && keys.take(k + 1).contains(other) {
                        merged_reference(flows, other)
                    } else {
                        start[other]
                    } by {
                        assert(keys.take(k + 1).contains(other) <==> keys.take(k as int).contains(
                            other,
                        ) || other == key);
                        if self@[other] != now[other] || !now.contains_key(other) {
                            assert(other == key);
                        }
                    }
                }
                k = k + 1;
            }
            proof {
                let keys = reference_keys(references@);
                assert(keys.take(k as int) =~= keys);
                assert(more.drop_last() =~= seen);
                assert(more.last() == view);
                let wanted = rederived(before, more, blocks@);
                assert forall|key: ReferenceKey| #[trigger]
                    self@.contains_key(key) <==> wanted.contains_key(key) by {
                    assert(keys.contains(key) <==> leaves_by(flows, key));
                    assert(start.contains_key(key) <==> is_stated(before, key) || made_by(
                        seen,
                        blocks@,
                        key,
                    ) is Some);
                }
                assert forall|key: ReferenceKey| #[trigger]
                    self@.contains_key(key) implies self@[key] == wanted[key] by {
                    assert(keys.contains(key) <==> leaves_by(flows, key));
                    assert(wanted.contains_key(key));
                }
                assert(self@ =~= wanted);
            }
            i = i + 1;
        }
        assert(views.take(i as int) =~= views);
    }

    /// Brings the references up to date unless `marker`, the revision that they were derived
    /// at, is the current one, and says whether they were derived anew.
    pub fn ensure_current(
        &mut self,
        marker: Option<Revision>,
        functions: &FunctionTable,
        blocks: &CodeBlockTable,
        revision: Revision,
    ) -> (rebuilt: bool)
        requires
            old(self).wf(),
            functions.wf(),
            blocks.wf(),
        ensures
            final(self).wf(),
            rebuilt == (marker != Some(revision)),
            rebuilt ==> is_rederived(final(self)@, old(self)@, functions@, blocks@),
            !rebuilt ==> final(self)@ == old(self)@,
    {
        let current: bool = match marker {
            Some(marker) => marker.0 == revision.0,
            None => false,
        };
        if current {
            return false;
        }
        self.rebuild(functions, blocks);
        true
    }

    /// Whether the references of a kind that an analysis found before are those that it finds
    /// now, but for those whose ends are taken.
    pub fn derived_kind_matches(
        current: &Vec<Reference>,
        derived: &Vec<Reference>,
        kind: ReferenceKind,
    ) -> (same: bool)
        ensures
            same == (said(current@, found_of(kind)) == said(derived@, free_of(current@, kind))),
    {
        let mut occupied: SortedSet<ReferenceKey> = SortedSet::new();
        let mut existing: SortedMap<ReferenceKey, ReferenceProperties> = SortedMap::new();
        let mut i: usize = 0;
        assert(current@.take(0) =~= Seq::empty());
        while i < current.len()
            invariant
                i <= current@.len(),
                occupied.wf(),
                existing.wf(),
                existing@ == said(current@.take(i as int), found_of(kind)),
                forall|key: ReferenceKey| #[trigger]
                    occupied@.contains(key) <==> is_taken(current@.take(i as int), kind, key),
            decreases current@.len() - i,
        {
            let ghost seen = current@.take(i as int);
            let ghost more = current@.take(i + 1);
            let ghost before = occupied@;
            let reference: Reference = current[i];
            let key = ReferenceKey::new(reference.from(), reference.target());
            if reference.origin().is_derived() && reference.kind() == kind {
                existing.insert(key, reference.properties());
            } else {
                occupied.insert(key);
            }
            proof {
                assert(more.drop_last() =~= seen);
                assert forall|k: ReferenceKey| #[trigger]
                    occupied@.contains(k) <==> is_taken(more, kind, k) by {
                    if before.contains(k) {
                        let j = choose|j: int|
                            0 <= j < seen.len() && (#[trigger] seen[j]).filed() == k && !found_of(
                                kind,
                            )(seen[j]);
                        assert(more[j] == seen[j]);
                    }
                    assert(more[i as int] == reference);
                    if is_taken(more, kind, k) {
                        let j = choose|j: int|
                            0 <= j < more.len() && (#[trigger] more[j]).filed() == k && !found_of(
                                kind,
                            )(more[j]);
                        if j < i {
                            assert(seen[j] == more[j]);
                        }
                    }
                }
            }
            i = i + 1;
        }
        assert(current@.take(i as int) =~= current@);
        let mut desired: SortedMap<ReferenceKey, ReferenceProperties> = SortedMap::new();
        let mut k: usize = 0;
        assert(derived@.take(0) =~= Seq::empty());
        while k < derived.len()
            invariant
                k <= derived@.len(),
                occupied.wf(),
                desired.wf(),
                forall|key: ReferenceKey| #[trigger]
                    occupied@.contains(key) <==> is_taken(current@, kind, key),
                desired@ == said(derived@.take(k as int), free_of(current@, kind)),
            decreases derived@.len() - k,
        {
            let reference: Reference = derived[k];
            let key = ReferenceKey::new(reference.from(), reference.target());
            if !occupied.contains(&key) {
                desired.insert(key, reference.properties());
            }
            assert(derived@.take(k + 1).drop_last() =~= derived@.take(k as int));
            k = k + 1;
        }
        assert(derived@.take(k as int) =~= derived@);
        same_properties(&existing, &desired)
    }
}

/// Whether two maps say the same.
fn same_properties(
    a: &SortedMap<ReferenceKey, ReferenceProperties>,
    b: &SortedMap<ReferenceKey, ReferenceProperties>,
) -> (same: bool)
    requires
        a.wf(),
        b.wf(),
    ensures
        same == (a@ == b@),
{
    if !same_keys(&a.keys, &b.keys) {
        proof {
            if a@ == b@ {
                assert forall|key: ReferenceKey| a.keys@.contains(key) <==> b.keys@.contains(
                    key,
                ) by {
                    assert(a@.contains_key(key) <==> b@.contains_key(key));
                }
                lemma_ascending_determined(a.keys@, b.keys@);
            }
        }
        return false;
    }
    let mut i: usize = 0;
    while i < a.values.len()
        invariant
            i <= a.values@.len(),
            a.wf(),
            b.wf(),
            a.keys@ == b.keys@,
            forall|k: int| 0 <= k < i ==> a.values@[k] == b.values@[k],
        decreases a.values@.len() - i,
    {
        if a.values[i].bits != b.values[i].bits {
            proof {
                a.lemma_entry(i as int);
                b.lemma_entry(i as int);
            }
            return false;
        }
        i = i + 1;
    }
    proof {
        assert forall|key: ReferenceKey| #[trigger] a@.contains_key(key) implies a@[key]
            == b@[key] by {
            let k = a.lemma_place(key);
            b.lemma_entry(k);
        }
        assert(a@ =~= b@);
    }
    true
}

proof fn lemma_push_holds<A>(seen: Seq<A>, last: A, a: A)
    ensures
        seen.push(last).contains(a) <==> seen.contains(a) || a == last,
{
    if seen.contains(a) {
        assert(seen.push(last)[seen.index_of(a)] == a);
    }
    assert(seen.push(last)[seen.len() as int] == last);
    if seen.push(last).contains(a) && a != last {
        let i = seen.push(last).index_of(a);
        assert(seen[i] == a);
    }
}

/// What someone stated is kept as it is when references are derived anew.
pub proof fn law_stated_references_survive(
    before: Map<ReferenceKey, Reference>,
    after: Map<ReferenceKey, Reference>,
    functions: Map<FunctionId, FunctionView>,
    blocks: Blocks,
    key: ReferenceKey,
)
    requires
        is_rederived(after, before, functions, blocks),
        is_stated(before, key),
    ensures
        after.contains_key(key),
        after[key] == before[key],
{
    let listed = choose|listed: Seq<FunctionView>| #[trigger]
        lists_functions(listed, functions) && after == rederived(before, listed, blocks);
    assert(after == rederived(before, listed, blocks));
}

/// A reference that is filed can be read back, and no other is disturbed.
pub proof fn law_filed_reference_reads_back(
    index: Map<ReferenceKey, Reference>,
    reference: Reference,
    other: ReferenceKey,
)
    ensures
        index.insert(reference.filed(), reference).get(other) == if other == reference.filed() {
            Some(reference)
        } else {
            index.get(other)
        },
{
}

/// What is stored of a reference under its ends brings the reference back.
pub proof fn law_stored_reference_comes_back(reference: Reference)
    ensures
        (Reference {
            from: reference.filed().from,
            target: reference.filed().target,
            kind: stored(reference).kind,
            properties: stored(reference).properties,
            origin: stored(reference).origin,
        }) == reference,
{
}

/// Changes of references are made one after another: with two ends stands what the last change
/// says, and where none says anything, what stood there before.
pub proof fn law_last_change_of_reference_stands(
    index: Map<ReferenceKey, Reference>,
    records: Seq<PreparedReferenceIndexRecord>,
    key: ReferenceKey,
    last: int,
)
    requires
        -1 <= last < records.len(),
        forall|i: int|
            0 <= i < records.len() && (#[trigger] records[i]).reference is Some
                ==> records[i].reference->0.filed() == records[i].key,
        last >= 0 ==> records[last].key == key,
        forall|i: int| last < i < records.len() ==> (#[trigger] records[i]).key != key,
    ensures
        references_changed(index, records).get(key) == if last < 0 {
            index.get(key)
        } else {
            records[last].reference
        },
    decreases records.len(),
{
    if records.len() > 0 {
        let rest = records.drop_last();
        assert(records[records.len() - 1] == records.last());
        if last < records.len() - 1 {
            assert(records.last().key != key);
            assert forall|i: int| last < i < rest.len() implies (#[trigger] rest[i]).key != key by {
                assert(records[i].key != key);
            }
            assert forall|i: int|
                0 <= i < rest.len() && (#[trigger] rest[i]).reference
                    is Some implies rest[i].reference->0.filed() == rest[i].key by {
                assert(rest[i] == records[i]);
            }
            law_last_change_of_reference_stands(index, rest, key, last);
        }
    }
}

/// Of chosen references with the same ends, the last counts.
proof fn lemma_said(
    references: Seq<Reference>,
    chosen: spec_fn(Reference) -> bool,
    key: ReferenceKey,
    last: int,
)
    requires
        -1 <= last < references.len(),
        last >= 0 ==> references[last].filed() == key && chosen(references[last]),
        forall|i: int|
            last < i < references.len() ==> !((#[trigger] references[i]).filed() == key && chosen(
                references[i],
            )),
    ensures
        said(references, chosen).get(key) == if last < 0 {
            None
        } else {
            Some(references[last].properties)
        },
    decreases references.len(),
{
    if references.len() > 0 {
        let rest = references.drop_last();
        assert(references[references.len() - 1] == references.last());
        if last < references.len() - 1 {
            assert forall|i: int| last < i < rest.len() implies !((#[trigger] rest[i]).filed()
                == key && chosen(rest[i])) by {
                assert(references[i] == rest[i]);
            }
            lemma_said(rest, chosen, key, last);
        }
    }
}

/// Whether a place holds the last derived reference of a kind with given two ends, or is -1
/// where there is none.
pub open spec fn last_derived(
    references: Seq<Reference>,
    kind: ReferenceKind,
    key: ReferenceKey,
    last: int,
) -> bool {
    &&& -1 <= last < references.len()
    &&& last >= 0 ==> references[last].filed() == key && references[last].origin is Derived
        && references[last].kind == kind
    &&& forall|i: int|
        last < i < references.len() ==> !((#[trigger] references[i]).filed() == key
            && references[i].origin is Derived && references[i].kind == kind)
}

/// Whether a place holds the last reference with given two ends, or is -1 where there is none.
pub open spec fn last_with_ends(references: Seq<Reference>, key: ReferenceKey, last: int) -> bool {
    &&& -1 <= last < references.len()
    &&& last >= 0 ==> references[last].filed() == key
    &&& forall|i: int| last < i < references.len() ==> (#[trigger] references[i]).filed() != key
}

/// The derived references of a kind match those that are derived now only if, with any two
/// ends that no other reference takes, both have one with the same flags or neither has one;
/// and with two ends that another reference takes, nothing of the kind was derived before.
pub proof fn law_matching_references_agree(
    current: Vec<Reference>,
    derived: Vec<Reference>,
    kind: ReferenceKind,
    key: ReferenceKey,
    was: int,
    is: int,
    same: bool,
)
    requires
        call_ensures(ReferenceIndex::derived_kind_matches, (&current, &derived, kind), same),
        last_derived(current@, kind, key, was),
        last_with_ends(derived@, key, is),
    ensures
        ({
            let taken = exists|i: int|
                0 <= i < current@.len() && (#[trigger] current@[i]).filed() == key && !(
                current@[i].origin is Derived && current@[i].kind == kind);
            &&& same && !taken ==> (was >= 0 <==> is >= 0) && (was >= 0 && is >= 0
                ==> current@[was].properties == derived@[is].properties)
            &&& same && taken ==> was < 0
        }),
{
    let taken = is_taken(current@, kind, key);
    lemma_said(current@, found_of(kind), key, was);
    if taken {
        lemma_said(derived@, free_of(current@, kind), key, -1);
    } else {
        lemma_said(derived@, free_of(current@, kind), key, is);
    }
}

/// Derived references of a kind match those that are derived now if, with any two ends, both
/// have one with the same flags or neither has one, and no other reference takes any.
pub proof fn law_agreeing_references_match(
    current: Vec<Reference>,
    derived: Vec<Reference>,
    kind: ReferenceKind,
    same: bool,
)
    requires
        call_ensures(ReferenceIndex::derived_kind_matches, (&current, &derived, kind), same),
        forall|i: int|
            0 <= i < current@.len() ==> (#[trigger] current@[i]).origin is Derived
                && current@[i].kind == kind,
        current@.len() == derived@.len(),
        forall|i: int|
            0 <= i < current@.len() ==> (#[trigger] current@[i]).filed() == derived@[i].filed()
                && current@[i].properties == derived@[i].properties,
    ensures
        same,
{
    lemma_said_same(current@, derived@, kind, current@, current@.len() as int);
    assert(current@.take(current@.len() as int) =~= current@);
    assert(derived@.take(current@.len() as int) =~= derived@);
}

/// Lists that agree say the same.
proof fn lemma_said_same(
    current: Seq<Reference>,
    derived: Seq<Reference>,
    kind: ReferenceKind,
    all: Seq<Reference>,
    count: int,
)
    requires
        0 <= count <= current.len() == derived.len(),
        forall|i: int|
            0 <= i < all.len() ==> (#[trigger] all[i]).origin is Derived && all[i].kind == kind,
        forall|i: int|
            0 <= i < current.len() ==> (#[trigger] current[i]).origin is Derived && current[i].kind
                == kind && current[i].filed() == derived[i].filed() && current[i].properties
                == derived[i].properties,
    ensures
        said(current.take(count), found_of(kind)) == said(derived.take(count), free_of(all, kind)),
    decreases count,
{
    if count > 0 {
        lemma_said_same(current, derived, kind, all, count - 1);
        assert(current.take(count).drop_last() =~= current.take(count - 1));
        assert(derived.take(count).drop_last() =~= derived.take(count - 1));
        assert(current.take(count).last() == current[count - 1]);
        assert(derived.take(count).last() == derived[count - 1]);
        assert(!is_taken(all, kind, derived[count - 1].filed()));
    }
}

} // verus!
