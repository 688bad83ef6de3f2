//! References by their ends and kind, each with what it rests on, listed from both ends.
use vstd::prelude::*;

use crate::address::Address;
use crate::address_set::AddressRangeSet;
use crate::anchored::{anchored_keys, covered_keys, lists_covered, pages};
use crate::block_table::CodeBlockTable;
use crate::body::Blocks;
use crate::coalesce::{coalesces, leaves_by, merged_flags, merged_reference, reference_keys};
use crate::flags::ReferenceProperties;
use crate::function::{Function, FunctionId, FunctionView};
use crate::function_table::FunctionTable;
use crate::order::{Ranked, SortedMap, SortedSet};
use crate::provenance::{
    entry_key, law_entry_visible, stated_part, visible, with_merged, EntryView,
    InverseReferenceEntryKey, ReferenceEntry, ReferenceEntryKey, ReferenceProvenance,
};
use crate::reference::{Reference, ReferenceTarget};
use crate::reference_index::flows_of;
use crate::types::Revision;

verus! {

/// What goes wrong when a reference is filed.
#[derive(Debug)]
pub enum ReferenceIndexError {
    /// A derived reference must say what it was derived from.
    MissingProvenance,
    Storage(String),
}

/// What an index holds: entries by their keys.
pub type EntryMap = Map<ReferenceEntryKey, EntryView>;

/// What references are filed under.
pub open spec fn entry_keys(references: Seq<Reference>) -> Seq<ReferenceEntryKey> {
    references.map_values(|r: Reference| entry_key(r))
}

/// What references are filed under as their targets see them.
pub open spec fn inverse_entry_keys(references: Seq<Reference>) -> Seq<InverseReferenceEntryKey> {
    references.map_values(|r: Reference| entry_key(r).inverted())
}

/// The same keys as the targets see them.
pub open spec fn inverted_entry_keys(keys: Set<ReferenceEntryKey>) -> Set<
    InverseReferenceEntryKey,
> {
    Set::new(|key: InverseReferenceEntryKey| keys.contains(key.reverted()))
}

/// Whether references are those that the entries of an index make visible.
pub open spec fn shows(references: Seq<Reference>, index: EntryMap) -> bool {
    forall|i: int|
        0 <= i < references.len() ==> index.contains_key(entry_key(#[trigger] references[i]))
            && visible(entry_key(references[i]), index[entry_key(references[i])]) == Some(
            references[i],
        )
}

/// An index with flags added to an entry from one provenance.
pub open spec fn merged_into(
    index: EntryMap,
    reference: Reference,
    provenance: ReferenceProvenance,
) -> EntryMap {
    let key = entry_key(reference);
    let entry = if index.contains_key(key) {
        index[key]
    } else {
        EntryView::empty()
    };
    index.insert(key, with_merged(entry, provenance, reference.properties))
}

/// Whether someone stated what is filed under a key.
pub open spec fn is_stated_entry(index: EntryMap, key: ReferenceEntryKey) -> bool {
    index.contains_key(key) && index[key].contains_key(ReferenceProvenance::Asserted)
}

/// Whether a function makes a reference.
pub open spec fn makes(function: FunctionView, blocks: Blocks, key: ReferenceEntryKey) -> bool {
    key.kind is Flow && leaves_by(flows_of(function, blocks), key.ends())
}

/// What functions make of a reference.
pub open spec fn made_entry(
    functions: Map<FunctionId, FunctionView>,
    blocks: Blocks,
    ids: Set<FunctionId>,
    key: ReferenceEntryKey,
) -> EntryView {
    Map::new(
        |p: ReferenceProvenance|
            p matches ReferenceProvenance::Function(id) && ids.contains(id)
                && functions.contains_key(id) && makes(functions[id], blocks, key),
        |p: ReferenceProvenance|
            ReferenceProperties {
                bits: merged_flags(flows_of(functions[p->Function_0], blocks), key.ends()),
            },
    )
}

/// What is filed under a key when it is derived anew: what someone stated, or else what
/// functions make.
pub open spec fn rebuilt_entry(
    index: EntryMap,
    functions: Map<FunctionId, FunctionView>,
    blocks: Blocks,
    ids: Set<FunctionId>,
    key: ReferenceEntryKey,
) -> EntryView {
    if is_stated_entry(index, key) {
        stated_part(index[key])
    } else {
        made_entry(functions, blocks, ids, key)
    }
}

/// An index that is derived anew.
pub open spec fn rebuilt_entries(
    index: EntryMap,
    functions: Map<FunctionId, FunctionView>,
    blocks: Blocks,
    ids: Set<FunctionId>,
) -> EntryMap {
    Map::new(
        |key: ReferenceEntryKey|
            rebuilt_entry(index, functions, blocks, ids, key) != EntryView::empty(),
        |key: ReferenceEntryKey| rebuilt_entry(index, functions, blocks, ids, key),
    )
}

/// A change of an entry: what is filed under a key from now on.
pub struct PreparedReferenceRecord {
    pub key: ReferenceEntryKey,
    pub entry: Option<ReferenceEntry>,
}

/// What an optional entry says.
pub open spec fn option_entry(entry: Option<ReferenceEntry>) -> Option<EntryView> {
    match entry {
        Some(entry) => Some(entry@),
        None => None,
    }
}

/// Whether an optional entry is in order and rests on something.
pub open spec fn option_sound(entry: Option<ReferenceEntry>) -> bool {
    entry matches Some(entry) ==> entry.wf() && entry@ != EntryView::empty()
}

/// The entries after changes, one after another.
pub open spec fn entries_changed(index: EntryMap, records: Seq<PreparedReferenceRecord>) -> EntryMap
    decreases records.len(),
{
    if records.len() == 0 {
        index
    } else {
        let before = entries_changed(index, records.drop_last());
        match records.last().entry {
            Some(entry) => before.insert(records.last().key, entry@),
            None => before.remove(records.last().key),
        }
    }
}

/// References by their ends and kind, each with what it rests on.
pub struct ReferenceIndex {
    pub forward: SortedMap<ReferenceEntryKey, ReferenceEntry>,
    pub inverse: SortedMap<InverseReferenceEntryKey, ReferenceEntry>,
}

impl View for ReferenceIndex {
    type V = EntryMap;

    open spec fn view(&self) -> EntryMap {
        Map::new(
            |key: ReferenceEntryKey| self.forward@.contains_key(key),
            |key: ReferenceEntryKey| self.forward@[key]@,
        )
    }
}

impl ReferenceIndex {
    /// Both listings are in order and hold the same entries, and no entry rests on nothing.
    pub open spec fn wf(&self) -> bool {
        &&& self.forward.wf()
        &&& self.inverse.wf()
        &&& forall|key: ReferenceEntryKey| #[trigger]
            self.forward@.contains_key(key) ==> self.forward@[key].wf() && self.forward@[key]@
                != EntryView::empty()
        &&& forall|key: InverseReferenceEntryKey| #[trigger]
            self.inverse@.contains_key(key) <==> self.forward@.contains_key(key.reverted())
        &&& forall|key: InverseReferenceEntryKey| #[trigger]
            self.inverse@.contains_key(key) ==> self.inverse@[key].wf() && self.inverse@[key]@
                == self.forward@[key.reverted()]@
    }

    pub fn new_transient() -> (index: Self)
        ensures
            index.wf(),
            index@ == EntryMap::empty(),
    {
        let index = ReferenceIndex { forward: SortedMap::new(), inverse: SortedMap::new() };
        assert(index@ =~= EntryMap::empty());
        index
    }

    /// What is filed under a key.
    pub fn entry(&self, key: ReferenceEntryKey) -> (entry: Option<ReferenceEntry>)
        requires
            self.wf(),
        ensures
            option_sound(entry),
            option_entry(entry) == self@.get(key),
    {
        match self.forward.get(&key) {
            Some(entry) => Some(entry.clone()),
            None => None,
        }
    }

    /// The reference that is visible under a key.
    pub fn get(&self, key: ReferenceEntryKey) -> (reference: Option<Reference>)
        requires
            self.wf(),
        ensures
            reference == match self@.get(key) {
                Some(entry) => visible(key, entry),
                None => None,
            },
            reference is Some == self@.contains_key(key),
    {
        proof {
            if self@.contains_key(key) {
                law_entry_visible(key, self@[key]);
            }
        }
        match self.forward.get(&key) {
            Some(entry) => entry.materialise(key),
            None => None,
        }
    }

    /// Files an entry in place of what was under the key.
    pub fn insert_entry(&mut self, key: ReferenceEntryKey, entry: ReferenceEntry)
        requires
            old(self).wf(),
            entry.wf(),
            entry@ != EntryView::empty(),
        ensures
            final(self).wf(),
            final(self)@ == old(self)@.insert(key, entry@),
    {
        let ghost before = self@;
        let copy: ReferenceEntry = entry.clone();
        self.forward.insert(key, copy);
        self.inverse.insert(key.inverse(), entry);
        proof {
            assert(self@ =~= before.insert(key, entry@));
            assert forall|k: InverseReferenceEntryKey| #[trigger]
                self.inverse@.contains_key(k) <==> self.forward@.contains_key(k.reverted()) by {
                assert(k == key.inverted() <==> k.reverted() == key);
            }
        }
    }

    /// Takes out what is filed under a key.
    pub fn remove(&mut self, key: ReferenceEntryKey)
        requires
            old(self).wf(),
        ensures
            final(self).wf(),
            final(self)@ == old(self)@.remove(key),
    {
        let ghost before = self@;
        self.forward.remove(&key);
        self.inverse.remove(&key.inverse());
        proof {
            assert(self@ =~= before.remove(key));
            assert forall|k: InverseReferenceEntryKey| #[trigger]
                self.inverse@.contains_key(k) <==> self.forward@.contains_key(k.reverted()) by {
                assert(k == key.inverted() <==> k.reverted() == key);
            }
        }
    }

    /// Adds the flags of a reference to what is filed from one provenance.
    pub fn merge_provenance(&mut self, reference: &Reference, provenance: ReferenceProvenance)
        requires
            old(self).wf(),
        ensures
            final(self).wf(),
            final(self)@ == merged_into(old(self)@, *reference, provenance),
    {
        let key = ReferenceEntryKey::of(reference);
        let entry: ReferenceEntry = match self.entry(key) {
            Some(entry) => {
                let mut entry = entry;
                entry.merge_provenance(provenance, reference.properties());
                entry
            },
            None => ReferenceEntry::new(provenance, reference.properties()),
        };
        proof {
            assert(entry@.contains_key(provenance));
        }
        self.insert_entry(key, entry);
    }

    /// Files a reference that someone states.
    pub fn insert(&mut self, reference: &Reference) -> (filed: Result<(), ReferenceIndexError>)
        requires
            old(self).wf(),
        ensures
            final(self).wf(),
            filed is Ok == reference.origin is Asserted,
            filed is Ok ==> final(self)@ == merged_into(
                old(self)@,
                *reference,
                ReferenceProvenance::Asserted,
            ),
            filed matches Err(error) ==> error is MissingProvenance && *final(self) == *old(self),
    {
        if reference.origin().is_derived() {
            return Err(ReferenceIndexError::MissingProvenance);
        }
        self.merge_provenance(reference, ReferenceProvenance::Asserted);
        Ok(())
    }

    /// The references that are visible under keys.
    fn look_up(&self, keys: &Vec<ReferenceEntryKey>) -> (references: Vec<Reference>)
        requires
            self.wf(),
            forall|i: int| 0 <= i < keys@.len() ==> self@.contains_key(#[trigger] keys@[i]),
        ensures
            shows(references@, self@),
            entry_keys(references@) == keys@,
    {
        let mut references: Vec<Reference> = Vec::new();
        let mut i: usize = 0;
        while i < keys.len()
            invariant
                i <= keys@.len(),
                self.wf(),
                forall|k: int| 0 <= k < keys@.len() ==> self@.contains_key(#[trigger] keys@[k]),
                references@.len() == i,
                forall|k: int|
                    0 <= k < i ==> visible(keys@[k], self@[keys@[k]]) == Some(
                        #[trigger] references@[k],
                    ),
            decreases keys@.len() - i,
        {
            proof {
                assert(self@.contains_key(keys@[i as int]));
            }
            if let Some(reference) = self.get(keys[i]) {
                references.push(reference);
            }
            i = i + 1;
        }
        proof {
            assert forall|k: int| 0 <= k < keys@.len() implies entry_key(#[trigger] references@[k])
                == keys@[k] by {
                law_entry_visible(keys@[k], self@[keys@[k]]);
            }
            assert(entry_keys(references@) =~= keys@);
            assert forall|k: int| 0 <= k < references@.len() implies self@.contains_key(
                entry_key(#[trigger] references@[k]),
            ) && visible(entry_key(references@[k]), self@[entry_key(references@[k])]) == Some(
                references@[k],
            ) by {
                assert(self@.contains_key(keys@[k]));
            }
        }
        references
    }

    /// The references from an address in the order of their targets, behind `after`.
    pub fn references_from(&self, from: Address, after: Option<ReferenceEntryKey>) -> (references:
        Vec<Reference>)
        requires
            self.wf(),
        ensures
            shows(references@, self@),
            pages(entry_keys(references@), self@.dom(), from, after),
    {
        let keys: Vec<ReferenceEntryKey> = anchored_keys(&self.forward.keys, from, after);
        proof {
            assert(self.forward.keys@.to_set() =~= self@.dom());
            assert forall|i: int| 0 <= i < keys@.len() implies self@.contains_key(
                #[trigger] keys@[i],
            ) by {
                assert(keys@.contains(keys@[i]));
            }
        }
        self.look_up(&keys)
    }

    /// The references to a target in the order of where they come from, behind `after`.
    pub fn references_to(&self, target: ReferenceTarget, after: Option<ReferenceEntryKey>) -> (
    references: Vec<Reference>)
        requires
            self.wf(),
        ensures
            shows(references@, self@),
            pages(
                inverse_entry_keys(references@),
                inverted_entry_keys(self@.dom()),
                target,
                match after {
                    Some(key) => Some(key.inverted()),
                    None => None,
                },
            ),
    {
        let after_key: Option<InverseReferenceEntryKey> = match after {
            Some(key) => Some(key.inverse()),
            None => None,
        };
        let inverse: Vec<InverseReferenceEntryKey> = anchored_keys(
            &self.inverse.keys,
            target,
            after_key,
        );
        proof {
            assert forall|key: InverseReferenceEntryKey| #[trigger]
                self.inverse.keys@.to_set().contains(key) <==> inverted_entry_keys(
                    self@.dom(),
                ).contains(key) by {
                assert(self.inverse@.contains_key(key) <==> self.forward@.contains_key(
                    key.reverted(),
                ));
            }
            assert(self.inverse.keys@.to_set() =~= inverted_entry_keys(self@.dom()));
            assert forall|i: int| 0 <= i < inverse@.len() implies self@.contains_key(
                (#[trigger] inverse@[i]).reverted(),
            ) by {
                assert(inverse@.contains(inverse@[i]));
            }
        }
        let mut keys: Vec<ReferenceEntryKey> = Vec::new();
        let mut i: usize = 0;
        while i < inverse.len()
            invariant
                i <= inverse@.len(),
                keys@.len() == i,
                forall|k: int| 0 <= k < i ==> #[trigger] keys@[k] == inverse@[k].reverted(),
            decreases inverse@.len() - i,
        {
            let key: InverseReferenceEntryKey = inverse[i];
            keys.push(ReferenceEntryKey::new(key.from, key.target, key.kind));
            i = i + 1;
        }
        let references: Vec<Reference> = self.look_up(&keys);
        proof {
            assert(references@.len() == entry_keys(references@).len());
            assert forall|k: int| 0 <= k < references@.len() implies entry_key(
                #[trigger] references@[k],
            ).inverted() == inverse@[k] by {
                assert(entry_keys(references@)[k] == keys@[k]);
            }
            assert(inverse_entry_keys(references@) =~= inverse@);
        }
        references
    }

    /// The references from covered addresses, in order.
    pub fn references_in(&self, coverage: &AddressRangeSet) -> (references: Vec<Reference>)
        requires
            self.wf(),
            coverage.wf(),
        ensures
            shows(references@, self@),
            lists_covered(entry_keys(references@), self@.dom(), coverage@),
    {
        let keys: Vec<ReferenceEntryKey> = covered_keys(&self.forward.keys, coverage);
        proof {
            assert(self.forward.keys@.to_set() =~= self@.dom());
            assert forall|i: int| 0 <= i < keys@.len() implies self@.contains_key(
                #[trigger] keys@[i],
            ) by {
                assert(keys@.contains(keys@[i]));
            }
        }
        self.look_up(&keys)
    }

    /// Makes changes.
    pub fn publish_batch(&mut self, records: &Vec<PreparedReferenceRecord>)
        requires
            old(self).wf(),
            forall|i: int| 0 <= i < records@.len() ==> option_sound((#[trigger] records@[i]).entry),
        ensures
            final(self).wf(),
            final(self)@ == entries_changed(old(self)@, records@),
    {
        let ghost before = self@;
        let mut i: usize = 0;
        assert(records@.take(0) =~= Seq::empty());
        while i < records.len()
            invariant
                i <= records@.len(),
                self.wf(),
                forall|k: int|
                    0 <= k < records@.len() ==> option_sound((#[trigger] records@[k]).entry),
                self@ == entries_changed(before, records@.take(i as int)),
            decreases records@.len() - i,
        {
            let record: &PreparedReferenceRecord = &records[i];
            assert(option_sound(records@[i as int].entry));
            match &record.entry {
                Some(entry) => self.insert_entry(record.key, entry.clone()),
                None => self.remove(record.key),
            }
            assert(records@.take(i + 1).drop_last() =~= records@.take(i as int));
            i = i + 1;
        }
        assert(records@.take(i as int) =~= records@);
    }

    /// Leaves nothing but what someone stated and gives the keys of what is left.
    pub fn clear_derived(&mut self) -> (stated: SortedSet<ReferenceEntryKey>)
        requires
            old(self).wf(),
        ensures
            final(self).wf(),
            stated.wf(),
            stated@ == final(self)@.dom(),
            forall|key: ReferenceEntryKey| #[trigger]
                final(self)@.contains_key(key) <==> is_stated_entry(old(self)@, key),
            forall|key: ReferenceEntryKey| #[trigger]
                final(self)@.contains_key(key) ==> final(self)@[key] == stated_part(
                    old(self)@[key],
                ),
    {
        let ghost before = self@;
        let mut kept: ReferenceIndex = ReferenceIndex::new_transient();
        let mut stated: SortedSet<ReferenceEntryKey> = SortedSet::new();
        let mut i: usize = 0;
        while i < self.forward.keys.len()
            invariant
                i <= self.forward.keys@.len(),
                self.wf(),
                self@ == before,
                kept.wf(),
                stated.wf(),
                stated@ == kept@.dom(),
                forall|key: ReferenceEntryKey| #[trigger]
                    kept@.contains_key(key) <==> is_stated_entry(before, key)
                        && self.forward.keys@.take(i as int).contains(key),
                forall|key: ReferenceEntryKey| #[trigger]
                    kept@.contains_key(key) ==> kept@[key] == stated_part(before[key]),
            decreases self.forward.keys@.len() - i,
        {
            let ghost seen = self.forward.keys@.take(i as int);
            let ghost kept_before = kept@;
            let key: ReferenceEntryKey = self.forward.keys[i];
            proof {
                self.forward.lemma_entry(i as int);
                assert(self.forward@.contains_key(key));
            }
            let mut entry: ReferenceEntry = self.forward.values[i].clone();
            assert(entry@ == before[key]);
            entry.clear_derived();
            proof {
                assert(entry@ == stated_part(before[key]));
                if before[key].contains_key(ReferenceProvenance::Asserted) {
                    assert(entry@.contains_key(ReferenceProvenance::Asserted));
                } else {
                    assert(entry@ =~= EntryView::empty());
                }
            }
            if !entry.is_empty() {
                kept.insert_entry(key, entry);
                stated.insert(key);
                assert(stated@ =~= kept@.dom());
            }
            proof {
                assert(self.forward.keys@.take(i + 1) =~= seen.push(key));
                assert forall|k: ReferenceEntryKey| #[trigger]
                    kept@.contains_key(k) <==> is_stated_entry(before, k)
                        && self.forward.keys@.take(i + 1).contains(k) by {
                    lemma_push_holds(seen, key, k);
                    assert(kept@.contains_key(k) <==> kept_before.contains_key(k) || (k == key
                        && is_stated_entry(before, key)));
                }
            }
            i = i + 1;
        }
        proof {
            assert(self.forward.keys@.take(i as int) =~= self.forward.keys@);
            assert forall|key: ReferenceEntryKey| #[trigger]
                kept@.contains_key(key) <==> is_stated_entry(before, key) by {
                if is_stated_entry(before, key) {
                    let k = self.forward.lemma_place(key);
                    assert(self.forward.keys@.contains(key));
                }
            }
        }
        *self = kept;
        stated
    }

    /// Derives the references of functions anew. What someone stated stays, and nothing is
    /// derived beside it.
    pub fn rebuild(&mut self, functions: &FunctionTable, blocks: &CodeBlockTable)
        requires
            old(self).wf(),
            functions.wf(),
            blocks.wf(),
        ensures
            final(self).wf(),
            final(self)@ == rebuilt_entries(
                old(self)@,
                functions@,
                blocks@,
                functions@.dom(),
            ),
    {
        let ghost before = self@;
        let stated: SortedSet<ReferenceEntryKey> = self.clear_derived();
        let listed: Vec<&Function> = functions.iter();
        let ghost mut ids: Set<FunctionId> = Set::empty();
        proof {
            functions.lemma_sound();
            assert forall|key: ReferenceEntryKey| #[trigger]
                self@.contains_key(key) <==> rebuilt_entry(
                    before,
                    functions@,
                    blocks@,
                    ids,
                    key,
                ) != EntryView::empty() by {
                lemma_stated_part(before[key]);
                assert(made_entry(functions@, blocks@, ids, key) =~= EntryView::empty());
            }
            assert(self@ =~= rebuilt_entries(before, functions@, blocks@, ids));
        }
        let mut i: usize = 0;
        while i < listed.len()
            invariant
                i <= listed@.len(),
                self.wf(),
                blocks.wf(),
                stated.wf(),
                forall|key: ReferenceEntryKey| #[trigger]
                    stated@.contains(key) <==> is_stated_entry(before, key),
                forall|k: int|
                    0 <= k < listed@.len() ==> functions@.contains_key((#[trigger] listed@[k]).id)
                        && listed@[k]@ == functions@[listed@[k].id],
                forall|k: int, m: int|
                    0 <= k < m < listed@.len() ==> (#[trigger] listed@[k]).id.id < (#[trigger]
                    listed@[m]).id.id,
                forall|id: FunctionId| #[trigger]
                    functions@.contains_key(id) ==> functions@[id].wf(),
                forall|id: FunctionId| #[trigger]
                    ids.contains(id) <==> exists|k: int|
                        0 <= k < i && (#[trigger] listed@[k]).id == id,
                self@ == rebuilt_entries(before, functions@, blocks@, ids),
            decreases listed@.len() - i,
        {
            let function: &Function = listed[i];
            let ghost id = function.id;
            let ghost flows = flows_of(function@, blocks@);
            let ghost start = self@;
            proof {
                assert(functions@.contains_key(listed@[i as int].id));
                assert(functions@[id].wf());
            }
            let provenance = ReferenceProvenance::Function(function.id());
            let references: Vec<Reference> = function.flow_references(blocks);
            assert(coalesces(references@, flows));
            let mut k: usize = 0;
            while k < references.len()
                invariant
                    k <= references@.len(),
                    self.wf(),
                    stated.wf(),
                    provenance == ReferenceProvenance::Function(id),
                    forall|key: ReferenceEntryKey| #[trigger]
                        stated@.contains(key) <==> is_stated_entry(before, key),
                    coalesces(references@, flows),
                    forall|key: ReferenceEntryKey| #[trigger]
                        start.contains_key(key) && !is_stated_entry(before, key)
                            ==> !start[key].contains_key(provenance),
                    forall|key: ReferenceEntryKey| #[trigger]
                        self@.contains_key(key) <==> start.contains_key(key) || is_added(
                            before,
                            references@,
                            k as int,
                            key,
                        ),
                    forall|key: ReferenceEntryKey| #[trigger]
                        self@.contains_key(key) ==> self@[key] == if is_added(
                            before,
                            references@,
                            k as int,
                            key,
                        ) {
                            (if start.contains_key(key) {
                                start[key]
                            } else {
                                EntryView::empty()
                            }).insert(
                                provenance,
                                ReferenceProperties { bits: merged_flags(flows, key.ends()) },
                            )
                        } else {
                            start[key]
                        },
                decreases references@.len() - k,
            {
                let reference: Reference = references[k];
                let key = ReferenceEntryKey::of(&reference);
                let ghost keys = reference_keys(references@);
                let ghost now = self@;
                proof {
                    assert(reference == merged_reference(flows, reference.filed()));
                    assert(keys[k as int] == key.ends());
                    if is_added(before, references@, k as int, key) {
                        let m = choose|m: int| 0 <= m < k && #[trigger] keys[m] == key.ends();
                        assert(keys[m].rank() < keys[k as int].rank());
                        assert(false);
                    }
                }
                if !stated.contains(&key) {
                    self.merge_provenance(&reference, provenance);
                }
                proof {
                    assert forall|other: ReferenceEntryKey|
                        #[trigger] is_added(before, references@, k + 1, other) <==> is_added(
                            before,
                            references@,
                            k as int,
                            other,
                        ) || (other == key && !is_stated_entry(before, key)) by {
                        if is_added(before, references@, k + 1, other) {
                            let m = choose|m: int| 0 <= m < k + 1 && #[trigger] keys[m] == other.ends();
                            if m < k {
                                assert(keys[m] == other.ends());
                            }
                        }
                        if is_added(before, references@, k as int, other) {
                            let m = choose|m: int| 0 <= m < k && #[trigger] keys[m] == other.ends();
                            assert(keys[m] == other.ends());
                        }
                    }
                    assert forall|other: ReferenceEntryKey| #[trigger]
                        self@.contains_key(other) <==> start.contains_key(other) || is_added(
                            before,
                            references@,
                            k + 1,
                            other,
                        ) by {
                        assert(now.contains_key(other) <==> start.contains_key(other) || is_added(
                            before,
                            references@,
                            k as int,
                            other,
                        ));
                    }
                    assert forall|other: ReferenceEntryKey| #[trigger]
                        self@.contains_key(other) implies self@[other] == if is_added(
                        before,
                        references@,
                        k + 1,
                        other,
                    ) {
                        (if start.contains_key(other) {
                            start[other]
                        } else {
                            EntryView::empty()
                        }).insert(
                            provenance,
                            ReferenceProperties { bits: merged_flags(flows, other.ends()) },
                        )
                    } else {
                        start[other]
                    } by {
                        if other == key {
                            if now.contains_key(key) {
                                assert(now[key] == start[key]);
                            }
                        } else {
                            assert(now.contains_key(other));
                            assert(self@[other] == now[other]);
                        }
                    }
                }
                k = k + 1;
            }
            proof {
                let later = ids.insert(id);
                let keys = reference_keys(references@);
                assert forall|key: ReferenceEntryKey| is_added(
                    before,
                    references@,
                    k as int,
                    key,
                ) <==> !is_stated_entry(before, key) && #[trigger] makes(function@, blocks@, key) by {
                    assert(keys.contains(key.ends()) <==> leaves_by(flows, key.ends()));
                    if keys.contains(key.ends()) {
                        let m = keys.index_of(key.ends());
                        assert(keys[m] == key.ends());
                    }
                }
                let wanted = rebuilt_entries(before, functions@, blocks@, later);
                assert forall|key: ReferenceEntryKey|
                    !is_stated_entry(before, key) implies #[trigger] made_entry(
                    functions@,
                    blocks@,
                    later,
                    key,
                ) == (if makes(function@, blocks@, key) {
                    made_entry(functions@, blocks@, ids, key).insert(
                        provenance,
                        ReferenceProperties { bits: merged_flags(flows, key.ends()) },
                    )
                } else {
                    made_entry(functions@, blocks@, ids, key)
                }) by {
                    let now = made_entry(functions@, blocks@, ids, key);
                    let next = made_entry(functions@, blocks@, later, key);
                    assert forall|p: ReferenceProvenance| #[trigger] next.contains_key(p) <==> now.contains_key(p) || (p == provenance && makes(function@, blocks@, key)) by {
                        match p {
                            ReferenceProvenance::Function(other) => {
                                assert(later.contains(other) <==> ids.contains(other) || other == id);
                            },
                            ReferenceProvenance::Asserted => {},
                        }
                    }
                    if makes(function@, blocks@, key) {
                        assert(next =~= now.insert(
                            provenance,
                            ReferenceProperties { bits: merged_flags(flows, key.ends()) },
                        ));
                    } else {
                        assert(next =~= now);
                    }
                }
                assert forall|key: ReferenceEntryKey| #[trigger]
                    self@.contains_key(key) <==> wanted.contains_key(key) by {
                    assert(start.contains_key(key) <==> rebuilt_entry(
                        before,
                        functions@,
                        blocks@,
                        ids,
                        key,
                    ) != EntryView::empty());
                    if !is_stated_entry(before, key) {
                        let next = made_entry(functions@, blocks@, later, key);
                        if makes(function@, blocks@, key) {
                            assert(next.contains_key(provenance));
                        }
                    }
                    assert(is_added(before, references@, k as int, key) <==> !is_stated_entry(
                        before,
                        key,
                    ) && makes(function@, blocks@, key));
                }
                assert forall|key: ReferenceEntryKey| #[trigger]
                    self@.contains_key(key) implies self@[key] == wanted[key] by {
                    assert(wanted.contains_key(key));
                    assert(is_added(before, references@, k as int, key) <==> !is_stated_entry(
                        before,
                        key,
                    ) && makes(function@, blocks@, key));
                    if !is_stated_entry(before, key) {
                        let now = made_entry(functions@, blocks@, ids, key);
                        let next = made_entry(functions@, blocks@, later, key);
                        if start.contains_key(key) {
                            assert(start[key] == now);
                        } else {
                            assert(now == EntryView::empty());
                        }
                    } else {
                        assert(start.contains_key(key));
                    }
                }
                assert(self@ =~= wanted);
                assert forall|other: FunctionId| #[trigger] later.contains(other) <==> exists|m: int| 0 <= m < i + 1 && (#[trigger] listed@[m]).id == other by {
                    if ids.contains(other) {
                        let m = choose|m: int| 0 <= m < i && (#[trigger] listed@[m]).id == other;
                        assert(listed@[m].id == other);
                    }
                    if other == id {
                        assert(listed@[i as int].id == other);
                    }
                    if exists|m: int| 0 <= m < i + 1 && (#[trigger] listed@[m]).id == other {
                        let m = choose|m: int| 0 <= m < i + 1 && (#[trigger] listed@[m]).id == other;
                        if m < i {
                            assert(ids.contains(other));
                        }
                    }
                }
                ids = later;
            }
            i = i + 1;
        }
        proof {
            assert forall|id: FunctionId| #[trigger] ids.contains(id) <==> functions@.dom().contains(id) by {
                if functions@.contains_key(id) {
                    let k = choose|k: int| 0 <= k < listed@.len() && (#[trigger] listed@[k]).id == id;
                    assert(listed@[k].id == id);
                }
            }
            assert(ids =~= functions@.dom());
        }
    }

    /// Brings the references up to date unless `marker`, the revision that they were derived
    /// at, is the current one, and says whether they were derived anew.
    pub fn ensure_current(
        &mut self,
        marker: Option<Revision>,
        functions: &FunctionTable,
        blocks: &CodeBlockTable,
        revision: Revision,
    ) -> (rebuilt: bool)
        requires
            old(self).wf(),
            functions.wf(),
            blocks.wf(),
        ensures
            final(self).wf(),
            rebuilt == (marker != Some(revision)),
            final(self)@ == if rebuilt {
                rebuilt_entries(old(self)@, functions@, blocks@, functions@.dom())
            } else {
                old(self)@
            },
    {
        let current: bool = match marker {
            Some(marker) => marker.0 == revision.0,
            None => false,
        };
        if current {
            return false;
        }
        self.rebuild(functions, blocks);
        true
    }
}

/// Whether one of the first references of a function has a key that nobody stated.
spec fn is_added(
    before: EntryMap,
    references: Seq<Reference>,
    count: int,
    key: ReferenceEntryKey,
) -> bool {
    &&& !is_stated_entry(before, key)
    &&& key.kind is Flow
    &&& exists|m: int| 0 <= m < count && #[trigger] reference_keys(references)[m] == key.ends()
}

/// What someone stated is all that is left of an entry, and something is left if someone did.
proof fn lemma_stated_part(entry: EntryView)
    ensures
        stated_part(entry) != EntryView::empty() <==> entry.contains_key(
            ReferenceProvenance::Asserted,
        ),
{
    if entry.contains_key(ReferenceProvenance::Asserted) {
        assert(stated_part(entry).contains_key(ReferenceProvenance::Asserted));
    } else {
        assert(stated_part(entry) =~= EntryView::empty());
    }
}

proof fn lemma_push_holds<A>(seen: Seq<A>, last: A, a: A)
    ensures
        seen.push(last).contains(a) <==> seen.contains(a) || a == last,
{
    if seen.contains(a) {
        assert(seen.push(last)[seen.index_of(a)] == a);
    }
    assert(seen.push(last)[seen.len() as int] == last);
    if seen.push(last).contains(a) && a != last {
        let i = seen.push(last).index_of(a);
        assert(seen[i] == a);
    }
}

/// What someone stated is visible as it was after references are derived anew.
pub proof fn law_stated_entries_survive(
    index: EntryMap,
    functions: Map<FunctionId, FunctionView>,
    blocks: Blocks,
    key: ReferenceEntryKey,
)
    requires
        is_stated_entry(index, key),
    ensures
        rebuilt_entries(index, functions, blocks, functions.dom()).contains_key(key),
        visible(key, rebuilt_entries(index, functions, blocks, functions.dom())[key]) == visible(
            key,
            index[key],
        ),
{
    lemma_stated_part(index[key]);
}

/// Deriving references anew a second time changes nothing.
pub proof fn law_rebuilding_again_changes_nothing(
    index: EntryMap,
    functions: Map<FunctionId, FunctionView>,
    blocks: Blocks,
)
    ensures
        rebuilt_entries(
            rebuilt_entries(index, functions, blocks, functions.dom()),
            functions,
            blocks,
            functions.dom(),
        ) == rebuilt_entries(index, functions, blocks, functions.dom()),
{
    let ids = functions.dom();
    let once = rebuilt_entries(index, functions, blocks, ids);
    let twice = rebuilt_entries(once, functions, blocks, ids);
    assert forall|key: ReferenceEntryKey|
        #[trigger] rebuilt_entry(once, functions, blocks, ids, key) == rebuilt_entry(
            index,
            functions,
            blocks,
            ids,
            key,
        ) by {
        lemma_stated_part(index[key]);
        if is_stated_entry(index, key) {
            assert(once.contains_key(key));
            assert(stated_part(stated_part(index[key])) =~= stated_part(index[key]));
        } else {
            assert(!made_entry(functions, blocks, ids, key).contains_key(
                ReferenceProvenance::Asserted,
            ));
        }
    }
    assert(twice =~= once);
}

} // verus!
