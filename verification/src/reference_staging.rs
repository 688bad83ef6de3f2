//! Changes to references that are collected before they are made.
use vstd::prelude::*;

use crate::address::{Address, AddressRange};
use crate::address_set::{some_holds, AddressRangeSet};
use crate::anchored::{covered_keys, lists_covered};
use crate::flags::ReferenceProperties;
use crate::flow_laws::lemma_joined_flag;
use crate::order::{ascending, Ranked, SortedMap, SortedSet};
use crate::provenance::{
    entry_key, law_entry_visible, with_merged, with_provenance, EntryView, ReferenceEntry,
    ReferenceEntryKey, ReferenceProvenance,
};
use crate::provenance_index::{
    entries_changed, option_entry, option_sound, EntryMap, PreparedReferenceRecord, ReferenceIndex,
};
use crate::reference::{Reference, ReferenceKind};

verus! {

/// A batch of derived references: for the covered addresses, all references of one kind that
/// one provenance gives.
#[verifier::ext_equal]
pub struct BatchView {
    pub coverage: Set<Address>,
    pub kind: ReferenceKind,
    pub provenance: ReferenceProvenance,
    pub wanted: Map<ReferenceEntryKey, ReferenceProperties>,
}

impl BatchView {
    /// Whether the batch speaks of a key.
    pub open spec fn covers(self, key: ReferenceEntryKey) -> bool {
        self.coverage.contains(key.from) && key.kind == self.kind
    }
}

/// The references by their keys, with the flags of all that share a key.
pub open spec fn combined(references: Seq<Reference>) -> Map<ReferenceEntryKey, ReferenceProperties>
    decreases references.len(),
{
    if references.len() == 0 {
        Map::empty()
    } else {
        let before = combined(references.drop_last());
        let last = references.last();
        let key = entry_key(last);
        if before.contains_key(key) {
            before.insert(
                key,
                ReferenceProperties { bits: before[key].bits | last.properties.bits },
            )
        } else {
            before.insert(key, last.properties)
        }
    }
}

/// Where references come from.
pub open spec fn origins(references: Seq<Reference>) -> Set<Address> {
    Set::new(|a: Address| exists|i: int| 0 <= i < references.len() && #[trigger] references[i].from == a)
}

/// A batch of derived references.
pub struct DerivedReferenceBatch {
    pub coverage: AddressRangeSet,
    pub kind: ReferenceKind,
    pub provenance: ReferenceProvenance,
    pub references: SortedMap<ReferenceEntryKey, ReferenceProperties>,
}

impl View for DerivedReferenceBatch {
    type V = BatchView;

    open spec fn view(&self) -> BatchView {
        BatchView {
            coverage: self.coverage@,
            kind: self.kind,
            provenance: self.provenance,
            wanted: self.references@,
        }
    }
}

impl DerivedReferenceBatch {
    /// The batch speaks of all its references.
    pub open spec fn wf(&self) -> bool {
        &&& self.coverage.wf()
        &&& self.references.wf()
        &&& forall|key: ReferenceEntryKey| #[trigger]
            self.references@.contains_key(key) ==> self@.covers(key)
    }

    /// Collects the references of one kind that one provenance gives. Where they come from is
    /// covered in any case.
    pub fn new(
        coverage: AddressRangeSet,
        kind: ReferenceKind,
        provenance: ReferenceProvenance,
        references: &Vec<Reference>,
    ) -> (batch: Self)
        requires
            coverage.wf(),
            forall|i: int| 0 <= i < references@.len() ==> (#[trigger] references@[i]).kind == kind,
        ensures
            batch.wf(),
            batch@ == (BatchView {
                coverage: coverage@.union(origins(references@)),
                kind,
                provenance,
                wanted: combined(references@),
            }),
    {
        let ghost given = coverage@;
        let mut coverage = coverage;
        let mut wanted: SortedMap<ReferenceEntryKey, ReferenceProperties> = SortedMap::new();
        let mut i: usize = 0;
        proof {
            assert(references@.take(0) =~= Seq::empty());
            assert(coverage@ =~= given.union(origins(references@.take(0))));
        }
        while i < references.len()
            invariant
                i <= references@.len(),
                coverage.wf(),
                wanted.wf(),
                forall|k: int|
                    0 <= k < references@.len() ==> (#[trigger] references@[k]).kind == kind,
                coverage@ == given.union(origins(references@.take(i as int))),
                wanted@ == combined(references@.take(i as int)),
                forall|key: ReferenceEntryKey| #[trigger]
                    wanted@.contains_key(key) ==> key.kind == kind && coverage@.contains(key.from),
            decreases references@.len() - i,
        {
            let ghost seen = references@.take(i as int);
            let ghost more = references@.take(i + 1);
            let ghost covered = coverage@;
            let reference: Reference = references[i];
            let key = ReferenceEntryKey::of(&reference);
            let merged: ReferenceProperties = match wanted.get(&key) {
                Some(present) => ReferenceProperties {
                    bits: present.bits | reference.properties().bits,
                },
                None => reference.properties(),
            };
            wanted.insert(key, merged);
            let point: AddressRange = AddressRange::point(reference.from());
            coverage.insert_range(point);
            proof {
                assert(more.drop_last() =~= seen);
                assert(more.last() == reference);
                assert forall|a: Address| #[trigger] coverage@.contains(a) <==> given.union(
                    origins(more),
                ).contains(a) by {
                    assert(point.holds(a) <==> a == reference.from);
                    if origins(seen).contains(a) {
                        let k = choose|k: int| 0 <= k < seen.len() && #[trigger] seen[k].from == a;
                        assert(more[k].from == a);
                    }
                    if origins(more).contains(a) {
                        let k = choose|k: int| 0 <= k < more.len() && #[trigger] more[k].from == a;
                        if k < i {
                            assert(seen[k].from == a);
                        }
                    }
                    assert(more[i as int].from == reference.from);
                }
                assert(coverage@ =~= given.union(origins(more)));
            }
            i = i + 1;
        }
        assert(references@.take(i as int) =~= references@);
        DerivedReferenceBatch { coverage, kind, provenance, references: wanted }
    }
}

/// What is staged under a key: what was filed before, and what shall be filed.
#[verifier::ext_equal]
pub struct StagedEntry {
    pub previous: Option<EntryView>,
    pub entry: Option<EntryView>,
}

/// Changes to references that were not made yet.
#[verifier::ext_equal]
pub struct ReferenceStagingView {
    pub asserted: Set<ReferenceEntryKey>,
    pub derived_coverage: Set<Address>,
    pub staged: Map<ReferenceEntryKey, StagedEntry>,
}

/// What is filed under a key once the staged changes are made.
pub open spec fn filed_now(
    staged: Map<ReferenceEntryKey, StagedEntry>,
    index: EntryMap,
    key: ReferenceEntryKey,
) -> Option<EntryView> {
    if staged.contains_key(key) {
        staged[key].entry
    } else {
        index.get(key)
    }
}

/// The staged changes with one more.
pub open spec fn restaged(
    staged: Map<ReferenceEntryKey, StagedEntry>,
    key: ReferenceEntryKey,
    previous: Option<EntryView>,
    entry: Option<EntryView>,
) -> Map<ReferenceEntryKey, StagedEntry> {
    staged.insert(
        key,
        StagedEntry {
            previous: if staged.contains_key(key) {
                staged[key].previous
            } else {
                previous
            },
            entry,
        },
    )
}

/// An entry, unless it rests on nothing.
pub open spec fn solid(entry: EntryView) -> Option<EntryView> {
    if entry == EntryView::empty() {
        None
    } else {
        Some(entry)
    }
}

/// What an optional entry rests on.
pub open spec fn rests_on(entry: Option<EntryView>) -> EntryView {
    match entry {
        Some(entry) => entry,
        None => EntryView::empty(),
    }
}

/// What a batch wants filed under a key.
pub open spec fn wanted_entry(
    now: Option<EntryView>,
    batch: BatchView,
    key: ReferenceEntryKey,
) -> Option<EntryView> {
    if batch.covers(key) {
        solid(with_provenance(rests_on(now), batch.provenance, batch.wanted.get(key)))
    } else {
        now
    }
}

/// Whether a batch changes what is filed under a key.
pub open spec fn changes_key(
    staged: Map<ReferenceEntryKey, StagedEntry>,
    index: EntryMap,
    batch: BatchView,
    key: ReferenceEntryKey,
) -> bool {
    let now = filed_now(staged, index, key);
    wanted_entry(now, batch, key) != now
}

/// Whether a batch changes anything.
pub open spec fn changes_any(
    staged: Map<ReferenceEntryKey, StagedEntry>,
    index: EntryMap,
    batch: BatchView,
) -> bool {
    exists|key: ReferenceEntryKey| #[trigger] changes_key(staged, index, batch, key)
}

/// The staged changes with those of a batch to some keys.
pub open spec fn staged_partly(
    staged: Map<ReferenceEntryKey, StagedEntry>,
    index: EntryMap,
    batch: BatchView,
    done: Set<ReferenceEntryKey>,
) -> Map<ReferenceEntryKey, StagedEntry> {
    Map::new(
        |key: ReferenceEntryKey|
            staged.contains_key(key) || (done.contains(key) && changes_key(
                staged,
                index,
                batch,
                key,
            )),
        |key: ReferenceEntryKey|
            if done.contains(key) && changes_key(staged, index, batch, key) {
                StagedEntry {
                    previous: if staged.contains_key(key) {
                        staged[key].previous
                    } else {
                        filed_now(staged, index, key)
                    },
                    entry: wanted_entry(filed_now(staged, index, key), batch, key),
                }
            } else {
                staged[key]
            },
    )
}

/// The staged changes with those of a batch.
pub open spec fn with_batch(
    staging: ReferenceStagingView,
    index: EntryMap,
    batch: BatchView,
) -> ReferenceStagingView {
    ReferenceStagingView {
        asserted: staging.asserted,
        derived_coverage: if changes_any(staging.staged, index, batch) {
            staging.derived_coverage.union(batch.coverage)
        } else {
            staging.derived_coverage
        },
        staged: staged_partly(staging.staged, index, batch, Set::full()),
    }
}

/// The staged changes with those of batches, one after another.
pub open spec fn with_batches(
    staging: ReferenceStagingView,
    index: EntryMap,
    batches: Seq<BatchView>,
) -> ReferenceStagingView
    decreases batches.len(),
{
    if batches.len() == 0 {
        staging
    } else {
        with_batch(with_batches(staging, index, batches.drop_last()), index, batches.last())
    }
}

/// Whether one of the batches changes anything when its turn comes.
pub open spec fn batches_change(
    staging: ReferenceStagingView,
    index: EntryMap,
    batches: Seq<BatchView>,
) -> bool {
    exists|i: int|
        0 <= i < batches.len() && #[trigger] changes_any(
            with_batches(staging, index, batches.take(i)).staged,
            index,
            batches[i],
        )
}

/// What batches say.
pub open spec fn batch_views(batches: Seq<DerivedReferenceBatch>) -> Seq<BatchView> {
    batches.map_values(|batch: DerivedReferenceBatch| batch@)
}

/// What is staged under a key.
pub struct StagedReferenceRecord {
    pub previous: Option<ReferenceEntry>,
    pub entry: Option<ReferenceEntry>,
}

impl View for StagedReferenceRecord {
    type V = StagedEntry;

    open spec fn view(&self) -> StagedEntry {
        StagedEntry { previous: option_entry(self.previous), entry: option_entry(self.entry) }
    }
}

/// Changes to references that were not made yet.
pub struct ReferenceStaging {
    pub asserted: SortedSet<ReferenceEntryKey>,
    pub derived_coverage: AddressRangeSet,
    pub staged_references: SortedMap<ReferenceEntryKey, StagedReferenceRecord>,
}

impl View for ReferenceStaging {
    type V = ReferenceStagingView;

    open spec fn view(&self) -> ReferenceStagingView {
        ReferenceStagingView {
            asserted: self.asserted@,
            derived_coverage: self.derived_coverage@,
            staged: Map::new(
                |key: ReferenceEntryKey| self.staged_references@.contains_key(key),
                |key: ReferenceEntryKey| self.staged_references@[key]@,
            ),
        }
    }
}

/// A copy of an optional entry.
fn copy_entry(entry: &Option<ReferenceEntry>) -> (copy: Option<ReferenceEntry>)
    requires
        option_sound(*entry),
    ensures
        option_sound(copy),
        option_entry(copy) == option_entry(*entry),
{
    match entry {
        Some(entry) => Some(entry.clone()),
        None => None,
    }
}

/// Whether two optional entries say the same.
fn same_entries(a: &Option<ReferenceEntry>, b: &Option<ReferenceEntry>) -> (same: bool)
    requires
        option_sound(*a),
        option_sound(*b),
    ensures
        same == (option_entry(*a) == option_entry(*b)),
{
    match (a, b) {
        (Some(a), Some(b)) => a.same(b),
        (None, None) => true,
        _ => false,
    }
}

/// An entry, unless it rests on nothing.
fn solid_entry(entry: ReferenceEntry) -> (kept: Option<ReferenceEntry>)
    requires
        entry.wf(),
    ensures
        option_sound(kept),
        option_entry(kept) == solid(entry@),
{
    if entry.is_empty() {
        None
    } else {
        Some(entry)
    }
}

/// Adds the addresses of one set to another.
fn cover(coverage: &mut AddressRangeSet, more: &AddressRangeSet)
    requires
        old(coverage).wf(),
        more.wf(),
    ensures
        final(coverage).wf(),
        final(coverage)@ == old(coverage)@.union(more@),
{
    let ghost before = coverage@;
    let ranges: Vec<AddressRange> = more.ranges();
    let mut i: usize = 0;
    while i < ranges.len()
        invariant
            i <= ranges@.len(),
            coverage.wf(),
            forall|a: Address| #[trigger]
                coverage@.contains(a) <==> before.contains(a) || some_holds(
                    ranges@.take(i as int),
                    a,
                ),
        decreases ranges@.len() - i,
    {
        let ghost seen = ranges@.take(i as int);
        let ghost later = ranges@.take(i + 1);
        let ghost now = coverage@;
        coverage.insert_range(ranges[i]);
        proof {
            assert forall|a: Address| #[trigger] coverage@.contains(a) <==> before.contains(a)
                || some_holds(later, a) by {
                assert(coverage@.contains(a) <==> now.contains(a) || ranges@[i as int].holds(a));
                if some_holds(seen, a) {
                    let k = choose|k: int| 0 <= k < seen.len() && (#[trigger] seen[k]).holds(a);
                    assert(later[k] == seen[k]);
                }
                if some_holds(later, a) {
                    let k = choose|k: int| 0 <= k < later.len() && (#[trigger] later[k]).holds(a);
                    if k < i {
                        assert(seen[k] == later[k]);
                    }
                }
                assert(later[i as int] == ranges@[i as int]);
            }
        }
        i = i + 1;
    }
    proof {
        assert(ranges@.take(i as int) =~= ranges@);
        assert forall|a: Address| #[trigger] coverage@.contains(a) <==> before.union(
            more@,
        ).contains(a) by {
            assert(more@.contains(a) <==> some_holds(ranges@, a));
        }
        assert(coverage@ =~= before.union(more@));
    }
}

/// Whether a map of entries is what is filed now for covered addresses.
spec fn mirrors(
    current: Map<ReferenceEntryKey, ReferenceEntry>,
    staged: Map<ReferenceEntryKey, StagedEntry>,
    index: EntryMap,
    coverage: Set<Address>,
) -> bool {
    &&& forall|key: ReferenceEntryKey| #[trigger]
        current.contains_key(key) ==> coverage.contains(key.from) && option_sound(
            Some(current[key]),
        )
    &&& forall|key: ReferenceEntryKey|
        coverage.contains(key.from) ==> current_entry(current, key) == #[trigger] filed_now(
            staged,
            index,
            key,
        )
}

/// What a map of entries has under a key.
spec fn current_entry(
    current: Map<ReferenceEntryKey, ReferenceEntry>,
    key: ReferenceEntryKey,
) -> Option<EntryView> {
    if current.contains_key(key) {
        Some(current[key]@)
    } else {
        None
    }
}

impl ReferenceStaging {
    pub open spec fn wf(&self) -> bool {
        &&& self.asserted.wf()
        &&& self.derived_coverage.wf()
        &&& self.staged_references.wf()
        &&& forall|key: ReferenceEntryKey| #[trigger]
            self.staged_references@.contains_key(key) ==> option_sound(
                self.staged_references@[key].previous,
            ) && option_sound(self.staged_references@[key].entry)
    }

    pub fn new() -> (staging: Self)
        ensures
            staging.wf(),
            staging@ == (ReferenceStagingView {
                asserted: Set::empty(),
                derived_coverage: Set::empty(),
                staged: Map::empty(),
            }),
    {
        let staging = ReferenceStaging {
            asserted: SortedSet::new(),
            derived_coverage: AddressRangeSet::new(),
            staged_references: SortedMap::new(),
        };
        assert(staging@.staged =~= Map::<ReferenceEntryKey, StagedEntry>::empty());
        staging
    }

    /// What is filed under a key once the staged changes are made.
    pub fn entry(&self, index: &ReferenceIndex, key: ReferenceEntryKey) -> (entry: Option<
        ReferenceEntry,
    >)
        requires
            self.wf(),
            index.wf(),
        ensures
            option_sound(entry),
            option_entry(entry) == filed_now(self@.staged, index@, key),
    {
        match self.staged_references.get(&key) {
            Some(staged) => copy_entry(&staged.entry),
            None => index.entry(key),
        }
    }

    fn stage_change(
        &mut self,
        key: ReferenceEntryKey,
        previous: Option<ReferenceEntry>,
        entry: Option<ReferenceEntry>,
    )
        requires
            old(self).wf(),
            option_sound(previous),
            option_sound(entry),
        ensures
            final(self).wf(),
            final(self)@ == (ReferenceStagingView {
                staged: restaged(
                    old(self)@.staged,
                    key,
                    option_entry(previous),
                    option_entry(entry),
                ),
                ..old(self)@
            }),
    {
        let ghost before = self@;
        let first: Option<ReferenceEntry> = match self.staged_references.get(&key) {
            Some(staged) => copy_entry(&staged.previous),
            None => previous,
        };
        self.staged_references.insert(key, StagedReferenceRecord { previous: first, entry });
        proof {
            assert(self@.staged =~= restaged(
                before.staged,
                key,
                option_entry(previous),
                option_entry(entry),
            ));
        }
    }

    /// Stages that someone states a reference, and says whether that changes anything.
    pub fn insert(&mut self, index: &ReferenceIndex, reference: Reference) -> (changed: bool)
        requires
            old(self).wf(),
            index.wf(),
        ensures
            final(self).wf(),
            ({
                let key = entry_key(reference);
                let now = filed_now(old(self)@.staged, index@, key);
                let wanted = with_merged(
                    rests_on(now),
                    ReferenceProvenance::Asserted,
                    reference.properties,
                );
                &&& changed == (now != Some(wanted))
                &&& final(self)@ == if changed {
                    ReferenceStagingView {
                        asserted: old(self)@.asserted.insert(key),
                        derived_coverage: old(self)@.derived_coverage,
                        staged: restaged(old(self)@.staged, key, now, Some(wanted)),
                    }
                } else {
                    old(self)@
                }
            }),
    {
        let key = ReferenceEntryKey::of(&reference);
        let existing: Option<ReferenceEntry> = self.entry(index, key);
        let entry: ReferenceEntry = match &existing {
            Some(present) => {
                let mut entry = present.clone();
                entry.merge_provenance(ReferenceProvenance::Asserted, reference.properties());
                entry
            },
            None => ReferenceEntry::new(ReferenceProvenance::Asserted, reference.properties()),
        };
        assert(entry@.contains_key(ReferenceProvenance::Asserted));
        let wanted: Option<ReferenceEntry> = Some(entry);
        if same_entries(&existing, &wanted) {
            return false;
        }
        self.stage_change(key, existing, wanted);
        self.asserted.insert(key);
        true
    }

    /// Stages that what someone stated under a key no longer holds, and says whether that
    /// changes anything.
    pub fn remove(&mut self, index: &ReferenceIndex, key: ReferenceEntryKey) -> (changed: bool)
        requires
            old(self).wf(),
            index.wf(),
        ensures
            final(self).wf(),
            ({
                let now = filed_now(old(self)@.staged, index@, key);
                let wanted = solid(
                    with_provenance(rests_on(now), ReferenceProvenance::Asserted, None),
                );
                &&& changed == rests_on(now).contains_key(ReferenceProvenance::Asserted)
                &&& final(self)@ == if changed {
                    ReferenceStagingView {
                        asserted: old(self)@.asserted.insert(key),
                        derived_coverage: old(self)@.derived_coverage,
                        staged: restaged(old(self)@.staged, key, now, wanted),
                    }
                } else {
                    old(self)@
                }
            }),
    {
        let previous: ReferenceEntry = match self.entry(index, key) {
            Some(entry) => entry,
            None => {
                return false;
            },
        };
        if !previous.has_provenance(ReferenceProvenance::Asserted) {
            return false;
        }
        let mut entry: ReferenceEntry = previous.clone();
        entry.set_provenance(ReferenceProvenance::Asserted, None);
        let kept: Option<ReferenceEntry> = solid_entry(entry);
        self.stage_change(key, Some(previous), kept);
        self.asserted.insert(key);
        true
    }

    /// What is filed now for covered addresses.
    fn references_in(&self, index: &ReferenceIndex, coverage: &AddressRangeSet) -> (current:
        SortedMap<ReferenceEntryKey, ReferenceEntry>)
        requires
            self.wf(),
            index.wf(),
            coverage.wf(),
        ensures
            current.wf(),
            mirrors(current@, self@.staged, index@, coverage@),
    {
        let mut current: SortedMap<ReferenceEntryKey, ReferenceEntry> = SortedMap::new();
        let keys: Vec<ReferenceEntryKey> = covered_keys(&index.forward.keys, coverage);
        let mut i: usize = 0;
        while i < keys.len()
            invariant
                i <= keys@.len(),
                self.wf(),
                index.wf(),
                lists_covered(keys@, index.forward.keys@.to_set(), coverage@),
                current.wf(),
                forall|key: ReferenceEntryKey| #[trigger]
                    current@.contains_key(key) ==> coverage@.contains(key.from) && option_sound(
                        Some(current@[key]),
                    ),
                forall|key: ReferenceEntryKey| #[trigger]
                    current_entry(current@, key) == if keys@.take(i as int).contains(key) {
                        filed_now(self@.staged, index@, key)
                    } else {
                        None
                    },
            decreases keys@.len() - i,
        {
            let key: ReferenceEntryKey = keys[i];
            let ghost seen = keys@.take(i as int);
            let ghost before = current@;
            assert(keys@.contains(key));
            if let Some(entry) = self.entry(index, key) {
                current.insert(key, entry);
            } else {
                proof {
                    if before.contains_key(key) {
                        assert(current_entry(before, key) is Some);
                    }
                }
            }
            proof {
                assert(keys@.take(i + 1) =~= seen.push(key));
                assert forall|k: ReferenceEntryKey| #[trigger]
                    current_entry(current@, k) == if keys@.take(i + 1).contains(k) {
                        filed_now(self@.staged, index@, k)
                    } else {
                        None
                    } by {
                    lemma_push_holds(seen, key, k);
                    if k != key {
                        assert(current_entry(current@, k) == current_entry(before, k));
                    }
                }
            }
            i = i + 1;
        }
        let ghost indexed = keys@;
        proof {
            assert(keys@.take(i as int) =~= keys@);
        }
        let staged_keys: Vec<ReferenceEntryKey> = covered_keys(
            &self.staged_references.keys,
            coverage,
        );
        let ghost first = current@;
        let mut k: usize = 0;
        while k < staged_keys.len()
            invariant
                k <= staged_keys@.len(),
                self.wf(),
                lists_covered(staged_keys@, self.staged_references.keys@.to_set(), coverage@),
                current.wf(),
                forall|key: ReferenceEntryKey| #[trigger]
                    current@.contains_key(key) ==> coverage@.contains(key.from) && option_sound(
                        Some(current@[key]),
                    ),
                forall|key: ReferenceEntryKey| #[trigger]
                    current_entry(current@, key) == if staged_keys@.take(k as int).contains(key) {
                        filed_now(self@.staged, index@, key)
                    } else {
                        current_entry(first, key)
                    },
            decreases staged_keys@.len() - k,
        {
            let key: ReferenceEntryKey = staged_keys[k];
            let ghost seen = staged_keys@.take(k as int);
            let ghost before = current@;
            assert(staged_keys@.contains(key));
            assert(self.staged_references.keys@.contains(key));
            if let Some(staged) = self.staged_references.get(&key) {
                match &staged.entry {
                    Some(entry) => {
                        current.insert(key, entry.clone());
                    },
                    None => {
                        current.remove(&key);
                    },
                }
            }
            proof {
                assert(staged_keys@.take(k + 1) =~= seen.push(key));
                assert forall|other: ReferenceEntryKey| #[trigger]
                    current_entry(current@, other) == if staged_keys@.take(k + 1).contains(other) {
                        filed_now(self@.staged, index@, other)
                    } else {
                        current_entry(first, other)
                    } by {
                    lemma_push_holds(seen, key, other);
                    if other != key {
                        assert(current_entry(current@, other) == current_entry(before, other));
                    }
                }
            }
            k = k + 1;
        }
        proof {
            assert(staged_keys@.take(k as int) =~= staged_keys@);
            assert forall|key: ReferenceEntryKey|
                coverage@.contains(key.from) implies current_entry(current@, key) == #[trigger]
            filed_now(self@.staged, index@, key) by {
                assert(current_entry(current@, key) == if staged_keys@.contains(key) {
                    filed_now(self@.staged, index@, key)
                } else {
                    current_entry(first, key)
                });
                assert(staged_keys@.contains(key) <==> self.staged_references.keys@.contains(key));
                assert(indexed.contains(key) <==> index.forward.keys@.contains(key));
            }
        }
        current
    }

    /// Stages one batch. `current` holds what is filed now for all addresses that are covered
    /// together.
    fn apply_batch(
        &mut self,
        current: &mut SortedMap<ReferenceEntryKey, ReferenceEntry>,
        batch: &DerivedReferenceBatch,
        Ghost(index): Ghost<EntryMap>,
        Ghost(coverage): Ghost<Set<Address>>,
    ) -> (changed: bool)
        requires
            old(self).wf(),
            old(current).wf(),
            batch.wf(),
            batch@.coverage.subset_of(coverage),
            mirrors(old(current)@, old(self)@.staged, index, coverage),
        ensures
            final(self).wf(),
            final(current).wf(),
            changed == changes_any(old(self)@.staged, index, batch@),
            final(self)@ == with_batch(old(self)@, index, batch@),
            mirrors(final(current)@, final(self)@.staged, index, coverage),
    {
        let ghost start = self@;
        let ghost first = current@;
        let ghost mut done: Set<ReferenceEntryKey> = Set::empty();
        let covered: Vec<ReferenceEntryKey> = covered_keys(&current.keys, &batch.coverage);
        let mut changed: bool = false;
        let mut i: usize = 0;
        proof {
            assert(self@.staged =~= staged_partly(start.staged, index, batch@, done));
            assert(forall|key: ReferenceEntryKey| #[trigger] covered@.contains(key) <==> first.contains_key(key) && batch@.coverage.contains(key.from));
        }
        while i < covered.len()
            invariant
                i <= covered@.len(),
                self.wf(),
                current.wf(),
                batch.wf(),
                batch@.coverage.subset_of(coverage),
                ascending(covered@),
                forall|key: ReferenceEntryKey| #[trigger]
                    covered@.contains(key) <==> first.contains_key(key)
                        && batch@.coverage.contains(key.from),
                mirrors(first, start.staged, index, coverage),
                mirrors(current@, self@.staged, index, coverage),
                self@.asserted == start.asserted,
                self@.derived_coverage == start.derived_coverage,
                self@.staged == staged_partly(start.staged, index, batch@, done),
                forall|key: ReferenceEntryKey| #[trigger]
                    done.contains(key) <==> covered@.take(i as int).contains(key) && key.kind
                        == batch.kind,
                changed ==> changes_any(start.staged, index, batch@),
                !changed ==> forall|key: ReferenceEntryKey|
                    done.contains(key) ==> !#[trigger] changes_key(
                        start.staged,
                        index,
                        batch@,
                        key,
                    ),
            decreases covered@.len() - i,
        {
            let key: ReferenceEntryKey = covered[i];
            let ghost seen = covered@.take(i as int);
            let ghost staged_before = self@.staged;
            proof {
                assert(covered@.contains(key));
                assert(covered@.take(i + 1) =~= seen.push(key));
                assert forall|k: ReferenceEntryKey| #[trigger]
                    covered@.take(i + 1).contains(k) <==> seen.contains(k) || k == key by {
                    lemma_push_holds(seen, key, k);
                }
                if seen.contains(key) {
                    let j = seen.index_of(key);
                    assert(covered@[j].rank() < covered@[i as int].rank());
                }
                lemma_partly_now(start.staged, index, batch@, done, key);
            }
            let ghost now = filed_now(start.staged, index, key);
            assert(filed_now(self@.staged, index, key) == now);
            assert(current_entry(first, key) == now);
            assert(current_entry(current@, key) == filed_now(self@.staged, index, key));
            if key.kind == batch.kind {
                let previous: ReferenceEntry = match current.get(&key) {
                    Some(entry) => entry.clone(),
                    None => {
                        assert(false);
                        return changed;
                    },
                };
                assert(Some(previous@) == now);
                let mut entry: ReferenceEntry = previous.clone();
                let properties: Option<ReferenceProperties> = match batch.references.get(&key) {
                    Some(properties) => Some(*properties),
                    None => None,
                };
                assert(properties == batch@.wanted.get(key));
                entry.set_provenance(batch.provenance, properties);
                let kept: Option<ReferenceEntry> = solid_entry(entry);
                assert(option_entry(kept) == wanted_entry(now, batch@, key));
                let before: Option<ReferenceEntry> = Some(previous);
                if !same_entries(&kept, &before) {
                    match &kept {
                        Some(entry) => {
                            current.insert(key, entry.clone());
                        },
                        None => {
                            current.remove(&key);
                        },
                    }
                    self.stage_change(key, before, kept);
                    changed = true;
                    assert(changes_key(start.staged, index, batch@, key));
                }
                proof {
                    let later = done.insert(key);
                    lemma_partly_step(start.staged, index, batch@, done, key);
                    assert(self@.staged == staged_partly(start.staged, index, batch@, later));
                    assert forall|k: ReferenceEntryKey|
                        coverage.contains(k.from) implies current_entry(current@, k) == #[trigger]
                    filed_now(self@.staged, index, k) by {
                        lemma_partly_now(start.staged, index, batch@, done, k);
                        lemma_partly_now(start.staged, index, batch@, later, k);
                        assert(filed_now(staged_before, index, k) == filed_now(staged_before, index, k));
                    }
                    done = later;
                }
            }
            i = i + 1;
        }
        assert(covered@.take(i as int) =~= covered@);
        let mut m: usize = 0;
        while m < batch.references.keys.len()
            invariant
                m <= batch.references.keys@.len(),
                self.wf(),
                current.wf(),
                batch.wf(),
                batch@.coverage.subset_of(coverage),
                mirrors(first, start.staged, index, coverage),
                mirrors(current@, self@.staged, index, coverage),
                self@.asserted == start.asserted,
                self@.derived_coverage == start.derived_coverage,
                self@.staged == staged_partly(start.staged, index, batch@, done),
                forall|key: ReferenceEntryKey| #[trigger]
                    done.contains(key) ==> batch@.covers(key),
                forall|key: ReferenceEntryKey| #[trigger]
                    first.contains_key(key) && batch@.covers(key) ==> done.contains(key),
                forall|key: ReferenceEntryKey| #[trigger]
                    batch.references.keys@.take(m as int).contains(key) ==> done.contains(key),
                changed ==> changes_any(start.staged, index, batch@),
                !changed ==> forall|key: ReferenceEntryKey|
                    done.contains(key) ==> !#[trigger] changes_key(
                        start.staged,
                        index,
                        batch@,
                        key,
                    ),
            decreases batch.references.keys@.len() - m,
        {
            let key: ReferenceEntryKey = batch.references.keys[m];
            let properties: ReferenceProperties = batch.references.values[m];
            let ghost seen = batch.references.keys@.take(m as int);
            let ghost now = filed_now(start.staged, index, key);
            let ghost staged_before = self@.staged;
            proof {
                batch.references.lemma_entry(m as int);
                assert(batch@.covers(key));
                assert(batch@.wanted.get(key) == Some(properties));
                lemma_partly_now(start.staged, index, batch@, done, key);
                assert(current_entry(first, key) == now);
                assert(current_entry(current@, key) == filed_now(self@.staged, index, key));
                assert(batch.references.keys@.take(m + 1) =~= seen.push(key));
                assert forall|k: ReferenceEntryKey| #[trigger]
                    batch.references.keys@.take(m + 1).contains(k) <==> seen.contains(k) || k
                        == key by {
                    lemma_push_holds(seen, key, k);
                }
                let filled = rests_on(now).insert(batch.provenance, properties);
                assert(filled.contains_key(batch.provenance));
                assert(wanted_entry(now, batch@, key) == Some(filled));
            }
            if !current.contains_key(&key) {
                let entry: ReferenceEntry = ReferenceEntry::new(batch.provenance, properties);
                assert(entry@.contains_key(batch.provenance));
                assert(!done.contains(key));
                assert(now is None);
                assert(Some(entry@) == wanted_entry(now, batch@, key));
                let copy: ReferenceEntry = entry.clone();
                current.insert(key, copy);
                self.stage_change(key, None, Some(entry));
                changed = true;
                proof {
                    assert(changes_key(start.staged, index, batch@, key));
                    let later = done.insert(key);
                    lemma_partly_step(start.staged, index, batch@, done, key);
                    assert(self@.staged == staged_partly(start.staged, index, batch@, later));
                    assert forall|k: ReferenceEntryKey|
                        coverage.contains(k.from) implies current_entry(current@, k) == #[trigger]
                    filed_now(self@.staged, index, k) by {
                        lemma_partly_now(start.staged, index, batch@, done, k);
                        lemma_partly_now(start.staged, index, batch@, later, k);
                        assert(filed_now(staged_before, index, k) == filed_now(staged_before, index, k));
                    }
                    done = later;
                }
            } else {
                proof {
                    if !done.contains(key) {
                        assert(first.contains_key(key));
                    }
                }
            }
            m = m + 1;
        }
        proof {
            assert(batch.references.keys@.take(m as int) =~= batch.references.keys@);
            assert forall|key: ReferenceEntryKey| #[trigger]
                changes_key(start.staged, index, batch@, key) implies done.contains(key) by {
                assert(batch@.covers(key));
                let now = filed_now(start.staged, index, key);
                assert(current_entry(first, key) == now);
                if !first.contains_key(key) {
                    if batch@.wanted.contains_key(key) {
                        let k = batch.references.lemma_place(key);
                        assert(batch.references.keys@.contains(key));
                    } else {
                        assert(rests_on(now).remove(batch.provenance) =~= EntryView::empty());
                    }
                }
            }
            assert(staged_partly(start.staged, index, batch@, done) =~= staged_partly(
                start.staged,
                index,
                batch@,
                Set::full(),
            ));
            if !changed && changes_any(start.staged, index, batch@) {
                let key = choose|key: ReferenceEntryKey| #[trigger]
                    changes_key(start.staged, index, batch@, key);
                assert(done.contains(key));
            }
        }
        if changed {
            cover(&mut self.derived_coverage, &batch.coverage);
        }
        changed
    }

    /// Stages batches one after another: under each key that a batch speaks of, what its
    /// provenance gave before is replaced by what it gives now. Says whether anything changes.
    pub fn replace_derived_reference_batches(
        &mut self,
        index: &ReferenceIndex,
        batches: &Vec<DerivedReferenceBatch>,
    ) -> (changed: bool)
        requires
            old(self).wf(),
            index.wf(),
            forall|i: int| 0 <= i < batches@.len() ==> (#[trigger] batches@[i]).wf(),
        ensures
            final(self).wf(),
            final(self)@ == with_batches(old(self)@, index@, batch_views(batches@)),
            changed == batches_change(old(self)@, index@, batch_views(batches@)),
    {
        let ghost views = batch_views(batches@);
        let mut together: AddressRangeSet = AddressRangeSet::new();
        let mut i: usize = 0;
        while i < batches.len()
            invariant
                i <= batches@.len(),
                forall|k: int| 0 <= k < batches@.len() ==> (#[trigger] batches@[k]).wf(),
                together.wf(),
                forall|k: int|
                    0 <= k < i ==> (#[trigger] batches@[k])@.coverage.subset_of(together@),
            decreases batches@.len() - i,
        {
            let ghost before = together@;
            cover(&mut together, &batches[i].coverage);
            assert forall|k: int| 0 <= k < i + 1 implies (
            #[trigger] batches@[k])@.coverage.subset_of(together@) by {
                if k < i {
                    assert(batches@[k]@.coverage.subset_of(before));
                }
            }
            i = i + 1;
        }
        let ghost start = self@;
        if together.is_empty() {
            proof {
                assert forall|k: int| 0 <= k < views.len() implies (
                #[trigger] views[k]).coverage == Set::<Address>::empty() by {
                    assert(batches@[k]@.coverage.subset_of(together@));
                    assert(views[k].coverage =~= Set::<Address>::empty());
                }
                lemma_nothing_covered(start, index@, views);
            }
            return false;
        }
        let mut current: SortedMap<ReferenceEntryKey, ReferenceEntry> = self.references_in(
            index,
            &together,
        );
        let mut changed: bool = false;
        let mut k: usize = 0;
        assert(views.take(0) =~= Seq::empty());
        while k < batches.len()
            invariant
                k <= batches@.len(),
                index.wf(),
                views == batch_views(batches@),
                forall|m: int| 0 <= m < batches@.len() ==> (#[trigger] batches@[m]).wf(),
                forall|m: int|
                    0 <= m < batches@.len() ==> (#[trigger] batches@[m])@.coverage.subset_of(
                        together@,
                    ),
                self.wf(),
                current.wf(),
                mirrors(current@, self@.staged, index@, together@),
                self@ == with_batches(start, index@, views.take(k as int)),
                changed == exists|m: int|
                    0 <= m < k && #[trigger] changes_any(
                        with_batches(start, index@, views.take(m)).staged,
                        index@,
                        views[m],
                    ),
            decreases batches@.len() - k,
        {
            let ghost before = changed;
            let batch: &DerivedReferenceBatch = &batches[k];
            assert(views[k as int] == batch@);
            let ghost seen = views.take(k as int);
            let ghost staged_before = self@.staged;
            let batch_changed: bool = self.apply_batch(
                &mut current,
                batch,
                Ghost(index@),
                Ghost(together@),
            );
            changed = changed || batch_changed;
            proof {
                assert(views.take(k + 1).drop_last() =~= seen);
                assert(staged_before == with_batches(start, index@, views.take(k as int)).staged);
                assert(batch_changed == changes_any(
                    with_batches(start, index@, views.take(k as int)).staged,
                    index@,
                    views[k as int],
                ));
                if before {
                    let m = choose|m: int|
                        0 <= m < k && #[trigger] changes_any(
                            with_batches(start, index@, views.take(m)).staged,
                            index@,
                            views[m],
                        );
                    assert(0 <= m < k + 1);
                }
            }
            k = k + 1;
        }
        assert(views.take(k as int) =~= views);
        changed
    }
}

/// What is filed now when a batch is staged for some keys.
proof fn lemma_partly_now(
    staged: Map<ReferenceEntryKey, StagedEntry>,
    index: EntryMap,
    batch: BatchView,
    done: Set<ReferenceEntryKey>,
    key: ReferenceEntryKey,
)
    ensures
        filed_now(staged_partly(staged, index, batch, done), index, key) == if done.contains(key) {
            wanted_entry(filed_now(staged, index, key), batch, key)
        } else {
            filed_now(staged, index, key)
        },
{
}

/// Staging one more key.
proof fn lemma_partly_step(
    staged: Map<ReferenceEntryKey, StagedEntry>,
    index: EntryMap,
    batch: BatchView,
    done: Set<ReferenceEntryKey>,
    key: ReferenceEntryKey,
)
    requires
        !done.contains(key),
    ensures
        ({
            let now = filed_now(staged, index, key);
            let before = staged_partly(staged, index, batch, done);
            staged_partly(staged, index, batch, done.insert(key)) == if changes_key(
                staged,
                index,
                batch,
                key,
            ) {
                restaged(before, key, now, wanted_entry(now, batch, key))
            } else {
                before
            }
        }),
{
    let now = filed_now(staged, index, key);
    let before = staged_partly(staged, index, batch, done);
    let after = staged_partly(staged, index, batch, done.insert(key));
    if changes_key(staged, index, batch, key) {
        assert(after =~= restaged(before, key, now, wanted_entry(now, batch, key)));
    } else {
        assert(after =~= before);
    }
}

/// Batches that cover nothing change nothing.
proof fn lemma_nothing_covered(
    staging: ReferenceStagingView,
    index: EntryMap,
    batches: Seq<BatchView>,
)
    requires
        forall|k: int|
            0 <= k < batches.len() ==> (#[trigger] batches[k]).coverage == Set::<Address>::empty(),
    ensures
        with_batches(staging, index, batches) == staging,
        !batches_change(staging, index, batches),
    decreases batches.len(),
{
    if batches.len() > 0 {
        let front = batches.drop_last();
        assert forall|k: int| 0 <= k < front.len() implies (#[trigger] front[k]).coverage
            == Set::<Address>::empty() by {
            assert(batches[k].coverage == Set::<Address>::empty());
        }
        lemma_nothing_covered(staging, index, front);
        let last = batches.last();
        assert(!changes_any(staging.staged, index, last));
        assert(staged_partly(staging.staged, index, last, Set::full()) =~= staging.staged);
        assert(with_batch(staging, index, last) =~= staging);
        if batches_change(staging, index, batches) {
            let i = choose|i: int|
                0 <= i < batches.len() && #[trigger] changes_any(
                    with_batches(staging, index, batches.take(i)).staged,
                    index,
                    batches[i],
                );
            if i < front.len() {
                assert(front.take(i) =~= batches.take(i));
                assert(front[i] == batches[i]);
                assert(changes_any(
                    with_batches(staging, index, front.take(i)).staged,
                    index,
                    front[i],
                ));
            } else {
                assert(batches.take(i) =~= front);
            }
        }
    }
}

proof fn lemma_push_holds<A>(seen: Seq<A>, last: A, a: A)
    ensures
        seen.push(last).contains(a) <==> seen.contains(a) || a == last,
{
    if seen.contains(a) {
        assert(seen.push(last)[seen.index_of(a)] == a);
    }
    assert(seen.push(last)[seen.len() as int] == last);
    if seen.push(last).contains(a) && a != last {
        let i = seen.push(last).index_of(a);
        assert(seen[i] == a);
    }
}

/// Whether records list the staged changes that change something, in the order of the keys.
pub open spec fn lists_staged(
    records: Seq<PreparedReferenceRecord>,
    staged: Map<ReferenceEntryKey, StagedEntry>,
) -> bool {
    &&& ascending(record_keys(records))
    &&& forall|key: ReferenceEntryKey| #[trigger]
        record_keys(records).contains(key) <==> staged.contains_key(key) && staged[key].entry
            != staged[key].previous
    &&& forall|i: int|
        0 <= i < records.len() ==> option_entry((#[trigger] records[i]).entry)
            == staged[records[i].key].entry
}

/// The keys of records.
pub open spec fn record_keys(records: Seq<PreparedReferenceRecord>) -> Seq<ReferenceEntryKey> {
    records.map_values(|record: PreparedReferenceRecord| record.key)
}

/// Changes to references, ready to be made.
pub struct PreparedReferenceBatch {
    pub asserted: SortedSet<ReferenceEntryKey>,
    pub derived_coverage: AddressRangeSet,
    pub records: Vec<PreparedReferenceRecord>,
}

impl ReferenceStaging {
    /// Collects the staged changes that change something.
    pub fn prepare(self) -> (batch: PreparedReferenceBatch)
        requires
            self.wf(),
        ensures
            batch.wf(),
            batch.asserted@ == self@.asserted,
            batch.derived_coverage@ == self@.derived_coverage,
            lists_staged(batch.records@, self@.staged),
    {
        let mut records: Vec<PreparedReferenceRecord> = Vec::new();
        let ghost keys = self.staged_references.keys@;
        let mut i: usize = 0;
        while i < self.staged_references.keys.len()
            invariant
                i <= keys.len(),
                keys == self.staged_references.keys@,
                self.wf(),
                forall|k: int| 0 <= k < records@.len() ==> option_sound((#[trigger] records@[k]).entry),
                ascending(record_keys(records@)),
                forall|k: int, m: int|
                    0 <= k < records@.len() && i <= m < keys.len() ==> (
                    #[trigger] records@[k]).key.rank() < (#[trigger] keys[m]).rank(),
                forall|key: ReferenceEntryKey| #[trigger]
                    record_keys(records@).contains(key) <==> keys.take(i as int).contains(key)
                        && self@.staged[key].entry != self@.staged[key].previous,
                forall|k: int|
                    0 <= k < records@.len() ==> option_entry((#[trigger] records@[k]).entry)
                        == self@.staged[records@[k].key].entry,
            decreases keys.len() - i,
        {
            let key: ReferenceEntryKey = self.staged_references.keys[i];
            let ghost seen = keys.take(i as int);
            let ghost before = records@;
            proof {
                self.staged_references.lemma_entry(i as int);
                assert(self.staged_references@.contains_key(key));
            }
            let staged: &StagedReferenceRecord = &self.staged_references.values[i];
            assert(staged@ == self@.staged[key]);
            if !same_entries(&staged.entry, &staged.previous) {
                let entry: Option<ReferenceEntry> = copy_entry(&staged.entry);
                records.push(PreparedReferenceRecord { key, entry });
            }
            proof {
                assert(keys.take(i + 1) =~= seen.push(key));
                let old_keys = record_keys(before);
                let new_keys = record_keys(records@);
                if records@.len() > before.len() {
                    assert(new_keys =~= old_keys.push(key));
                } else {
                    assert(new_keys =~= old_keys);
                }
                assert forall|k: int, m: int|
                    0 <= k < m < new_keys.len() implies (#[trigger] new_keys[k]).rank() < (
                #[trigger] new_keys[m]).rank() by {
                    assert(new_keys[k] == records@[k].key);
                    assert(new_keys[m] == records@[m].key);
                    if m < before.len() {
                        assert(old_keys[k].rank() < old_keys[m].rank());
                    } else {
                        assert(before[k].key.rank() < keys[i as int].rank());
                    }
                }
                assert forall|other: ReferenceEntryKey| #[trigger]
                    new_keys.contains(other) <==> keys.take(i + 1).contains(other)
                        && self@.staged[other].entry != self@.staged[other].previous by {
                    lemma_push_holds(seen, key, other);
                    lemma_push_holds(old_keys, key, other);
                    if seen.contains(other) && other == key {
                        let j = seen.index_of(key);
                        assert(keys[j].rank() < keys[i as int].rank());
                    }
                }
            }
            i = i + 1;
        }
        proof {
            assert(keys.take(i as int) =~= keys);
        }
        PreparedReferenceBatch {
            asserted: self.asserted,
            derived_coverage: self.derived_coverage,
            records,
        }
    }
}

/// Whether a sequence lists the changes to what someone stated, each with whether a reference
/// is there afterwards.
pub open spec fn stated_changes(
    records: Seq<PreparedReferenceRecord>,
    asserted: Set<ReferenceEntryKey>,
) -> Seq<(ReferenceEntryKey, bool)>
    decreases records.len(),
{
    if records.len() == 0 {
        Seq::empty()
    } else {
        let before = stated_changes(records.drop_last(), asserted);
        let last = records.last();
        if asserted.contains(last.key) {
            before.push((last.key, last.entry is Some))
        } else {
            before
        }
    }
}

impl PreparedReferenceBatch {
    pub open spec fn wf(&self) -> bool {
        &&& self.asserted.wf()
        &&& self.derived_coverage.wf()
        &&& forall|i: int|
            0 <= i < self.records@.len() ==> option_sound((#[trigger] self.records@[i]).entry)
    }

    /// The changes to what someone stated, each with whether a reference is there afterwards.
    pub fn asserted_changes(&self) -> (changes: Vec<(ReferenceEntryKey, bool)>)
        requires
            self.wf(),
        ensures
            changes@ == stated_changes(self.records@, self.asserted@),
    {
        let mut changes: Vec<(ReferenceEntryKey, bool)> = Vec::new();
        let mut i: usize = 0;
        assert(self.records@.take(0) =~= Seq::empty());
        while i < self.records.len()
            invariant
                i <= self.records@.len(),
                self.wf(),
                changes@ == stated_changes(self.records@.take(i as int), self.asserted@),
            decreases self.records@.len() - i,
        {
            let record: &PreparedReferenceRecord = &self.records[i];
            assert(option_sound(self.records@[i as int].entry));
            assert(self.records@.take(i + 1).drop_last() =~= self.records@.take(i as int));
            if self.asserted.contains(&record.key) {
                let present: bool = match &record.entry {
                    Some(entry) => {
                        proof {
                            law_entry_visible(record.key, entry@);
                        }
                        entry.materialise(record.key).is_some()
                    },
                    None => false,
                };
                changes.push((record.key, present));
            }
            i = i + 1;
        }
        assert(self.records@.take(i as int) =~= self.records@);
        changes
    }

    pub fn derived_coverage(&self) -> (coverage: &AddressRangeSet)
        ensures
            *coverage == self.derived_coverage,
    {
        &self.derived_coverage
    }

    /// Whether a change concerns an address for which derived references changed.
    pub fn derived_changed(&self) -> (changed: bool)
        requires
            self.wf(),
        ensures
            changed == exists|i: int|
                0 <= i < self.records@.len() && self.derived_coverage@.contains(
                    (#[trigger] self.records@[i]).key.from,
                ),
    {
        let mut i: usize = 0;
        while i < self.records.len()
            invariant
                i <= self.records@.len(),
                self.wf(),
                forall|k: int|
                    0 <= k < i ==> !self.derived_coverage@.contains(
                        (#[trigger] self.records@[k]).key.from,
                    ),
            decreases self.records@.len() - i,
        {
            if self.derived_coverage.contains(self.records[i].key.from) {
                return true;
            }
            i = i + 1;
        }
        false
    }

    /// Makes the changes.
    pub fn publish(self, index: &mut ReferenceIndex)
        requires
            self.wf(),
            old(index).wf(),
        ensures
            final(index).wf(),
            final(index)@ == entries_changed(old(index)@, self.records@),
    {
        index.publish_batch(&self.records);
    }
}

/// What is filed under a key after changes to distinct keys.
proof fn lemma_entries_changed(
    index: EntryMap,
    records: Seq<PreparedReferenceRecord>,
    key: ReferenceEntryKey,
)
    requires
        ascending(record_keys(records)),
    ensures
        !record_keys(records).contains(key) ==> entries_changed(index, records).get(key)
            == index.get(key),
        forall|i: int|
            0 <= i < records.len() && (#[trigger] records[i]).key == key ==> entries_changed(
                index,
                records,
            ).get(key) == option_entry(records[i].entry),
    decreases records.len(),
{
    if records.len() > 0 {
        let front = records.drop_last();
        let keys = record_keys(records);
        assert(record_keys(front) =~= keys.drop_last());
        assert(ascending(record_keys(front)));
        lemma_entries_changed(index, front, key);
        let last = records.last();
        assert(keys =~= record_keys(front).push(last.key));
        lemma_push_holds(record_keys(front), last.key, key);
        assert forall|i: int|
            0 <= i < records.len() && (#[trigger] records[i]).key == key implies entries_changed(
            index,
            records,
        ).get(key) == option_entry(records[i].entry) by {
            if i < front.len() {
                assert(front[i] == records[i]);
                assert(keys[i].rank() < keys[records.len() - 1].rank());
            }
        }
    }
}

/// Whether what staged changes say was filed before is what an index holds.
pub open spec fn rests_on_index(
    staged: Map<ReferenceEntryKey, StagedEntry>,
    index: EntryMap,
) -> bool {
    forall|key: ReferenceEntryKey| #[trigger]
        staged.contains_key(key) ==> staged[key].previous == index.get(key)
}

/// Staging one more change keeps the record of what the index holds.
pub proof fn law_staging_remembers_index(
    staged: Map<ReferenceEntryKey, StagedEntry>,
    index: EntryMap,
    key: ReferenceEntryKey,
    entry: Option<EntryView>,
)
    requires
        rests_on_index(staged, index),
    ensures
        rests_on_index(restaged(staged, key, filed_now(staged, index, key), entry), index),
        filed_now(restaged(staged, key, filed_now(staged, index, key), entry), index, key) == entry,
{
}

/// Staging batches keeps the record of what the index holds.
pub proof fn law_batches_remember_index(
    staging: ReferenceStagingView,
    index: EntryMap,
    batches: Seq<BatchView>,
)
    requires
        rests_on_index(staging.staged, index),
    ensures
        rests_on_index(with_batches(staging, index, batches).staged, index),
    decreases batches.len(),
{
    if batches.len() > 0 {
        law_batches_remember_index(staging, index, batches.drop_last());
    }
}

/// Once a prepared batch is published, the index holds under each key what was staged for it,
/// and under all others what it held.
pub proof fn law_publishing_files_staged(
    staged: Map<ReferenceEntryKey, StagedEntry>,
    index: EntryMap,
    records: Seq<PreparedReferenceRecord>,
    key: ReferenceEntryKey,
)
    requires
        rests_on_index(staged, index),
        lists_staged(records, staged),
    ensures
        entries_changed(index, records).get(key) == filed_now(staged, index, key),
{
    lemma_entries_changed(index, records, key);
    let keys = record_keys(records);
    if keys.contains(key) {
        let i = keys.index_of(key);
        assert(records[i].key == key);
    } else if staged.contains_key(key) {
        assert(staged[key].entry == staged[key].previous);
    }
}

/// After a batch, what its provenance gives under the keys that it speaks of is what the batch
/// says, and what any other provenance gives is as it was.
pub proof fn law_batch_replaces_own_provenance(
    staging: ReferenceStagingView,
    index: EntryMap,
    batch: BatchView,
    key: ReferenceEntryKey,
    provenance: ReferenceProvenance,
)
    ensures
        rests_on(filed_now(with_batch(staging, index, batch).staged, index, key)).get(provenance)
            == if batch.covers(key) && provenance == batch.provenance {
            batch.wanted.get(key)
        } else {
            rests_on(filed_now(staging.staged, index, key)).get(provenance)
        },
{
    lemma_partly_now(staging.staged, index, batch, Set::full(), key);
    let now = filed_now(staging.staged, index, key);
    let next = with_provenance(rests_on(now), batch.provenance, batch.wanted.get(key));
    assert(rests_on(solid(next)) == next);
}

/// Staging a batch a second time changes nothing.
pub proof fn law_batch_again_changes_nothing(
    staging: ReferenceStagingView,
    index: EntryMap,
    batch: BatchView,
)
    ensures
        !changes_any(with_batch(staging, index, batch).staged, index, batch),
{
    let after = with_batch(staging, index, batch).staged;
    assert forall|key: ReferenceEntryKey| !#[trigger] changes_key(after, index, batch, key) by {
        lemma_partly_now(staging.staged, index, batch, Set::full(), key);
        let now = filed_now(staging.staged, index, key);
        if batch.covers(key) {
            let next = with_provenance(rests_on(now), batch.provenance, batch.wanted.get(key));
            assert(rests_on(solid(next)) == next);
            assert(with_provenance(next, batch.provenance, batch.wanted.get(key)) =~= next);
        }
    }
}

/// A reference that was stated can be taken back: then what is filed under its key is what was
/// filed before, unless it had been stated before.
pub proof fn law_taking_back_restores(
    now: Option<EntryView>,
    properties: ReferenceProperties,
)
    requires
        now != Some(EntryView::empty()),
        !rests_on(now).contains_key(ReferenceProvenance::Asserted),
    ensures
        solid(
            with_provenance(
                with_merged(rests_on(now), ReferenceProvenance::Asserted, properties),
                ReferenceProvenance::Asserted,
                None,
            ),
        ) == now,
{
    let stated = with_merged(rests_on(now), ReferenceProvenance::Asserted, properties);
    assert(with_provenance(stated, ReferenceProvenance::Asserted, None) =~= rests_on(now));
}

/// A batch changes only references from the addresses that it covers and of its kind, and there
/// leaves its provenance with what it wants and nothing else.
pub proof fn law_batch_stays_in_its_region(
    staging: ReferenceStagingView,
    index: EntryMap,
    batch: BatchView,
    key: ReferenceEntryKey,
)
    ensures
        !batch.coverage.contains(key.from) || key.kind != batch.kind ==> filed_now(
            with_batch(staging, index, batch).staged,
            index,
            key,
        ) == filed_now(staging.staged, index, key),
        batch.coverage.contains(key.from) && key.kind == batch.kind ==> rests_on(
            filed_now(with_batch(staging, index, batch).staged, index, key),
        ).get(batch.provenance) == batch.wanted.get(key),
        with_batch(staging, index, batch).asserted == staging.asserted,
{
    law_batch_replaces_own_provenance(staging, index, batch, key, batch.provenance);
}

/// References that are combined keep each key that one of them has, with each flag that one of
/// them has there, and nothing else.
pub proof fn law_combining_keeps_keys_and_flags(
    references: Seq<Reference>,
    key: ReferenceEntryKey,
    flag: u16,
)
    ensures
        combined(references).contains_key(key) <==> exists|i: int|
            0 <= i < references.len() && entry_key(#[trigger] references[i]) == key,
        combined(references).contains_key(key) ==> (combined(references)[key].bits & flag != 0
            <==> exists|i: int|
            0 <= i < references.len() && entry_key(#[trigger] references[i]) == key
                && references[i].properties.bits & flag != 0),
    decreases references.len(),
{
    if references.len() > 0 {
        let rest = references.drop_last();
        let last = references.last();
        let before = combined(rest);
        law_combining_keeps_keys_and_flags(rest, key, flag);
        lemma_joined_flag(before[key].bits, last.properties.bits, flag);
        assert(references[references.len() - 1] == last);
        assert forall|i: int| 0 <= i < rest.len() implies #[trigger] rest[i] == references[i] by {}
        if exists|i: int| 0 <= i < rest.len() && entry_key(#[trigger] rest[i]) == key {
            let i = choose|i: int| 0 <= i < rest.len() && entry_key(#[trigger] rest[i]) == key;
            assert(entry_key(references[i]) == key);
        }
        if exists|i: int| 0 <= i < references.len() && entry_key(#[trigger] references[i]) == key {
            let i = choose|i: int|
                0 <= i < references.len() && entry_key(#[trigger] references[i]) == key;
            if i < rest.len() {
                assert(entry_key(rest[i]) == key);
            }
        }
        if exists|i: int|
            0 <= i < rest.len() && entry_key(#[trigger] rest[i]) == key && rest[i].properties.bits
                & flag != 0 {
            let i = choose|i: int|
                0 <= i < rest.len() && entry_key(#[trigger] rest[i]) == key
                    && rest[i].properties.bits & flag != 0;
            assert(entry_key(references[i]) == key);
        }
        if exists|i: int|
            0 <= i < references.len() && entry_key(#[trigger] references[i]) == key
                && references[i].properties.bits & flag != 0 {
            let i = choose|i: int|
                0 <= i < references.len() && entry_key(#[trigger] references[i]) == key
                    && references[i].properties.bits & flag != 0;
            if i < rest.len() {
                assert(entry_key(rest[i]) == key);
            }
        }
    }
}

/// A prepared change changes something: under its key the index holds something else.
pub proof fn law_prepared_changes_are_needed(
    staged: Map<ReferenceEntryKey, StagedEntry>,
    index: EntryMap,
    records: Seq<PreparedReferenceRecord>,
    i: int,
    j: int,
)
    requires
        rests_on_index(staged, index),
        lists_staged(records, staged),
        0 <= i < records.len(),
        0 <= j < records.len(),
    ensures
        index.get(records[i].key) != option_entry(records[i].entry),
        records[i].key == records[j].key ==> i == j,
{
    let keys = record_keys(records);
    assert(keys[i] == records[i].key);
    assert(keys[j] == records[j].key);
    assert(keys.contains(keys[i]));
    if i < j {
        assert(keys[i].rank() < keys[j].rank());
    } else if j < i {
        assert(keys[j].rank() < keys[i].rank());
    }
}

/// The changes to what someone stated are those of the prepared changes whose keys someone
/// stated, each with whether a reference is there afterwards.
pub proof fn law_stated_changes_are_of_stated_keys(
    records: Seq<PreparedReferenceRecord>,
    asserted: Set<ReferenceEntryKey>,
    key: ReferenceEntryKey,
    present: bool,
)
    ensures
        stated_changes(records, asserted).contains((key, present)) <==> asserted.contains(key)
            && exists|i: int|
            0 <= i < records.len() && (#[trigger] records[i]).key == key && (records[i].entry
                is Some) == present,
    decreases records.len(),
{
    if records.len() > 0 {
        let rest = records.drop_last();
        let last = records.last();
        law_stated_changes_are_of_stated_keys(rest, asserted, key, present);
        crate::body::lemma_push_contains(
            stated_changes(rest, asserted),
            (last.key, last.entry is Some),
            (key, present),
        );
        assert(records[records.len() - 1] == last);
        assert forall|i: int| 0 <= i < rest.len() implies #[trigger] rest[i] == records[i] by {}
        if exists|i: int|
            0 <= i < rest.len() && (#[trigger] rest[i]).key == key && (rest[i].entry is Some)
                == present {
            let i = choose|i: int|
                0 <= i < rest.len() && (#[trigger] rest[i]).key == key && (rest[i].entry is Some)
                    == present;
            assert(records[i] == rest[i]);
        }
        if exists|i: int|
            0 <= i < records.len() && (#[trigger] records[i]).key == key && (records[i].entry
                is Some) == present {
            let i = choose|i: int|
                0 <= i < records.len() && (#[trigger] records[i]).key == key && (records[i].entry
                    is Some) == present;
            if i < rest.len() {
                assert(rest[i] == records[i]);
            }
        }
    }
}

} // verus!
