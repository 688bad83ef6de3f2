//! What is written to the stored index of code blocks when blocks come, move and go.
use vstd::prelude::*;

use crate::block::CodeBlockId;
use crate::block_buckets::{
    all_sized, bucket_key, buckets_agree, block_sized, has_block, has_other, is_marked, place_of,
    start_key, starts_agree, BlockIndexView, BlockIndexWrite, BlockRangeChange, BlockRanges,
    CodeBlockSizeBucket, CodeBlockSizeBucketKey, CodeBlockSizeBucketsRecord, CodeBlockStartKey,
    SpaceBucket, StoredBlockIndex,
};
use crate::order::{ascending, Ranked, SortedMap, SortedSet};
use crate::types::AddressSpaceId;

verus! {

/// What is written where a block lay.
pub open spec fn leaving_writes(change: BlockRangeChange) -> Seq<BlockIndexWrite> {
    match change.previous {
        Some(range) => seq![
            BlockIndexWrite::RemoveStart(start_key(change.id, range)),
            BlockIndexWrite::RemoveBucket(bucket_key(change.id, range)),
        ],
        None => Seq::empty(),
    }
}

/// What is written where a block comes to lie.
pub open spec fn entering_writes(change: BlockRangeChange) -> Seq<BlockIndexWrite> {
    match change.range {
        Some(range) => seq![
            BlockIndexWrite::InsertStart(start_key(change.id, range)),
            BlockIndexWrite::InsertBucket { key: bucket_key(change.id, range), end: range.end },
        ],
        None => Seq::empty(),
    }
}

/// What is written for changes, one after another.
pub open spec fn change_writes(changes: Seq<BlockRangeChange>) -> Seq<BlockIndexWrite>
    decreases changes.len(),
{
    if changes.len() == 0 {
        Seq::empty()
    } else {
        change_writes(changes.drop_last()) + leaving_writes(changes.last()) + entering_writes(
            changes.last(),
        )
    }
}

/// Whether a block lay in a space and bucket.
pub open spec fn leaves(change: BlockRangeChange, place: SpaceBucket) -> bool {
    change.previous matches Some(range) && place_of(range) == place
}

/// Whether a block comes to lie in a space and bucket.
pub open spec fn enters(change: BlockRangeChange, place: SpaceBucket) -> bool {
    change.range matches Some(range) && place_of(range) == place
}

/// Whether a change concerns a space and bucket.
pub open spec fn touches(changes: Seq<BlockRangeChange>, place: SpaceBucket) -> bool {
    exists|i: int|
        0 <= i < changes.len() && (leaves(#[trigger] changes[i], place) || enters(
            changes[i],
            place,
        ))
}

/// Whether some block comes to lie in a space and bucket.
pub open spec fn some_enters(changes: Seq<BlockRangeChange>, place: SpaceBucket) -> bool {
    exists|i: int| 0 <= i < changes.len() && enters(#[trigger] changes[i], place)
}

/// The blocks that lay in a space and bucket.
pub open spec fn leaving(changes: Seq<BlockRangeChange>, place: SpaceBucket) -> Set<CodeBlockId> {
    Set::new(
        |id: CodeBlockId|
            exists|i: int|
                0 <= i < changes.len() && (#[trigger] changes[i]).id == id && leaves(
                    changes[i],
                    place,
                ),
    )
}

/// Whether a space and bucket is marked after changes.
pub open spec fn marked_after(
    view: BlockIndexView,
    changes: Seq<BlockRangeChange>,
    place: SpaceBucket,
) -> bool {
    if touches(changes, place) {
        some_enters(changes, place) || has_other(view, place, leaving(changes, place))
    } else {
        is_marked(view.sets, place)
    }
}

/// Whether a change concerns a space.
pub open spec fn touches_space(changes: Seq<BlockRangeChange>, space: AddressSpaceId) -> bool {
    exists|bucket: CodeBlockSizeBucket| #[trigger] touches(changes, SpaceBucket { space, bucket })
}

/// Whether a write sets the marks of a space as they are after changes.
pub open spec fn writes_marks(
    write: BlockIndexWrite,
    view: BlockIndexView,
    changes: Seq<BlockRangeChange>,
    space: AddressSpaceId,
) -> bool {
    match write {
        BlockIndexWrite::InsertBuckets { space: own, record } => {
            &&& own == space
            &&& record.wf()
            &&& forall|b: CodeBlockSizeBucket|
                b.0 <= 16 ==> #[trigger] record.marks(b) == marked_after(
                    view,
                    changes,
                    SpaceBucket { space, bucket: b },
                )
            &&& exists|b: CodeBlockSizeBucket| b.0 <= 16 && #[trigger] record.marks(b)
        },
        BlockIndexWrite::RemoveBuckets(own) => {
            &&& own == space
            &&& forall|b: CodeBlockSizeBucket|
                b.0 <= 16 ==> !#[trigger] marked_after(
                    view,
                    changes,
                    SpaceBucket { space, bucket: b },
                )
        },
        _ => false,
    }
}

/// Whether writes set the marks of all spaces that changes concern, in the order of the spaces.
pub open spec fn all_marks_written(
    writes: Seq<BlockIndexWrite>,
    view: BlockIndexView,
    changes: Seq<BlockRangeChange>,
) -> bool {
    exists|spaces: Seq<AddressSpaceId>| #[trigger]
        marks_written_for(writes, view, changes, spaces)
}

/// The same for the spaces in a sequence.
pub open spec fn marks_written_for(
    writes: Seq<BlockIndexWrite>,
    view: BlockIndexView,
    changes: Seq<BlockRangeChange>,
    spaces: Seq<AddressSpaceId>,
) -> bool {
    &&& ascending(spaces)
    &&& forall|space: AddressSpaceId| #[trigger]
        spaces.contains(space) <==> touches_space(changes, space)
    &&& writes.len() == spaces.len()
    &&& forall|i: int|
        0 <= i < writes.len() ==> writes_marks(#[trigger] writes[i], view, changes, spaces[i])
}

/// What a store holds after a write.
pub open spec fn index_written(view: BlockIndexView, write: BlockIndexWrite) -> BlockIndexView {
    match write {
        BlockIndexWrite::InsertStart(key) => BlockIndexView {
            starts: view.starts.insert(key),
            ..view
        },
        BlockIndexWrite::RemoveStart(key) => BlockIndexView {
            starts: view.starts.remove(key),
            ..view
        },
        BlockIndexWrite::InsertBucket { key, end } => BlockIndexView {
            buckets: view.buckets.insert(key, end),
            ..view
        },
        BlockIndexWrite::RemoveBucket(key) => BlockIndexView {
            buckets: view.buckets.remove(key),
            ..view
        },
        BlockIndexWrite::InsertBuckets { space, record } => BlockIndexView {
            sets: view.sets.insert(space, record),
            ..view
        },
        BlockIndexWrite::RemoveBuckets(space) => BlockIndexView {
            sets: view.sets.remove(space),
            ..view
        },
    }
}

/// What a store holds after writes, one after another.
pub open spec fn all_index_written(
    view: BlockIndexView,
    writes: Seq<BlockIndexWrite>,
) -> BlockIndexView
    decreases writes.len(),
{
    if writes.len() == 0 {
        view
    } else {
        index_written(all_index_written(view, writes.drop_last()), writes.last())
    }
}

/// Where blocks lie after a change.
pub open spec fn range_changed(ranges: BlockRanges, change: BlockRangeChange) -> BlockRanges {
    match change.range {
        Some(range) => ranges.insert(change.id, range),
        None => ranges.remove(change.id),
    }
}

/// Where blocks lie after changes, one after another.
pub open spec fn ranges_changed(ranges: BlockRanges, changes: Seq<BlockRangeChange>) -> BlockRanges
    decreases changes.len(),
{
    if changes.len() == 0 {
        ranges
    } else {
        range_changed(ranges_changed(ranges, changes.drop_last()), changes.last())
    }
}

/// Whether a change is about ranges that blocks can have.
pub open spec fn change_sized(change: BlockRangeChange) -> bool {
    &&& change.previous matches Some(range) ==> block_sized(range)
    &&& change.range matches Some(range) ==> block_sized(range)
}

/// Whether changes are about where blocks lie: each is about another block, and says rightly
/// where it lay.
pub open spec fn changes_fit(ranges: BlockRanges, changes: Seq<BlockRangeChange>) -> bool {
    &&& forall|i: int, j: int|
        0 <= i < j < changes.len() ==> (#[trigger] changes[i]).id != (#[trigger] changes[j]).id
    &&& forall|i: int|
        0 <= i < changes.len() ==> change_sized(#[trigger] changes[i]) && changes[i].previous
            == ranges.get(changes[i].id)
}

/// What changes do to a space and bucket.
pub struct CodeBlockSizeBucketChange {
    pub inserted: bool,
    pub removed: SortedSet<CodeBlockId>,
}

/// Whether a map holds what changes do to each space and bucket.
spec fn collects(
    map: Map<SpaceBucket, CodeBlockSizeBucketChange>,
    changes: Seq<BlockRangeChange>,
) -> bool {
    &&& forall|place: SpaceBucket| #[trigger] map.contains_key(place) <==> touches(changes, place)
    &&& forall|place: SpaceBucket| #[trigger]
        map.contains_key(place) ==> {
            &&& place.bucket.0 <= 16
            &&& map[place].removed.wf()
            &&& map[place].inserted == some_enters(changes, place)
            &&& map[place].removed@ == leaving(changes, place)
        }
}

/// What one more change does.
proof fn lemma_push_change(changes: Seq<BlockRangeChange>, last: BlockRangeChange, place: SpaceBucket)
    ensures
        touches(changes.push(last), place) == (touches(changes, place) || leaves(last, place)
            || enters(last, place)),
        some_enters(changes.push(last), place) == (some_enters(changes, place) || enters(
            last,
            place,
        )),
        leaving(changes.push(last), place) == if leaves(last, place) {
            leaving(changes, place).insert(last.id)
        } else {
            leaving(changes, place)
        },
{
    let more = changes.push(last);
    assert(more[changes.len() as int] == last);
    if touches(changes, place) {
        let i = choose|i: int|
            0 <= i < changes.len() && (leaves(#[trigger] changes[i], place) || enters(
                changes[i],
                place,
            ));
        assert(more[i] == changes[i]);
    }
    if some_enters(changes, place) {
        let i = choose|i: int| 0 <= i < changes.len() && enters(#[trigger] changes[i], place);
        assert(more[i] == changes[i]);
    }
    if touches(more, place) {
        let i = choose|i: int|
            0 <= i < more.len() && (leaves(#[trigger] more[i], place) || enters(more[i], place));
        if i < changes.len() {
            assert(changes[i] == more[i]);
        }
    }
    if some_enters(more, place) {
        let i = choose|i: int| 0 <= i < more.len() && enters(#[trigger] more[i], place);
        if i < changes.len() {
            assert(changes[i] == more[i]);
        }
    }
    let wanted = if leaves(last, place) {
        leaving(changes, place).insert(last.id)
    } else {
        leaving(changes, place)
    };
    assert forall|id: CodeBlockId| #[trigger] leaving(more, place).contains(id) <==> wanted.contains(
        id,
    ) by {
        if leaving(changes, place).contains(id) {
            let i = choose|i: int|
                0 <= i < changes.len() && (#[trigger] changes[i]).id == id && leaves(
                    changes[i],
                    place,
                );
            assert(more[i] == changes[i]);
        }
        if leaving(more, place).contains(id) {
            let i = choose|i: int|
                0 <= i < more.len() && (#[trigger] more[i]).id == id && leaves(more[i], place);
            if i < changes.len() {
                assert(changes[i] == more[i]);
            }
        }
    }
    assert(leaving(more, place) =~= wanted);
}

/// Takes out what is collected for a space and bucket, or starts anew.
fn take_change(
    map: &mut SortedMap<SpaceBucket, CodeBlockSizeBucketChange>,
    place: SpaceBucket,
) -> (change: CodeBlockSizeBucketChange)
    requires
        old(map).wf(),
        forall|p: SpaceBucket| #[trigger]
            old(map)@.contains_key(p) ==> old(map)@[p].removed.wf(),
    ensures
        final(map).wf(),
        final(map)@ == old(map)@.remove(place),
        change.removed.wf(),
        old(map)@.contains_key(place) ==> change == old(map)@[place],
        !old(map)@.contains_key(place) ==> !change.inserted && change.removed@ == Set::<
            CodeBlockId,
        >::empty(),
{
    match map.remove(&place) {
        Some(change) => change,
        None => CodeBlockSizeBucketChange { inserted: false, removed: SortedSet::new() },
    }
}

/// Collects what changes do to each space and bucket.
fn collect_changes(changes: &Vec<BlockRangeChange>) -> (map: SortedMap<
    SpaceBucket,
    CodeBlockSizeBucketChange,
>)
    requires
        forall|i: int| 0 <= i < changes@.len() ==> change_sized(#[trigger] changes@[i]),
    ensures
        map.wf(),
        collects(map@, changes@),
{
    let mut map: SortedMap<SpaceBucket, CodeBlockSizeBucketChange> = SortedMap::new();
    let mut i: usize = 0;
    while i < changes.len()
        invariant
            i <= changes@.len(),
            forall|k: int| 0 <= k < changes@.len() ==> change_sized(#[trigger] changes@[k]),
            map.wf(),
            collects(map@, changes@.take(i as int)),
        decreases changes@.len() - i,
    {
        let change: BlockRangeChange = changes[i];
        let ghost seen = changes@.take(i as int);
        let ghost before = map@;
        assert(change_sized(changes@[i as int]));
        if let Some(previous) = change.previous {
            let bucket = CodeBlockSizeBucket::new(previous);
            let place = SpaceBucket { space: previous.space(), bucket };
            let mut collected: CodeBlockSizeBucketChange = take_change(&mut map, place);
            collected.removed.insert(change.id);
            map.insert(place, collected);
        }
        let ghost middle = map@;
        if let Some(range) = change.range {
            let bucket = CodeBlockSizeBucket::new(range);
            let place = SpaceBucket { space: range.space(), bucket };
            let mut collected: CodeBlockSizeBucketChange = take_change(&mut map, place);
            collected.inserted = true;
            map.insert(place, collected);
        }
        proof {
            assert(changes@.take(i + 1) =~= seen.push(change));
            assert forall|place: SpaceBucket| #[trigger]
                map@.contains_key(place) <==> touches(seen.push(change), place) by {
                lemma_push_change(seen, change, place);
                assert(before.contains_key(place) <==> touches(seen, place));
            }
            assert forall|place: SpaceBucket| #[trigger] map@.contains_key(place) implies {
                &&& place.bucket.0 <= 16
                &&& map@[place].removed.wf()
                &&& map@[place].inserted == some_enters(seen.push(change), place)
                &&& map@[place].removed@ == leaving(seen.push(change), place)
            } by {
                lemma_push_change(seen, change, place);
                if !before.contains_key(place) {
                    assert(!touches(seen, place));
                    assert(leaving(seen, place) =~= Set::<CodeBlockId>::empty()) by {
                        assert forall|id: CodeBlockId| !leaving(seen, place).contains(id) by {
                            if leaving(seen, place).contains(id) {
                                let k = choose|k: int|
                                    0 <= k < seen.len() && (#[trigger] seen[k]).id == id && leaves(
                                        seen[k],
                                        place,
                                    );
                                assert(leaves(seen[k], place));
                            }
                        }
                    }
                    assert(!some_enters(seen, place)) by {
                        if some_enters(seen, place) {
                            let k = choose|k: int|
                                0 <= k < seen.len() && enters(#[trigger] seen[k], place);
                            assert(enters(seen[k], place));
                        }
                    }
                }
            }
        }
        i = i + 1;
    }
    assert(changes@.take(i as int) =~= changes@);
    map
}

impl StoredBlockIndex {
    /// What is to be written about where blocks lie.
    pub fn append_prepared_writes(&self, changes: &Vec<BlockRangeChange>) -> (writes: Vec<
        BlockIndexWrite,
    >)
        requires
            self.wf(),
            forall|i: int| 0 <= i < changes@.len() ==> change_sized(#[trigger] changes@[i]),
        ensures
            exists|marks: Seq<BlockIndexWrite>|
                writes@ == change_writes(changes@) + marks && #[trigger] all_marks_written(
                    marks,
                    self@,
                    changes@,
                ),
    {
        let mut writes: Vec<BlockIndexWrite> = Vec::new();
        let mut i: usize = 0;
        assert(changes@.take(0) =~= Seq::empty());
        while i < changes.len()
            invariant
                i <= changes@.len(),
                forall|k: int| 0 <= k < changes@.len() ==> change_sized(#[trigger] changes@[k]),
                writes@ == change_writes(changes@.take(i as int)),
            decreases changes@.len() - i,
        {
            let change: BlockRangeChange = changes[i];
            let ghost before = writes@;
            assert(change_sized(changes@[i as int]));
            if let Some(range) = change.previous {
                let address = range.start_address();
                let bucket = CodeBlockSizeBucket::new(range);
                writes.push(
                    BlockIndexWrite::RemoveStart(CodeBlockStartKey { address, id: change.id }),
                );
                writes.push(
                    BlockIndexWrite::RemoveBucket(
                        CodeBlockSizeBucketKey { address, id: change.id, bucket },
                    ),
                );
            }
            assert(writes@ =~= before + leaving_writes(change));
            let ghost middle = writes@;
            if let Some(range) = change.range {
                let address = range.start_address();
                let bucket = CodeBlockSizeBucket::new(range);
                writes.push(
                    BlockIndexWrite::InsertStart(CodeBlockStartKey { address, id: change.id }),
                );
                writes.push(
                    BlockIndexWrite::InsertBucket {
                        key: CodeBlockSizeBucketKey { address, id: change.id, bucket },
                        end: range.end(),
                    },
                );
            }
            proof {
                assert(writes@ =~= middle + entering_writes(change));
                assert(changes@.take(i + 1).drop_last() =~= changes@.take(i as int));
            }
            i = i + 1;
        }
        assert(changes@.take(i as int) =~= changes@);
        let marks: Vec<BlockIndexWrite> = self.append_bucket_writes(changes);
        let ghost first = writes@;
        let mut k: usize = 0;
        while k < marks.len()
            invariant
                k <= marks@.len(),
                writes@ == first + marks@.take(k as int),
            decreases marks@.len() - k,
        {
            writes.push(marks[k]);
            k = k + 1;
            assert(writes@ =~= first + marks@.take(k as int));
        }
        assert(marks@.take(k as int) =~= marks@);
        writes
    }

    /// What is to be written about which buckets hold blocks.
    pub fn append_bucket_writes(&self, changes: &Vec<BlockRangeChange>) -> (writes: Vec<
        BlockIndexWrite,
    >)
        requires
            self.wf(),
            forall|i: int| 0 <= i < changes@.len() ==> change_sized(#[trigger] changes@[i]),
        ensures
            all_marks_written(writes@, self@, changes@),
    {
        let collected: SortedMap<SpaceBucket, CodeBlockSizeBucketChange> = collect_changes(changes);
        let ghost places = collected.keys@;
        let mut records: SortedMap<AddressSpaceId, CodeBlockSizeBucketsRecord> = SortedMap::new();
        let mut i: usize = 0;
        while i < collected.keys.len()
            invariant
                i <= places.len(),
                places == collected.keys@,
                self.wf(),
                collected.wf(),
                collects(collected@, changes@),
                records.wf(),
                forall|space: AddressSpaceId| #[trigger]
                    records@.contains_key(space) <==> exists|k: int|
                        0 <= k < i && (#[trigger] places[k]).space == space,
                forall|space: AddressSpaceId| #[trigger]
                    records@.contains_key(space) ==> records@[space].wf(),
                forall|space: AddressSpaceId, b: CodeBlockSizeBucket|
                    #![trigger records@[space].marks(b)]
                    records@.contains_key(space) && b.0 <= 16 ==> records@[space].marks(b)
                        == if places.take(i as int).contains(SpaceBucket { space, bucket: b }) {
                        marked_after(self@, changes@, SpaceBucket { space, bucket: b })
                    } else {
                        is_marked(self@.sets, SpaceBucket { space, bucket: b })
                    },
            decreases places.len() - i,
        {
            let place: SpaceBucket = collected.keys[i];
            let ghost seen = places.take(i as int);
            let ghost before = records@;
            proof {
                collected.lemma_entry(i as int);
                assert(collected@.contains_key(place));
                assert(touches(changes@, place));
            }
            let change: &CodeBlockSizeBucketChange = &collected.values[i];
            let occupied: bool = change.inserted || self.bucket_has_remaining_block(
                place.space,
                place.bucket,
                &change.removed,
            );
            assert(place == (SpaceBucket { space: place.space, bucket: place.bucket }));
            assert(occupied == marked_after(self@, changes@, place));
            let mut record: CodeBlockSizeBucketsRecord = match records.get(&place.space) {
                Some(record) => *record,
                None => match self.bucket_sets.get(&place.space) {
                    Some(record) => *record,
                    None => CodeBlockSizeBucketsRecord::empty(),
                },
            };
            let ghost first = record;
            proof {
                assert forall|b: CodeBlockSizeBucket| b.0 <= 16 implies #[trigger] first.marks(b)
                    == if seen.contains(SpaceBucket { space: place.space, bucket: b }) {
                    marked_after(self@, changes@, SpaceBucket { space: place.space, bucket: b })
                } else {
                    is_marked(self@.sets, SpaceBucket { space: place.space, bucket: b })
                } by {
                    if before.contains_key(place.space) {
                        assert(before[place.space].marks(b) == first.marks(b));
                    } else {
                        if seen.contains(SpaceBucket { space: place.space, bucket: b }) {
                            let k = seen.index_of(SpaceBucket { space: place.space, bucket: b });
                            assert(places[k].space == place.space);
                        }
                    }
                }
            }
            if occupied {
                record.insert(place.bucket);
            } else {
                record.remove(place.bucket);
            }
            records.insert(place.space, record);
            proof {
                let more = places.take(i + 1);
                assert(more =~= seen.push(place));
                assert forall|space: AddressSpaceId| #[trigger]
                    records@.contains_key(space) <==> exists|k: int|
                        0 <= k < i + 1 && (#[trigger] places[k]).space == space by {
                    if before.contains_key(space) {
                        let k = choose|k: int| 0 <= k < i && (#[trigger] places[k]).space == space;
                        assert(places[k].space == space);
                    }
                    if space == place.space {
                        assert(places[i as int].space == space);
                    }
                    if exists|k: int| 0 <= k < i + 1 && (#[trigger] places[k]).space == space {
                        let k = choose|k: int|
                            0 <= k < i + 1 && (#[trigger] places[k]).space == space;
                        if k < i {
                            assert(before.contains_key(space));
                        }
                    }
                }
                assert forall|space: AddressSpaceId, b: CodeBlockSizeBucket|
                    #![trigger records@[space].marks(b)]
                    records@.contains_key(space) && b.0 <= 16 implies records@[space].marks(b)
                    == if more.contains(SpaceBucket { space, bucket: b }) {
                    marked_after(self@, changes@, SpaceBucket { space, bucket: b })
                } else {
                    is_marked(self@.sets, SpaceBucket { space, bucket: b })
                } by {
                    let own = SpaceBucket { space, bucket: b };
                    lemma_push_has(seen, place, own);
                    if space == place.space {
                        assert(record.marks(b) == records@[space].marks(b));
                        assert(first.marks(b) == first.marks(b));
                        if b == place.bucket {
                            assert(own == place);
                        }
                    } else {
                        assert(before.contains_key(space));
                        assert(before[space].marks(b) == records@[space].marks(b));
                    }
                }
            }
            i = i + 1;
        }
        proof {
            assert(places.take(i as int) =~= places);
            assert forall|space: AddressSpaceId, b: CodeBlockSizeBucket|
                #![trigger records@[space].marks(b)]
                records@.contains_key(space) && b.0 <= 16 implies records@[space].marks(b)
                == marked_after(self@, changes@, SpaceBucket { space, bucket: b }) by {
                let place = SpaceBucket { space, bucket: b };
                assert(places.contains(place) <==> collected@.contains_key(place));
                assert(collected@.contains_key(place) <==> touches(changes@, place));
            }
        }
        let mut writes: Vec<BlockIndexWrite> = Vec::new();
        let ghost spaces = records.keys@;
        let mut k: usize = 0;
        while k < records.keys.len()
            invariant
                k <= spaces.len(),
                spaces == records.keys@,
                records.wf(),
                forall|space: AddressSpaceId| #[trigger]
                    records@.contains_key(space) ==> records@[space].wf(),
                forall|space: AddressSpaceId, b: CodeBlockSizeBucket|
                    #![trigger records@[space].marks(b)]
                    records@.contains_key(space) && b.0 <= 16 ==> records@[space].marks(b)
                        == marked_after(self@, changes@, SpaceBucket { space, bucket: b }),
                writes@.len() == k,
                forall|m: int|
                    0 <= m < k ==> writes_marks(
                        #[trigger] writes@[m],
                        self@,
                        changes@,
                        spaces[m],
                    ),
            decreases spaces.len() - k,
        {
            proof {
                records.lemma_entry(k as int);
            }
            let space: AddressSpaceId = records.keys[k];
            let record: CodeBlockSizeBucketsRecord = records.values[k];
            assert(records@.contains_key(space));
            if record.is_empty() {
                proof {
                    assert forall|b: CodeBlockSizeBucket| b.0 <= 16 implies !#[trigger] marked_after(
                        self@,
                        changes@,
                        SpaceBucket { space, bucket: b },
                    ) by {
                        assert(!records@[space].marks(b));
                    }
                }
                writes.push(BlockIndexWrite::RemoveBuckets(space));
            } else {
                writes.push(BlockIndexWrite::InsertBuckets { space, record });
                proof {
                    assert forall|b: CodeBlockSizeBucket| b.0 <= 16 implies #[trigger] record.marks(b)
                        == marked_after(self@, changes@, SpaceBucket { space, bucket: b }) by {
                        assert(records@[space].marks(b) == record.marks(b));
                    }
                }
            }
            k = k + 1;
        }
        proof {
            assert forall|space: AddressSpaceId| #[trigger] spaces.contains(space) <==> touches_space(
                changes@,
                space,
            ) by {
                assert(spaces.contains(space) <==> records@.contains_key(space));
                if records@.contains_key(space) {
                    let m = choose|m: int| 0 <= m < places.len() && (#[trigger] places[m]).space
                        == space;
                    assert(places.contains(places[m]));
                    assert(collected@.contains_key(places[m]));
                    assert(places[m] == (SpaceBucket { space, bucket: places[m].bucket }));
                    assert(touches(changes@, SpaceBucket { space, bucket: places[m].bucket }));
                }
                if touches_space(changes@, space) {
                    let bucket = choose|bucket: CodeBlockSizeBucket| #[trigger]
                        touches(changes@, SpaceBucket { space, bucket });
                    let place = SpaceBucket { space, bucket };
                    assert(collected@.contains_key(place));
                    let m = collected.lemma_place(place);
                    assert(places[m].space == space);
                }
            }
            assert(marks_written_for(writes@, self@, changes@, spaces));
        }
        writes
    }

    /// Makes writes.
    pub fn apply(&mut self, writes: &Vec<BlockIndexWrite>)
        requires
            old(self).wf(),
            forall|i: int|
                0 <= i < writes@.len() ==> (#[trigger] writes@[i] matches BlockIndexWrite::InsertBuckets {
                    record,
                    ..
                } ==> record.wf()),
        ensures
            final(self).wf(),
            final(self)@ == all_index_written(old(self)@, writes@),
    {
        let ghost before = self@;
        let mut i: usize = 0;
        assert(writes@.take(0) =~= Seq::empty());
        while i < writes.len()
            invariant
                i <= writes@.len(),
                self.wf(),
                forall|k: int|
                    0 <= k < writes@.len() ==> (
                    #[trigger] writes@[k] matches BlockIndexWrite::InsertBuckets { record, .. }
                        ==> record.wf()),
                self@ == all_index_written(before, writes@.take(i as int)),
            decreases writes@.len() - i,
        {
            let write: BlockIndexWrite = writes[i];
            match write {
                BlockIndexWrite::InsertStart(key) => {
                    self.starts.insert(key);
                },
                BlockIndexWrite::RemoveStart(key) => {
                    self.starts.remove(&key);
                },
                BlockIndexWrite::InsertBucket { key, end } => {
                    self.buckets.insert(key, end);
                },
                BlockIndexWrite::RemoveBucket(key) => {
                    self.buckets.remove(&key);
                },
                BlockIndexWrite::InsertBuckets { space, record } => {
                    assert(writes@[i as int] matches BlockIndexWrite::InsertBuckets { record, .. }
                        ==> record.wf());
                    self.bucket_sets.insert(space, record);
                },
                BlockIndexWrite::RemoveBuckets(space) => {
                    self.bucket_sets.remove(&space);
                },
            }
            assert(writes@.take(i + 1).drop_last() =~= writes@.take(i as int));
            i = i + 1;
        }
        assert(writes@.take(i as int) =~= writes@);
    }
}

proof fn lemma_push_has<A>(seen: Seq<A>, last: A, a: A)
    ensures
        seen.push(last).contains(a) <==> seen.contains(a) || a == last,
{
    if seen.contains(a) {
        assert(seen.push(last)[seen.index_of(a)] == a);
    }
    assert(seen.push(last)[seen.len() as int] == last);
    if seen.push(last).contains(a) && a != last {
        let i = seen.push(last).index_of(a);
        assert(seen[i] == a);
    }
}

/// Writes made in two parts.
proof fn lemma_written_in_parts(
    view: BlockIndexView,
    first: Seq<BlockIndexWrite>,
    second: Seq<BlockIndexWrite>,
)
    ensures
        all_index_written(view, first + second) == all_index_written(
            all_index_written(view, first),
            second,
        ),
    decreases second.len(),
{
    if second.len() == 0 {
        assert(first + second =~= first);
    } else {
        lemma_written_in_parts(view, first, second.drop_last());
        assert((first + second).drop_last() =~= first + second.drop_last());
    }
}

/// One change keeps the beginnings and the entries by size right.
proof fn lemma_change_written(view: BlockIndexView, ranges: BlockRanges, change: BlockRangeChange)
    requires
        starts_agree(view.starts, ranges),
        buckets_agree(view.buckets, ranges),
        change.previous == ranges.get(change.id),
    ensures
        ({
            let after = all_index_written(
                view,
                leaving_writes(change) + entering_writes(change),
            );
            &&& starts_agree(after.starts, range_changed(ranges, change))
            &&& buckets_agree(after.buckets, range_changed(ranges, change))
            &&& after.sets == view.sets
        }),
{
    reveal_with_fuel(all_index_written, 3);
    let left = all_index_written(view, leaving_writes(change));
    lemma_written_in_parts(view, leaving_writes(change), entering_writes(change));
    let after = all_index_written(left, entering_writes(change));
    let later = range_changed(ranges, change);
    match change.previous {
        Some(range) => {
            let writes = leaving_writes(change);
            assert(writes.drop_last() =~= seq![writes[0]]);
            assert(seq![writes[0]].drop_last() =~= Seq::<BlockIndexWrite>::empty());
        },
        None => {},
    }
    match change.range {
        Some(range) => {
            let writes = entering_writes(change);
            assert(writes.drop_last() =~= seq![writes[0]]);
            assert(seq![writes[0]].drop_last() =~= Seq::<BlockIndexWrite>::empty());
        },
        None => {},
    }
    assert forall|key: CodeBlockStartKey| #[trigger] after.starts.contains(key)
        <==> later.contains_key(key.id) && key == start_key(key.id, later[key.id]) by {
        assert(view.starts.contains(key) <==> ranges.contains_key(key.id) && key == start_key(
            key.id,
            ranges[key.id],
        ));
    }
    assert forall|key: CodeBlockSizeBucketKey| #[trigger] after.buckets.contains_key(key)
        <==> later.contains_key(key.id) && key == bucket_key(key.id, later[key.id]) by {
        assert(view.buckets.contains_key(key) <==> ranges.contains_key(key.id) && key == bucket_key(
            key.id,
            ranges[key.id],
        ));
    }
    assert forall|key: CodeBlockSizeBucketKey| #[trigger]
        after.buckets.contains_key(key) implies after.buckets[key] == later[key.id].end by {
        assert(view.buckets.contains_key(key) <==> ranges.contains_key(key.id) && key == bucket_key(
            key.id,
            ranges[key.id],
        ));
    }
}

/// Where a block lies after changes that are about others.
proof fn lemma_untouched(ranges: BlockRanges, changes: Seq<BlockRangeChange>, id: CodeBlockId)
    requires
        forall|i: int| 0 <= i < changes.len() ==> (#[trigger] changes[i]).id != id,
    ensures
        ranges_changed(ranges, changes).get(id) == ranges.get(id),
    decreases changes.len(),
{
    if changes.len() > 0 {
        let front = changes.drop_last();
        assert forall|i: int| 0 <= i < front.len() implies (#[trigger] front[i]).id != id by {
            assert(changes[i].id != id);
        }
        lemma_untouched(ranges, front, id);
        assert(changes[changes.len() - 1].id != id);
    }
}

/// Where a block lies after changes of which one is about it.
pub proof fn lemma_touched(ranges: BlockRanges, changes: Seq<BlockRangeChange>, at: int)
    requires
        0 <= at < changes.len(),
        forall|i: int, j: int|
            0 <= i < j < changes.len() ==> (#[trigger] changes[i]).id != (#[trigger] changes[j]).id,
    ensures
        ranges_changed(ranges, changes).get(changes[at].id) == changes[at].range,
    decreases changes.len(),
{
    let front = changes.drop_last();
    if at < changes.len() - 1 {
        assert forall|i: int, j: int| 0 <= i < j < front.len() implies (#[trigger] front[i]).id != (
        #[trigger] front[j]).id by {
            assert(changes[i].id != changes[j].id);
        }
        lemma_touched(ranges, front, at);
        assert(front[at] == changes[at]);
        assert(changes[at].id != changes[changes.len() - 1].id);
    }
}

/// Changes keep the beginnings and the entries by size right.
proof fn lemma_changes_written(
    view: BlockIndexView,
    ranges: BlockRanges,
    changes: Seq<BlockRangeChange>,
)
    requires
        starts_agree(view.starts, ranges),
        buckets_agree(view.buckets, ranges),
        all_sized(ranges),
        changes_fit(ranges, changes),
    ensures
        ({
            let after = all_index_written(view, change_writes(changes));
            &&& starts_agree(after.starts, ranges_changed(ranges, changes))
            &&& buckets_agree(after.buckets, ranges_changed(ranges, changes))
            &&& all_sized(ranges_changed(ranges, changes))
            &&& after.sets == view.sets
        }),
    decreases changes.len(),
{
    if changes.len() > 0 {
        let front = changes.drop_last();
        let last = changes.last();
        assert forall|i: int, j: int| 0 <= i < j < front.len() implies (#[trigger] front[i]).id != (
        #[trigger] front[j]).id by {
            assert(changes[i].id != changes[j].id);
        }
        assert forall|i: int| 0 <= i < front.len() implies change_sized(#[trigger] front[i])
            && front[i].previous == ranges.get(front[i].id) by {
            assert(front[i] == changes[i]);
        }
        lemma_changes_written(view, ranges, front);
        assert forall|i: int| 0 <= i < front.len() implies (#[trigger] front[i]).id != last.id by {
            assert(changes[i].id != changes[changes.len() - 1].id);
        }
        lemma_untouched(ranges, front, last.id);
        let before = all_index_written(view, change_writes(front));
        lemma_written_in_parts(
            view,
            change_writes(front),
            leaving_writes(last) + entering_writes(last),
        );
        assert(change_writes(changes) =~= change_writes(front) + (leaving_writes(last)
            + entering_writes(last)));
        assert(last == changes[changes.len() - 1]);
        lemma_change_written(before, ranges_changed(ranges, front), last);
    }
}

/// Setting the marks of spaces leaves all else alone and sets them as they are after the
/// changes.
proof fn lemma_marks_written(
    base: BlockIndexView,
    writes: Seq<BlockIndexWrite>,
    view: BlockIndexView,
    changes: Seq<BlockRangeChange>,
    spaces: Seq<AddressSpaceId>,
)
    requires
        ascending(spaces),
        writes.len() == spaces.len(),
        forall|i: int|
            0 <= i < writes.len() ==> writes_marks(#[trigger] writes[i], view, changes, spaces[i]),
    ensures
        ({
            let after = all_index_written(base, writes);
            &&& after.starts == base.starts
            &&& after.buckets == base.buckets
            &&& forall|space: AddressSpaceId|
                !#[trigger] spaces.contains(space) ==> after.sets.get(space) == base.sets.get(space)
            &&& forall|space: AddressSpaceId, b: CodeBlockSizeBucket|
                #![trigger is_marked(after.sets, SpaceBucket { space, bucket: b })]
                spaces.contains(space) && b.0 <= 16 ==> is_marked(
                    after.sets,
                    SpaceBucket { space, bucket: b },
                ) == marked_after(view, changes, SpaceBucket { space, bucket: b })
            &&& forall|space: AddressSpaceId|
                #[trigger] spaces.contains(space) && after.sets.contains_key(space)
                    ==> after.sets[space].wf() && exists|b: CodeBlockSizeBucket|
                    b.0 <= 16 && #[trigger] after.sets[space].marks(b)
        }),
    decreases writes.len(),
{
    if writes.len() > 0 {
        let front = writes.drop_last();
        let fewer = spaces.drop_last();
        let last = spaces.last();
        assert forall|i: int| 0 <= i < front.len() implies writes_marks(
            #[trigger] front[i],
            view,
            changes,
            fewer[i],
        ) by {
            assert(writes_marks(writes[i], view, changes, spaces[i]));
        }
        lemma_marks_written(base, front, view, changes, fewer);
        let before = all_index_written(base, front);
        let after = all_index_written(base, writes);
        assert(spaces =~= fewer.push(last));
        assert(writes_marks(writes[writes.len() - 1], view, changes, last));
        if fewer.contains(last) {
            let k = fewer.index_of(last);
            assert(spaces[k].rank() < spaces[spaces.len() - 1].rank());
        }
        assert forall|space: AddressSpaceId| !#[trigger] spaces.contains(space) implies after.sets.get(
            space,
        ) == base.sets.get(space) by {
            lemma_push_has(fewer, last, space);
        }
        assert forall|space: AddressSpaceId, b: CodeBlockSizeBucket|
            #![trigger is_marked(after.sets, SpaceBucket { space, bucket: b })]
            spaces.contains(space) && b.0 <= 16 implies is_marked(
            after.sets,
            SpaceBucket { space, bucket: b },
        ) == marked_after(view, changes, SpaceBucket { space, bucket: b }) by {
            lemma_push_has(fewer, last, space);
            if space != last {
                assert(is_marked(before.sets, SpaceBucket { space, bucket: b }) == marked_after(
                    view,
                    changes,
                    SpaceBucket { space, bucket: b },
                ));
            } else {
                match writes.last() {
                    BlockIndexWrite::InsertBuckets { space: own, record } => {
                        assert(record.marks(b) == marked_after(
                            view,
                            changes,
                            SpaceBucket { space, bucket: b },
                        ));
                    },
                    _ => {},
                }
            }
        }
        assert forall|space: AddressSpaceId|
            #[trigger] spaces.contains(space) && after.sets.contains_key(
                space,
            ) implies after.sets[space].wf() && exists|b: CodeBlockSizeBucket|
            b.0 <= 16 && #[trigger] after.sets[space].marks(b) by {
            lemma_push_has(fewer, last, space);
            if space != last {
                assert(fewer.contains(space));
                assert(before.sets.contains_key(space));
                assert(before.sets[space] == after.sets[space]);
            } else {
                match writes.last() {
                    BlockIndexWrite::InsertBuckets { space: own, record } => {
                        let b = choose|b: CodeBlockSizeBucket| b.0 <= 16 && #[trigger] record.marks(b);
                        assert(after.sets[space].marks(b));
                    },
                    _ => {},
                }
            }
        }
    }
}

/// Once what changes write is written, the index describes the blocks as they lie after the
/// changes.
pub proof fn law_writes_keep_index_right(
    view: BlockIndexView,
    ranges: BlockRanges,
    changes: Seq<BlockRangeChange>,
    marks: Seq<BlockIndexWrite>,
)
    requires
        view.describes(ranges),
        changes_fit(ranges, changes),
        all_marks_written(marks, view, changes),
    ensures
        all_index_written(view, change_writes(changes) + marks).describes(
            ranges_changed(ranges, changes),
        ),
{
    let spaces = choose|spaces: Seq<AddressSpaceId>| #[trigger]
        marks_written_for(marks, view, changes, spaces);
    let middle = all_index_written(view, change_writes(changes));
    let after = all_index_written(middle, marks);
    let later = ranges_changed(ranges, changes);
    lemma_written_in_parts(view, change_writes(changes), marks);
    lemma_changes_written(view, ranges, changes);
    lemma_marks_written(middle, marks, view, changes, spaces);
    assert forall|place: SpaceBucket|
        place.bucket.0 <= 16 implies #[trigger] is_marked(after.sets, place) == has_block(
        later,
        place,
    ) by {
        assert(place == (SpaceBucket { space: place.space, bucket: place.bucket }));
        lemma_marked_rightly(view, ranges, changes, place);
        if spaces.contains(place.space) {
            assert(is_marked(
                after.sets,
                SpaceBucket { space: place.space, bucket: place.bucket },
            ) == marked_after(
                view,
                changes,
                SpaceBucket { space: place.space, bucket: place.bucket },
            ));
        } else {
            assert(!touches_space(changes, place.space));
            assert(!touches(changes, SpaceBucket { space: place.space, bucket: place.bucket }));
            assert(after.sets.get(place.space) == view.sets.get(place.space));
        }
    }
    assert forall|space: AddressSpaceId| #[trigger]
        after.sets.contains_key(space) implies after.sets[space].wf() && exists|
        b: CodeBlockSizeBucket,
    |
        b.0 <= 16 && #[trigger] after.sets[space].marks(b) by {
        if !spaces.contains(space) {
            assert(after.sets.get(space) == view.sets.get(space));
            assert(view.sets.contains_key(space));
            let b = choose|b: CodeBlockSizeBucket| b.0 <= 16 && #[trigger] view.sets[space].marks(b);
            assert(after.sets[space].marks(b));
        }
    }
}

/// A space and bucket is marked after changes where a block lies in it.
proof fn lemma_marked_rightly(
    view: BlockIndexView,
    ranges: BlockRanges,
    changes: Seq<BlockRangeChange>,
    place: SpaceBucket,
)
    requires
        view.describes(ranges),
        changes_fit(ranges, changes),
        place.bucket.0 <= 16,
    ensures
        marked_after(view, changes, place) == has_block(ranges_changed(ranges, changes), place),
{
    let later = ranges_changed(ranges, changes);
    assert(is_marked(view.sets, place) == has_block(ranges, place));
    if has_block(later, place) {
        let id = choose|id: CodeBlockId| #[trigger]
            later.contains_key(id) && place_of(later[id]) == place;
        if exists|i: int| 0 <= i < changes.len() && (#[trigger] changes[i]).id == id {
            let i = choose|i: int| 0 <= i < changes.len() && (#[trigger] changes[i]).id == id;
            lemma_touched(ranges, changes, i);
            assert(later.get(id) == Some(later[id]));
            assert(enters(changes[i], place));
            assert(touches(changes, place));
            assert(some_enters(changes, place));
        } else {
            lemma_untouched(ranges, changes, id);
            assert(later.get(id) == Some(later[id]));
            assert(ranges.contains_key(id));
            let key = bucket_key(id, ranges[id]);
            assert(view.buckets.contains_key(key));
            assert(key.place() == place);
            assert(!leaving(changes, place).contains(id));
            assert(has_other(view, place, leaving(changes, place)));
            assert(has_block(ranges, place));
        }
    }
    if marked_after(view, changes, place) {
        if touches(changes, place) {
            if some_enters(changes, place) {
                let i = choose|i: int| 0 <= i < changes.len() && enters(#[trigger] changes[i], place);
                lemma_touched(ranges, changes, i);
                assert(later.get(changes[i].id) == changes[i].range);
                assert(later.contains_key(changes[i].id));
                assert(place_of(later[changes[i].id]) == place);
            } else {
                let key = choose|key: CodeBlockSizeBucketKey| #[trigger]
                    view.buckets.contains_key(key) && key.place() == place && !leaving(
                        changes,
                        place,
                    ).contains(key.id);
                let id = key.id;
                assert(ranges.contains_key(id) && key == bucket_key(id, ranges[id]));
                assert(place_of(ranges[id]) == place);
                assert forall|i: int| 0 <= i < changes.len() implies (#[trigger] changes[i]).id
                    != id by {
                    if changes[i].id == id {
                        assert(changes[i].previous == ranges.get(id));
                        assert(leaves(changes[i], place));
                    }
                }
                lemma_untouched(ranges, changes, id);
                assert(later.get(id) == Some(ranges[id]));
                assert(later.contains_key(id));
            }
        } else {
            let id = choose|id: CodeBlockId| #[trigger]
                ranges.contains_key(id) && place_of(ranges[id]) == place;
            assert forall|i: int| 0 <= i < changes.len() implies (#[trigger] changes[i]).id
                != id by {
                if changes[i].id == id {
                    assert(changes[i].previous == ranges.get(id));
                    assert(leaves(changes[i], place));
                    assert(touches(changes, place));
                }
            }
            lemma_untouched(ranges, changes, id);
            assert(later.get(id) == Some(ranges[id]));
            assert(later.contains_key(id));
        }
    }
}

} // verus!
