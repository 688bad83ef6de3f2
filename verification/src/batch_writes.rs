//! What a prepared batch writes, taken together, where tables are stored.
use vstd::prelude::*;

use crate::address::Address;
use crate::block::{CodeBlock, CodeBlockEntity, CodeBlockId, CodeBlockView};
use crate::block_buckets::{
    block_sized, BlockIndexView, BlockIndexWrite, BlockRangeChange, BlockRanges, StoredBlockIndex,
};
use crate::block_holders::held;
use crate::block_index_writes::{
    all_index_written, all_marks_written, change_sized, change_writes, changes_fit,
    law_writes_keep_index_right, ranges_changed,
};
use crate::block_table::CodeBlockTable;
use crate::function::{Function, FunctionEntity, FunctionId, FunctionView};
use crate::function_table::{merged, FunctionTable};
use crate::id::Id;
use crate::keyed_table::reindexed;
use crate::order::{ascending, Ranked};
use crate::prepared::{
    block_changes, blocks_published, can_give_back, function_changes, functions_published, index_published,
    prepares, PreparedCodeBlockRecord, PreparedFunctionBatch, PreparedFunctionRecord,
};
use crate::prepared_writes::{
    all_entry_writes, all_holders_written, append_entry_writes, append_holder_writes,
    are_holder_writes, block_goes, block_transition, blocks_added, blocks_removed, entry_writes,
    function_transition, functions_added, functions_released, functions_removed,
    law_holder_writes_reach_batch, range_changes, record_changes, FunctionBlockKey,
    FunctionIndexWrite, TableTransition,
};
use crate::staging::{lemma_next_ids, tables, FunctionTableStaging};
use crate::stored_ids::{IdWrite, PersistentIdAllocator};
use crate::stored_writes::{all_entries_written, entries_written};

verus! {

/// What is written of the entries themselves: for each identity what stands under it from now
/// on, in the order of the records. A record that is of nothing writes nothing.
pub open spec fn function_rows(records: Seq<PreparedFunctionRecord>) -> Seq<
    (FunctionId, Option<FunctionView>),
>
    decreases records.len(),
{
    if records.len() == 0 {
        Seq::empty()
    } else {
        let before = function_rows(records.drop_last());
        let last = records.last();
        if last.function is None && last.previous is None {
            before
        } else {
            before.push((last.id, last@.function))
        }
    }
}

/// The same of blocks.
pub open spec fn block_rows(records: Seq<PreparedCodeBlockRecord>) -> Seq<
    (CodeBlockId, Option<CodeBlockView>),
>
    decreases records.len(),
{
    if records.len() == 0 {
        Seq::empty()
    } else {
        let before = block_rows(records.drop_last());
        let last = records.last();
        if last.block is None && last.previous is None {
            before
        } else {
            before.push((last.id, last@.block))
        }
    }
}

/// A row of a function, apart from how it is stored.
pub open spec fn function_row(row: (FunctionId, Option<&Function>)) -> (
    FunctionId,
    Option<FunctionView>,
) {
    (
        row.0,
        match row.1 {
            Some(function) => Some(function@),
            None => None,
        },
    )
}

/// A row of a block, apart from how it is stored.
pub open spec fn block_row(row: (CodeBlockId, Option<&CodeBlock>)) -> (
    CodeBlockId,
    Option<CodeBlockView>,
) {
    (
        row.0,
        match row.1 {
            Some(block) => Some(block@),
            None => None,
        },
    )
}

/// Rows of functions, apart from how they are stored.
pub open spec fn shown_function_rows(rows: Seq<(FunctionId, Option<&Function>)>) -> Seq<
    (FunctionId, Option<FunctionView>),
> {
    rows.map_values(|row: (FunctionId, Option<&Function>)| function_row(row))
}

/// Rows of blocks, apart from how they are stored.
pub open spec fn shown_block_rows(rows: Seq<(CodeBlockId, Option<&CodeBlock>)>) -> Seq<
    (CodeBlockId, Option<CodeBlockView>),
> {
    rows.map_values(|row: (CodeBlockId, Option<&CodeBlock>)| block_row(row))
}

/// The rows of the functions of a batch.
pub fn append_function_rows(records: &Vec<PreparedFunctionRecord>) -> (rows: Vec<
    (FunctionId, Option<&Function>),
>)
    ensures
        shown_function_rows(rows@) == function_rows(records@),
{
    let mut rows: Vec<(FunctionId, Option<&Function>)> = Vec::new();
    let mut i: usize = 0;
    proof {
        assert(records@.take(0) =~= Seq::empty());
        assert(shown_function_rows(rows@) =~= Seq::empty());
    }
    while i < records.len()
        invariant
            i <= records@.len(),
            shown_function_rows(rows@) == function_rows(records@.take(i as int)),
        decreases records@.len() - i,
    {
        let record: &PreparedFunctionRecord = &records[i];
        let ghost before = rows@;
        assert(records@.take(i + 1).drop_last() =~= records@.take(i as int));
        if record.function.is_some() || record.previous.is_some() {
            rows.push((record.id, record.function.as_ref()));
            assert(shown_function_rows(rows@) =~= shown_function_rows(before).push(
                (record.id, record@.function),
            ));
        }
        i = i + 1;
    }
    assert(records@.take(i as int) =~= records@);
    rows
}

/// The rows of the blocks of a batch.
pub fn append_block_rows(records: &Vec<PreparedCodeBlockRecord>) -> (rows: Vec<
    (CodeBlockId, Option<&CodeBlock>),
>)
    ensures
        shown_block_rows(rows@) == block_rows(records@),
{
    let mut rows: Vec<(CodeBlockId, Option<&CodeBlock>)> = Vec::new();
    let mut i: usize = 0;
    proof {
        assert(records@.take(0) =~= Seq::empty());
        assert(shown_block_rows(rows@) =~= Seq::empty());
    }
    while i < records.len()
        invariant
            i <= records@.len(),
            shown_block_rows(rows@) == block_rows(records@.take(i as int)),
        decreases records@.len() - i,
    {
        let record: &PreparedCodeBlockRecord = &records[i];
        let ghost before = rows@;
        assert(records@.take(i + 1).drop_last() =~= records@.take(i as int));
        if record.block.is_some() || record.previous.is_some() {
            rows.push((record.id, record.block.as_ref()));
            assert(shown_block_rows(rows@) =~= shown_block_rows(before).push(
                (record.id, record@.block),
            ));
        }
        i = i + 1;
    }
    assert(records@.take(i as int) =~= records@);
    rows
}

/// Whether identities can be handed back.
pub open spec fn releasable<T>(ids: Seq<Id<T>>) -> bool {
    forall|i: int|
        0 <= i < ids.len() ==> (#[trigger] ids[i]).id < u32::MAX && ids[i].generation < u32::MAX - 1
}

/// Whether an allocator can take identities, and can count entries that come and go.
pub open spec fn takes_batch<T>(
    allocator: PersistentIdAllocator<T>,
    reservations: Seq<Id<T>>,
    added: int,
    removed: int,
) -> bool {
    &&& allocator.wf()
    &&& forall|i: int| 0 <= i < reservations.len() ==> (#[trigger] reservations[i]).id < u32::MAX
    &&& allocator.state.live + added <= usize::MAX
    &&& removed <= allocator.state.live + added
}

/// Whether the functions of a batch can be written.
pub open spec fn functions_writable(
    allocator: PersistentIdAllocator<FunctionEntity>,
    batch: PreparedFunctionBatch,
) -> bool {
    &&& takes_batch(
        allocator,
        batch.function_reservations@,
        functions_added(batch.functions@),
        functions_removed(batch.functions@),
    )
    &&& batch.cancelled_functions.wf()
    &&& batch.by_block.wf()
    &&& batch.original_by_block.wf()
    &&& releasable(batch.cancelled_functions.items@ + functions_released(batch.functions@))
}

/// Whether these are the writes about the functions of a batch: where functions are entered, in
/// the order of the records, then which blocks they are made of; and how their identities are
/// handed out from now on.
pub open spec fn writes_functions(
    allocator: PersistentIdAllocator<FunctionEntity>,
    batch: PreparedFunctionBatch,
    index: Seq<FunctionIndexWrite>,
    ids: Seq<IdWrite>,
) -> bool {
    &&& exists|holders: Seq<FunctionIndexWrite>|
        index == all_entry_writes(batch.functions@) + holders && #[trigger] are_holder_writes(
            holders,
            batch.by_block@,
            batch.original_by_block@,
        )
    &&& allocator.writes_transition(
        batch.function_reservations@,
        batch.cancelled_functions.items@ + functions_released(batch.functions@),
        functions_added(batch.functions@),
        functions_removed(batch.functions@),
        ids,
    )
}

/// What is to be written about the functions of a batch.
pub fn append_prepared_writes(
    allocator: &PersistentIdAllocator<FunctionEntity>,
    batch: &PreparedFunctionBatch,
) -> (writes: (Vec<FunctionIndexWrite>, Vec<IdWrite>))
    requires
        functions_writable(*allocator, *batch),
    ensures
        writes_functions(*allocator, *batch, writes.0@, writes.1@),
{
    let mut index: Vec<FunctionIndexWrite> = append_entry_writes(&batch.functions);
    let mut holders: Vec<FunctionIndexWrite> = append_holder_writes(
        &batch.by_block,
        &batch.original_by_block,
    );
    let ghost held_writes = holders@;
    index.append(&mut holders);
    let transition: TableTransition<FunctionEntity> = function_transition(
        &batch.functions,
        &batch.cancelled_functions,
    );
    let ids: Vec<IdWrite> = allocator.append_transition(
        &batch.function_reservations,
        &transition.releases,
        transition.added,
        transition.removed,
    );
    assert(index@ =~= all_entry_writes(batch.functions@) + held_writes);
    (index, ids)
}

/// Whether identities are those of blocks that were cancelled or go, in their order.
pub open spec fn are_block_releases(
    releases: Seq<CodeBlockId>,
    changes: Seq<BlockRangeChange>,
    cancelled: Set<CodeBlockId>,
) -> bool {
    &&& ascending(releases)
    &&& forall|id: CodeBlockId| #[trigger]
        releases.contains(id) <==> cancelled.contains(id) || block_goes(changes, id)
}

/// Whether the blocks of a batch can be written.
pub open spec fn blocks_writable(
    allocator: PersistentIdAllocator<CodeBlockEntity>,
    index: StoredBlockIndex,
    batch: PreparedFunctionBatch,
) -> bool {
    let changes = record_changes(batch.blocks@);
    &&& takes_batch(
        allocator,
        batch.block_reservations@,
        blocks_added(changes),
        blocks_removed(changes),
    )
    &&& index.wf()
    &&& batch.cancelled_blocks.wf()
    &&& forall|i: int|
        0 <= i < batch.blocks@.len() ==> ((#[trigger] batch.blocks@[i]).block matches Some(block)
            ==> block@.fits())
    &&& forall|i: int| 0 <= i < changes.len() ==> change_sized(#[trigger] changes[i])
    &&& forall|id: CodeBlockId|
        #![trigger batch.cancelled_blocks@.contains(id)]
        #![trigger block_goes(changes, id)]
        batch.cancelled_blocks@.contains(id) || block_goes(changes, id) ==> id.id < u32::MAX
            && id.generation < u32::MAX - 1
}

/// Whether these are the writes about the blocks of a batch: where blocks lie, then which
/// buckets of the spaces that are touched hold blocks; and how their identities are handed out
/// from now on.
pub open spec fn writes_blocks(
    allocator: PersistentIdAllocator<CodeBlockEntity>,
    stored: BlockIndexView,
    batch: PreparedFunctionBatch,
    index: Seq<BlockIndexWrite>,
    ids: Seq<IdWrite>,
) -> bool {
    let changes = record_changes(batch.blocks@);
    &&& exists|marks: Seq<BlockIndexWrite>|
        index == change_writes(changes) + marks && #[trigger] all_marks_written(
            marks,
            stored,
            changes,
        )
    &&& exists|releases: Seq<CodeBlockId>| #[trigger]
        are_block_releases(releases, changes, batch.cancelled_blocks@)
            && allocator.writes_transition(
            batch.block_reservations@,
            releases,
            blocks_added(changes),
            blocks_removed(changes),
            ids,
        )
}

/// What is to be written about the blocks of a batch.
pub fn append_prepared_block_writes(
    allocator: &PersistentIdAllocator<CodeBlockEntity>,
    index: &StoredBlockIndex,
    batch: &PreparedFunctionBatch,
) -> (writes: (Vec<BlockIndexWrite>, Vec<IdWrite>))
    requires
        blocks_writable(*allocator, *index, *batch),
    ensures
        writes_blocks(*allocator, index@, *batch, writes.0@, writes.1@),
{
    let changes: Vec<BlockRangeChange> = range_changes(&batch.blocks);
    let index_writes: Vec<BlockIndexWrite> = index.append_prepared_writes(&changes);
    let transition: TableTransition<CodeBlockEntity> = block_transition(
        &changes,
        &batch.cancelled_blocks,
    );
    proof {
        let releases = transition.releases@;
        assert(are_block_releases(releases, changes@, batch.cancelled_blocks@));
        assert forall|i: int| 0 <= i < releases.len() implies (#[trigger] releases[i]).id < u32::MAX
            && releases[i].generation < u32::MAX - 1 by {
            assert(releases.contains(releases[i]));
        }
    }
    let ids: Vec<IdWrite> = allocator.append_transition(
        &batch.block_reservations,
        &transition.releases,
        transition.added,
        transition.removed,
    );
    (index_writes, ids)
}

/// What a batch writes, all together and in this order: the blocks, the functions, what leads to
/// functions and their identities, what leads to blocks and their identities.
pub struct PreparedWrites<'a> {
    pub blocks: Vec<(CodeBlockId, Option<&'a CodeBlock>)>,
    pub functions: Vec<(FunctionId, Option<&'a Function>)>,
    pub function_index: Vec<FunctionIndexWrite>,
    pub function_ids: Vec<IdWrite>,
    pub block_index: Vec<BlockIndexWrite>,
    pub block_ids: Vec<IdWrite>,
}

/// Whether these are all writes of a batch.
pub open spec fn writes_batch(
    function_ids: PersistentIdAllocator<FunctionEntity>,
    block_ids: PersistentIdAllocator<CodeBlockEntity>,
    stored: BlockIndexView,
    batch: PreparedFunctionBatch,
    writes: PreparedWrites<'_>,
) -> bool {
    &&& shown_block_rows(writes.blocks@) == block_rows(batch.blocks@)
    &&& shown_function_rows(writes.functions@) == function_rows(batch.functions@)
    &&& writes_functions(function_ids, batch, writes.function_index@, writes.function_ids@)
    &&& writes_blocks(block_ids, stored, batch, writes.block_index@, writes.block_ids@)
}

/// All that is to be written of a batch.
pub fn append_batch_writes<'a>(
    function_ids: &PersistentIdAllocator<FunctionEntity>,
    block_ids: &PersistentIdAllocator<CodeBlockEntity>,
    block_index: &StoredBlockIndex,
    batch: &'a PreparedFunctionBatch,
) -> (writes: PreparedWrites<'a>)
    requires
        functions_writable(*function_ids, *batch),
        blocks_writable(*block_ids, *block_index, *batch),
    ensures
        writes_batch(*function_ids, *block_ids, block_index@, *batch, writes),
{
    let blocks: Vec<(CodeBlockId, Option<&'a CodeBlock>)> = append_block_rows(&batch.blocks);
    let functions: Vec<(FunctionId, Option<&'a Function>)> = append_function_rows(
        &batch.functions,
    );
    let (function_index, function_id_writes): (Vec<FunctionIndexWrite>, Vec<IdWrite>) =
        append_prepared_writes(function_ids, batch);
    let (block_writes, block_id_writes): (Vec<BlockIndexWrite>, Vec<IdWrite>) =
        append_prepared_block_writes(block_ids, block_index, batch);
    PreparedWrites {
        blocks,
        functions,
        function_index,
        function_ids: function_id_writes,
        block_index: block_writes,
        block_ids: block_id_writes,
    }
}

/// What a store holds under identities after rows, one after another.
pub open spec fn all_rows_written<T, V>(
    stored: Map<Id<T>, V>,
    rows: Seq<(Id<T>, Option<V>)>,
) -> Map<Id<T>, V>
    decreases rows.len(),
{
    if rows.len() == 0 {
        stored
    } else {
        let before = all_rows_written(stored, rows.drop_last());
        match rows.last().1 {
            Some(value) => before.insert(rows.last().0, value),
            None => before.remove(rows.last().0),
        }
    }
}

/// Once the rows of functions are written, a store holds the functions that publishing puts into
/// the table.
pub proof fn law_function_rows_reach_published(
    stored: Map<FunctionId, FunctionView>,
    records: Seq<PreparedFunctionRecord>,
)
    requires
        forall|i: int|
            0 <= i < records.len() ==> (#[trigger] records[i]).function is Some
                || records[i].previous is Some,
    ensures
        all_rows_written(stored, function_rows(records)) == functions_published(stored, records),
    decreases records.len(),
{
    if records.len() > 0 {
        let rest = records.drop_last();
        assert forall|i: int| 0 <= i < rest.len() implies (#[trigger] rest[i]).function is Some
            || rest[i].previous is Some by {
            assert(rest[i] == records[i]);
        }
        law_function_rows_reach_published(stored, rest);
        assert(records[records.len() - 1] == records.last());
        assert(function_rows(records).drop_last() =~= function_rows(rest));
    }
}

/// Once the rows of blocks are written, a store holds the blocks that publishing puts into the
/// table.
pub proof fn law_block_rows_reach_published(
    stored: Map<CodeBlockId, CodeBlockView>,
    records: Seq<PreparedCodeBlockRecord>,
)
    requires
        forall|i: int|
            0 <= i < records.len() ==> (#[trigger] records[i]).block is Some
                || records[i].previous is Some,
    ensures
        all_rows_written(stored, block_rows(records)) == blocks_published(stored, records),
    decreases records.len(),
{
    if records.len() > 0 {
        let rest = records.drop_last();
        assert forall|i: int| 0 <= i < rest.len() implies (#[trigger] rest[i]).block is Some
            || rest[i].previous is Some by {
            assert(rest[i] == records[i]);
        }
        law_block_rows_reach_published(stored, rest);
        assert(records[records.len() - 1] == records.last());
        assert(block_rows(records).drop_last() =~= block_rows(rest));
    }
}

/// Writes in two parts are written one part after the other.
proof fn lemma_entries_in_parts(
    stored: Map<Address, FunctionId>,
    first: Seq<FunctionIndexWrite>,
    second: Seq<FunctionIndexWrite>,
)
    ensures
        all_entries_written(stored, first + second) == all_entries_written(
            all_entries_written(stored, first),
            second,
        ),
    decreases second.len(),
{
    if second.len() == 0 {
        assert(first + second =~= first);
    } else {
        assert((first + second).drop_last() =~= first + second.drop_last());
        lemma_entries_in_parts(stored, first, second.drop_last());
    }
}

/// The same of which functions are made of which blocks.
proof fn lemma_holders_in_parts(
    stored: Set<FunctionBlockKey>,
    first: Seq<FunctionIndexWrite>,
    second: Seq<FunctionIndexWrite>,
)
    ensures
        all_holders_written(stored, first + second) == all_holders_written(
            all_holders_written(stored, first),
            second,
        ),
    decreases second.len(),
{
    if second.len() == 0 {
        assert(first + second =~= first);
    } else {
        assert((first + second).drop_last() =~= first + second.drop_last());
        lemma_holders_in_parts(stored, first, second.drop_last());
    }
}

/// Once the writes about entries are made, a store leads from entries to what publishing lets
/// them lead to.
pub proof fn law_entry_writes_reach_index(
    stored: Map<Address, FunctionId>,
    records: Seq<PreparedFunctionRecord>,
)
    requires
        forall|i: int|
            0 <= i < records.len() ==> (#[trigger] records[i]).function is Some
                || records[i].previous is Some,
    ensures
        all_entries_written(stored, all_entry_writes(records)) == index_published(stored, records),
    decreases records.len(),
{
    if records.len() > 0 {
        let rest = records.drop_last();
        let last = records.last();
        assert forall|i: int| 0 <= i < rest.len() implies (#[trigger] rest[i]).function is Some
            || rest[i].previous is Some by {
            assert(rest[i] == records[i]);
        }
        law_entry_writes_reach_index(stored, rest);
        assert(records[records.len() - 1] == last);
        let before = index_published(stored, rest);
        let own = entry_writes(last);
        lemma_entries_in_parts(stored, all_entry_writes(rest), own);
        lemma_own_entry_writes(before, last);
    }
}

/// What the writes of one record do to the entries.
proof fn lemma_own_entry_writes(before: Map<Address, FunctionId>, record: PreparedFunctionRecord)
    requires
        record.function is Some || record.previous is Some,
    ensures
        all_entries_written(before, entry_writes(record)) == match record@.function {
            Some(function) => reindexed(before, record.previous, function.entry, record.id),
            None => before.remove(record.previous->0),
        },
{
    reveal_with_fuel(all_entries_written, 3);
    let own = entry_writes(record);
    if own.len() == 1 {
        assert(own.drop_last() =~= Seq::empty());
        assert(all_entries_written(before, own) == entries_written(before, own[0]));
    } else {
        assert(own.drop_last() =~= seq![own[0]]);
        assert(own.drop_last().drop_last() =~= Seq::empty());
        assert(all_entries_written(before, own) == entries_written(
            entries_written(before, own[0]),
            own[1],
        ));
    }
    match record.function {
        Some(function) => {
            assert(all_entries_written(before, own) =~= reindexed(
                before,
                record.previous,
                function.entry,
                record.id,
            ));
        },
        None => {},
    }
}

/// Writes about entries leave which functions are made of which blocks.
proof fn lemma_holders_kept(stored: Set<FunctionBlockKey>, records: Seq<PreparedFunctionRecord>)
    ensures
        all_holders_written(stored, all_entry_writes(records)) == stored,
    decreases records.len(),
{
    if records.len() > 0 {
        let own = entry_writes(records.last());
        lemma_holders_kept(stored, records.drop_last());
        lemma_holders_in_parts(stored, all_entry_writes(records.drop_last()), own);
        reveal_with_fuel(all_holders_written, 3);
        if own.len() == 1 {
            assert(own.drop_last() =~= Seq::empty());
        } else if own.len() == 2 {
            assert(own.drop_last() =~= seq![own[0]]);
            assert(own.drop_last().drop_last() =~= Seq::empty());
        }
    }
}

/// Writes about blocks of functions leave the entries.
proof fn lemma_entries_left(stored: Map<Address, FunctionId>, holders: Seq<FunctionIndexWrite>)
    requires
        forall|write: FunctionIndexWrite| #[trigger]
            holders.contains(write) ==> write is InsertBlock || write is RemoveBlock,
    ensures
        all_entries_written(stored, holders) == stored,
    decreases holders.len(),
{
    if holders.len() > 0 {
        let rest = holders.drop_last();
        assert(holders.contains(holders[holders.len() - 1]));
        assert forall|write: FunctionIndexWrite| #[trigger] rest.contains(write) implies write is InsertBlock
            || write is RemoveBlock by {
            let i = rest.index_of(write);
            assert(holders[i] == write);
            assert(holders.contains(write));
        }
        lemma_entries_left(stored, rest);
    }
}

/// No more functions go than there are.
proof fn lemma_removed_functions(records: Seq<PreparedFunctionRecord>, there: Set<FunctionId>)
    requires
        there.finite(),
        forall|i: int, j: int|
            0 <= i < j < records.len() ==> (#[trigger] records[i]).id != (#[trigger] records[j]).id,
        forall|i: int|
            0 <= i < records.len() && (#[trigger] records[i]).function is None ==> there.contains(
                records[i].id,
            ),
    ensures
        0 <= functions_removed(records) <= there.len(),
    decreases records.len(),
{
    if records.len() > 0 {
        let rest = records.drop_last();
        let last = records.len() - 1;
        assert forall|i: int, j: int| 0 <= i < j < rest.len() implies (#[trigger] rest[i]).id != (
        #[trigger] rest[j]).id by {
            assert(records[i].id != records[j].id);
        }
        let left = if records[last].function is None {
            there.remove(records[last].id)
        } else {
            there
        };
        assert forall|i: int| 0 <= i < rest.len() && (#[trigger] rest[i]).function is None implies left.contains(
            rest[i].id,
        ) by {
            assert(rest[i] == records[i]);
            assert(records[i].id != records[last].id);
        }
        lemma_removed_functions(rest, left);
    }
}

/// No more blocks go than there are.
proof fn lemma_removed_blocks(changes: Seq<BlockRangeChange>, there: Set<CodeBlockId>)
    requires
        there.finite(),
        forall|i: int, j: int|
            0 <= i < j < changes.len() ==> (#[trigger] changes[i]).id != (#[trigger] changes[j]).id,
        forall|i: int|
            0 <= i < changes.len() && (#[trigger] changes[i]).range is None ==> there.contains(
                changes[i].id,
            ),
    ensures
        0 <= blocks_removed(changes) <= there.len(),
    decreases changes.len(),
{
    if changes.len() > 0 {
        let rest = changes.drop_last();
        let last = changes.len() - 1;
        assert forall|i: int, j: int| 0 <= i < j < rest.len() implies (#[trigger] rest[i]).id != (
        #[trigger] rest[j]).id by {
            assert(changes[i].id != changes[j].id);
        }
        let left = if changes[last].range is None {
            there.remove(changes[last].id)
        } else {
            there
        };
        assert forall|i: int| 0 <= i < rest.len() && (#[trigger] rest[i]).range is None implies left.contains(
            rest[i].id,
        ) by {
            assert(rest[i] == changes[i]);
            assert(changes[i].id != changes[last].id);
        }
        lemma_removed_blocks(rest, left);
    }
}

/// Counts of what comes are not negative.
proof fn lemma_added(records: Seq<PreparedFunctionRecord>, changes: Seq<BlockRangeChange>)
    ensures
        functions_added(records) >= 0,
        blocks_added(changes) >= 0,
    decreases records.len(), changes.len(),
{
    if records.len() > 0 {
        lemma_added(records.drop_last(), changes);
    }
    if changes.len() > 0 {
        lemma_added(Seq::empty(), changes.drop_last());
    }
}

/// What is handed back is of functions that go.
proof fn lemma_released(records: Seq<PreparedFunctionRecord>, id: FunctionId)
    requires
        functions_released(records).contains(id),
    ensures
        exists|i: int|
            0 <= i < records.len() && (#[trigger] records[i]).id == id && records[i].function is None,
    decreases records.len(),
{
    let rest = records.drop_last();
    let last = records.len() - 1;
    assert(records[last] == records.last());
    if !(records.last().function is None && records.last().id == id) {
        let all = functions_released(records);
        let before = functions_released(rest);
        assert(before.contains(id)) by {
            let k = all.index_of(id);
            assert(all[k] == id);
            if k < before.len() {
                assert(before[k] == id);
            }
        }
        lemma_released(rest, id);
        let i = choose|i: int|
            0 <= i < rest.len() && (#[trigger] rest[i]).id == id && rest[i].function is None;
        assert(records[i] == rest[i]);
    }
}

/// What was prepared can be written, where the store counts as many entries as the tables have
/// and can count those that come.
pub proof fn law_prepared_batch_can_be_written(
    staging: FunctionTableStaging,
    functions: FunctionTable,
    blocks: CodeBlockTable,
    batch: PreparedFunctionBatch,
    function_ids: PersistentIdAllocator<FunctionEntity>,
    block_ids: PersistentIdAllocator<CodeBlockEntity>,
    block_index: StoredBlockIndex,
)
    requires
        staging.wf(&functions, &blocks),
        prepares(batch, staging@, tables(&functions, &blocks)),
        can_give_back(staging@),
        function_ids.wf(),
        function_ids.state.live == functions@.dom().len(),
        function_ids.state.live + functions_added(batch.functions@) <= usize::MAX,
        block_ids.wf(),
        block_ids.state.live == blocks@.dom().len(),
        block_ids.state.live + blocks_added(record_changes(batch.blocks@)) <= usize::MAX,
        block_index.wf(),
    ensures
        functions_writable(function_ids, batch),
        blocks_writable(block_ids, block_index, batch),
{
    let t = tables(&functions, &blocks);
    let v = staging@;
    let records = batch.functions@;
    let block_records = batch.blocks@;
    let changes = record_changes(block_records);
    functions.lemma_sound();
    functions.lemma_len();
    blocks.lemma_wf();
    lemma_next_ids(v.function_ids, t.function_ids);
    lemma_next_ids(v.block_ids, t.block_ids);
    lemma_added(records, changes);
    assert forall|i: int, j: int| 0 <= i < j < records.len() implies (#[trigger] records[i]).id != (
    #[trigger] records[j]).id by {
        assert(records[i].id.rank() < records[j].id.rank());
    }
    assert forall|i: int| 0 <= i < records.len() && (#[trigger] records[i]).function is None implies t.functions.contains_key(
        records[i].id,
    ) && records[i].id.generation < u32::MAX - 1 by {
        let id = records[i].id;
        assert(function_changes(v, t, id));
        assert(v.functions.contains_key(id));
        assert(records[i]@.function is None);
    }
    assert forall|i: int| 0 <= i < records.len() && (#[trigger] records[i]).function is None implies functions@.dom().contains(
        records[i].id,
    ) by {
        assert(t.functions.contains_key(records[i].id));
    }
    lemma_removed_functions(records, functions@.dom());
    let given = batch.cancelled_functions.items@;
    let releases = given + functions_released(records);
    assert forall|i: int| 0 <= i < releases.len() implies (#[trigger] releases[i]).id < u32::MAX
        && releases[i].generation < u32::MAX - 1 by {
        let id = releases[i];
        if i < given.len() {
            assert(given.contains(given[i]));
            assert(batch.cancelled_functions@.contains(id));
            assert(v.cancelled_functions.contains(id));
            let k = v.function_ids.index_of(id);
            assert(v.function_ids[k] == id);
        } else {
            let back = functions_released(records);
            assert(back[i - given.len()] == id);
            assert(back.contains(id));
            lemma_released(records, id);
            let k = choose|k: int|
                0 <= k < records.len() && (#[trigger] records[k]).id == id
                    && records[k].function is None;
            assert(t.functions.contains_key(records[k].id));
        }
    }
    assert forall|i: int, j: int| 0 <= i < j < changes.len() implies (#[trigger] changes[i]).id != (
    #[trigger] changes[j]).id by {
        assert(block_records[i].id != block_records[j].id);
    }
    assert forall|i: int| 0 <= i < block_records.len() implies ((#[trigger] block_records[i]).block matches Some(
        block,
    ) ==> block@.fits()) && change_sized(changes[i]) && (block_records[i].block is None
        ==> blocks@.contains_key(block_records[i].id) && block_records[i].id.generation < u32::MAX
        - 1) by {
        let record = block_records[i];
        let id = record.id;
        assert(block_changes(v, t, id));
        assert(v.blocks.contains_key(id));
        if record.block is Some {
            assert(record@.block == Some(record.block->0@));
            assert(block_sized(record.block->0@.range()));
        } else {
            assert(record@.block is None);
        }
        if t.blocks.contains_key(id) {
            assert(block_sized(t.blocks[id].range()));
        }
    }
    assert forall|i: int| 0 <= i < changes.len() && (#[trigger] changes[i]).range is None implies blocks@.dom().contains(
        changes[i].id,
    ) by {
        assert(block_records[i].block is None);
    }
    lemma_removed_blocks(changes, blocks@.dom());
    assert forall|i: int| 0 <= i < changes.len() implies change_sized(#[trigger] changes[i]) by {
        assert(block_records[i].id == changes[i].id);
    }
    assert forall|id: CodeBlockId| batch.cancelled_blocks@.contains(id) || block_goes(changes, id) implies id.id
        < u32::MAX && id.generation < u32::MAX - 1 by {
        if batch.cancelled_blocks@.contains(id) {
            assert(v.cancelled_blocks.contains(id));
            let k = v.block_ids.index_of(id);
            assert(v.block_ids[k] == id);
        } else {
            let k = choose|k: int|
                0 <= k < changes.len() && (#[trigger] changes[k]).id == id && changes[k].range is None;
            assert(block_records[k].block is None);
            assert(blocks@.contains_key(id));
        }
    }
}

/// Where blocks lie.
pub open spec fn ranges_of(blocks: Map<CodeBlockId, CodeBlockView>) -> BlockRanges {
    Map::new(
        |id: CodeBlockId| blocks.contains_key(id),
        |id: CodeBlockId| blocks[id].range(),
    )
}

/// The ranges change as the blocks do.
proof fn lemma_ranges_published(
    blocks: Map<CodeBlockId, CodeBlockView>,
    records: Seq<PreparedCodeBlockRecord>,
)
    ensures
        ranges_changed(ranges_of(blocks), record_changes(records)) == ranges_of(
            blocks_published(blocks, records),
        ),
    decreases records.len(),
{
    let changes = record_changes(records);
    if records.len() == 0 {
        assert(changes.len() == 0);
    } else {
        let rest = records.drop_last();
        lemma_ranges_published(blocks, rest);
        assert(changes.drop_last() =~= record_changes(rest));
        assert(changes.last().id == records.last().id);
        assert(ranges_changed(ranges_of(blocks), changes) =~= ranges_of(
            blocks_published(blocks, records),
        ));
    }
}

/// Whether a store holds what tables do: the functions and blocks, where functions are entered,
/// which functions are made of which blocks, and where blocks lie.
pub open spec fn mirrors(
    functions: Map<FunctionId, FunctionView>,
    index: Map<Address, FunctionId>,
    holders: Map<CodeBlockId, Set<FunctionId>>,
    blocks: Map<CodeBlockId, CodeBlockView>,
    store: StoredTables,
) -> bool {
    &&& store.functions == functions
    &&& store.entries == index
    &&& forall|key: FunctionBlockKey| #[trigger]
        store.holders.contains(key) <==> held(holders, key.block).contains(key.function)
    &&& store.blocks == blocks
    &&& store.block_index.describes(ranges_of(blocks))
}

/// What a store holds of functions and blocks.
#[verifier::ext_equal]
pub struct StoredTables {
    pub functions: Map<FunctionId, FunctionView>,
    pub entries: Map<Address, FunctionId>,
    pub holders: Set<FunctionBlockKey>,
    pub blocks: Map<CodeBlockId, CodeBlockView>,
    pub block_index: BlockIndexView,
}

/// What a store holds after the writes of a batch.
pub open spec fn batch_written(store: StoredTables, writes: PreparedWrites<'_>) -> StoredTables {
    StoredTables {
        functions: all_rows_written(store.functions, shown_function_rows(writes.functions@)),
        entries: all_entries_written(store.entries, writes.function_index@),
        holders: all_holders_written(store.holders, writes.function_index@),
        blocks: all_rows_written(store.blocks, shown_block_rows(writes.blocks@)),
        block_index: all_index_written(store.block_index, writes.block_index@),
    }
}

/// Where a store holds what the tables do, it holds after the writes of a prepared batch what
/// the tables do after the batch is published.
pub proof fn law_batch_writes_reach_published(
    staging: FunctionTableStaging,
    functions: FunctionTable,
    blocks: CodeBlockTable,
    batch: PreparedFunctionBatch,
    store: StoredTables,
    function_ids: PersistentIdAllocator<FunctionEntity>,
    block_ids: PersistentIdAllocator<CodeBlockEntity>,
    writes: PreparedWrites<'_>,
)
    requires
        staging.wf(&functions, &blocks),
        prepares(batch, staging@, tables(&functions, &blocks)),
        mirrors(functions@, functions.index(), functions.holders(), blocks@, store),
        writes_batch(function_ids, block_ids, store.block_index, batch, writes),
    ensures
        mirrors(
            functions_published(functions@, batch.functions@),
            index_published(functions.index(), batch.functions@),
            merged(functions.holders(), batch.by_block@),
            blocks_published(blocks@, batch.blocks@),
            batch_written(store, writes),
        ),
{
    let t = tables(&functions, &blocks);
    let v = staging@;
    let records = batch.functions@;
    let block_records = batch.blocks@;
    let after = batch_written(store, writes);
    functions.lemma_sound();
    blocks.lemma_wf();
    lemma_next_ids(v.block_ids, t.block_ids);
    assert forall|i: int| 0 <= i < records.len() implies (#[trigger] records[i]).function is Some
        || records[i].previous is Some by {
        let id = records[i].id;
        assert(function_changes(v, t, id));
        assert(v.functions.contains_key(id));
        assert(records[i]@.function is Some == records[i].function is Some);
    }
    assert forall|i: int| 0 <= i < block_records.len() implies (#[trigger] block_records[i]).block is Some
        || block_records[i].previous is Some by {
        let id = block_records[i].id;
        assert(block_changes(v, t, id));
        assert(v.blocks.contains_key(id));
        assert(block_records[i]@.block is Some == block_records[i].block is Some);
    }
    law_function_rows_reach_published(store.functions, records);
    law_block_rows_reach_published(store.blocks, block_records);
    law_entry_writes_reach_index(store.entries, records);
    let held_writes = choose|holders: Seq<FunctionIndexWrite>|
        writes.function_index@ == all_entry_writes(records) + holders && #[trigger] are_holder_writes(
            holders,
            batch.by_block@,
            batch.original_by_block@,
        );
    assert(are_holder_writes(held_writes, batch.by_block@, batch.original_by_block@));
    lemma_entries_in_parts(store.entries, all_entry_writes(records), held_writes);
    lemma_entries_left(index_published(functions.index(), records), held_writes);
    lemma_holders_in_parts(store.holders, all_entry_writes(records), held_writes);
    lemma_holders_kept(store.holders, records);
    assert forall|key: FunctionBlockKey| #[trigger]
        after.holders.contains(key) <==> held(
            merged(functions.holders(), batch.by_block@),
            key.block,
        ).contains(key.function) by {
        let block = key.block;
        if v.holders.contains_key(block) {
            if v.original_holders.contains_key(block) {
                assert(v.original_holders[block] == held(t.holders, block));
            } else {
                assert(v.block_ids.contains(block));
                let i = v.block_ids.index_of(block);
                assert(v.block_ids[i] == block);
                assert(t.block_ids.pending(i) == block);
                assert(!t.holders.contains_key(block));
            }
        }
        assert(store.holders.contains(key) <==> held(functions.holders(), block).contains(
            key.function,
        ));
        law_holder_writes_reach_batch(
            store.holders,
            held_writes,
            batch.by_block@,
            batch.original_by_block@,
            key,
        );
    }
    let changes = record_changes(block_records);
    let marks = choose|marks: Seq<BlockIndexWrite>|
        writes.block_index@ == change_writes(changes) + marks && #[trigger] all_marks_written(
            marks,
            store.block_index,
            changes,
        );
    assert(all_marks_written(marks, store.block_index, changes));
    let ranges = ranges_of(blocks@);
    assert forall|i: int, j: int| 0 <= i < j < changes.len() implies (#[trigger] changes[i]).id != (
    #[trigger] changes[j]).id by {
        assert(block_records[i].id != block_records[j].id);
    }
    assert forall|i: int| 0 <= i < changes.len() implies change_sized(#[trigger] changes[i])
        && changes[i].previous == ranges.get(changes[i].id) by {
        let record = block_records[i];
        let id = record.id;
        assert(block_changes(v, t, id));
        assert(v.blocks.contains_key(id));
        if v.blocks[id].is_new {
            let k = v.block_ids.index_of(id);
            assert(v.block_ids[k] == id);
            assert(!t.blocks.contains_key(id));
        }
        if record.block is Some {
            assert(record@.block == Some(record.block->0@));
            assert(block_sized(record.block->0@.range()));
        }
        if t.blocks.contains_key(id) {
            assert(t.blocks[id].fits());
            assert(block_sized(t.blocks[id].range()));
        }
    }
    assert(changes_fit(ranges, changes));
    law_writes_keep_index_right(store.block_index, ranges, changes, marks);
    lemma_ranges_published(blocks@, block_records);
}

} // verus!
