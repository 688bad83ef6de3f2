//! What is written to build the indexes of stored tables from their entries.
use vstd::prelude::*;

use crate::address::Address;
use crate::block::{CodeBlock, CodeBlockEntity, CodeBlockId};
use crate::block_buckets::{
    block_sized, BlockIndexView, BlockIndexWrite, BlockRangeChange, BlockRanges, StoredBlockIndex,
};
use crate::block_index_writes::{
    all_index_written, all_marks_written, change_sized, change_writes, changes_fit,
    law_writes_keep_index_right, lemma_touched, ranges_changed,
};
use crate::function::{Function, FunctionEntity, FunctionId, FunctionView};
use crate::id::Id;
use crate::prepared_writes::{FunctionBlockKey, FunctionIndexWrite};
use crate::stored_ids::{PersistentIdAllocator, PersistentTable};

verus! {

/// Whether a slot is the first that lies behind those of all identities.
pub open spec fn is_next_slot<T>(ids: Seq<Id<T>>, next: int) -> bool {
    &&& 0 <= next
    &&& forall|i: int| 0 <= i < ids.len() ==> (#[trigger] ids[i]).id < next
    &&& next > 0 ==> exists|i: int| 0 <= i < ids.len() && (#[trigger] ids[i]).id + 1 == next
}

/// The first slot behind those of all identities.
fn next_slot<T>(ids: &Vec<Id<T>>) -> (next: usize)
    requires
        forall|i: int| 0 <= i < ids@.len() ==> (#[trigger] ids@[i]).id < u32::MAX,
    ensures
        is_next_slot(ids@, next as int),
        next <= u32::MAX,
{
    let mut next: usize = 0;
    let mut i: usize = 0;
    while i < ids.len()
        invariant
            i <= ids@.len(),
            next <= u32::MAX,
            forall|k: int| 0 <= k < ids@.len() ==> (#[trigger] ids@[k]).id < u32::MAX,
            forall|k: int| 0 <= k < i ==> (#[trigger] ids@[k]).id < next,
            next > 0 ==> exists|k: int| 0 <= k < i && (#[trigger] ids@[k]).id + 1 == next,
        decreases ids@.len() - i,
    {
        let index: usize = ids[i].index();
        assert(ids@[i as int].id < u32::MAX);
        if index >= next {
            next = index + 1;
            assert(ids@[i as int].id + 1 == next);
        }
        i = i + 1;
    }
    next
}

/// The identities of blocks.
pub open spec fn block_ids(blocks: Seq<&CodeBlock>) -> Seq<CodeBlockId> {
    blocks.map_values(|block: &CodeBlock| block.id)
}

/// The blocks as changes of an index that has none of them.
pub open spec fn entering(blocks: Seq<&CodeBlock>) -> Seq<BlockRangeChange> {
    blocks.map_values(
        |block: &CodeBlock|
            BlockRangeChange { id: block.id, previous: None, range: Some(block@.range()) },
    )
}

/// What builds the indexes of stored blocks from the blocks, and the allocator of their
/// identities.
pub fn rebuild_block_indexes(blocks: &Vec<&CodeBlock>) -> (rebuilt: (
    Vec<BlockIndexWrite>,
    PersistentIdAllocator<CodeBlockEntity>,
))
    requires
        forall|i: int|
            0 <= i < blocks@.len() ==> (#[trigger] blocks@[i])@.fits() && blocks@[i].id.id < u32::MAX,
    ensures
        exists|marks: Seq<BlockIndexWrite>|
            rebuilt.0@ == change_writes(entering(blocks@)) + marks && #[trigger] all_marks_written(
                marks,
                BlockIndexView::none(),
                entering(blocks@),
            ),
        rebuilt.1.wf(),
        rebuilt.1.table is CodeBlocks,
        rebuilt.1.free@ == Map::<u32, u32>::empty(),
        rebuilt.1.state.live == blocks@.len(),
        is_next_slot(block_ids(blocks@), rebuilt.1.state.next_index as int),
{
    let mut changes: Vec<BlockRangeChange> = Vec::new();
    let mut ids: Vec<CodeBlockId> = Vec::new();
    let mut i: usize = 0;
    while i < blocks.len()
        invariant
            i <= blocks@.len(),
            forall|k: int|
                0 <= k < blocks@.len() ==> (#[trigger] blocks@[k])@.fits() && blocks@[k].id.id
                    < u32::MAX,
            changes@ == entering(blocks@.take(i as int)),
            ids@ == block_ids(blocks@.take(i as int)),
            forall|k: int| 0 <= k < changes@.len() ==> change_sized(#[trigger] changes@[k]),
        decreases blocks@.len() - i,
    {
        let block: &CodeBlock = blocks[i];
        assert(blocks@[i as int]@.fits());
        let range = block.address_range();
        assert(block_sized(range));
        changes.push(BlockRangeChange { id: block.id(), previous: None, range: Some(range) });
        ids.push(block.id());
        i = i + 1;
        assert(changes@ =~= entering(blocks@.take(i as int)));
        assert(ids@ =~= block_ids(blocks@.take(i as int)));
    }
    assert(blocks@.take(i as int) =~= blocks@);
    assert forall|k: int| 0 <= k < ids@.len() implies (#[trigger] ids@[k]).id < u32::MAX by {
        assert(blocks@[k].id.id < u32::MAX);
    }
    let writes: Vec<BlockIndexWrite> = StoredBlockIndex::new().append_prepared_writes(&changes);
    let next: usize = next_slot(&ids);
    (writes, PersistentIdAllocator::initialise(PersistentTable::CodeBlocks, next, blocks.len()))
}

/// What is written about the blocks that a function is made of.
pub open spec fn held_writes(function: FunctionView) -> Seq<FunctionIndexWrite> {
    Seq::new(
        function.blocks.len(),
        |i: int|
            FunctionIndexWrite::InsertBlock(
                FunctionBlockKey { block: function.blocks[i].1, function: function.id },
            ),
    )
}

/// What is written about functions, one after the other: where each begins, then of which
/// blocks it is made.
pub open spec fn function_writes(functions: Seq<&Function>) -> Seq<FunctionIndexWrite>
    decreases functions.len(),
{
    if functions.len() == 0 {
        Seq::empty()
    } else {
        let last = functions.last()@;
        function_writes(functions.drop_last()).push(
            FunctionIndexWrite::InsertEntry { entry: last.entry, id: last.id },
        ) + held_writes(last)
    }
}

/// The identities of functions.
pub open spec fn function_ids(functions: Seq<&Function>) -> Seq<FunctionId> {
    functions.map_values(|function: &Function| function.id)
}

/// What builds the indexes of stored functions from the functions, and the allocator of their
/// identities.
pub fn rebuild_function_indexes(functions: &Vec<&Function>) -> (rebuilt: (
    Vec<FunctionIndexWrite>,
    PersistentIdAllocator<FunctionEntity>,
))
    requires
        forall|i: int| 0 <= i < functions@.len() ==> (#[trigger] functions@[i]).id.id < u32::MAX,
    ensures
        rebuilt.0@ == function_writes(functions@),
        rebuilt.1.wf(),
        rebuilt.1.table is Functions,
        rebuilt.1.free@ == Map::<u32, u32>::empty(),
        rebuilt.1.state.live == functions@.len(),
        is_next_slot(function_ids(functions@), rebuilt.1.state.next_index as int),
{
    let mut writes: Vec<FunctionIndexWrite> = Vec::new();
    let mut ids: Vec<FunctionId> = Vec::new();
    let mut i: usize = 0;
    assert(functions@.take(0) =~= Seq::empty());
    while i < functions.len()
        invariant
            i <= functions@.len(),
            writes@ == function_writes(functions@.take(i as int)),
            ids@ == function_ids(functions@.take(i as int)),
        decreases functions@.len() - i,
    {
        let function: &Function = functions[i];
        let members: &[(Address, CodeBlockId)] = function.blocks();
        writes.push(FunctionIndexWrite::InsertEntry { entry: function.entry(), id: function.id() });
        let ghost before = writes@;
        let mut k: usize = 0;
        while k < members.len()
            invariant
                k <= members@.len(),
                members@ == function@.blocks,
                writes@ == before + held_writes(function@).take(k as int),
            decreases members@.len() - k,
        {
            writes.push(
                FunctionIndexWrite::InsertBlock(
                    FunctionBlockKey { block: members[k].1, function: function.id() },
                ),
            );
            k = k + 1;
            assert(held_writes(function@).take(k as int) =~= held_writes(function@).take(
                k - 1,
            ).push(held_writes(function@)[k - 1]));
            assert(writes@ =~= before + held_writes(function@).take(k as int));
        }
        ids.push(function.id());
        i = i + 1;
        proof {
            assert(held_writes(function@).take(k as int) =~= held_writes(function@));
            let more = functions@.take(i as int);
            assert(more.drop_last() =~= functions@.take(i - 1));
            assert(more.last() == function);
            assert(ids@ =~= function_ids(more));
        }
    }
    assert(functions@.take(i as int) =~= functions@);
    assert forall|k: int| 0 <= k < ids@.len() implies (#[trigger] ids@[k]).id < u32::MAX by {
        assert(functions@[k].id.id < u32::MAX);
    }
    let next: usize = next_slot(&ids);
    (writes, PersistentIdAllocator::initialise(PersistentTable::Functions, next, functions.len()))
}

/// The ranges of blocks by identity.
pub open spec fn ranges_of(blocks: Seq<&CodeBlock>) -> BlockRanges {
    ranges_changed(BlockRanges::empty(), entering(blocks))
}

/// An index that is built from blocks with different identities describes where they lie.
pub proof fn law_rebuilt_index_describes_blocks(
    blocks: Seq<&CodeBlock>,
    marks: Seq<BlockIndexWrite>,
)
    requires
        forall|i: int| 0 <= i < blocks.len() ==> (#[trigger] blocks[i])@.fits(),
        forall|i: int, j: int|
            0 <= i < j < blocks.len() ==> (#[trigger] blocks[i]).id != (#[trigger] blocks[j]).id,
        all_marks_written(marks, BlockIndexView::none(), entering(blocks)),
    ensures
        all_index_written(
            BlockIndexView::none(),
            change_writes(entering(blocks)) + marks,
        ).describes(ranges_of(blocks)),
        forall|i: int|
            0 <= i < blocks.len() ==> ranges_of(blocks).get((#[trigger] blocks[i]).id) == Some(
                blocks[i]@.range(),
            ),
{
    let changes = entering(blocks);
    assert forall|i: int, j: int| 0 <= i < j < changes.len() implies (#[trigger] changes[i]).id != (
    #[trigger] changes[j]).id by {
        assert(blocks[i].id != blocks[j].id);
    }
    assert forall|i: int| 0 <= i < changes.len() implies change_sized(#[trigger] changes[i])
        && changes[i].previous == BlockRanges::empty().get(changes[i].id) by {
        assert(blocks[i]@.fits());
    }
    assert(changes_fit(BlockRanges::empty(), changes));
    law_writes_keep_index_right(BlockIndexView::none(), BlockRanges::empty(), changes, marks);
    assert forall|i: int| 0 <= i < blocks.len() implies ranges_of(blocks).get(
        (#[trigger] blocks[i]).id,
    ) == Some(blocks[i]@.range()) by {
        lemma_touched(BlockRanges::empty(), changes, i);
        assert(changes[i].id == blocks[i].id);
    }
}

} // verus!
