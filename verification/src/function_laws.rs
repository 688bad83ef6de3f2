//! What functions are made of, and how they are found by it.
use vstd::prelude::*;

use crate::address::{law_ranges_meet_in_an_address, Address, AddressRange};
use crate::block::CodeBlockId;
use crate::block_holders::held;
use crate::block_table::CodeBlockTable;
use crate::body::lemma_push_contains;
use crate::function::{
    block_place, by_address, lists_block, with_all_blocks, with_block, Function, FunctionId,
    FunctionView,
};
use crate::function_table::{
    holds_some, lemma_linked, lemma_unlinked, linked, merged, unlinked, FunctionTable,
};
use crate::order::Ranked;

verus! {

/// There is a place for a block among others that stand in order.
proof fn lemma_block_place(blocks: Seq<(Address, CodeBlockId)>, address: Address) -> (at: int)
    requires
        by_address(blocks),
    ensures
        block_place(blocks, address, at),
    decreases blocks.len(),
{
    if blocks.len() == 0 {
        0
    } else if blocks.last().0.rank() <= address.rank() {
        assert forall|i: int| 0 <= i < blocks.len() implies (#[trigger] blocks[i]).0.rank()
            <= address.rank() by {
            if i < blocks.len() - 1 {
                assert(blocks[i].0.rank() <= blocks[blocks.len() - 1].0.rank());
            }
        }
        blocks.len() as int
    } else {
        let rest = blocks.drop_last();
        assert forall|i: int, j: int| 0 <= i < j < rest.len() implies (#[trigger] rest[i]).0.rank()
            <= (#[trigger] rest[j]).0.rank() by {
            assert(blocks[i].0.rank() <= blocks[j].0.rank());
        }
        let at = lemma_block_place(rest, address);
        assert forall|i: int| 0 <= i < at implies (#[trigger] blocks[i]).0.rank()
            <= address.rank() by {
            assert(rest[i] == blocks[i]);
        }
        assert forall|i: int| at <= i < blocks.len() implies address.rank() < (#[trigger]
        blocks[i]).0.rank() by {
            if i < rest.len() {
                assert(rest[i] == blocks[i]);
            }
        }
        at
    }
}

/// A block that is added is listed, with all that were listed before and no other, in the order
/// of the addresses. It becomes the entry block if it is the first at the entry. Nothing else
/// of the function changes.
pub proof fn law_added_block_is_listed(
    function: FunctionView,
    address: Address,
    id: CodeBlockId,
    block: (Address, CodeBlockId),
)
    requires
        by_address(function.blocks),
    ensures
        with_block(function, address, id).blocks.contains(block) <==> function.blocks.contains(
            block,
        ) || block == (address, id),
        with_block(function, address, id).blocks.len() == function.blocks.len() + 1,
        by_address(with_block(function, address, id).blocks),
        with_block(function, address, id).entry_block == if function.entry_block.id == u32::MAX
            && address == function.entry {
            id
        } else {
            function.entry_block
        },
        with_block(function, address, id) == (FunctionView {
            blocks: with_block(function, address, id).blocks,
            entry_block: with_block(function, address, id).entry_block,
            ..function
        }),
{
    let before = function.blocks;
    let place = lemma_block_place(before, address);
    let at = choose|at: int| #[trigger] block_place(before, address, at);
    let after = with_block(function, address, id).blocks;
    assert(after == before.insert(at, (address, id)));
    assert(after[at] == (address, id));
    assert forall|i: int| 0 <= i < after.len() implies #[trigger] after[i] == if i < at {
        before[i]
    } else if i == at {
        (address, id)
    } else {
        before[i - 1]
    } by {}
    if before.contains(block) {
        let i = before.index_of(block);
        if i < at {
            assert(after[i] == block);
        } else {
            assert(after[i + 1] == block);
        }
    }
    if after.contains(block) && block != (address, id) {
        let i = after.index_of(block);
        if i < at {
            assert(before[i] == block);
        } else {
            assert(before[i - 1] == block);
        }
    }
    assert forall|i: int, j: int| 0 <= i < j < after.len() implies (#[trigger] after[i]).0.rank()
        <= (#[trigger] after[j]).0.rank() by {
        if j < at {
            assert(before[i].0.rank() <= before[j].0.rank());
        } else if i > at {
            assert(before[i - 1].0.rank() <= before[j - 1].0.rank());
        } else if i < at && at < j {
            assert(before[i].0.rank() <= address.rank());
            assert(address.rank() < before[j - 1].0.rank());
        }
    }
}

/// Blocks that are added are all listed, with those from before and no others, in the order of
/// the addresses.
pub proof fn law_added_blocks_are_listed(
    function: FunctionView,
    added: Seq<(Address, CodeBlockId)>,
    block: (Address, CodeBlockId),
)
    requires
        by_address(function.blocks),
    ensures
        with_all_blocks(function, added).blocks.contains(block) <==> function.blocks.contains(block)
            || added.contains(block),
        with_all_blocks(function, added).blocks.len() == function.blocks.len() + added.len(),
        by_address(with_all_blocks(function, added).blocks),
        with_all_blocks(function, added) == (FunctionView {
            blocks: with_all_blocks(function, added).blocks,
            entry_block: with_all_blocks(function, added).entry_block,
            ..function
        }),
    decreases added.len(),
{
    if added.len() > 0 {
        let rest = added.drop_last();
        law_added_blocks_are_listed(function, rest, block);
        law_added_block_is_listed(
            with_all_blocks(function, rest),
            added.last().0,
            added.last().1,
            block,
        );
        assert(added =~= rest.push(added.last()));
        lemma_push_contains(rest, added.last(), block);
    }
}

/// The function that takes in a block is listed for it, and the function that gives one up is
/// listed for it no more; no other function and no other block is concerned.
pub proof fn law_lists_follow_blocks(
    holders: Map<CodeBlockId, Set<FunctionId>>,
    blocks: Seq<(Address, CodeBlockId)>,
    function: FunctionId,
    block: CodeBlockId,
    other: FunctionId,
)
    ensures
        held(linked(holders, blocks, function), block).contains(other) <==> held(
            holders,
            block,
        ).contains(other) || (other == function && exists|i: int|
            0 <= i < blocks.len() && (#[trigger] blocks[i]).1 == block),
        held(unlinked(holders, blocks, function), block).contains(other) <==> held(
            holders,
            block,
        ).contains(other) && !(other == function && exists|i: int|
            0 <= i < blocks.len() && (#[trigger] blocks[i]).1 == block),
{
    lemma_linked(holders, blocks, function);
    lemma_unlinked(holders, blocks, function);
}

/// Lists that come in take the place of those that were there for the same blocks, and leave
/// all others.
pub proof fn law_incoming_lists_replace(
    holders: Map<CodeBlockId, Set<FunctionId>>,
    incoming: Map<CodeBlockId, Set<FunctionId>>,
    block: CodeBlockId,
)
    ensures
        held(merged(holders, incoming), block) == if incoming.contains_key(block) {
            incoming[block]
        } else {
            held(holders, block)
        },
{
    if incoming.contains_key(block) {
        assert(held(merged(holders, incoming), block) =~= incoming[block]);
    }
}

/// In tables that agree, a function is found for a range exactly when one of its blocks has an
/// address in the range.
pub proof fn law_functions_are_found_by_address(
    table: FunctionTable,
    blocks: CodeBlockTable,
    range: AddressRange,
    found: Vec<FunctionId>,
    id: FunctionId,
)
    requires
        table.consistent(),
        blocks.wf(),
        range.start.0 <= range.end.0,
        call_ensures(FunctionTable::overlaps, (&table, &blocks, &range), found),
    ensures
        found@.contains(id) <==> table@.contains_key(id) && exists|
            block: CodeBlockId,
            address: Address,
        | #[trigger]
            in_block(blocks, block, address) && lists_block(table@[id].blocks, block)
                && range.space == address.space && range.start.0 <= address.address.0
                <= range.end.0,
{
    lemma_found(table, blocks, range, id);
}

/// In tables that agree, the functions that contain an address are those with a block that has
/// it.
pub proof fn law_containing_functions_have_block_there(
    table: FunctionTable,
    blocks: CodeBlockTable,
    address: Address,
    found: Vec<FunctionId>,
    id: FunctionId,
)
    requires
        table.consistent(),
        blocks.wf(),
        call_ensures(FunctionTable::functions_containing, (&table, &blocks, address), found),
    ensures
        found@.contains(id) <==> table@.contains_key(id) && exists|block: CodeBlockId| #[trigger]
            in_block(blocks, block, address) && lists_block(table@[id].blocks, block),
{
    let range = AddressRange {
        space: address.space,
        start: address.address,
        end: address.address,
    };
    lemma_found(table, blocks, range, id);
    if found@.contains(id) {
        let (block, other) = choose|block: CodeBlockId, other: Address| #[trigger]
            in_block(blocks, block, other) && lists_block(table@[id].blocks, block) && range.space
                == other.space && range.start.0 <= other.address.0 <= range.end.0;
        assert(other == address);
    }
}

/// Whether a block of the table has an address.
pub open spec fn in_block(blocks: CodeBlockTable, block: CodeBlockId, address: Address) -> bool {
    &&& blocks@.contains_key(block)
    &&& blocks@[block].start.space == address.space
    &&& blocks@[block].start.address.0 <= address.address.0 < blocks@[block].start.address.0
        + blocks@[block].size
}

/// What is found for a range.
proof fn lemma_found(
    table: FunctionTable,
    blocks: CodeBlockTable,
    range: AddressRange,
    id: FunctionId,
)
    requires
        table.consistent(),
        blocks.wf(),
        range.start.0 <= range.end.0,
    ensures
        holds_some(table.holders(), blocks@, range, id) <==> table@.contains_key(id) && exists|
            block: CodeBlockId,
            address: Address,
        | #[trigger]
            in_block(blocks, block, address) && lists_block(table@[id].blocks, block)
                && range.space == address.space && range.start.0 <= address.address.0
                <= range.end.0,
{
    blocks.lemma_wf();
    if holds_some(table.holders(), blocks@, range, id) {
        let block = choose|block: CodeBlockId| #[trigger]
            blocks@.contains_key(block) && blocks@[block].range().meets(range) && held(
                table.holders(),
                block,
            ).contains(id);
        law_ranges_meet_in_an_address(blocks@[block].range(), range);
        let address = choose|address: Address| #[trigger]
            blocks@[block].range().holds(address) && range.holds(address);
        assert(in_block(blocks, block, address));
    }
    if table@.contains_key(id) && exists|block: CodeBlockId, address: Address| #[trigger]
        in_block(blocks, block, address) && lists_block(table@[id].blocks, block) && range.space
            == address.space && range.start.0 <= address.address.0 <= range.end.0 {
        let (block, address) = choose|block: CodeBlockId, address: Address| #[trigger]
            in_block(blocks, block, address) && lists_block(table@[id].blocks, block)
                && range.space == address.space && range.start.0 <= address.address.0
                <= range.end.0;
        assert(blocks@.contains_key(block));
        law_ranges_meet_in_an_address(blocks@[block].range(), range);
        assert(blocks@[block].range().holds(address) && range.holds(address));
        assert(held(table.holders(), block).contains(id));
    }
}

/// Every function of a table is found by its entry and by its identity, and by an entry at
/// which no function begins none is found.
pub proof fn law_function_is_found_by_entry(
    table: FunctionTable,
    id: FunctionId,
    entry: Address,
    found: Option<&Function>,
    by_id: Option<&Function>,
    contained: bool,
)
    requires
        table.wf(),
        call_ensures(FunctionTable::get_by_address, (&table, entry), found),
        call_ensures(FunctionTable::get_by_id, (&table, id), by_id),
        call_ensures(FunctionTable::contains, (&table, entry), contained),
    ensures
        table@.contains_key(id) && table@[id].entry == entry ==> found is Some && found->0@
            == table@[id] && by_id is Some && by_id->0@ == table@[id] && contained,
        found matches Some(function) ==> function@.entry == entry && table@.contains_key(
            function@.id,
        ) && table@[function@.id] == function@,
        found is Some <==> contained,
        by_id is Some <==> table@.contains_key(id),
{
    table.lemma_sound();
}

} // verus!
