//! What holds of functions and blocks through staging and publishing.
use vstd::prelude::*;

use crate::address::Address;
use crate::block::{CodeBlockId, CodeBlockRecordView, CodeBlockView};
use crate::block_holders::held;
use crate::block_table::CodeBlockTable;
use crate::function::{lists_block, FunctionId, FunctionView};
use crate::function_table::{merged, FunctionTable};
use crate::incomplete::{record_edges, record_members, FunctionRecord};
use crate::prepared::{
    blocks_published, can_give_back, functions_published, index_published, is_orderly,
    law_published_entries_lead_to_functions, law_publishing_keeps_promise, prepares,
    PreparedFunctionBatch,
};
use crate::staging::{
    covered, is_idle, is_materialised, member_ids, none_claimed, stageable, tables,
    FunctionTableStaging, StagingView, TablesView,
};

verus! {

/// Whether functions are made of blocks that are there.
pub open spec fn made_of_present(
    functions: Map<FunctionId, FunctionView>,
    blocks: Map<CodeBlockId, CodeBlockView>,
) -> bool {
    forall|id: FunctionId, block: CodeBlockId|
        functions.contains_key(id) && #[trigger] lists_block(functions[id].blocks, block)
            ==> blocks.contains_key(block)
}

/// Whether of the blocks that are not among `members` those go that are among `previous` and
/// that no function has any more.
pub open spec fn only_idle_go(
    before: Map<CodeBlockId, CodeBlockView>,
    after: Map<CodeBlockId, CodeBlockView>,
    previous: Seq<(Address, CodeBlockId)>,
    members: Seq<(Address, CodeBlockId)>,
    functions: Map<FunctionId, FunctionView>,
) -> bool {
    forall|block: CodeBlockId|
        !lists_block(members, block) ==> #[trigger] after.contains_key(block) == (
        before.contains_key(block) && !(lists_block(previous, block) && is_idle(functions, block)))
}

/// Staging a function that is made of blocks that are there, or will be, leaves all functions
/// made of blocks that are there.
pub proof fn law_staged_function_leaves_functions_whole(
    functions: Map<FunctionId, FunctionView>,
    before: Map<CodeBlockId, CodeBlockView>,
    after: Map<CodeBlockId, CodeBlockView>,
    id: FunctionId,
    staged: FunctionView,
    previous: Seq<(Address, CodeBlockId)>,
)
    requires
        made_of_present(functions, before),
        forall|block: CodeBlockId| #[trigger]
            lists_block(staged.blocks, block) ==> after.contains_key(block),
        only_idle_go(before, after, previous, staged.blocks, functions.insert(id, staged)),
    ensures
        made_of_present(functions.insert(id, staged), after),
{
    let later = functions.insert(id, staged);
    assert forall|other: FunctionId, block: CodeBlockId|
        later.contains_key(other) && #[trigger] lists_block(
            later[other].blocks,
            block,
        ) implies after.contains_key(block) by {
        if !lists_block(staged.blocks, block) {
            assert(other != id);
            assert(lists_block(functions[other].blocks, block));
            assert(!is_idle(later, block));
        }
    }
}

/// Staging the removal of a function leaves all others made of blocks that are there.
pub proof fn law_staged_removal_leaves_functions_whole(
    functions: Map<FunctionId, FunctionView>,
    before: Map<CodeBlockId, CodeBlockView>,
    after: Map<CodeBlockId, CodeBlockView>,
    id: FunctionId,
    previous: Seq<(Address, CodeBlockId)>,
)
    requires
        made_of_present(functions, before),
        only_idle_go(
            before,
            after,
            previous,
            Seq::<(Address, CodeBlockId)>::empty(),
            functions.remove(id),
        ),
    ensures
        made_of_present(functions.remove(id), after),
{
    let later = functions.remove(id);
    assert forall|other: FunctionId, block: CodeBlockId|
        later.contains_key(other) && #[trigger] lists_block(
            later[other].blocks,
            block,
        ) implies after.contains_key(block) by {
        assert(lists_block(functions[other].blocks, block));
        assert(!is_idle(later, block));
        assert(!lists_block(Seq::<(Address, CodeBlockId)>::empty(), block));
    }
}

/// Tables that a batch was published to can be changed through staging again, and their
/// functions are still made of blocks that are there. No function is put at an entry before the
/// one that leaves it is taken out.
pub proof fn law_published_tables_can_be_staged(
    staging: FunctionTableStaging,
    functions: FunctionTable,
    blocks: CodeBlockTable,
    batch: PreparedFunctionBatch,
    functions_after: FunctionTable,
    blocks_after: CodeBlockTable,
)
    requires
        staging.wf(&functions, &blocks),
        prepares(batch, staging@, tables(&functions, &blocks)),
        can_give_back(staging@),
        is_orderly(batch.functions@),
        made_of_present(
            staging@.functions_now(tables(&functions, &blocks)),
            staging@.blocks_now(tables(&functions, &blocks)),
        ),
        functions_after.sound(),
        functions_after@ == functions_published(functions@, batch.functions@),
        functions_after.index() == index_published(functions.index(), batch.functions@),
        functions_after.holders() == merged(functions.holders(), batch.by_block@),
        blocks_after.wf(),
        blocks_after@ == blocks_published(blocks@, batch.blocks@),
    ensures
        stageable(&functions_after, &blocks_after),
        made_of_present(functions_after@, blocks_after@),
{
    law_publishing_keeps_promise(staging, functions, blocks, batch);
    law_published_entries_lead_to_functions(staging, functions, blocks, batch);
    functions_after.lemma_sound();
    blocks_after.lemma_wf();
    let holders = functions_after.holders();
    let ids = blocks_after.ids();
    assert forall|i: int| 0 <= i < ids.room() implies !holders.contains_key(
        #[trigger] ids.pending(i),
    ) by {
        let block = ids.pending(i);
        if holders.contains_key(block) {
            let set = holders[block];
            assert(exists|id: FunctionId| set.contains(id)) by {
                if forall|id: FunctionId| !set.contains(id) {
                    assert(set =~= Set::<FunctionId>::empty());
                }
            }
            let id = choose|id: FunctionId| set.contains(id);
            assert(held(holders, block).contains(id));
            assert(lists_block(functions_after@[id].blocks, block));
            assert(blocks_after@.contains_key(block));
            assert(ids.in_use(block.id as int));
            if i < ids.free_ids@.len() {
                assert(ids.is_free(block.id as int));
            }
        }
    }
    assert(none_claimed(holders, ids));
}

/// Once a function is made of other blocks than before, the blocks that it has are there, those
/// that it had and that no function has any more are gone, and all other blocks are there if
/// they were. What a block is does not change.
pub proof fn law_staged_change_keeps_needed_blocks(
    v: StagingView,
    t: TablesView,
    previous: Seq<(Address, CodeBlockId)>,
    members: Seq<(Address, CodeBlockId)>,
    functions: Map<FunctionId, FunctionView>,
    block: CodeBlockId,
    holder: FunctionId,
)
    ensures
        ({
            let before = v.blocks_now(t);
            let after = v.blocks_after(t, previous, members, functions);
            &&& lists_block(members, block) && v.blocks_known(t).contains_key(block)
                ==> after.contains_key(block)
            &&& !lists_block(members, block) && lists_block(previous, block) && (forall|
                id: FunctionId,
            | #[trigger]
                functions.contains_key(id) ==> !lists_block(functions[id].blocks, block))
                ==> !after.contains_key(block)
            &&& before.contains_key(block) && functions.contains_key(holder) && lists_block(
                functions[holder].blocks,
                block,
            ) ==> after.contains_key(block)
            &&& before.contains_key(block) && !lists_block(previous, block) ==> after.contains_key(
                block,
            )
            &&& after.contains_key(block) && !before.contains_key(block) ==> lists_block(
                members,
                block,
            ) && v.blocks_known(t).contains_key(block)
            &&& after.contains_key(block) && before.contains_key(block) ==> after[block]
                == before[block]
        }),
{
}

/// A change of a function through staging leaves the blocks that the staged change says, so
/// that only blocks go that no function has any more.
pub proof fn law_only_idle_blocks_go(
    v: StagingView,
    t: TablesView,
    previous: Seq<(Address, CodeBlockId)>,
    members: Seq<(Address, CodeBlockId)>,
    functions: Map<FunctionId, FunctionView>,
)
    ensures
        only_idle_go(
            v.blocks_now(t),
            v.blocks_after(t, previous, members, functions),
            previous,
            members,
            functions,
        ),
{
}

/// A recorded block that there is already, staged or in the table, gets its identity and no new
/// one. Any other is staged under the identity that is handed out next. Either way it is there
/// afterwards, as recorded.
pub proof fn law_resolving_reuses_blocks(
    v: StagingView,
    t: TablesView,
    record: CodeBlockRecordView,
    id: CodeBlockId,
    after: StagingView,
    known: CodeBlockId,
)
    requires
        v.resolves_to(t, record, id, after),
    ensures
        v.blocks_known(t).contains_key(known) && v.blocks_known(t)[known] == record.under(known)
            ==> after.block_ids == v.block_ids && v.blocks_known(t).contains_key(id)
            && v.blocks_known(t)[id] == record.under(id),
        (forall|other: CodeBlockId| #[trigger]
            v.blocks_known(t).contains_key(other) ==> v.blocks_known(t)[other] != record.under(
                other,
            )) ==> after.block_ids == v.block_ids.push(id) && id == t.block_ids.pending(
            v.block_ids.len() as int,
        ) && after.is_new_block(id),
        after.blocks_known(t).contains_key(id),
        after.blocks_known(t)[id] == record.under(id),
        after.blocks.contains_key(id) ==> after.blocks[id].block is Some,
        after.functions == v.functions,
        after.entries == v.entries,
        after.holders == v.holders,
        after.cancelled_blocks == v.cancelled_blocks,
{
    if v.blocks_known(t).contains_key(known) && v.blocks_known(t)[known] == record.under(known) {
        assert(v.is_match(t, record, known));
    }
    if v.has_match(t, record) {
        assert(v.is_match(t, record, id));
    }
}

/// Resolving the same block twice gives no second identity.
pub proof fn law_resolving_again_adds_nothing(
    v: StagingView,
    t: TablesView,
    record: CodeBlockRecordView,
    first: CodeBlockId,
    middle: StagingView,
    second: CodeBlockId,
    after: StagingView,
)
    requires
        v.resolves_to(t, record, first, middle),
        middle.resolves_to(t, record, second, after),
    ensures
        after.block_ids == middle.block_ids,
        middle.blocks_known(t).contains_key(second),
{
    law_resolving_reuses_blocks(v, t, record, first, middle, first);
    law_resolving_reuses_blocks(middle, t, record, second, after, first);
}

/// The blocks of a function cover the addresses that they have, as far as they are there.
pub proof fn law_members_cover_their_addresses(
    blocks: Map<CodeBlockId, CodeBlockView>,
    members: Seq<(Address, CodeBlockId)>,
    address: Address,
)
    requires
        forall|id: CodeBlockId| #[trigger] blocks.contains_key(id) ==> blocks[id].fits(),
    ensures
        covered(blocks, members, address) <==> exists|id: CodeBlockId| #[trigger]
            lists_block(members, id) && blocks.contains_key(id) && blocks[id].start.space
                == address.space && blocks[id].start.address.0 <= address.address.0
                < blocks[id].start.address.0 + blocks[id].size,
{
    if covered(blocks, members, address) {
        let i = choose|i: int|
            0 <= i < members.len() && blocks.contains_key((#[trigger] members[i]).1)
                && blocks[members[i].1].range().holds(address);
        assert(lists_block(members, members[i].1));
    }
    if exists|id: CodeBlockId| #[trigger]
        lists_block(members, id) && blocks.contains_key(id) && blocks[id].start.space
            == address.space && blocks[id].start.address.0 <= address.address.0
            < blocks[id].start.address.0 + blocks[id].size {
        let id = choose|id: CodeBlockId| #[trigger]
            lists_block(members, id) && blocks.contains_key(id) && blocks[id].start.space
                == address.space && blocks[id].start.address.0 <= address.address.0
                < blocks[id].start.address.0 + blocks[id].size;
        let i = choose|i: int| 0 <= i < members.len() && (#[trigger] members[i]).1 == id;
        assert(blocks[members[i].1].range().holds(address));
    }
}

/// What is staged is seen before what the tables hold: a staged function or block is as staged,
/// one that is to go is not there, and where nothing is staged the tables are seen.
pub proof fn law_staged_state_hides_tables(
    v: StagingView,
    t: TablesView,
    id: FunctionId,
    entry: Address,
    block: CodeBlockId,
)
    ensures
        v.functions_now(t).get(id) == if v.functions.contains_key(id) {
            v.functions[id].function
        } else {
            t.functions.get(id)
        },
        v.index_now(t).get(entry) == if v.entries.contains_key(entry) {
            v.entries[entry]
        } else {
            t.index.get(entry)
        },
        v.blocks_now(t).get(block) == if v.blocks.contains_key(block) {
            v.blocks[block].block
        } else {
            t.blocks.get(block)
        },
        held(v.holders_now(t), block) == if v.holders.contains_key(block) {
            v.holders[block]
        } else {
            held(t.holders, block)
        },
{
}

/// A function with an entry keeps the identity that it has, and a new one gets the identity
/// that is handed out next, which is then reserved.
pub proof fn law_entry_keeps_identity(v: StagingView, t: TablesView, entry: Address)
    ensures
        v.index_now(t).contains_key(entry) ==> v.target(t, entry) == v.index_now(t)[entry]
            && v.with_claim(t, entry) == v && v.previous(t, entry) == Some(
            v.functions_now(t)[v.index_now(t)[entry]],
        ),
        !v.index_now(t).contains_key(entry) ==> v.target(t, entry) == t.function_ids.pending(
            v.function_ids.len() as int,
        ) && v.with_claim(t, entry).function_ids == v.function_ids.push(v.target(t, entry))
            && v.previous(t, entry) is None,
{
}

/// A staged function that comes of a record lists the recorded blocks in their order, has an
/// edge between two of them for each recorded edge and no other, and is otherwise as recorded.
pub proof fn law_staged_function_is_as_recorded(
    record: FunctionRecord,
    function: FunctionView,
    id: FunctionId,
    i: int,
    edge: (CodeBlockId, CodeBlockId),
)
    requires
        record.wf(),
        is_materialised(record, function, id),
        0 <= i < record.blocks@.len(),
    ensures
        function.id == id,
        function.entry == record.entry,
        function.name == record.name,
        function.origin == record.origin,
        function.confidence == record.confidence,
        function.properties == record.properties,
        function.input_revision == record.input_revision,
        function.tail_call_sites == record.tail_call_sites@,
        function.blocks.len() == record.blocks@.len(),
        function.blocks[i].0 == record.blocks@[i].address,
        record.entry_block matches Some(at) ==> function.entry_block == function.blocks[at as int].1,
        record.entry_block is None ==> function.entry_block.id == u32::MAX,
        function.edges.contains(edge) <==> exists|k: int|
            0 <= k < record.edges@.len() && function.blocks[(#[trigger] record.edges@[k]).0 as int].1
                == edge.0 && function.blocks[record.edges@[k].1 as int].1 == edge.1,
{
    let ids = member_ids(function.blocks);
    let edges = record_edges(record, ids);
    assert(function.blocks == record_members(record, ids));
    assert(function.edges.contains(edge) <==> edges.contains(edge));
    if edges.contains(edge) {
        let k = edges.index_of(edge);
        assert(record.edges@[k].0 < record.blocks@.len());
        assert(ids[record.edges@[k].0 as int] == edge.0);
    }
    if exists|k: int|
        0 <= k < record.edges@.len() && function.blocks[(#[trigger] record.edges@[k]).0 as int].1
            == edge.0 && function.blocks[record.edges@[k].1 as int].1 == edge.1 {
        let k = choose|k: int|
            0 <= k < record.edges@.len() && function.blocks[(#[trigger] record.edges@[k]).0 as int].1
                == edge.0 && function.blocks[record.edges@[k].1 as int].1 == edge.1;
        assert(edges[k] == edge);
    }
}

} // verus!
