//! What questions about staged changes are answered, and what is prepared of them.
use vstd::prelude::*;

use crate::address::{law_ranges_meet_in_an_address, Address, AddressRange};
use crate::block::CodeBlockId;
use crate::block_laws::block_has;
use crate::block_table::CodeBlockTable;
use crate::body::lemma_push_contains;
use crate::coalesce::{all_classified, classified};
use crate::flow::FlowTarget;
use crate::flow_laws::calls_out;
use crate::function::{lists_block, FunctionId};
use crate::function_table::FunctionTable;
use crate::prepared::{
    block_changes, blocks_given_back, function_changes, functions_given_back, prepares,
    PreparedCodeBlockRecord, PreparedFunctionBatch, PreparedFunctionRecord,
};
use crate::reference::{flow_reference, Reference, ReferenceTarget};
use crate::staged_queries::{backs, function_meets, is_backed_by, point_range};
use crate::staging::{tables, FunctionTableStaging, StagingView, TablesView};

verus! {

/// Whether a function that will be there has a block that will be there and has an address.
pub open spec fn will_have(v: StagingView, t: TablesView, id: FunctionId, address: Address) -> bool {
    &&& v.functions_now(t).contains_key(id)
    &&& exists|block: CodeBlockId| #[trigger]
        lists_block(v.functions_now(t)[id].blocks, block) && v.blocks_now(t).contains_key(block)
            && block_has(v.blocks_now(t)[block], address)
}

/// What it means that a function meets a range.
proof fn lemma_function_meets(
    v: StagingView,
    t: TablesView,
    id: FunctionId,
    range: AddressRange,
)
    requires
        range.start.0 <= range.end.0,
        forall|block: CodeBlockId| #[trigger]
            v.blocks_now(t).contains_key(block) ==> v.blocks_now(t)[block].fits(),
    ensures
        function_meets(v, t, id, range) <==> exists|address: Address| #[trigger]
            will_have(v, t, id, address) && range.space == address.space && range.start.0
                <= address.address.0 <= range.end.0,
{
    let now = v.blocks_now(t);
    let members = v.functions_now(t)[id].blocks;
    if function_meets(v, t, id, range) {
        let i = choose|i: int|
            0 <= i < members.len() && now.contains_key((#[trigger] members[i]).1)
                && now[members[i].1].range().meets(range);
        let block = members[i].1;
        law_ranges_meet_in_an_address(now[block].range(), range);
        let address = choose|address: Address| #[trigger]
            now[block].range().holds(address) && range.holds(address);
        assert(lists_block(members, block));
        assert(block_has(now[block], address));
        assert(will_have(v, t, id, address));
    }
    if exists|address: Address| #[trigger]
        will_have(v, t, id, address) && range.space == address.space && range.start.0
            <= address.address.0 <= range.end.0 {
        let address = choose|address: Address| #[trigger]
            will_have(v, t, id, address) && range.space == address.space && range.start.0
                <= address.address.0 <= range.end.0;
        let block = choose|block: CodeBlockId| #[trigger]
            lists_block(members, block) && now.contains_key(block) && block_has(
                now[block],
                address,
            );
        let i = choose|i: int| 0 <= i < members.len() && (#[trigger] members[i]).1 == block;
        law_ranges_meet_in_an_address(now[block].range(), range);
        assert(now[block].range().holds(address) && range.holds(address));
        assert(now.contains_key(members[i].1));
    }
}

/// The blocks that will be there fit their spaces.
proof fn lemma_blocks_fit(
    staging: FunctionTableStaging,
    functions: FunctionTable,
    blocks: CodeBlockTable,
)
    requires
        staging.wf(&functions, &blocks),
    ensures
        forall|block: CodeBlockId| #[trigger]
            staging@.blocks_now(tables(&functions, &blocks)).contains_key(block)
                ==> staging@.blocks_now(tables(&functions, &blocks))[block].fits(),
{
    blocks.lemma_wf();
}

/// The functions found for a range are those that will be there and will have a block with an
/// address in it, and the functions found for an address those with a block that has it.
pub proof fn law_staged_functions_are_found_by_address(
    staging: FunctionTableStaging,
    functions: FunctionTable,
    blocks: CodeBlockTable,
    range: AddressRange,
    address: Address,
    overlapping: Vec<FunctionId>,
    containing: Vec<FunctionId>,
    id: FunctionId,
)
    requires
        staging.wf(&functions, &blocks),
        range.start.0 <= range.end.0,
        call_ensures(
            FunctionTableStaging::functions_overlapping,
            (&staging, &functions, &blocks, &range),
            overlapping,
        ),
        call_ensures(
            FunctionTableStaging::functions_containing,
            (&staging, &functions, &blocks, address),
            containing,
        ),
    ensures
        overlapping@.contains(id) <==> exists|other: Address| #[trigger]
            will_have(staging@, tables(&functions, &blocks), id, other) && range.space
                == other.space && range.start.0 <= other.address.0 <= range.end.0,
        containing@.contains(id) <==> will_have(
            staging@,
            tables(&functions, &blocks),
            id,
            address,
        ),
{
    let t = tables(&functions, &blocks);
    lemma_blocks_fit(staging, functions, blocks);
    lemma_function_meets(staging@, t, id, range);
    lemma_function_meets(staging@, t, id, point_range(address));
    if containing@.contains(id) {
        let other = choose|other: Address| #[trigger]
            will_have(staging@, t, id, other) && address.space == other.space && address.address.0
                <= other.address.0 <= address.address.0;
        assert(other == address);
    }
}

/// The one function for an address is the one that will be entered there, or else the only one
/// that will have the address. Where several will have it and none is entered there, there is
/// no such function.
pub proof fn law_unique_function_is_the_only_one(
    staging: FunctionTableStaging,
    functions: FunctionTable,
    blocks: CodeBlockTable,
    address: Address,
    found: Option<FunctionId>,
    a: FunctionId,
    b: FunctionId,
)
    requires
        staging.wf(&functions, &blocks),
        call_ensures(
            FunctionTableStaging::unique_function_containing_address,
            (&staging, &functions, &blocks, address),
            found,
        ),
    ensures
        ({
            let t = tables(&functions, &blocks);
            let index = staging@.index_now(t);
            &&& index.contains_key(address) ==> found == Some(index[address])
            &&& !index.contains_key(address) && a != b && will_have(staging@, t, a, address)
                && will_have(staging@, t, b, address) ==> found is None
            &&& !index.contains_key(address) && found == Some(a) ==> will_have(
                staging@,
                t,
                a,
                address,
            )
            &&& !index.contains_key(address) && will_have(staging@, t, a, address) && found is None
                ==> exists|other: FunctionId| #[trigger]
                will_have(staging@, t, other, address) && other != a
        }),
{
    let t = tables(&functions, &blocks);
    let point = point_range(address);
    lemma_blocks_fit(staging, functions, blocks);
    assert forall|id: FunctionId| #[trigger] function_meets(staging@, t, id, point) <==> will_have(
        staging@,
        t,
        id,
        address,
    ) by {
        lemma_function_meets(staging@, t, id, point);
        if function_meets(staging@, t, id, point) {
            let other = choose|other: Address| #[trigger]
                will_have(staging@, t, id, other) && point.space == other.space && point.start.0
                    <= other.address.0 <= point.end.0;
            assert(other == address);
        }
    }
    assert(function_meets(staging@, t, a, point) <==> will_have(staging@, t, a, address));
    assert(function_meets(staging@, t, b, point) <==> will_have(staging@, t, b, address));
    if !staging@.index_now(t).contains_key(address) && will_have(staging@, t, a, address)
        && found is None {
        assert(!(forall|other: FunctionId| #[trigger]
            function_meets(staging@, t, other, point) ==> other == a));
        let other = choose|other: FunctionId| #[trigger]
            function_meets(staging@, t, other, point) && other != a;
        assert(will_have(staging@, t, other, address));
    }
}

/// A prepared batch holds each staged change once, and only what changes something: what it
/// says of a function or a block is what is staged, and is not what the tables hold.
pub proof fn law_only_changes_are_prepared(
    batch: PreparedFunctionBatch,
    v: StagingView,
    t: TablesView,
    i: int,
    k: int,
)
    requires
        prepares(batch, v, t),
        0 <= i < batch.functions@.len(),
        0 <= k < batch.blocks@.len(),
        forall|id: FunctionId| #[trigger]
            v.functions.contains_key(id) && v.functions[id].is_new ==> !t.functions.contains_key(id)
                && v.functions[id].function is Some,
        forall|id: CodeBlockId| #[trigger]
            v.blocks.contains_key(id) && v.blocks[id].is_new ==> !t.blocks.contains_key(id)
                && v.blocks[id].block is Some,
    ensures
        ({
            let function = batch.functions@[i]@;
            let block = batch.blocks@[k]@;
            &&& v.functions.contains_key(function.id)
            &&& function.function == v.functions[function.id].function
            &&& function.function != t.functions.get(function.id)
            &&& !v.functions[function.id].is_new && t.functions.contains_key(function.id)
                ==> function.previous == Some(t.functions[function.id].entry)
            &&& v.functions[function.id].is_new ==> function.previous is None
            &&& v.blocks.contains_key(block.id)
            &&& block.block == v.blocks[block.id].block
            &&& block.block != t.blocks.get(block.id)
            &&& v.blocks[block.id].is_new ==> block.previous is None
        }),
{
    assert(function_changes(v, t, batch.functions@[i].id));
    assert(block_changes(v, t, batch.blocks@[k].id));
}

/// Published batches give back the identities of what they take out, and no others.
pub proof fn law_taken_out_is_given_back(
    functions: Seq<PreparedFunctionRecord>,
    blocks: Seq<PreparedCodeBlockRecord>,
    id: FunctionId,
    block: CodeBlockId,
)
    ensures
        functions_given_back(functions).contains(id) <==> exists|i: int|
            0 <= i < functions.len() && (#[trigger] functions[i]).id == id && functions[i].function
                is None,
        blocks_given_back(blocks).contains(block) <==> exists|i: int|
            0 <= i < blocks.len() && (#[trigger] blocks[i]).id == block && blocks[i].block is None,
    decreases functions.len() + blocks.len(),
{
    if functions.len() > 0 {
        let rest = functions.drop_last();
        let last = functions.last();
        law_taken_out_is_given_back(rest, blocks, id, block);
        lemma_push_contains(functions_given_back(rest), last.id, id);
        assert(functions[functions.len() - 1] == last);
        assert forall|i: int| 0 <= i < rest.len() implies #[trigger] rest[i] == functions[i] by {}
        if exists|i: int|
            0 <= i < rest.len() && (#[trigger] rest[i]).id == id && rest[i].function is None {
            let i = choose|i: int|
                0 <= i < rest.len() && (#[trigger] rest[i]).id == id && rest[i].function is None;
            assert(functions[i] == rest[i]);
        }
        if exists|i: int|
            0 <= i < functions.len() && (#[trigger] functions[i]).id == id && functions[i].function
                is None {
            let i = choose|i: int|
                0 <= i < functions.len() && (#[trigger] functions[i]).id == id
                    && functions[i].function is None;
            if i < rest.len() {
                assert(rest[i] == functions[i]);
            }
        }
    } else if blocks.len() > 0 {
        let rest = blocks.drop_last();
        let last = blocks.last();
        law_taken_out_is_given_back(functions, rest, id, block);
        lemma_push_contains(blocks_given_back(rest), last.id, block);
        assert(blocks[blocks.len() - 1] == last);
        assert forall|i: int| 0 <= i < rest.len() implies #[trigger] rest[i] == blocks[i] by {}
        if exists|i: int|
            0 <= i < rest.len() && (#[trigger] rest[i]).id == block && rest[i].block is None {
            let i = choose|i: int|
                0 <= i < rest.len() && (#[trigger] rest[i]).id == block && rest[i].block is None;
            assert(blocks[i] == rest[i]);
        }
        if exists|i: int|
            0 <= i < blocks.len() && (#[trigger] blocks[i]).id == block && blocks[i].block
                is None {
            let i = choose|i: int|
                0 <= i < blocks.len() && (#[trigger] blocks[i]).id == block && blocks[i].block
                    is None;
            if i < rest.len() {
                assert(rest[i] == blocks[i]);
            }
        }
    }
}

/// A flow backs a reference where a function that will be there has a block of the table with
/// the address that refers, and the block has a flow from there to what is referred to that
/// calls or returns, or branches without condition from one of the function's tail call sites.
pub proof fn law_reference_is_backed_by_calls_and_returns(
    staging: FunctionTableStaging,
    functions: FunctionTable,
    blocks: CodeBlockTable,
    reference: Reference,
    supported: Option<Reference>,
)
    requires
        staging.wf(&functions, &blocks),
        call_ensures(
            FunctionTableStaging::supported_backing_flow_reference,
            (&staging, &functions, &blocks, &reference),
            supported,
        ),
    ensures
        supported is Some <==> exists|block: CodeBlockId, id: FunctionId, flow: FlowTarget| #[trigger]
            supports(staging@, tables(&functions, &blocks), reference, block, id, flow),
        supported matches Some(r) ==> r.from == reference.from && r.target == reference.target
            && r.kind is Flow && r.origin is Derived,
{
    let t = tables(&functions, &blocks);
    let v = staging@;
    blocks.lemma_wf();
    if supported is Some {
        let seen = choose|seen: FlowTarget| #[trigger]
            is_backed_by(v, t, reference, seen) && supported->0 == (Reference {
                properties: supported->0.properties,
                ..flow_reference(seen)
            });
        let (block, id) = choose|block: CodeBlockId, id: FunctionId| #[trigger]
            backs(v, t, reference, block, id, seen);
        let sites = v.functions_now(t)[id].tail_call_sites;
        let own = t.blocks[block].flows();
        let k = all_classified(sites, own).index_of(seen);
        assert(own.contains(own[k]));
        assert(supports(v, t, reference, block, id, own[k]));
    }
    if exists|block: CodeBlockId, id: FunctionId, flow: FlowTarget| #[trigger]
        supports(v, t, reference, block, id, flow) {
        let (block, id, flow) = choose|block: CodeBlockId, id: FunctionId, flow: FlowTarget|
            #[trigger] supports(v, t, reference, block, id, flow);
        let sites = v.functions_now(t)[id].tail_call_sites;
        let own = t.blocks[block].flows();
        let seen = classified(sites, flow);
        let k = own.index_of(flow);
        assert(all_classified(sites, own)[k] == seen);
        assert(backs(v, t, reference, block, id, seen));
        assert(is_backed_by(v, t, reference, seen));
    }
}

/// Whether a flow of a block of the table supports a reference, as a function will see it.
pub open spec fn supports(
    v: StagingView,
    t: TablesView,
    reference: Reference,
    block: CodeBlockId,
    id: FunctionId,
    flow: FlowTarget,
) -> bool {
    &&& t.blocks.contains_key(block) && block_has(t.blocks[block], reference.from)
    &&& v.functions_now(t).contains_key(id) && lists_block(v.functions_now(t)[id].blocks, block)
    &&& t.blocks[block].flows().contains(flow)
    &&& flow.from == reference.from
    &&& reference.target == ReferenceTarget::Address(flow.to)
    &&& calls_out(v.functions_now(t)[id], flow) || flow.kind is Return
}

} // verus!
