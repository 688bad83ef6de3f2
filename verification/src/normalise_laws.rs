//! What a function says once it is complete of what it was while under construction.
use vstd::prelude::*;

use crate::address::{Address, AddressWithContext};
use crate::block::{
    law_record_keeps_flows, CodeBlockId, IncompleteCodeBlock, IncompleteCodeBlockId,
};
use crate::block_laws::{lemma_end_flags, lemma_leaving_flow, lemma_none_resolved};
use crate::body::{lemma_add_contains, lemma_push_contains};
use crate::coalesce::{all_classified, classified};
use crate::flags::{CodeBlockProperties, InsnProperties};
use crate::flow::{FlowKind, FlowTarget};
use crate::function::{Function, FunctionId};
use crate::incomplete::{
    all_indirect, block_holds, block_indirect, block_record, first_fault, first_unknown,
    function_flows, is_sibling, known_insns, named_insns, place_id, record_edges, recordable,
    FunctionRecord, IncompleteFunction, IncompleteFunctionError,
};
use crate::insn::{address_after, InsnId, InsnView};

verus! {

/// Whether a flow of a block is a call of a function that makes tail calls at the given sites:
/// one that says so, or an unconditional branch from one of the sites.
pub open spec fn calls_from(sites: Seq<Address>, flow: FlowTarget) -> bool {
    match flow.kind {
        FlowKind::Call => true,
        FlowKind::ICall => true,
        FlowKind::ServiceCall => true,
        FlowKind::SwitchCall => true,
        FlowKind::TailCallBranch => true,
        FlowKind::Branch => sites.contains(flow.from),
        FlowKind::CBranch => false,
        FlowKind::IBranch => false,
        FlowKind::SwitchBranch => false,
        FlowKind::Fall => false,
        FlowKind::Return => false,
    }
}

/// A complete function has the blocks it had before, where they were and as long, and the
/// edges from each block to its successors. Each block is a call or a return exactly when its
/// last instruction is, and unresolved when that branches indirectly to nowhere known.
pub proof fn law_normalising_keeps_blocks(
    function: IncompleteFunction,
    record: FunctionRecord,
    b: int,
    edge: (usize, usize),
)
    requires
        call_ensures(
            IncompleteFunction::normalise,
            (function,),
            Ok::<FunctionRecord, IncompleteFunctionError>(record),
        ),
        0 <= b < function.blocks@.len(),
    ensures
        record.blocks@.len() == function.blocks@.len(),
        record.blocks@[b].address == function.blocks@[b].start,
        record.blocks@[b].size == function.blocks@[b].size,
        record.blocks@[b].context@ == function.blocks@[b].context@,
        function.blocks@[b].insn_ids@.len() > 0 ==> {
            let last = function.insns@[function.blocks@[b].insn_ids@.last().id as int];
            let bits = last.properties.bits;
            let flags = record.blocks@[b].properties.bits;
            &&& flags & CodeBlockProperties::CALL != 0 <==> bits & InsnProperties::CALL != 0
            &&& flags & CodeBlockProperties::RETURN != 0 <==> bits & InsnProperties::RETURN != 0
            &&& flags & CodeBlockProperties::UNRESOLVED != 0 <==> {
                &&& bits & InsnProperties::BRANCH != 0
                &&& bits & InsnProperties::INDIRECT != 0
                &&& bits & InsnProperties::CALL == 0
                &&& bits & InsnProperties::RETURN == 0
                &&& forall|k: int|
                    0 <= k < last.targets@.len() ==> (#[trigger] last.targets@[k]).1.leads_to()
                        is None
            }
        },
        record.edges@.contains(edge) <==> edge.0 < function.blocks@.len() && edge.1
            < function.blocks@.len() && function.blocks@[edge.0 as int].successors@.contains(
            place_id(edge.1 as int, function.block_generation),
        ),
        record.edges@.no_duplicates(),
{
    assert(record.blocks@[b]@ == block_record(function, b));
    let ids = function.blocks@[b].insn_ids@;
    if ids.len() > 0 {
        let last = function.insns@[ids.last().id as int];
        assert(named_insns(function, ids).last() == last@);
        lemma_none_resolved(last.targets@);
        lemma_end_flags();
    }
}

/// A complete function is what it was besides: its entry, name, origin, confidence, flags,
/// revision and tail call sites are as they were.
pub proof fn law_normalising_keeps_description(function: IncompleteFunction, record: FunctionRecord)
    requires
        call_ensures(
            IncompleteFunction::normalise,
            (function,),
            Ok::<FunctionRecord, IncompleteFunctionError>(record),
        ),
    ensures
        record.entry == function.entry,
        record.name == function.name,
        record.origin == function.origin,
        record.confidence == function.confidence,
        record.properties.bits == function.properties.bits,
        record.input_revision == function.input_revision,
        record.tail_call_sites@ == function.tail_call_sites@,
        function.entry_block.id == u32::MAX ==> record.entry_block is None,
        function.entry_block.id != u32::MAX ==> record.entry_block == Some(
            function.entry_block.id as usize,
        ),
{
}

/// A complete function covers the addresses of its blocks and no others.
pub proof fn law_normalising_covers_blocks(
    function: IncompleteFunction,
    record: FunctionRecord,
    a: Address,
)
    requires
        call_ensures(
            IncompleteFunction::normalise,
            (function,),
            Ok::<FunctionRecord, IncompleteFunctionError>(record),
        ),
        recordable(function),
    ensures
        record.coverage@.contains(a) <==> exists|b: int|
            0 <= b < record.blocks@.len() && (#[trigger] record.blocks@[b]).address.space == a.space
                && record.blocks@[b].address.address.0 <= a.address.0
                < record.blocks@[b].address.address.0 + record.blocks@[b].size,
{
    let count = function.blocks@.len() as int;
    assert forall|b: int| 0 <= b < count implies (#[trigger] record.blocks@[b]).address
        == function.blocks@[b].start && record.blocks@[b].size == function.blocks@[b].size by {
        assert(record.blocks@[b]@ == block_record(function, b));
    }
    if record.coverage@.contains(a) {
        assert(block_holds(function, count, a));
        let b = choose|b: int|
            0 <= b < count && crate::block::span_range(
                (#[trigger] function.blocks@[b]).start,
                function.blocks@[b].size as int,
            ).holds(a);
        assert(record.blocks@[b].address == function.blocks@[b].start);
    }
    if exists|b: int|
        0 <= b < record.blocks@.len() && (#[trigger] record.blocks@[b]).address.space == a.space
            && record.blocks@[b].address.address.0 <= a.address.0
            < record.blocks@[b].address.address.0 + record.blocks@[b].size {
        let b = choose|b: int|
            0 <= b < record.blocks@.len() && (#[trigger] record.blocks@[b]).address.space == a.space
                && record.blocks@[b].address.address.0 <= a.address.0
                < record.blocks@[b].address.address.0 + record.blocks@[b].size;
        let block = function.blocks@[b];
        assert(crate::block::spans(block.start, block.size as int));
        assert(crate::block::span_range(block.start, block.size as int).holds(a));
        assert(block_holds(function, count, a));
    }
}

/// A block of a complete function has the flows of its instructions, but that it falls through
/// only to where it ends.
pub proof fn law_normalised_block_has_flows_of_insns(
    function: IncompleteFunction,
    record: FunctionRecord,
    b: int,
    flow: FlowTarget,
)
    requires
        call_ensures(
            IncompleteFunction::normalise,
            (function,),
            Ok::<FunctionRecord, IncompleteFunctionError>(record),
        ),
        recordable(function),
        0 <= b < function.blocks@.len(),
    ensures
        record.blocks@[b]@.flows().contains(flow) <==> (flow.kind is Fall ==> flow.to
            == address_after(function.blocks@[b].start, function.blocks@[b].size as int))
            && exists|i: int|
            0 <= i < function.blocks@[b].insn_ids@.len()
                && function.insns@[(#[trigger] function.blocks@[b].insn_ids@[i]).id as int]@.flows().contains(
            flow),
{
    let block = function.blocks@[b];
    let ids = block.insn_ids@;
    let views = named_insns(function, ids);
    let end = address_after(block.start, block.size as int);
    assert(record.blocks@[b]@ == block_record(function, b));
    law_record_keeps_flows(block.start, block.size, views, block.context@);
    lemma_leaving_flow(views, end, flow);
    if exists|i: int|
        0 <= i < ids.len() && function.insns@[(#[trigger] ids[i]).id as int]@.flows().contains(flow) {
        let i = choose|i: int|
            0 <= i < ids.len() && function.insns@[(#[trigger] ids[i]).id as int]@.flows().contains(
                flow,
            );
        assert(views[i].flows().contains(flow));
    }
    if exists|i: int| 0 <= i < views.len() && #[trigger] views[i].flows().contains(flow) {
        let i = choose|i: int| 0 <= i < views.len() && #[trigger] views[i].flows().contains(flow);
        assert(function.insns@[ids[i].id as int]@.flows().contains(flow));
    }
}

/// The flows of the first blocks of a function.
proof fn lemma_function_flow(function: IncompleteFunction, count: int, seen: FlowTarget)
    requires
        0 <= count <= function.blocks@.len(),
    ensures
        function_flows(function, count).contains(seen) <==> exists|b: int, flow: FlowTarget|
            0 <= b < count && #[trigger] block_record(function, b).flows().contains(flow) && seen
                == classified(function.tail_call_sites@, flow),
    decreases count,
{
    let sites = function.tail_call_sites@;
    if count > 0 {
        lemma_function_flow(function, count - 1, seen);
        let own = block_record(function, count - 1).flows();
        let before = function_flows(function, count - 1);
        let added = all_classified(sites, own);
        lemma_add_contains(before, added, seen);
        if added.contains(seen) {
            let k = added.index_of(seen);
            assert(own.contains(own[k]));
            assert(block_record(function, count - 1).flows().contains(own[k]));
        }
        if exists|b: int, flow: FlowTarget|
            0 <= b < count && #[trigger] block_record(function, b).flows().contains(flow) && seen
                == classified(sites, flow) {
            let (b, flow) = choose|b: int, flow: FlowTarget|
                0 <= b < count && #[trigger] block_record(function, b).flows().contains(flow)
                    && seen == classified(sites, flow);
            if b == count - 1 {
                let k = own.index_of(flow);
                assert(added[k] == seen);
            }
        }
    }
}

/// The calls of a complete function are where its blocks call, and where they branch without
/// condition from one of its tail call sites.
pub proof fn law_normalised_function_calls(
    function: IncompleteFunction,
    record: FunctionRecord,
    a: Address,
)
    requires
        call_ensures(
            IncompleteFunction::normalise,
            (function,),
            Ok::<FunctionRecord, IncompleteFunctionError>(record),
        ),
    ensures
        record.call_targets@.contains(a) <==> exists|b: int, flow: FlowTarget|
            0 <= b < record.blocks@.len() && #[trigger] record.blocks@[b]@.flows().contains(flow)
                && calls_from(function.tail_call_sites@, flow) && flow.to == a,
{
    let count = function.blocks@.len() as int;
    let sites = function.tail_call_sites@;
    let flows = function_flows(function, count);
    assert forall|b: int| 0 <= b < count implies (#[trigger] record.blocks@[b])@ == block_record(
        function,
        b,
    ) by {}
    if record.call_targets@.contains(a) {
        let i = choose|i: int|
            0 <= i < flows.len() && (#[trigger] flows[i]).kind.calls() && flows[i].to == a;
        assert(flows.contains(flows[i]));
        lemma_function_flow(function, count, flows[i]);
        let (b, flow) = choose|b: int, flow: FlowTarget|
            0 <= b < count && #[trigger] block_record(function, b).flows().contains(flow)
                && flows[i] == classified(sites, flow);
        assert(record.blocks@[b]@.flows().contains(flow));
    }
    if exists|b: int, flow: FlowTarget|
        0 <= b < record.blocks@.len() && #[trigger] record.blocks@[b]@.flows().contains(flow)
            && calls_from(sites, flow) && flow.to == a {
        let (b, flow) = choose|b: int, flow: FlowTarget|
            0 <= b < record.blocks@.len() && #[trigger] record.blocks@[b]@.flows().contains(flow)
                && calls_from(sites, flow) && flow.to == a;
        let seen = classified(sites, flow);
        lemma_function_flow(function, count, seen);
        assert(block_record(function, b).flows().contains(flow));
        assert(flows.contains(seen));
        let i = flows.index_of(seen);
        assert(flows[i].kind.calls() && flows[i].to == a);
    }
}

/// A complete function refers to what its blocks call and return to, and to nothing else.
pub proof fn law_normalised_function_refers(
    function: IncompleteFunction,
    record: FunctionRecord,
    from: Address,
    to: Address,
)
    requires
        call_ensures(
            IncompleteFunction::normalise,
            (function,),
            Ok::<FunctionRecord, IncompleteFunctionError>(record),
        ),
    ensures
        (exists|i: int|
            0 <= i < record.references@.len() && (#[trigger] record.references@[i]).from == from
                && record.references@[i].target == crate::reference::ReferenceTarget::Address(to))
            <==> exists|b: int, flow: FlowTarget|
            0 <= b < record.blocks@.len() && #[trigger] record.blocks@[b]@.flows().contains(flow)
                && (calls_from(function.tail_call_sites@, flow) || flow.kind is Return) && flow.from
                == from && flow.to == to,
{
    let count = function.blocks@.len() as int;
    let sites = function.tail_call_sites@;
    let flows = function_flows(function, count);
    let references = record.references@;
    let keys = crate::coalesce::reference_keys(references);
    let target = crate::reference::ReferenceTarget::Address(to);
    let key = crate::reference::ReferenceKey { from, target };
    assert forall|b: int| 0 <= b < count implies (#[trigger] record.blocks@[b])@ == block_record(
        function,
        b,
    ) by {}
    if exists|i: int|
        0 <= i < references.len() && (#[trigger] references[i]).from == from && references[i].target
            == target {
        let i = choose|i: int|
            0 <= i < references.len() && (#[trigger] references[i]).from == from
                && references[i].target == target;
        assert(keys[i] == key);
        assert(keys.contains(key));
        let k = choose|k: int|
            0 <= k < flows.len() && (#[trigger] flows[k]).kind.leaves()
                && crate::coalesce::flow_key(flows[k]) == key;
        assert(flows.contains(flows[k]));
        lemma_function_flow(function, count, flows[k]);
        let (b, flow) = choose|b: int, flow: FlowTarget|
            0 <= b < count && #[trigger] block_record(function, b).flows().contains(flow)
                && flows[k] == classified(sites, flow);
        assert(record.blocks@[b]@.flows().contains(flow));
    }
    if exists|b: int, flow: FlowTarget|
        0 <= b < record.blocks@.len() && #[trigger] record.blocks@[b]@.flows().contains(flow) && (
        calls_from(sites, flow) || flow.kind is Return) && flow.from == from && flow.to == to {
        let (b, flow) = choose|b: int, flow: FlowTarget|
            0 <= b < record.blocks@.len() && #[trigger] record.blocks@[b]@.flows().contains(flow)
                && (calls_from(sites, flow) || flow.kind is Return) && flow.from == from && flow.to
                == to;
        let seen = classified(sites, flow);
        lemma_function_flow(function, count, seen);
        assert(block_record(function, b).flows().contains(flow));
        assert(flows.contains(seen));
        let k = flows.index_of(seen);
        assert(flows[k].kind.leaves() && crate::coalesce::flow_key(flows[k]) == key);
        assert(keys.contains(key));
        let i = keys.index_of(key);
        assert(references[i].filed() == key);
    }
}

/// Whether every block has a size, and the instructions and the successors that it names are
/// there.
pub open spec fn is_complete(function: IncompleteFunction) -> bool {
    forall|b: int|
        0 <= b < function.blocks@.len() ==> {
            &&& (#[trigger] function.blocks@[b]).size > 0
            &&& forall|i: int|
                0 <= i < function.blocks@[b].insn_ids@.len() ==> function.insn_place(
                    #[trigger] function.blocks@[b].insn_ids@[i],
                ) is Some
            &&& forall|id: IncompleteCodeBlockId| #[trigger]
                function.blocks@[b].successors@.contains(id) ==> function.block_place(id) is Some
        }
}

/// Identities that all name instructions have none that does not.
proof fn lemma_first_unknown(function: IncompleteFunction, ids: Seq<InsnId>)
    ensures
        first_unknown(function, ids) is None <==> forall|i: int|
            0 <= i < ids.len() ==> function.insn_place(#[trigger] ids[i]) is Some,
        first_unknown(function, ids) matches Some(id) ==> ids.contains(id) && function.insn_place(
            id,
        ) is None,
    decreases ids.len(),
{
    if ids.len() > 0 {
        let rest = ids.drop_first();
        lemma_first_unknown(function, rest);
        assert(ids[0] == ids.first());
        assert forall|i: int| 0 <= i < rest.len() implies #[trigger] rest[i] == ids[i + 1] by {}
        if function.insn_place(ids[0]) is Some {
            if forall|i: int|
                0 <= i < rest.len() ==> function.insn_place(#[trigger] rest[i]) is Some {
                assert forall|i: int| 0 <= i < ids.len() implies function.insn_place(
                    #[trigger] ids[i],
                ) is Some by {
                    if i > 0 {
                        assert(rest[i - 1] == ids[i]);
                    }
                }
            }
            if first_unknown(function, rest) is Some {
                let i = rest.index_of(first_unknown(function, rest)->0);
                assert(ids[i + 1] == rest[i]);
            }
        } else {
            assert(ids.contains(ids[0]));
        }
    }
}

/// Blocks of which none is at fault.
proof fn lemma_first_fault(function: IncompleteFunction, from: int)
    requires
        0 <= from <= function.blocks@.len(),
    ensures
        first_fault(function, from) is None <==> forall|b: int|
            from <= b < function.blocks@.len() ==> (#[trigger] function.blocks@[b]).size > 0
                && first_unknown(function, function.blocks@[b].insn_ids@) is None,
    decreases function.blocks@.len() - from,
{
    if from < function.blocks@.len() {
        lemma_first_fault(function, from + 1);
        let block = function.blocks@[from];
        assert(function.blocks@[from] == block);
    }
}

/// A function becomes complete exactly when every block has a size and the instructions and
/// successors that it names are there.
pub proof fn law_only_complete_functions_normalise(
    function: IncompleteFunction,
    result: Result<FunctionRecord, IncompleteFunctionError>,
)
    requires
        call_ensures(IncompleteFunction::normalise, (function,), result),
    ensures
        result is Ok <==> is_complete(function),
{
    lemma_first_fault(function, 0);
    if result is Ok {
        assert forall|b: int| 0 <= b < function.blocks@.len() implies {
            &&& (#[trigger] function.blocks@[b]).size > 0
            &&& forall|i: int|
                0 <= i < function.blocks@[b].insn_ids@.len() ==> function.insn_place(
                    #[trigger] function.blocks@[b].insn_ids@[i],
                ) is Some
            &&& forall|id: IncompleteCodeBlockId| #[trigger]
                function.blocks@[b].successors@.contains(id) ==> function.block_place(id) is Some
        } by {
            lemma_first_unknown(function, function.blocks@[b].insn_ids@);
        }
    }
    if is_complete(function) {
        assert forall|b: int| 0 <= b < function.blocks@.len() implies (#[trigger]
        function.blocks@[b]).size > 0 && first_unknown(function, function.blocks@[b].insn_ids@)
            is None by {
            lemma_first_unknown(function, function.blocks@[b].insn_ids@);
        }
    }
}

/// The indirect branches of the first instructions of a block.
proof fn lemma_block_indirect(
    function: IncompleteFunction,
    place: int,
    ids: Seq<InsnId>,
    branch: (IncompleteCodeBlockId, Address),
)
    ensures
        block_indirect(function, place, ids).contains(branch) <==> branch.0 == place_id::<
            crate::block::IncompleteCodeBlockEntity,
        >(place, function.block_generation) && exists|i: int|
            0 <= i < ids.len() && function.insn_place(#[trigger] ids[i]) is Some
                && is_open_branch(function.insns@[ids[i].id as int]@)
                && function.insns@[ids[i].id as int].address == branch.1,
    decreases ids.len(),
{
    if ids.len() > 0 {
        let rest = ids.drop_last();
        lemma_block_indirect(function, place, rest, branch);
        let last = ids.last();
        let before = block_indirect(function, place, rest);
        if function.insn_place(last) is Some {
            lemma_push_contains(
                before,
                (
                    place_id::<crate::block::IncompleteCodeBlockEntity>(
                        place,
                        function.block_generation,
                    ),
                    function.insns@[last.id as int].address,
                ),
                branch,
            );
        }
        assert(ids[ids.len() - 1] == last);
        assert forall|i: int| 0 <= i < rest.len() implies #[trigger] rest[i] == ids[i] by {}
        if before.contains(branch) {
            let i = choose|i: int|
                0 <= i < rest.len() && function.insn_place(#[trigger] rest[i]) is Some
                    && is_open_branch(function.insns@[rest[i].id as int]@)
                    && function.insns@[rest[i].id as int].address == branch.1;
            assert(ids[i] == rest[i]);
        }
        if exists|i: int|
            0 <= i < ids.len() && function.insn_place(#[trigger] ids[i]) is Some && is_open_branch(
                function.insns@[ids[i].id as int]@,
            ) && function.insns@[ids[i].id as int].address == branch.1 {
            let i = choose|i: int|
                0 <= i < ids.len() && function.insn_place(#[trigger] ids[i]) is Some
                    && is_open_branch(function.insns@[ids[i].id as int]@)
                    && function.insns@[ids[i].id as int].address == branch.1;
            if i < rest.len() {
                assert(rest[i] == ids[i]);
            }
        }
    }
}

/// Whether an instruction branches to where it does not say, and neither calls nor returns.
pub open spec fn is_open_branch(insn: InsnView) -> bool {
    &&& insn.properties.bits & InsnProperties::BRANCH != 0
    &&& insn.properties.bits & InsnProperties::INDIRECT != 0
    &&& insn.properties.bits & InsnProperties::CALL == 0
    &&& insn.properties.bits & InsnProperties::RETURN == 0
}

/// The indirect branches of the first blocks.
proof fn lemma_all_indirect(
    function: IncompleteFunction,
    count: int,
    branch: (IncompleteCodeBlockId, Address),
)
    requires
        0 <= count <= function.blocks@.len(),
    ensures
        all_indirect(function, count).contains(branch) <==> exists|b: int|
            0 <= b < count && #[trigger] block_indirect(
                function,
                b,
                function.blocks@[b].insn_ids@,
            ).contains(branch),
    decreases count,
{
    if count > 0 {
        lemma_all_indirect(function, count - 1, branch);
        let added = block_indirect(function, count - 1, function.blocks@[count - 1].insn_ids@);
        lemma_add_contains(all_indirect(function, count - 1), added, branch);
    }
}

/// The indirect branches of a function are those of its instructions that branch to where they
/// do not say and neither call nor return, each with the block that has it.
pub proof fn law_indirect_branches_are_open(
    function: IncompleteFunction,
    branches: Vec<(IncompleteCodeBlockId, Address)>,
    b: int,
    address: Address,
)
    requires
        function.wf(),
        call_ensures(IncompleteFunction::indirect_branches, (&function,), branches),
        0 <= b < function.blocks@.len(),
    ensures
        branches@.contains((place_id(b, function.block_generation), address)) <==> exists|i: int|
            0 <= i < function.blocks@[b].insn_ids@.len() && function.insn_place(
                #[trigger] function.blocks@[b].insn_ids@[i],
            ) is Some && is_open_branch(
                function.insns@[function.blocks@[b].insn_ids@[i].id as int]@,
            ) && function.insns@[function.blocks@[b].insn_ids@[i].id as int].address == address,
{
    let count = function.blocks@.len() as int;
    let branch = (
        place_id::<crate::block::IncompleteCodeBlockEntity>(b, function.block_generation),
        address,
    );
    lemma_all_indirect(function, count, branch);
    lemma_block_indirect(function, b, function.blocks@[b].insn_ids@, branch);
    if branches@.contains(branch) {
        let other = choose|other: int|
            0 <= other < count && #[trigger] block_indirect(
                function,
                other,
                function.blocks@[other].insn_ids@,
            ).contains(branch);
        lemma_block_indirect(function, other, function.blocks@[other].insn_ids@, branch);
        assert(other as u32 == b as u32);
        assert(other == b);
    }
}

/// Whether the blocks know of the edges between them at both ends.
pub open spec fn edges_mutual(function: IncompleteFunction) -> bool {
    forall|a: IncompleteCodeBlockId, b: IncompleteCodeBlockId|
        #![trigger function.block_place(a), function.block_place(b)]
        function.block_place(a) is Some && function.block_place(b) is Some ==> (
        function.blocks@[function.block_place(a)->0].successors@.contains(b)
            <==> function.blocks@[function.block_place(b)->0].predecessors@.contains(a))
}

/// An edge that is added leads from its source to its target and is known at both ends, one
/// that is taken away is known at neither, and every other edge is as it was. So both ends of
/// every edge stay in agreement.
pub proof fn law_edges_stay_mutual(
    before: IncompleteFunction,
    after: IncompleteFunction,
    source: IncompleteCodeBlockId,
    target: IncompleteCodeBlockId,
    present: bool,
    b: int,
    other: IncompleteCodeBlockId,
)
    requires
        before.edge_ends(source, target) is Ok,
        after.edge_changed(before, source, target, present),
        0 <= b < before.blocks@.len(),
    ensures
        after.blocks@.len() == before.blocks@.len(),
        after.blocks@[b].start == before.blocks@[b].start,
        after.blocks@[b].size == before.blocks@[b].size,
        after.blocks@[b].insn_ids@ == before.blocks@[b].insn_ids@,
        after.blocks@[b].successors@.contains(other) <==> if b == source.id && other == target {
            present
        } else {
            before.blocks@[b].successors@.contains(other)
        },
        after.blocks@[b].predecessors@.contains(other) <==> if b == target.id && other == source {
            present
        } else {
            before.blocks@[b].predecessors@.contains(other)
        },
        edges_mutual(before) ==> edges_mutual(after),
{
    assert(after.blocks@[b]@.start == before.blocks@[b].start);
    if edges_mutual(before) {
        assert forall|a: IncompleteCodeBlockId, c: IncompleteCodeBlockId|
            #![trigger after.block_place(a), after.block_place(c)]
            after.block_place(a) is Some && after.block_place(c) is Some implies (
        after.blocks@[after.block_place(a)->0].successors@.contains(c)
            <==> after.blocks@[after.block_place(c)->0].predecessors@.contains(a)) by {
            assert(before.block_place(a) == after.block_place(a));
            assert(before.block_place(c) == after.block_place(c));
            let (at, to) = (a.id as int, c.id as int);
            assert(after.blocks@[at]@.successors == after.blocks@[at].successors@);
            assert(after.blocks@[to]@.predecessors == after.blocks@[to].predecessors@);
            if at == source.id {
                assert(a == source);
            }
            if to == target.id {
                assert(c == target);
            }
        }
    }
}

/// An edge can be changed where both its ends are blocks. Otherwise the error names the source
/// if that is none, and else the target.
pub proof fn law_edges_need_both_ends(
    function: IncompleteFunction,
    source: IncompleteCodeBlockId,
    target: IncompleteCodeBlockId,
)
    ensures
        function.edge_ends(source, target) is Ok <==> function.block_place(source) is Some
            && function.block_place(target) is Some,
        function.edge_ends(source, target) matches Err(error) ==> error
            == IncompleteFunctionError::InvalidBlockId(
            if function.block_place(source) is None {
                source
            } else {
                target
            },
        ),
{
}

/// A function that is made of a record lists each recorded block under the identity given for
/// it, has an edge between two of them for each recorded edge and no other, and begins at the
/// recorded entry block.
pub proof fn law_made_function_is_as_recorded(
    record: FunctionRecord,
    id: FunctionId,
    ids: Vec<CodeBlockId>,
    function: Function,
    i: int,
    edge: (CodeBlockId, CodeBlockId),
)
    requires
        record.wf(),
        ids@.len() == record.blocks@.len(),
        call_ensures(FunctionRecord::materialise, (record, id, &ids), function),
        0 <= i < record.blocks@.len(),
    ensures
        function@.id == id,
        function@.entry == record.entry,
        function@.name == record.name,
        function@.origin == record.origin,
        function@.confidence == record.confidence,
        function@.properties == record.properties,
        function@.input_revision == record.input_revision,
        function@.tail_call_sites == record.tail_call_sites@,
        function@.blocks.len() == record.blocks@.len(),
        function@.blocks[i] == (record.blocks@[i].address, ids@[i]),
        record.entry_block matches Some(at) ==> function@.entry_block == ids@[at as int],
        record.entry_block is None ==> function@.entry_block.id == u32::MAX,
        function@.edges.contains(edge) <==> exists|k: int|
            0 <= k < record.edges@.len() && ids@[(#[trigger] record.edges@[k]).0 as int] == edge.0
                && ids@[record.edges@[k].1 as int] == edge.1,
{
    let edges = record_edges(record, ids@);
    assert(function@.edges.contains(edge) <==> edges.contains(edge));
    if edges.contains(edge) {
        let k = edges.index_of(edge);
        assert(ids@[record.edges@[k].0 as int] == edge.0);
    }
    if exists|k: int|
        0 <= k < record.edges@.len() && ids@[(#[trigger] record.edges@[k]).0 as int] == edge.0
            && ids@[record.edges@[k].1 as int] == edge.1 {
        let k = choose|k: int|
            0 <= k < record.edges@.len() && ids@[(#[trigger] record.edges@[k]).0 as int] == edge.0
                && ids@[record.edges@[k].1 as int] == edge.1;
        assert(edges[k] == edge);
    }
}

/// Whether a block has exactly two successors.
pub open spec fn forks_to(
    function: IncompleteFunction,
    guard: IncompleteCodeBlockId,
    a: IncompleteCodeBlockId,
    b: IncompleteCodeBlockId,
) -> bool {
    &&& function.block_place(guard) is Some
    &&& a != b
    &&& forall|id: IncompleteCodeBlockId| #[trigger]
        function.blocks@[guard.id as int].successors@.contains(id) <==> id == a || id == b
}

/// The sibling of a block is the other way that a block before it can go. One is found where a
/// block before forks to it and to another block that is there, and only then.
pub proof fn law_sibling_is_the_other_way(
    function: IncompleteFunction,
    block: IncompleteCodeBlockId,
    found: Option<AddressWithContext>,
    guard: IncompleteCodeBlockId,
    sibling: IncompleteCodeBlockId,
)
    requires
        call_ensures(
            IncompleteFunction::sibling_successor_from_incoming,
            (&function, block),
            found,
        ),
    ensures
        function.block_place(block) is Some && function.blocks@[block.id as int].predecessors@.contains(
            guard,
        ) && forks_to(function, guard, block, sibling) && function.block_place(sibling) is Some
            ==> found is Some,
        found matches Some(target) ==> function.block_place(block) is Some && exists|
            g: IncompleteCodeBlockId,
            s: IncompleteCodeBlockId,
        | #[trigger]
            forks_to(function, g, block, s)
                && function.blocks@[block.id as int].predecessors@.contains(g)
                && function.block_place(s) is Some && function.blocks@[s.id as int].start
                == target.address && function.blocks@[s.id as int].context@ == target.context@,
{
    if function.block_place(block) is Some
        && function.blocks@[block.id as int].predecessors@.contains(guard) && forks_to(
        function,
        guard,
        block,
        sibling,
    ) && function.block_place(sibling) is Some {
        assert(function.blocks@[guard.id as int].successors@ =~= set![block, sibling]);
        assert(is_sibling(function, block, guard, sibling));
    }
    if found is Some {
        let (g, s) = choose|g: IncompleteCodeBlockId, s: IncompleteCodeBlockId| #[trigger]
            is_sibling(function, block, g, s) && found->0.address
                == function.blocks@[function.block_place(s)->0].start && found->0.context@
                == function.blocks@[function.block_place(s)->0].context@;
        assert forall|id: IncompleteCodeBlockId| #[trigger]
            function.blocks@[g.id as int].successors@.contains(id) <==> id == block || id == s by {
            assert(set![block, s].contains(id) <==> id == block || id == s);
        }
        assert(forks_to(function, g, block, s));
    }
}

/// The instructions of a block that are there.
proof fn lemma_known_insn(function: IncompleteFunction, ids: Seq<InsnId>, insn: InsnView)
    ensures
        known_insns(function, ids).contains(insn) <==> exists|i: int|
            0 <= i < ids.len() && function.insn_place(#[trigger] ids[i]) is Some
                && function.insns@[ids[i].id as int]@ == insn,
    decreases ids.len(),
{
    if ids.len() > 0 {
        let rest = ids.drop_last();
        let last = ids.last();
        lemma_known_insn(function, rest, insn);
        lemma_push_contains(known_insns(function, rest), function.insns@[last.id as int]@, insn);
        assert(ids[ids.len() - 1] == last);
        assert forall|i: int| 0 <= i < rest.len() implies #[trigger] rest[i] == ids[i] by {}
        if known_insns(function, rest).contains(insn) {
            let i = choose|i: int|
                0 <= i < rest.len() && function.insn_place(#[trigger] rest[i]) is Some
                    && function.insns@[rest[i].id as int]@ == insn;
            assert(ids[i] == rest[i]);
        }
        if exists|i: int|
            0 <= i < ids.len() && function.insn_place(#[trigger] ids[i]) is Some
                && function.insns@[ids[i].id as int]@ == insn {
            let i = choose|i: int|
                0 <= i < ids.len() && function.insn_place(#[trigger] ids[i]) is Some
                    && function.insns@[ids[i].id as int]@ == insn;
            if i < rest.len() {
                assert(rest[i] == ids[i]);
            }
        }
    }
}

/// The flows of a block under construction are those of its instructions that are there, but
/// that it falls through only to where it ends.
pub proof fn law_unfinished_block_has_flows_of_insns(
    function: IncompleteFunction,
    block: IncompleteCodeBlock,
    flows: Vec<FlowTarget>,
    flow: FlowTarget,
)
    requires
        call_ensures(IncompleteFunction::block_flow_targets, (&function, &block), flows),
    ensures
        flows@.contains(flow) <==> (flow.kind is Fall ==> flow.to == address_after(
            block.start,
            block.size as int,
        )) && exists|i: int|
            0 <= i < block.insn_ids@.len() && function.insn_place(
                #[trigger] block.insn_ids@[i],
            ) is Some && function.insns@[block.insn_ids@[i].id as int]@.flows().contains(flow),
{
    let ids = block.insn_ids@;
    let views = known_insns(function, ids);
    lemma_leaving_flow(views, address_after(block.start, block.size as int), flow);
    if exists|i: int| 0 <= i < views.len() && #[trigger] views[i].flows().contains(flow) {
        let i = choose|i: int| 0 <= i < views.len() && #[trigger] views[i].flows().contains(flow);
        assert(views.contains(views[i]));
        lemma_known_insn(function, ids, views[i]);
    }
    if exists|i: int|
        0 <= i < ids.len() && function.insn_place(#[trigger] ids[i]) is Some
            && function.insns@[ids[i].id as int]@.flows().contains(flow) {
        let i = choose|i: int|
            0 <= i < ids.len() && function.insn_place(#[trigger] ids[i]) is Some
                && function.insns@[ids[i].id as int]@.flows().contains(flow);
        let insn = function.insns@[ids[i].id as int]@;
        lemma_known_insn(function, ids, insn);
        let k = views.index_of(insn);
        assert(views[k].flows().contains(flow));
    }
}

/// Whether a block has a size and names only instructions that are there.
pub open spec fn is_sound_block(function: IncompleteFunction, b: int) -> bool {
    &&& function.blocks@[b].size > 0
    &&& forall|i: int|
        0 <= i < function.blocks@[b].insn_ids@.len() ==> function.insn_place(
            #[trigger] function.blocks@[b].insn_ids@[i],
        ) is Some
}

/// The first block at fault.
proof fn lemma_fault_is_first(function: IncompleteFunction, from: int) -> (b: int)
    requires
        0 <= from <= function.blocks@.len(),
        first_fault(function, from) is Some,
    ensures
        from <= b < function.blocks@.len(),
        forall|earlier: int| from <= earlier < b ==> #[trigger] is_sound_block(function, earlier),
        !is_sound_block(function, b),
        function.blocks@[b].size == 0 ==> first_fault(function, from) == Some(
            IncompleteFunctionError::InvalidBlockSize { address: function.blocks@[b].start },
        ),
        function.blocks@[b].size > 0 ==> (first_fault(function, from)
            matches Some(IncompleteFunctionError::InvalidInsnId(id))
            && function.blocks@[b].insn_ids@.contains(id) && function.insn_place(id) is None),
    decreases function.blocks@.len() - from,
{
    let block = function.blocks@[from];
    lemma_first_unknown(function, block.insn_ids@);
    if block.size == 0 || first_unknown(function, block.insn_ids@) is Some {
        if block.size > 0 {
            let id = first_unknown(function, block.insn_ids@)->0;
            let i = block.insn_ids@.index_of(id);
            assert(function.insn_place(function.blocks@[from].insn_ids@[i]) is None);
        }
        from
    } else {
        assert(is_sound_block(function, from));
        lemma_fault_is_first(function, from + 1)
    }
}

/// Where a function is not complete, the error is about the first block that has no size or
/// names an instruction that is not there; and if there is none, about a successor that is not
/// there.
pub proof fn law_error_is_about_first_fault(
    function: IncompleteFunction,
    error: IncompleteFunctionError,
    b: int,
)
    requires
        call_ensures(
            IncompleteFunction::normalise,
            (function,),
            Err::<FunctionRecord, IncompleteFunctionError>(error),
        ),
        0 <= b <= function.blocks@.len(),
        forall|earlier: int| 0 <= earlier < b ==> #[trigger] is_sound_block(function, earlier),
        b < function.blocks@.len() ==> !is_sound_block(function, b),
    ensures
        b < function.blocks@.len() && function.blocks@[b].size == 0 ==> error
            == (IncompleteFunctionError::InvalidBlockSize { address: function.blocks@[b].start }),
        b < function.blocks@.len() && function.blocks@[b].size > 0 ==> (
        error matches IncompleteFunctionError::InvalidInsnId(id)
            && function.blocks@[b].insn_ids@.contains(id) && function.insn_place(id) is None),
        b == function.blocks@.len() ==> (error matches IncompleteFunctionError::InvalidBlockId(id)
            && function.block_place(id) is None && exists|from: int|
            0 <= from < function.blocks@.len() && (#[trigger]
            function.blocks@[from]).successors@.contains(id)),
{
    lemma_first_fault(function, 0);
    if first_fault(function, 0) is Some {
        let first = lemma_fault_is_first(function, 0);
        if first < b {
            assert(is_sound_block(function, first));
        }
        if b < first {
            assert(is_sound_block(function, b));
        }
    } else {
        if b < function.blocks@.len() {
            assert(function.blocks@[b].size > 0);
            lemma_first_unknown(function, function.blocks@[b].insn_ids@);
            assert(is_sound_block(function, b));
        }
    }
}

} // verus!
