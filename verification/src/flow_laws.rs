//! What the kinds of flows mean for calls and references.
use vstd::prelude::*;

use crate::address::Address;
use crate::block::CodeBlockId;
use crate::block_table::CodeBlockTable;
use crate::body::{body_flows, is_split, splits, Blocks};
use crate::call_graph::{
    callees_of, calls_made, function_calls, function_makes, CallGraphEdgeKey, CallGraphIndex,
};
use crate::coalesce::{
    all_classified, classified, coalesces, flow_key, leaves_by, merged_flags, merged_reference,
    reference_keys,
};
use crate::flags::ReferenceProperties;
use crate::flow::{FlowKind, FlowTarget};
use crate::function::{lists_block, FunctionId, FunctionView};
use crate::function_table::FunctionTable;
use crate::order::Ranked;
use crate::reference::{flow_properties, Reference, ReferenceKey, ReferenceTarget};
use crate::reference_index::{is_rederived, lists_functions, made_by, rederived};
use crate::split_laws::law_cut_edges_are_tail_calls;

verus! {

/// Two sets of flags have a flag together if one of them has it.
pub proof fn lemma_joined_flag(a: u16, b: u16, flag: u16)
    ensures
        (a | b) & flag != 0 <==> a & flag != 0 || b & flag != 0,
{
    assert((a | b) & flag != 0 <==> a & flag != 0 || b & flag != 0) by (bit_vector);
}

/// A reference is a call exactly where the flow is one. A tail call is a call, a jump and an
/// end; a flow is conditional, computed or falls through as its kind says; and a flow leaves
/// the function where it calls or returns.
pub proof fn law_references_say_what_flows_do(kind: FlowKind)
    ensures
        flow_properties(kind) & ReferenceProperties::CALL != 0 <==> kind.calls(),
        kind.leaves() <==> kind.calls() || kind is Return,
        kind.calls() <==> !(kind.branches() || kind is Return || kind is Fall
            || kind is SwitchBranch),
        flow_properties(kind) & ReferenceProperties::JUMP != 0 <==> kind.branches()
            || kind is SwitchBranch || kind is TailCallBranch,
        flow_properties(kind) & ReferenceProperties::TERMINAL != 0 <==> kind is Return
            || kind is TailCallBranch,
        flow_properties(kind) & ReferenceProperties::CONDITIONAL != 0 <==> kind is CBranch,
        flow_properties(kind) & ReferenceProperties::COMPUTED != 0 <==> kind is IBranch
            || kind is ICall || kind is SwitchBranch || kind is SwitchCall,
        flow_properties(kind) & ReferenceProperties::FALL_THROUGH != 0 <==> kind is Fall,
        flow_properties(kind) < 0x40,
        kind is TailCallBranch ==> kind.calls() && !kind.branches(),
        kind is Branch ==> kind.branches() && !kind.calls(),
{
    assert(0x2u16 | 0x4 == 0x6
        && 0x2u16 | 0x8 == 0xa
        && 0x1u16 | 0x8 == 0x9
        && 0x1u16 | 0x2 == 0x3
        && 0x3u16 | 0x10 == 0x13
        && 0x1u16 & 0x1 == 0x1
        && 0x1u16 & 0x2 == 0x0
        && 0x1u16 & 0x4 == 0x0
        && 0x1u16 & 0x8 == 0x0
        && 0x1u16 & 0x10 == 0x0
        && 0x1u16 & 0x20 == 0x0
        && 0x2u16 & 0x1 == 0x0
        && 0x2u16 & 0x2 == 0x2
        && 0x2u16 & 0x4 == 0x0
        && 0x2u16 & 0x8 == 0x0
        && 0x2u16 & 0x10 == 0x0
        && 0x2u16 & 0x20 == 0x0
        && 0x6u16 & 0x1 == 0x0
        && 0x6u16 & 0x2 == 0x2
        && 0x6u16 & 0x4 == 0x4
        && 0x6u16 & 0x8 == 0x0
        && 0x6u16 & 0x10 == 0x0
        && 0x6u16 & 0x20 == 0x0
        && 0xau16 & 0x1 == 0x0
        && 0xau16 & 0x2 == 0x2
        && 0xau16 & 0x4 == 0x0
        && 0xau16 & 0x8 == 0x8
        && 0xau16 & 0x10 == 0x0
        && 0xau16 & 0x20 == 0x0
        && 0x20u16 & 0x1 == 0x0
        && 0x20u16 & 0x2 == 0x0
        && 0x20u16 & 0x4 == 0x0
        && 0x20u16 & 0x8 == 0x0
        && 0x20u16 & 0x10 == 0x0
        && 0x20u16 & 0x20 == 0x20
        && 0x9u16 & 0x1 == 0x1
        && 0x9u16 & 0x2 == 0x0
        && 0x9u16 & 0x4 == 0x0
        && 0x9u16 & 0x8 == 0x8
        && 0x9u16 & 0x10 == 0x0
        && 0x9u16 & 0x20 == 0x0
        && 0x10u16 & 0x1 == 0x0
        && 0x10u16 & 0x2 == 0x0
        && 0x10u16 & 0x4 == 0x0
        && 0x10u16 & 0x8 == 0x0
        && 0x10u16 & 0x10 == 0x10
        && 0x10u16 & 0x20 == 0x0
        && 0x13u16 & 0x1 == 0x1
        && 0x13u16 & 0x2 == 0x2
        && 0x13u16 & 0x4 == 0x0
        && 0x13u16 & 0x8 == 0x0
        && 0x13u16 & 0x10 == 0x10
        && 0x13u16 & 0x20 == 0x0) by (bit_vector);
}

/// Whether a known block of a function has a flow, as the block sees it.
pub open spec fn has_flow(function: FunctionView, blocks: Blocks, flow: FlowTarget) -> bool {
    exists|id: CodeBlockId|
        lists_block(function.blocks, id) && blocks.contains_key(id) && #[trigger]
        blocks[id].flows().contains(flow)
}

/// Whether one of the first blocks of a function has a flow.
spec fn has_flow_among(
    function: FunctionView,
    blocks: Blocks,
    count: int,
    flow: FlowTarget,
) -> bool {
    exists|i: int|
        0 <= i < count && blocks.contains_key((#[trigger] function.blocks[i]).1)
            && blocks[function.blocks[i].1].flows().contains(flow)
}

/// The flows of the first blocks of a function.
proof fn lemma_flows_among(
    function: FunctionView,
    blocks: Blocks,
    count: int,
    seen: FlowTarget,
)
    requires
        0 <= count <= function.blocks.len(),
    ensures
        body_flows(function, blocks, count).contains(seen) <==> exists|flow: FlowTarget| #[trigger]
            has_flow_among(function, blocks, count, flow) && seen == classified(
                function.tail_call_sites,
                flow,
            ),
    decreases count,
{
    let sites = function.tail_call_sites;
    if count > 0 {
        lemma_flows_among(function, blocks, count - 1, seen);
        let id = function.blocks[count - 1].1;
        let before = body_flows(function, blocks, count - 1);
        let own = blocks[id].flows();
        let added = all_classified(sites, own);
        crate::body::lemma_add_contains(before, added, seen);
        if before.contains(seen) {
            let flow = choose|flow: FlowTarget| #[trigger]
                has_flow_among(function, blocks, count - 1, flow) && seen == classified(
                    sites,
                    flow,
                );
            assert(has_flow_among(function, blocks, count, flow));
        }
        if blocks.contains_key(id) && added.contains(seen) {
            let k = added.index_of(seen);
            assert(own.contains(own[k]));
            assert(function.blocks[count - 1].1 == id);
            assert(has_flow_among(function, blocks, count, own[k]));
        }
        if exists|flow: FlowTarget| #[trigger]
            has_flow_among(function, blocks, count, flow) && seen == classified(sites, flow) {
            let flow = choose|flow: FlowTarget| #[trigger]
                has_flow_among(function, blocks, count, flow) && seen == classified(sites, flow);
            let i = choose|i: int|
                0 <= i < count && blocks.contains_key((#[trigger] function.blocks[i]).1)
                    && blocks[function.blocks[i].1].flows().contains(flow);
            if i < count - 1 {
                assert(has_flow_among(function, blocks, count - 1, flow));
            } else {
                let k = own.index_of(flow);
                assert(added[k] == seen);
            }
        }
    } else {
        assert(forall|flow: FlowTarget| !#[trigger] has_flow_among(function, blocks, count, flow));
    }
}

/// A function has the flows of its known blocks, each as it is, but that a branch from one of
/// its tail call sites is a tail call.
pub proof fn law_function_has_flows_of_blocks(
    function: FunctionView,
    blocks: Blocks,
    from: Address,
    to: Address,
    kind: FlowKind,
)
    ensures
        body_flows(function, blocks, function.blocks.len() as int).contains(
            FlowTarget { from, to, kind },
        ) <==> match kind {
            FlowKind::Branch => has_flow(function, blocks, FlowTarget { from, to, kind })
                && !function.tail_call_sites.contains(from),
            FlowKind::TailCallBranch => has_flow(function, blocks, FlowTarget { from, to, kind })
                || (has_flow(function, blocks, FlowTarget { from, to, kind: FlowKind::Branch })
                && function.tail_call_sites.contains(from)),
            _ => has_flow(function, blocks, FlowTarget { from, to, kind }),
        },
{
    let count = function.blocks.len() as int;
    let seen = FlowTarget { from, to, kind };
    let branch = FlowTarget { from, to, kind: FlowKind::Branch };
    lemma_flows_among(function, blocks, count, seen);
    lemma_has_flow(function, blocks, seen);
    lemma_has_flow(function, blocks, branch);
    let all = body_flows(function, blocks, count);
    if all.contains(seen) {
        let flow = choose|flow: FlowTarget| #[trigger]
            has_flow_among(function, blocks, count, flow) && seen == classified(
                function.tail_call_sites,
                flow,
            );
        assert(flow == seen || flow == branch);
    }
    assert(classified(function.tail_call_sites, branch) == if function.tail_call_sites.contains(
        from,
    ) {
        FlowTarget { from, to, kind: FlowKind::TailCallBranch }
    } else {
        branch
    });
    if has_flow_among(function, blocks, count, seen) && seen == classified(
        function.tail_call_sites,
        seen,
    ) {
        assert(all.contains(seen));
    }
    if has_flow_among(function, blocks, count, branch) && seen == classified(
        function.tail_call_sites,
        branch,
    ) {
        assert(all.contains(seen));
    }
}

/// The flows of all blocks of a function.
proof fn lemma_has_flow(function: FunctionView, blocks: Blocks, flow: FlowTarget)
    ensures
        has_flow(function, blocks, flow) <==> has_flow_among(
            function,
            blocks,
            function.blocks.len() as int,
            flow,
        ),
{
    if has_flow(function, blocks, flow) {
        let id = choose|id: CodeBlockId|
            lists_block(function.blocks, id) && blocks.contains_key(id) && #[trigger]
            blocks[id].flows().contains(flow);
        let i = choose|i: int|
            0 <= i < function.blocks.len() && (#[trigger] function.blocks[i]).1 == id;
        assert(blocks.contains_key(function.blocks[i].1));
    }
    if has_flow_among(function, blocks, function.blocks.len() as int, flow) {
        let i = choose|i: int|
            0 <= i < function.blocks.len() && blocks.contains_key(
                (#[trigger] function.blocks[i]).1,
            ) && blocks[function.blocks[i].1].flows().contains(flow);
        let id = function.blocks[i].1;
        assert(lists_block(function.blocks, id));
        assert(blocks[id].flows().contains(flow));
    }
}

/// Whether a flow of a block is a call of the function that the block is of: one that says so,
/// or an unconditional branch from one of the function's tail call sites.
pub open spec fn calls_out(function: FunctionView, flow: FlowTarget) -> bool {
    match flow.kind {
        FlowKind::Call => true,
        FlowKind::ICall => true,
        FlowKind::ServiceCall => true,
        FlowKind::SwitchCall => true,
        FlowKind::TailCallBranch => true,
        FlowKind::Branch => function.tail_call_sites.contains(flow.from),
        FlowKind::CBranch => false,
        FlowKind::IBranch => false,
        FlowKind::SwitchBranch => false,
        FlowKind::Fall => false,
        FlowKind::Return => false,
    }
}

/// The callees of a function in the rebuilt call graph are where the calls of its blocks lead,
/// and where unconditional branches at its tail call sites lead. Nothing else is a callee of
/// an entry.
pub proof fn law_call_graph_holds_calls_and_tail_calls(
    functions: Map<FunctionId, FunctionView>,
    blocks: Blocks,
    id: FunctionId,
    flow: FlowTarget,
    entry: Address,
    callee: Address,
)
    ensures
        functions.contains_key(id) && has_flow(functions[id], blocks, flow) && calls_out(
            functions[id],
            flow,
        ) ==> callees_of(calls_made(functions, blocks), functions[id].entry).contains(flow.to),
        functions.contains_key(id) && has_flow(functions[id], blocks, flow) && flow.kind is Branch
            && functions[id].tail_call_sites.contains(flow.from) ==> callees_of(
            calls_made(functions, blocks),
            functions[id].entry,
        ).contains(flow.to),
        callees_of(calls_made(functions, blocks), entry).contains(callee) ==> exists|
            caller: FunctionId,
            call: FlowTarget,
        |
            functions.contains_key(caller) && functions[caller].entry == entry && call.to == callee
                && #[trigger] has_flow(functions[caller], blocks, call) && calls_out(
                functions[caller],
                call,
            ),
{
    let edges = calls_made(functions, blocks);
    if functions.contains_key(id) && has_flow(functions[id], blocks, flow) && calls_out(
        functions[id],
        flow,
    ) {
        let edge = CallGraphEdgeKey { source: functions[id].entry, target: flow.to };
        law_function_calls_where_blocks_call(functions[id], blocks, flow.to);
        assert(function_makes(functions, blocks, edge));
        assert(edges.contains(edge));
    }
    if callees_of(edges, entry).contains(callee) {
        let edge = CallGraphEdgeKey { source: entry, target: callee };
        assert(edges.contains(edge));
        let caller = choose|caller: FunctionId| #[trigger]
            functions.contains_key(caller) && functions[caller].entry == edge.source
                && function_calls(functions[caller], blocks, edge.target);
        law_function_calls_where_blocks_call(functions[caller], blocks, callee);
        let call = choose|call: FlowTarget| #[trigger]
            has_flow(functions[caller], blocks, call) && calls_out(functions[caller], call)
                && call.to == callee;
        assert(has_flow(functions[caller], blocks, call));
    }
}

/// A function calls an address exactly where a flow of one of its blocks leads there that is a
/// call, or an unconditional branch from one of its tail call sites.
pub proof fn law_function_calls_where_blocks_call(
    function: FunctionView,
    blocks: Blocks,
    callee: Address,
)
    ensures
        function_calls(function, blocks, callee) <==> exists|flow: FlowTarget| #[trigger]
            has_flow(function, blocks, flow) && calls_out(function, flow) && flow.to == callee,
{
    let all = body_flows(function, blocks, function.blocks.len() as int);
    if function_calls(function, blocks, callee) {
        let k = choose|k: int|
            0 <= k < all.len() && (#[trigger] all[k]).kind.calls() && all[k].to == callee;
        let seen = all[k];
        assert(all.contains(seen));
        law_function_has_flows_of_blocks(function, blocks, seen.from, seen.to, seen.kind);
        assert(seen == FlowTarget { from: seen.from, to: seen.to, kind: seen.kind });
        let branch = FlowTarget { from: seen.from, to: seen.to, kind: FlowKind::Branch };
        assert(has_flow(function, blocks, seen) || has_flow(function, blocks, branch));
    }
    if exists|flow: FlowTarget| #[trigger]
        has_flow(function, blocks, flow) && calls_out(function, flow) && flow.to == callee {
        let flow = choose|flow: FlowTarget| #[trigger]
            has_flow(function, blocks, flow) && calls_out(function, flow) && flow.to == callee;
        let kind = if flow.kind is Branch {
            FlowKind::TailCallBranch
        } else {
            flow.kind
        };
        let seen = FlowTarget { from: flow.from, to: flow.to, kind };
        assert(flow == FlowTarget { from: flow.from, to: flow.to, kind: flow.kind });
        law_function_has_flows_of_blocks(function, blocks, flow.from, flow.to, kind);
        assert(all.contains(seen));
        let k = all.index_of(seen);
        assert(all[k].kind.calls() && all[k].to == callee);
    }
}

/// After a split the old function calls the new one's entry if an edge from the old to the
/// new was cut, and the new one calls the old one's entry if an edge back was.
pub proof fn law_split_functions_call_each_other(
    function: FunctionView,
    table: Blocks,
    new_entry: CodeBlockId,
    parent: FunctionView,
    child: FunctionView,
    source: CodeBlockId,
)
    requires
        function.wf(),
        crate::body::blocks_known(function, table),
        splits(function, table, new_entry),
        is_split(function, table, new_entry, parent, child),
    ensures
        lists_block(parent.blocks, source) && function.edges.contains((source, new_entry))
            ==> function_calls(parent, table, child.entry),
        lists_block(child.blocks, source) && function.edges.contains(
            (source, function.entry_block),
        ) ==> function_calls(child, table, parent.entry),
{
    law_cut_edges_are_tail_calls(function, table, new_entry, parent, child, source);
    crate::split_laws::law_split_follows_reach(
        function,
        table,
        new_entry,
        parent,
        child,
        (function.entry, source),
    );
    crate::body::law_split_keeps_every_block(function, table, new_entry, parent, child, source);
    if lists_block(function.blocks, source) {
        let i = choose|i: int|
            0 <= i < function.blocks.len() && (#[trigger] function.blocks[i]).1 == source;
        assert(table.contains_key(function.blocks[i].1));
    }
    let flows = table[source].flows();
    if lists_block(parent.blocks, source) && function.edges.contains((source, new_entry)) {
        let k = choose|k: int|
            0 <= k < flows.len() && (#[trigger] flows[k]).kind is Branch && flows[k].to
                == child.entry && parent.tail_call_sites.contains(flows[k].from);
        lemma_tail_branch_calls(parent, table, source, k);
    }
    if lists_block(child.blocks, source) && function.edges.contains(
        (source, function.entry_block),
    ) {
        let k = choose|k: int|
            0 <= k < flows.len() && (#[trigger] flows[k]).kind is Branch && flows[k].to
                == parent.entry && child.tail_call_sites.contains(flows[k].from);
        lemma_tail_branch_calls(child, table, source, k);
    }
}

/// A branch at a tail call site calls.
proof fn lemma_tail_branch_calls(function: FunctionView, table: Blocks, id: CodeBlockId, k: int)
    requires
        lists_block(function.blocks, id),
        table.contains_key(id),
        0 <= k < table[id].flows().len(),
        table[id].flows()[k].kind is Branch,
        function.tail_call_sites.contains(table[id].flows()[k].from),
    ensures
        function_calls(function, table, table[id].flows()[k].to),
{
    let flow = table[id].flows()[k];
    assert(table[id].flows().contains(flow));
    assert(has_flow(function, table, flow));
    assert(calls_out(function, flow));
    law_function_calls_where_blocks_call(function, table, flow.to);
}

/// Whether one of the flows leaves the function with the given two ends and has a flag.
pub open spec fn flagged_by(flows: Seq<FlowTarget>, key: ReferenceKey, flag: u16) -> bool {
    exists|i: int|
        0 <= i < flows.len() && ((#[trigger] flows[i]).kind.calls() || flows[i].kind is Return)
            && flows[i].from == key.from && key.target == ReferenceTarget::Address(flows[i].to)
            && flow_properties(flows[i].kind) & flag != 0
}

/// The flags that flows have together.
pub proof fn lemma_merged_flag(flows: Seq<FlowTarget>, key: ReferenceKey, flag: u16)
    ensures
        merged_flags(flows, key) & flag != 0 <==> flagged_by(flows, key, flag),
    decreases flows.len(),
{
    if flows.len() == 0 {
        assert(0u16 & flag == 0) by (bit_vector);
    } else {
        let rest = flows.drop_last();
        let last = flows.last();
        lemma_merged_flag(rest, key, flag);
        lemma_joined_flag(merged_flags(rest, key), flow_properties(last.kind), flag);
        if flagged_by(rest, key, flag) {
            let i = choose|i: int|
                0 <= i < rest.len() && ((#[trigger] rest[i]).kind.calls() || rest[i].kind is Return)
                    && rest[i].from == key.from && key.target == ReferenceTarget::Address(
                    rest[i].to,
                ) && flow_properties(rest[i].kind) & flag != 0;
            assert(flows[i] == rest[i]);
        }
        if flagged_by(flows, key, flag) {
            let i = choose|i: int|
                0 <= i < flows.len() && ((#[trigger] flows[i]).kind.calls()
                    || flows[i].kind is Return) && flows[i].from == key.from && key.target
                    == ReferenceTarget::Address(flows[i].to) && flow_properties(flows[i].kind)
                    & flag != 0;
            if i < rest.len() {
                assert(rest[i] == flows[i]);
            }
        }
        if last.kind.leaves() && flow_key(last) == key && flow_properties(last.kind) & flag != 0 {
            assert(flows[flows.len() - 1] == last);
        }
    }
}

/// Each call and each return makes a reference between its ends, no other flow does, two ends
/// have one reference, and it has exactly the flags that the flows between them have.
pub proof fn law_references_are_of_leaving_flows(
    references: Seq<Reference>,
    flows: Seq<FlowTarget>,
    i: int,
    j: int,
    k: int,
    flag: u16,
)
    requires
        coalesces(references, flows),
        0 <= i < references.len(),
        0 <= j < references.len(),
        0 <= k < flows.len(),
    ensures
        references[i].kind is Flow,
        references[i].origin is Derived,
        exists|m: int|
            0 <= m < flows.len() && ((#[trigger] flows[m]).kind.calls() || flows[m].kind is Return)
                && flows[m].from == references[i].from && references[i].target
                == ReferenceTarget::Address(flows[m].to),
        references[i].properties.bits & flag != 0 <==> flagged_by(
            flows,
            references[i].filed(),
            flag,
        ),
        references[i].from == references[j].from && references[i].target == references[j].target
            ==> i == j,
        flows[k].kind.calls() || flows[k].kind is Return ==> exists|m: int|
            0 <= m < references.len() && (#[trigger] references[m]).from == flows[k].from
                && references[m].target == ReferenceTarget::Address(flows[k].to),
{
    let keys = reference_keys(references);
    let key = references[i].filed();
    assert(keys[i] == key);
    assert(keys.contains(key));
    lemma_merged_flag(flows, key, flag);
    let m = choose|m: int|
        0 <= m < flows.len() && (#[trigger] flows[m]).kind.leaves() && flow_key(flows[m]) == key;
    assert(flows[m].from == references[i].from);
    if references[i].from == references[j].from && references[i].target == references[j].target {
        assert(keys[i] == keys[j]);
        if i < j {
            assert(keys[i].rank() < keys[j].rank());
        } else if j < i {
            assert(keys[j].rank() < keys[i].rank());
        }
    }
    if flows[k].kind.calls() || flows[k].kind is Return {
        let own = flow_key(flows[k]);
        assert(leaves_by(flows, own));
        assert(keys.contains(own));
        let n = keys.index_of(own);
        assert(references[n].filed() == own);
    }
}

/// Whether a function makes a reference with given two ends: a flow of its body that calls or
/// returns has them.
pub open spec fn makes_reference(function: FunctionView, blocks: Blocks, key: ReferenceKey) -> bool {
    exists|flow: FlowTarget| #[trigger]
        body_flows(function, blocks, function.blocks.len() as int).contains(flow) && (
        flow.kind.calls() || flow.kind is Return) && flow.from == key.from && key.target
            == ReferenceTarget::Address(flow.to)
}

/// A function that makes a reference has a flow with its ends.
pub proof fn lemma_makes_reference(function: FunctionView, blocks: Blocks, key: ReferenceKey)
    ensures
        makes_reference(function, blocks, key) <==> leaves_by(
            crate::reference_index::flows_of(function, blocks),
            key,
        ),
{
    let flows = crate::reference_index::flows_of(function, blocks);
    if makes_reference(function, blocks, key) {
        let flow = choose|flow: FlowTarget| #[trigger]
            flows.contains(flow) && (flow.kind.calls() || flow.kind is Return) && flow.from
                == key.from && key.target == ReferenceTarget::Address(flow.to);
        let i = flows.index_of(flow);
        assert(flows[i].kind.leaves() && flow_key(flows[i]) == key);
    }
    if leaves_by(flows, key) {
        let i = choose|i: int|
            0 <= i < flows.len() && (#[trigger] flows[i]).kind.leaves() && flow_key(flows[i])
                == key;
        assert(flows.contains(flows[i]));
    }
}

/// The function whose reference with given two ends is the one that stands.
proof fn lemma_made_by(
    listed: Seq<FunctionView>,
    blocks: Blocks,
    key: ReferenceKey,
) -> (place: int)
    ensures
        made_by(listed, blocks, key) is Some <==> exists|i: int|
            0 <= i < listed.len() && #[trigger] makes_reference(listed[i], blocks, key),
        made_by(listed, blocks, key) is Some ==> 0 <= place < listed.len() && makes_reference(
            listed[place],
            blocks,
            key,
        ) && made_by(listed, blocks, key) == Some(
            merged_reference(crate::reference_index::flows_of(listed[place], blocks), key),
        ) && forall|i: int|
            place < i < listed.len() ==> !#[trigger] makes_reference(listed[i], blocks, key),
    decreases listed.len(),
{
    if listed.len() == 0 {
        0
    } else {
        let last = listed.last();
        lemma_makes_reference(last, blocks, key);
        assert(listed[listed.len() - 1] == last);
        if makes_reference(last, blocks, key) {
            listed.len() - 1
        } else {
            let rest = listed.drop_last();
            let place = lemma_made_by(rest, blocks, key);
            if made_by(rest, blocks, key) is Some {
                assert(listed[place] == rest[place]);
                assert(makes_reference(listed[place], blocks, key));
                assert forall|i: int| place < i < listed.len() implies !#[trigger] makes_reference(
                    listed[i],
                    blocks,
                    key,
                ) by {
                    if i < rest.len() {
                        assert(!makes_reference(rest[i], blocks, key));
                    }
                }
            } else {
                assert forall|i: int| 0 <= i < listed.len() implies !#[trigger] makes_reference(
                    listed[i],
                    blocks,
                    key,
                ) by {
                    if i < rest.len() {
                        assert(!makes_reference(rest[i], blocks, key));
                    }
                }
            }
            place
        }
    }
}

/// After references are derived anew, a derived one is a flow that a function of the table now
/// makes, with the flags of that function's present flows; where several make one, it is that
/// of the last. A reference that nobody stated and no function makes is gone. One that a
/// function makes is there, and is not the one from before unless someone stated it.
pub proof fn law_derived_references_are_present_ones(
    before: Map<ReferenceKey, Reference>,
    after: Map<ReferenceKey, Reference>,
    functions: Map<FunctionId, FunctionView>,
    blocks: Blocks,
    key: ReferenceKey,
)
    requires
        is_rederived(after, before, functions, blocks),
        forall|k: ReferenceKey| #[trigger] before.contains_key(k) ==> before[k].filed() == k,
        forall|id: FunctionId| #[trigger] functions.contains_key(id) ==> functions[id].id == id,
    ensures
        after.contains_key(key) ==> after[key].from == key.from && after[key].target == key.target,
        after.contains_key(key) && after[key].origin is Derived ==> after[key].kind is Flow
            && exists|id: FunctionId| #[trigger]
            functions.contains_key(id) && makes_reference(functions[id], blocks, key) && (forall|
                other: FunctionId,
            |
                #[trigger] functions.contains_key(other) && makes_reference(
                    functions[other],
                    blocks,
                    key,
                ) ==> other.id <= id.id) && forall|flag: u16|
                after[key].properties.bits & flag != 0 <==> #[trigger] flagged_by(
                    body_flows(
                        functions[id],
                        blocks,
                        functions[id].blocks.len() as int,
                    ),
                    key,
                    flag,
                ),
        !(before.contains_key(key) && before[key].origin is Asserted) && (forall|id: FunctionId|
            #[trigger] functions.contains_key(id) ==> !makes_reference(functions[id], blocks, key))
            ==> !after.contains_key(key),
        forall|id: FunctionId| #[trigger]
            functions.contains_key(id) && makes_reference(functions[id], blocks, key)
                ==> after.contains_key(key),
        before.contains_key(key) && before[key].origin is Asserted ==> after.contains_key(key)
            && after[key] == before[key],
        after.contains_key(key) && !(before.contains_key(key) && before[key].origin is Asserted)
            ==> after[key].origin is Derived,
{
    let listed = choose|listed: Seq<FunctionView>| #[trigger]
        lists_functions(listed, functions) && after == rederived(before, listed, blocks);
    let place = lemma_made_by(listed, blocks, key);
    assert forall|id: FunctionId| #[trigger]
        functions.contains_key(id) && makes_reference(
            functions[id],
            blocks,
            key,
        ) implies made_by(listed, blocks, key) is Some && id.id <= listed[place].id.id by {
        let i = choose|i: int| 0 <= i < listed.len() && (#[trigger] listed[i]).id == id;
        assert(makes_reference(listed[i], blocks, key));
        if i < place {
            assert(listed[i].id.id < listed[place].id.id);
        }
    }
    if made_by(listed, blocks, key) is Some {
        let id = listed[place].id;
        let flows = body_flows(functions[id], blocks, functions[id].blocks.len() as int);
        assert(functions.contains_key(id));
        assert forall|flag: u16|
            merged_flags(flows, key) & flag != 0 <==> #[trigger] flagged_by(flows, key, flag) by {
            lemma_merged_flag(flows, key, flag);
        }
        assert(makes_reference(functions[id], blocks, key));
    }
}

/// Every kind of flow is a branch, a call, a return, a fall-through or a switch's branch, and
/// only one of them; it leaves the function where it is a call or a return, is conditional or
/// falls through where its reference does, and is computed where it is indirect or a switch's.
pub proof fn law_kinds_exclude_each_other(
    kind: FlowKind,
    branch: bool,
    call: bool,
    conditional: bool,
    fall: bool,
    global: bool,
    indirect: bool,
    ret: bool,
    switch: bool,
)
    requires
        call_ensures(FlowKind::is_branch, (&kind,), branch),
        call_ensures(FlowKind::is_call, (&kind,), call),
        call_ensures(FlowKind::is_conditional, (&kind,), conditional),
        call_ensures(FlowKind::is_fall_through, (&kind,), fall),
        call_ensures(FlowKind::is_global, (&kind,), global),
        call_ensures(FlowKind::is_indirect, (&kind,), indirect),
        call_ensures(FlowKind::is_return, (&kind,), ret),
        call_ensures(FlowKind::is_switch, (&kind,), switch),
    ensures
        branch || call || ret || fall || switch,
        !(branch && (call || ret || fall || switch)),
        !(call && (ret || fall)),
        !(ret && (fall || switch)),
        !(fall && switch),
        global == (call || ret),
        conditional ==> branch && !indirect,
        kind is TailCallBranch ==> call,
        call == (flow_properties(kind) & ReferenceProperties::CALL != 0),
        conditional == (flow_properties(kind) & ReferenceProperties::CONDITIONAL != 0),
        fall == (flow_properties(kind) & ReferenceProperties::FALL_THROUGH != 0),
        (indirect || switch) == (flow_properties(kind) & ReferenceProperties::COMPUTED != 0),
        !(indirect && switch),
        ret == (flow_properties(kind) & ReferenceProperties::TERMINAL != 0 && !call),
{
    law_references_say_what_flows_do(kind);
}

/// Deriving the references of functions anew leaves of what was derived before only what a
/// function of the table makes now, and everything that was stated.
pub proof fn law_rebuilding_forgets_old_references(
    functions: FunctionTable,
    blocks: CodeBlockTable,
    key: ReferenceKey,
)
    requires
        functions.wf(),
    ensures
        forall|index: &mut crate::reference_index::ReferenceIndex| #[trigger]
            call_ensures(
                crate::reference_index::ReferenceIndex::rebuild,
                (index, &functions, &blocks),
                (),
            ) && index.wf() ==> {
                &&& index@.contains_key(key) && index@[key].origin is Asserted ==> final(index)@.contains_key(key) && final(index)@[key] == index@[key]
                &&& !(index@.contains_key(key) && index@[key].origin is Asserted) ==> (final(index)@.contains_key(key) <==> exists|id: FunctionId| #[trigger]
                    functions@.contains_key(id) && makes_reference(functions@[id], blocks@, key))
            },
{
    functions.lemma_sound();
    assert forall|index: &mut crate::reference_index::ReferenceIndex| #[trigger]
        call_ensures(
            crate::reference_index::ReferenceIndex::rebuild,
            (index, &functions, &blocks),
            (),
        ) && index.wf() implies {
        &&& index@.contains_key(key) && index@[key].origin is Asserted ==> final(index)@.contains_key(key) && final(index)@[key] == index@[key]
        &&& !(index@.contains_key(key) && index@[key].origin is Asserted) ==> (final(index)@.contains_key(key) <==> exists|id: FunctionId| #[trigger]
            functions@.contains_key(id) && makes_reference(functions@[id], blocks@, key))
    } by {
        law_derived_references_are_present_ones(index@, final(index)@, functions@, blocks@, key);
    }
}

/// A rebuilt call graph has a call from a function's entry to an address exactly where a flow of
/// one of the function's blocks leads there that is a call, or an unconditional branch from one
/// of its tail call sites.
pub proof fn law_rebuilt_graph_has_all_calls(
    functions: FunctionTable,
    blocks: CodeBlockTable,
    edge: CallGraphEdgeKey,
)
    ensures
        forall|index: &mut CallGraphIndex| #[trigger]
            call_ensures(CallGraphIndex::rebuild, (index, &functions, &blocks), ()) ==> (final(
                index)@.contains(edge) <==> exists|id: FunctionId, flow: FlowTarget|
                functions@.contains_key(id) && functions@[id].entry == edge.source && flow.to
                    == edge.target && #[trigger] has_flow(functions@[id], blocks@, flow)
                    && calls_out(functions@[id], flow)),
{
    let made = calls_made(functions@, blocks@);
    if made.contains(edge) {
        let id = choose|id: FunctionId| #[trigger]
            functions@.contains_key(id) && functions@[id].entry == edge.source && function_calls(
                functions@[id],
                blocks@,
                edge.target,
            );
        law_function_calls_where_blocks_call(functions@[id], blocks@, edge.target);
    }
    if exists|id: FunctionId, flow: FlowTarget|
        functions@.contains_key(id) && functions@[id].entry == edge.source && flow.to == edge.target
            && #[trigger] has_flow(functions@[id], blocks@, flow) && calls_out(
            functions@[id],
            flow,
        ) {
        let (id, flow) = choose|id: FunctionId, flow: FlowTarget|
            functions@.contains_key(id) && functions@[id].entry == edge.source && flow.to
                == edge.target && #[trigger] has_flow(functions@[id], blocks@, flow) && calls_out(
                functions@[id],
                flow,
            );
        law_function_calls_where_blocks_call(functions@[id], blocks@, edge.target);
        assert(function_makes(functions@, blocks@, edge));
    }
}

} // verus!
