//! What splitting a function in two and merging two functions are for.
use vstd::prelude::*;

use crate::address::Address;
use crate::block::CodeBlockId;
use crate::block_table::CodeBlockTable;
use crate::body::{
    are_part_sites, branches, child_part, cut_site, flows_from, in_part, is_merge, is_split,
    lemma_add_contains, lemma_filter_ascending, lemma_filter_by_address, lemma_kept_listed,
    members, merged_edge, parent_part, splits, tail_branch, tail_call_in, tail_calls, within,
    Blocks,
};
use crate::function::{lists_block, Function, FunctionView};
use crate::reach::{is_path, lemma_closed, lemma_start, lemma_step, reachable};

verus! {

/// What can be reached is the least that holds the entry and all that edges lead to from what
/// it holds, but for the boundary.
pub proof fn law_reach_is_least(
    edges: Seq<(CodeBlockId, CodeBlockId)>,
    entry: CodeBlockId,
    boundary: CodeBlockId,
    a: CodeBlockId,
    b: CodeBlockId,
    closed: Set<CodeBlockId>,
)
    ensures
        entry != boundary ==> reachable(edges, entry, boundary, entry),
        !reachable(edges, entry, boundary, boundary),
        reachable(edges, entry, boundary, a) && edges.contains((a, b)) && b != boundary
            ==> reachable(edges, entry, boundary, b),
        closed.contains(entry) && (forall|x: CodeBlockId, y: CodeBlockId|
            closed.contains(x) && #[trigger] edges.contains((x, y)) && y != boundary
                ==> closed.contains(y)) && reachable(edges, entry, boundary, a) ==> closed.contains(
            a,
        ),
{
    if entry != boundary {
        lemma_start(edges, entry, boundary);
    }
    if reachable(edges, entry, boundary, boundary) {
        let path = choose|path: Seq<CodeBlockId>| #[trigger]
            is_path(edges, boundary, path) && path.first() == entry && path.last() == boundary;
        assert(path[path.len() - 1] != boundary);
    }
    if reachable(edges, entry, boundary, a) {
        if edges.contains((a, b)) && b != boundary {
            lemma_step(edges, entry, boundary, a, b);
        }
        let path = choose|path: Seq<CodeBlockId>| #[trigger]
            is_path(edges, boundary, path) && path.first() == entry && path.last() == a;
        if closed.contains(entry) && (forall|x: CodeBlockId, y: CodeBlockId|
            closed.contains(x) && #[trigger] edges.contains((x, y)) && y != boundary
                ==> closed.contains(y)) {
            lemma_closed(edges, entry, boundary, closed, path, path.len() - 1);
        }
    }
}

/// A block goes with the new function where the new entry reaches it without the old one. It
/// stays with the old function unless the new entry reaches it and the old one does not. Each
/// entry is in its own function and not in the other.
pub proof fn law_split_follows_reach(
    function: FunctionView,
    table: Blocks,
    new_entry: CodeBlockId,
    parent: FunctionView,
    child: FunctionView,
    block: (Address, CodeBlockId),
)
    requires
        function.wf(),
        splits(function, table, new_entry),
        is_split(function, table, new_entry, parent, child),
    ensures
        child.blocks.contains(block) <==> function.blocks.contains(block) && reachable(
            function.edges,
            new_entry,
            function.entry_block,
            block.1,
        ),
        parent.blocks.contains(block) <==> function.blocks.contains(block) && (!reachable(
            function.edges,
            new_entry,
            function.entry_block,
            block.1,
        ) || reachable(function.edges, function.entry_block, new_entry, block.1)),
        lists_block(parent.blocks, function.entry_block),
        lists_block(child.blocks, new_entry),
        !lists_block(parent.blocks, new_entry),
        !lists_block(child.blocks, function.entry_block),
{
    let (entry, edges) = (function.entry_block, function.edges);
    let (own, new) = (parent_part(function, new_entry), child_part(function, new_entry));
    lemma_filter_by_address(function.blocks, in_part(own));
    lemma_filter_by_address(function.blocks, in_part(new));
    if function.blocks.contains(block) {
        let i = function.blocks.index_of(block);
        assert(function.blocks[i].1 == block.1);
        assert(lists_block(function.blocks, block.1));
    }
    law_reach_is_least(edges, new_entry, entry, new_entry, new_entry, Set::empty());
    law_reach_is_least(edges, entry, new_entry, entry, entry, Set::empty());
    lemma_kept_listed(function.blocks, own, entry);
    lemma_kept_listed(function.blocks, own, new_entry);
    lemma_kept_listed(function.blocks, new, entry);
    lemma_kept_listed(function.blocks, new, new_entry);
}

/// An edge of the function that is split is an edge of a part exactly when both its ends are
/// blocks of that part, and the parts have no other edges.
pub proof fn law_split_keeps_inner_edges(
    function: FunctionView,
    table: Blocks,
    new_entry: CodeBlockId,
    parent: FunctionView,
    child: FunctionView,
    edge: (CodeBlockId, CodeBlockId),
)
    requires
        function.wf(),
        is_split(function, table, new_entry, parent, child),
    ensures
        parent.edges.contains(edge) <==> function.edges.contains(edge) && lists_block(
            parent.blocks,
            edge.0,
        ) && lists_block(parent.blocks, edge.1),
        child.edges.contains(edge) <==> function.edges.contains(edge) && lists_block(
            child.blocks,
            edge.0,
        ) && lists_block(child.blocks, edge.1),
{
    let (own, new) = (parent_part(function, new_entry), child_part(function, new_entry));
    lemma_filter_ascending(function.edges, within(own));
    lemma_filter_ascending(function.edges, within(new));
    lemma_kept_listed(function.blocks, own, edge.0);
    lemma_kept_listed(function.blocks, own, edge.1);
    lemma_kept_listed(function.blocks, new, edge.0);
    lemma_kept_listed(function.blocks, new, edge.1);
    if function.edges.contains(edge) {
        let i = function.edges.index_of(edge);
        assert(lists_block(function.blocks, function.edges[i].0));
        assert(lists_block(function.blocks, function.edges[i].1));
    }
}

/// Merging the parts of a split gives back every edge whose ends lie in one part, and every
/// edge out of a block that one of the entries reaches.
pub proof fn law_merge_restores_edges(
    function: FunctionView,
    table: Blocks,
    new_entry: CodeBlockId,
    parent: FunctionView,
    child: FunctionView,
    merged: FunctionView,
    edge: (CodeBlockId, CodeBlockId),
)
    requires
        function.wf(),
        splits(function, table, new_entry),
        is_split(function, table, new_entry, parent, child),
        is_merge(parent, child, table, merged),
        function.edges.contains(edge),
    ensures
        lists_block(parent.blocks, edge.0) && lists_block(parent.blocks, edge.1)
            ==> merged.edges.contains(edge),
        lists_block(child.blocks, edge.0) && lists_block(child.blocks, edge.1)
            ==> merged.edges.contains(edge),
        reachable(function.edges, function.entry_block, new_entry, edge.0) || reachable(
            function.edges,
            new_entry,
            function.entry_block,
            edge.0,
        ) ==> merged.edges.contains(edge),
{
    let (entry, edges) = (function.entry_block, function.edges);
    let (own, new) = (parent_part(function, new_entry), child_part(function, new_entry));
    law_split_keeps_inner_edges(function, table, new_entry, parent, child, edge);
    lemma_kept_listed(function.blocks, own, edge.0);
    lemma_kept_listed(function.blocks, own, edge.1);
    lemma_kept_listed(function.blocks, new, edge.0);
    lemma_kept_listed(function.blocks, new, edge.1);
    let i = edges.index_of(edge);
    assert(lists_block(function.blocks, edges[i].0));
    assert(lists_block(function.blocks, edges[i].1));
    law_reach_is_least(edges, new_entry, entry, edge.0, edge.1, Set::empty());
    law_reach_is_least(edges, entry, new_entry, edge.0, edge.1, Set::empty());
    if reachable(edges, entry, new_entry, edge.0) && edge.1 == new_entry {
        let site = choose|site: Address| #[trigger]
            branches(table[edge.0], site, table[new_entry].start);
        assert(cut_site(function, table, own, new_entry, table[new_entry].start, site));
        assert(parent.tail_call_sites.contains(site));
        assert(tail_branch(parent, table, edge.0, site, child.entry));
    }
    if reachable(edges, new_entry, entry, edge.0) && edge.1 == entry {
        let site = choose|site: Address| #[trigger] branches(table[edge.0], site, function.entry);
        assert(cut_site(function, table, new, entry, function.entry, site));
        assert(child.tail_call_sites.contains(site));
        assert(tail_branch(child, table, edge.0, site, parent.entry));
    }
}

/// Splitting leaves the old function what it is called, where it begins and where it comes
/// from, and gives the new one the block it begins at, the same origin and confidence, and
/// nothing else: what was found of the whole body holds of neither part.
pub proof fn law_split_keeps_description(
    function: FunctionView,
    table: Blocks,
    new_entry: CodeBlockId,
    parent: FunctionView,
    child: FunctionView,
)
    requires
        is_split(function, table, new_entry, parent, child),
    ensures
        parent.id == function.id,
        parent.name == function.name,
        parent.entry == function.entry,
        parent.entry_block == function.entry_block,
        parent.origin == function.origin,
        parent.confidence == function.confidence,
        parent.input_revision == function.input_revision,
        child.id.id == u32::MAX,
        child.name is None,
        child.entry == table[new_entry].start,
        child.entry_block == new_entry,
        child.origin == function.origin,
        child.confidence == function.confidence,
        parent.properties.bits == 0 && child.properties.bits == 0,
        parent.frame == child.frame,
{
}

/// A function that leaves its blocks by branches alone can be split at each block but the one
/// it begins at.
pub proof fn law_branches_can_be_cut(
    function: FunctionView,
    table: Blocks,
    new_entry: CodeBlockId,
)
    requires
        function.wf(),
        function.entry_block.id != u32::MAX,
        lists_block(function.blocks, new_entry),
        new_entry != function.entry_block,
        table.contains_key(new_entry),
        table[function.entry_block].start == function.entry,
        forall|edge: (CodeBlockId, CodeBlockId)| #[trigger]
            function.edges.contains(edge) ==> exists|k: int|
                0 <= k < table[edge.0].flows().len() && (#[trigger] table[edge.0].flows()[k]).kind
                    is Branch && table[edge.0].flows()[k].to == table[edge.1].start,
    ensures
        splits(function, table, new_entry),
{
    assert forall|edge: (CodeBlockId, CodeBlockId)| #[trigger]
        function.edges.contains(edge) implies exists|site: Address| #[trigger]
        branches(table[edge.0], site, table[edge.1].start) by {
        let flows = table[edge.0].flows();
        let k = choose|k: int|
            0 <= k < flows.len() && (#[trigger] flows[k]).kind is Branch && flows[k].to
                == table[edge.1].start;
        assert(branches(table[edge.0], flows[k].from, table[edge.1].start));
    }
}

/// A function is split only where every edge between the parts is a branch to the other part's
/// entry, and each such branch is a tail call of the part that it leaves.
pub proof fn law_cut_edges_are_tail_calls(
    function: FunctionView,
    table: Blocks,
    new_entry: CodeBlockId,
    parent: FunctionView,
    child: FunctionView,
    source: CodeBlockId,
)
    requires
        function.wf(),
        splits(function, table, new_entry),
        is_split(function, table, new_entry, parent, child),
    ensures
        lists_block(parent.blocks, source) && function.edges.contains((source, new_entry))
            ==> exists|k: int|
            0 <= k < table[source].flows().len() && (#[trigger] table[source].flows()[k]).kind
                is Branch && table[source].flows()[k].to == child.entry
                && parent.tail_call_sites.contains(table[source].flows()[k].from),
        lists_block(child.blocks, source) && function.edges.contains(
            (source, function.entry_block),
        ) ==> exists|k: int|
            0 <= k < table[source].flows().len() && (#[trigger] table[source].flows()[k]).kind
                is Branch && table[source].flows()[k].to == parent.entry
                && child.tail_call_sites.contains(table[source].flows()[k].from),
{
    let (own, new) = (parent_part(function, new_entry), child_part(function, new_entry));
    lemma_kept_listed(function.blocks, own, source);
    lemma_kept_listed(function.blocks, new, source);
    let flows = table[source].flows();
    if lists_block(parent.blocks, source) && function.edges.contains((source, new_entry)) {
        let site = choose|site: Address| #[trigger]
            branches(table[source], site, table[new_entry].start);
        assert(cut_site(function, table, own, new_entry, table[new_entry].start, site));
        assert(parent.tail_call_sites.contains(site));
        let k = choose|k: int|
            0 <= k < flows.len() && (#[trigger] flows[k]).kind is Branch && flows[k].to
                == child.entry && flows[k].from == site;
        assert(parent.tail_call_sites.contains(table[source].flows()[k].from));
    }
    if lists_block(child.blocks, source) && function.edges.contains(
        (source, function.entry_block),
    ) {
        let site = choose|site: Address| #[trigger] branches(table[source], site, function.entry);
        assert(cut_site(function, table, new, function.entry_block, function.entry, site));
        assert(child.tail_call_sites.contains(site));
        let k = choose|k: int|
            0 <= k < flows.len() && (#[trigger] flows[k]).kind is Branch && flows[k].to
                == parent.entry && flows[k].from == site;
        assert(child.tail_call_sites.contains(table[source].flows()[k].from));
    }
}

/// Whether a block of a function has a flow from a site.
pub open spec fn leaves_from(function: FunctionView, table: Blocks, site: Address) -> bool {
    exists|id: CodeBlockId| #[trigger]
        lists_block(function.blocks, id) && flows_from(table[id], site)
}

/// Splitting leaves each tail call with the parts that have a flow from its site, and makes
/// tail calls of nothing but cut branches: a site that was none becomes one only of a branch
/// to the other part's entry, out of a block with an edge there.
pub proof fn law_split_keeps_tail_calls(
    function: FunctionView,
    table: Blocks,
    new_entry: CodeBlockId,
    parent: FunctionView,
    child: FunctionView,
    site: Address,
)
    requires
        function.wf(),
        is_split(function, table, new_entry, parent, child),
    ensures
        function.tail_call_sites.contains(site) && leaves_from(parent, table, site)
            ==> parent.tail_call_sites.contains(site),
        function.tail_call_sites.contains(site) && leaves_from(child, table, site)
            ==> child.tail_call_sites.contains(site),
        parent.tail_call_sites.contains(site) && !(function.tail_call_sites.contains(site)
            && leaves_from(parent, table, site)) ==> exists|source: CodeBlockId|
            lists_block(parent.blocks, source) && #[trigger] function.edges.contains(
                (source, new_entry),
            ) && branches(table[source], site, child.entry),
        child.tail_call_sites.contains(site) && !(function.tail_call_sites.contains(site)
            && leaves_from(child, table, site)) ==> exists|source: CodeBlockId|
            lists_block(child.blocks, source) && #[trigger] function.edges.contains(
                (source, function.entry_block),
            ) && branches(table[source], site, parent.entry),
{
    let (own, new) = (parent_part(function, new_entry), child_part(function, new_entry));
    lemma_part_tail_calls(function, table, own, parent, new_entry, child.entry, site);
    lemma_part_tail_calls(
        function,
        table,
        new,
        child,
        function.entry_block,
        parent.entry,
        site,
    );
}

/// The tail calls of one part.
proof fn lemma_part_tail_calls(
    function: FunctionView,
    table: Blocks,
    part: Set<CodeBlockId>,
    half: FunctionView,
    to: CodeBlockId,
    address: Address,
    site: Address,
)
    requires
        function.wf(),
        half.blocks == function.blocks.filter(in_part(part)),
        are_part_sites(half.tail_call_sites, function, table, part, to, address),
    ensures
        function.tail_call_sites.contains(site) && leaves_from(half, table, site)
            ==> half.tail_call_sites.contains(site),
        half.tail_call_sites.contains(site) && !(function.tail_call_sites.contains(site)
            && leaves_from(half, table, site)) ==> exists|source: CodeBlockId|
            lists_block(half.blocks, source) && #[trigger] function.edges.contains((source, to))
                && branches(table[source], site, address),
{
    let count = function.blocks.len() as int;
    if function.tail_call_sites.contains(site) && leaves_from(half, table, site) {
        let id = choose|id: CodeBlockId| #[trigger]
            lists_block(half.blocks, id) && flows_from(table[id], site);
        lemma_kept_listed(function.blocks, part, id);
        let i = choose|i: int|
            0 <= i < function.blocks.len() && (#[trigger] function.blocks[i]).1 == id;
        assert(part.contains(function.blocks[i].1));
        assert(tail_call_in(function, count, table, part, site));
    }
    if half.tail_call_sites.contains(site) {
        if tail_call_in(function, count, table, part, site) {
            let i = choose|i: int|
                0 <= i < count && part.contains((#[trigger] function.blocks[i]).1) && flows_from(
                    table[function.blocks[i].1],
                    site,
                );
            let id = function.blocks[i].1;
            assert(lists_block(function.blocks, id));
            lemma_kept_listed(function.blocks, part, id);
            assert(lists_block(half.blocks, id) && flows_from(table[id], site));
        } else {
            let source = choose|source: CodeBlockId|
                part.contains(source) && #[trigger] function.edges.contains((source, to))
                    && branches(table[source], site, address);
            lemma_kept_listed(function.blocks, part, source);
            let i = function.edges.index_of((source, to));
            assert(lists_block(function.blocks, function.edges[i].0));
            assert(lists_block(half.blocks, source));
        }
    }
}

/// Merging takes the blocks of both functions, keeps the edges of both, and otherwise is the
/// first function: its identity, name, entry, origin and confidence.
pub proof fn law_merge_takes_both(
    a: FunctionView,
    b: FunctionView,
    table: Blocks,
    merged: FunctionView,
    block: (Address, CodeBlockId),
    edge: (CodeBlockId, CodeBlockId),
)
    requires
        is_merge(a, b, table, merged),
    ensures
        merged.blocks.contains(block) <==> a.blocks.contains(block) || b.blocks.contains(block),
        a.edges.contains(edge) || b.edges.contains(edge) ==> merged.edges.contains(edge),
        merged.id == a.id,
        merged.name == a.name,
        merged.entry == a.entry,
        merged.entry_block == a.entry_block,
        merged.origin == a.origin,
        merged.confidence == a.confidence,
        merged.input_revision == a.input_revision,
        merged.properties.bits == 0,
{
    lemma_add_contains(a.blocks, b.blocks, block);
    assert(merged.blocks.contains(block) <==> (a.blocks + b.blocks).contains(block));
}

/// Whether a function makes a tail call from a site to another function: an unconditional
/// branch of one of its blocks to the other's entry, at a site that is a tail call.
pub open spec fn branches_into(
    a: FunctionView,
    table: Blocks,
    id: CodeBlockId,
    site: Address,
    b: FunctionView,
) -> bool {
    &&& lists_block(a.blocks, id)
    &&& a.tail_call_sites.contains(site)
    &&& exists|k: int|
        0 <= k < table[id].flows().len() && (#[trigger] table[id].flows()[k]).kind is Branch
            && table[id].flows()[k].to == b.entry && table[id].flows()[k].from == site
}

/// Merging turns each tail call between the two functions into an edge to the entry that it
/// calls, where it is a tail call no more. Any other edge was one of either function, and a
/// site is a tail call afterwards only if it was one before.
pub proof fn law_merge_joins_tail_calls(
    a: FunctionView,
    b: FunctionView,
    table: Blocks,
    merged: FunctionView,
    id: CodeBlockId,
    other: CodeBlockId,
    site: Address,
)
    requires
        is_merge(a, b, table, merged),
    ensures
        branches_into(a, table, id, site, b) ==> merged.edges.contains((id, b.entry_block))
            && !merged.tail_call_sites.contains(site),
        branches_into(b, table, id, site, a) ==> merged.edges.contains((id, a.entry_block))
            && !merged.tail_call_sites.contains(site),
        merged.edges.contains((id, other)) && !a.edges.contains((id, other)) && !b.edges.contains(
            (id, other),
        ) ==> (other == b.entry_block && exists|from: Address| #[trigger]
            branches_into(a, table, id, from, b)) || (other == a.entry_block && exists|
            from: Address,
        | #[trigger] branches_into(b, table, id, from, a)),
        merged.tail_call_sites.contains(site) ==> a.tail_call_sites.contains(site)
            || b.tail_call_sites.contains(site),
{
    lemma_branches_into(a, table, b);
    lemma_branches_into(b, table, a);
    if branches_into(a, table, id, site, b) {
        assert(tail_branch(a, table, id, site, b.entry));
        assert(tail_calls(a, table, site, b.entry));
        let edge = (id, b.entry_block);
        assert(tail_branch(a, table, edge.0, site, b.entry));
        assert(merged_edge(a, b, table, edge));
    }
    if branches_into(b, table, id, site, a) {
        assert(tail_branch(b, table, id, site, a.entry));
        assert(tail_calls(b, table, site, a.entry));
        let edge = (id, a.entry_block);
        assert(tail_branch(b, table, edge.0, site, a.entry));
        assert(merged_edge(a, b, table, edge));
    }
    let edge = (id, other);
    if merged.edges.contains(edge) && !a.edges.contains(edge) && !b.edges.contains(edge) {
        assert(merged_edge(a, b, table, edge));
        if other == b.entry_block && exists|from: Address| #[trigger]
            tail_branch(a, table, edge.0, from, b.entry) {
            let from = choose|from: Address| #[trigger]
                tail_branch(a, table, edge.0, from, b.entry);
            assert(branches_into(a, table, id, from, b));
        } else {
            let from = choose|from: Address| #[trigger]
                tail_branch(b, table, edge.0, from, a.entry);
            assert(branches_into(b, table, id, from, a));
        }
    }
}

/// Merging keeps every tail call that leads to neither function: one of either function with a
/// flow from its site stays one, unless a block of either branches from there to the other.
pub proof fn law_merge_keeps_other_tail_calls(
    a: FunctionView,
    b: FunctionView,
    table: Blocks,
    merged: FunctionView,
    site: Address,
)
    requires
        is_merge(a, b, table, merged),
        (a.tail_call_sites.contains(site) && leaves_from(a, table, site)) || (
        b.tail_call_sites.contains(site) && leaves_from(b, table, site)),
        forall|id: CodeBlockId| !#[trigger] branches_into(a, table, id, site, b),
        forall|id: CodeBlockId| !#[trigger] branches_into(b, table, id, site, a),
    ensures
        merged.tail_call_sites.contains(site),
{
    lemma_branches_into(a, table, b);
    lemma_branches_into(b, table, a);
    let part = members(a, b);
    if tail_calls(a, table, site, b.entry) {
        let id = choose|id: CodeBlockId| #[trigger] tail_branch(a, table, id, site, b.entry);
        assert(branches_into(a, table, id, site, b));
    }
    if tail_calls(b, table, site, a.entry) {
        let id = choose|id: CodeBlockId| #[trigger] tail_branch(b, table, id, site, a.entry);
        assert(branches_into(b, table, id, site, a));
    }
    if a.tail_call_sites.contains(site) && leaves_from(a, table, site) {
        let id = choose|id: CodeBlockId| #[trigger]
            lists_block(a.blocks, id) && flows_from(table[id], site);
        let i = choose|i: int| 0 <= i < a.blocks.len() && (#[trigger] a.blocks[i]).1 == id;
        assert(part.contains(a.blocks[i].1));
        assert(tail_call_in(a, a.blocks.len() as int, table, part, site));
    } else {
        let id = choose|id: CodeBlockId| #[trigger]
            lists_block(b.blocks, id) && flows_from(table[id], site);
        let i = choose|i: int| 0 <= i < b.blocks.len() && (#[trigger] b.blocks[i]).1 == id;
        assert(part.contains(b.blocks[i].1));
        assert(tail_call_in(b, b.blocks.len() as int, table, part, site));
    }
}

/// A tail call into a function, in the terms of merging.
proof fn lemma_branches_into(a: FunctionView, table: Blocks, b: FunctionView)
    ensures
        forall|id: CodeBlockId, site: Address| #[trigger]
            branches_into(a, table, id, site, b) <==> tail_branch(a, table, id, site, b.entry),
{
    assert forall|id: CodeBlockId, site: Address| #[trigger]
        branches_into(a, table, id, site, b) <==> tail_branch(a, table, id, site, b.entry) by {
        if tail_branch(a, table, id, site, b.entry) {
            assert(branches(table[id], site, b.entry));
        }
    }
}

/// A function that is split in two gives each block to the part that its entry reaches, leaves
/// what neither reaches with the old one, and keeps in each part the edges between its blocks
/// and no others.
pub proof fn law_split_parts_are_whole(
    function: Function,
    table: CodeBlockTable,
    new_entry: CodeBlockId,
    parent: Function,
    child: Function,
    block: (Address, CodeBlockId),
    edge: (CodeBlockId, CodeBlockId),
)
    requires
        function@.wf(),
        call_ensures(
            Function::split_at_block,
            (&function, new_entry, &table),
            Some((parent, child)),
        ),
    ensures
        function.blocks@.contains(block) <==> parent.blocks@.contains(block)
            || child.blocks@.contains(block),
        child.blocks@.contains(block) <==> function.blocks@.contains(block) && reachable(
            function.edges@,
            new_entry,
            function.entry_block,
            block.1,
        ),
        parent.blocks@.contains(block) && child.blocks@.contains(block) <==> function.blocks@.contains(
            block,
        ) && reachable(function.edges@, new_entry, function.entry_block, block.1) && reachable(
            function.edges@,
            function.entry_block,
            new_entry,
            block.1,
        ),
        parent.edges@.contains(edge) <==> function.edges@.contains(edge) && lists_block(
            parent.blocks@,
            edge.0,
        ) && lists_block(parent.blocks@, edge.1),
        child.edges@.contains(edge) <==> function.edges@.contains(edge) && lists_block(
            child.blocks@,
            edge.0,
        ) && lists_block(child.blocks@, edge.1),
        parent.entry_block == function.entry_block && child.entry_block == new_entry,
        parent.entry == function.entry && child.entry == table@[new_entry].start,
{
    law_split_follows_reach(function@, table@, new_entry, parent@, child@, block);
    law_split_keeps_inner_edges(function@, table@, new_entry, parent@, child@, edge);
    law_split_keeps_description(function@, table@, new_entry, parent@, child@);
}

/// A function that is split and merged again has all its blocks, and every edge out of a block
/// that one of the entries reaches.
pub proof fn law_merging_undoes_split(
    function: Function,
    table: CodeBlockTable,
    new_entry: CodeBlockId,
    parent: Function,
    child: Function,
    merged: Function,
    block: (Address, CodeBlockId),
    edge: (CodeBlockId, CodeBlockId),
)
    requires
        function@.wf(),
        call_ensures(
            Function::split_at_block,
            (&function, new_entry, &table),
            Some((parent, child)),
        ),
        call_ensures(Function::merge_with, (&parent, &child, &table), Some(merged)),
    ensures
        merged.blocks@.contains(block) <==> function.blocks@.contains(block),
        function.edges@.contains(edge) && (reachable(
            function.edges@,
            function.entry_block,
            new_entry,
            edge.0,
        ) || reachable(function.edges@, new_entry, function.entry_block, edge.0))
            ==> merged.edges@.contains(edge),
        function.edges@.contains(edge) && lists_block(parent.blocks@, edge.0) && lists_block(
            parent.blocks@,
            edge.1,
        ) ==> merged.edges@.contains(edge),
        function.edges@.contains(edge) && lists_block(child.blocks@, edge.0) && lists_block(
            child.blocks@,
            edge.1,
        ) ==> merged.edges@.contains(edge),
        merged.entry == function.entry && merged.entry_block == function.entry_block,
        merged.name == function.name && merged.id == function.id,
{
    law_split_follows_reach(function@, table@, new_entry, parent@, child@, block);
    law_split_keeps_description(function@, table@, new_entry, parent@, child@);
    law_merge_takes_both(parent@, child@, table@, merged@, block, edge);
    if function.edges@.contains(edge) {
        law_merge_restores_edges(
            function@,
            table@,
            new_entry,
            parent@,
            child@,
            merged@,
            edge,
        );
    }
}

} // verus!
