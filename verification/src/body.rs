//! Splitting and merging functions, and the flows out of them.
use vstd::prelude::*;

use crate::address::Address;
use crate::block::{CodeBlock, CodeBlockEntity, CodeBlockId, CodeBlockView};
use crate::block_table::CodeBlockTable;
use crate::coalesce::{all_classified, coalesce_flows, coalesces};
use crate::flags::FunctionProperties;
use crate::flow::{FlowKind, FlowTarget};
use crate::frame::no_frame;
use crate::function::{
    blank_function, by_address, lists_block, Function, FunctionId, FunctionView,
};
use crate::fx_ids::FxIdSet;
use crate::id::Id;
use crate::order::{ascending, holds_key, sort_keys, sorts, Ranked};
use crate::reach::{is_path, reachable, reachable_blocks};
use crate::reference::Reference;
use crate::types::{lemma_filter_none, lemma_filter_step};

verus! {

/// The blocks of the table.
pub type Blocks = Map<CodeBlockId, CodeBlockView>;

/// Whether all listed blocks are in the table.
pub open spec fn blocks_known(function: FunctionView, table: Blocks) -> bool {
    forall|i: int|
        0 <= i < function.blocks.len() ==> table.contains_key((#[trigger] function.blocks[i]).1)
}

/// Whether a flow out of a block comes from an address.
pub open spec fn flows_from(block: CodeBlockView, site: Address) -> bool {
    exists|k: int| 0 <= k < block.flows().len() && (#[trigger] block.flows()[k]).from == site
}

/// Whether a branch out of a block goes from one address to another.
pub open spec fn branches(block: CodeBlockView, site: Address, to: Address) -> bool {
    exists|k: int|
        0 <= k < block.flows().len() && (#[trigger] block.flows()[k]).kind is Branch
            && block.flows()[k].to == to && block.flows()[k].from == site
}

/// Whether a tail call of the function comes out of one of its first blocks that are in a
/// part.
pub open spec fn tail_call_in(
    function: FunctionView,
    count: int,
    table: Blocks,
    part: Set<CodeBlockId>,
    site: Address,
) -> bool {
    function.tail_call_sites.contains(site) && exists|i: int|
        0 <= i < count && part.contains((#[trigger] function.blocks[i]).1) && flows_from(
            table[function.blocks[i].1],
            site,
        )
}

/// Whether a listed block is in a part.
pub open spec fn in_part(part: Set<CodeBlockId>) -> spec_fn((Address, CodeBlockId)) -> bool {
    |b: (Address, CodeBlockId)| part.contains(b.1)
}

/// Whether both ends of an edge are in a part.
pub open spec fn within(part: Set<CodeBlockId>) -> spec_fn((CodeBlockId, CodeBlockId)) -> bool {
    |e: (CodeBlockId, CodeBlockId)| part.contains(e.0) && part.contains(e.1)
}

/// Whether an edge leads out of a part to a block.
pub open spec fn crosses(part: Set<CodeBlockId>, to: CodeBlockId) -> spec_fn(
    (CodeBlockId, CodeBlockId),
) -> bool {
    |e: (CodeBlockId, CodeBlockId)| e.1 == to && part.contains(e.0)
}

/// What goes with a new entry: everything that it can reach without the old one.
pub open spec fn child_part(function: FunctionView, new_entry: CodeBlockId) -> Set<CodeBlockId> {
    Set::new(|b: CodeBlockId| reachable(function.edges, new_entry, function.entry_block, b))
}

/// What stays with the old entry: everything but what only the new entry can reach.
pub open spec fn parent_part(function: FunctionView, new_entry: CodeBlockId) -> Set<CodeBlockId> {
    Set::new(
        |b: CodeBlockId|
            lists_block(function.blocks, b) && !(child_part(function, new_entry).contains(b)
                && !reachable(function.edges, function.entry_block, new_entry, b)),
    )
}

/// Whether every block of a part with an edge to a block has a branch to its address.
pub open spec fn cut_clean(
    function: FunctionView,
    table: Blocks,
    part: Set<CodeBlockId>,
    to: CodeBlockId,
    address: Address,
) -> bool {
    forall|source: CodeBlockId|
        part.contains(source) && #[trigger] function.edges.contains((source, to)) ==> exists|
            site: Address,
        | #[trigger]
            branches(table[source], site, address)
}

/// Whether a branch that crosses from a part to a block comes from an address.
pub open spec fn cut_site(
    function: FunctionView,
    table: Blocks,
    part: Set<CodeBlockId>,
    to: CodeBlockId,
    address: Address,
    site: Address,
) -> bool {
    exists|source: CodeBlockId|
        part.contains(source) && #[trigger] function.edges.contains((source, to)) && branches(
            table[source],
            site,
            address,
        )
}

/// Whether a function can be split at a block at all: it has an entry, and the block is
/// another of its blocks and known.
pub open spec fn splittable(
    function: FunctionView,
    table: Blocks,
    new_entry: CodeBlockId,
) -> bool {
    &&& function.entry_block.id != u32::MAX
    &&& new_entry != function.entry_block
    &&& lists_block(function.blocks, new_entry)
    &&& table.contains_key(new_entry)
}

/// Whether every block of a part with an edge to a block is in the table.
pub open spec fn sources_known(
    function: FunctionView,
    table: Blocks,
    part: Set<CodeBlockId>,
    to: CodeBlockId,
) -> bool {
    forall|source: CodeBlockId|
        part.contains(source) && #[trigger] function.edges.contains((source, to))
            ==> table.contains_key(source)
}

/// Whether the blocks are in the table that splitting at a block looks at: those with an edge
/// that is cut, as long as the cuts are branches, and all of them where the function is split.
pub open spec fn split_known(function: FunctionView, table: Blocks, new_entry: CodeBlockId) -> bool {
    let own = parent_part(function, new_entry);
    let new = child_part(function, new_entry);
    &&& sources_known(function, table, own, new_entry)
    &&& cut_clean(function, table, own, new_entry, table[new_entry].start) ==> sources_known(
        function,
        table,
        new,
        function.entry_block,
    )
    &&& splits(function, table, new_entry) ==> blocks_known(function, table)
}

/// Whether a function is split at a block: it can be, and wherever a part leads to the other,
/// it does so by a branch.
pub open spec fn splits(function: FunctionView, table: Blocks, new_entry: CodeBlockId) -> bool {
    &&& splittable(function, table, new_entry)
    &&& cut_clean(
        function,
        table,
        parent_part(function, new_entry),
        new_entry,
        table[new_entry].start,
    )
    &&& cut_clean(
        function,
        table,
        child_part(function, new_entry),
        function.entry_block,
        function.entry,
    )
}

/// Whether these are the tail calls of a part: those that were there, and the branches that
/// were cut.
pub open spec fn are_part_sites(
    sites: Seq<Address>,
    function: FunctionView,
    table: Blocks,
    part: Set<CodeBlockId>,
    to: CodeBlockId,
    address: Address,
) -> bool {
    &&& ascending(sites)
    &&& forall|site: Address| #[trigger]
        sites.contains(site) <==> tail_call_in(
            function,
            function.blocks.len() as int,
            table,
            part,
            site,
        ) || cut_site(function, table, part, to, address, site)
}

/// Whether these are the two functions that splitting at a block gives.
pub open spec fn is_split(
    function: FunctionView,
    table: Blocks,
    new_entry: CodeBlockId,
    parent: FunctionView,
    child: FunctionView,
) -> bool {
    let own = parent_part(function, new_entry);
    let new = child_part(function, new_entry);
    let address = table[new_entry].start;
    &&& parent == (FunctionView {
        blocks: function.blocks.filter(in_part(own)),
        edges: function.edges.filter(within(own)),
        frame: no_frame(),
        properties: FunctionProperties { bits: 0 },
        tail_call_sites: parent.tail_call_sites,
        ..function
    })
    &&& are_part_sites(parent.tail_call_sites, function, table, own, new_entry, address)
    &&& child == (FunctionView {
        entry_block: new_entry,
        blocks: function.blocks.filter(in_part(new)),
        edges: function.edges.filter(within(new)),
        origin: function.origin,
        confidence: function.confidence,
        tail_call_sites: child.tail_call_sites,
        ..blank_function(FunctionId::none(), address, None)
    })
    &&& are_part_sites(
        child.tail_call_sites,
        function,
        table,
        new,
        function.entry_block,
        function.entry,
    )
}

/// Takes those of the blocks that are in a part.
fn part_blocks(blocks: &Vec<(Address, CodeBlockId)>, part: &FxIdSet<CodeBlockEntity>) -> (kept: Vec<
    (Address, CodeBlockId),
>)
    ensures
        kept@ == blocks@.filter(in_part(part@)),
{
    let ghost keep = in_part(part@);
    let mut kept: Vec<(Address, CodeBlockId)> = Vec::new();
    let mut i: usize = 0;
    proof {
        lemma_filter_none(blocks@, keep);
    }
    while i < blocks.len()
        invariant
            i <= blocks@.len(),
            keep == in_part(part@),
            kept@ == blocks@.take(i as int).filter(keep),
        decreases blocks@.len() - i,
    {
        proof {
            lemma_filter_step(blocks@, i as int, keep);
        }
        if part.contains(blocks[i].1) {
            kept.push(blocks[i]);
        }
        i = i + 1;
    }
    assert(blocks@.take(i as int) =~= blocks@);
    kept
}

/// Takes those of the edges whose ends are both in a part.
fn part_edges(edges: &Vec<(CodeBlockId, CodeBlockId)>, part: &FxIdSet<CodeBlockEntity>) -> (kept:
    Vec<(CodeBlockId, CodeBlockId)>)
    ensures
        kept@ == edges@.filter(within(part@)),
{
    let ghost keep = within(part@);
    let mut kept: Vec<(CodeBlockId, CodeBlockId)> = Vec::new();
    let mut i: usize = 0;
    proof {
        lemma_filter_none(edges@, keep);
    }
    while i < edges.len()
        invariant
            i <= edges@.len(),
            keep == within(part@),
            kept@ == edges@.take(i as int).filter(keep),
        decreases edges@.len() - i,
    {
        proof {
            lemma_filter_step(edges@, i as int, keep);
        }
        if part.contains(edges[i].0) && part.contains(edges[i].1) {
            kept.push(edges[i]);
        }
        i = i + 1;
    }
    assert(edges@.take(i as int) =~= edges@);
    kept
}

/// Where edges come from that lead out of a part to a block.
fn part_sources(
    edges: &Vec<(CodeBlockId, CodeBlockId)>,
    part: &FxIdSet<CodeBlockEntity>,
    to: CodeBlockId,
) -> (sources: Vec<CodeBlockId>)
    ensures
        forall|source: CodeBlockId| #[trigger]
            sources@.contains(source) <==> part@.contains(source) && edges@.contains((source, to)),
{
    let mut sources: Vec<CodeBlockId> = Vec::new();
    let mut i: usize = 0;
    while i < edges.len()
        invariant
            i <= edges@.len(),
            forall|source: CodeBlockId| #[trigger]
                sources@.contains(source) <==> part@.contains(source) && edges@.take(
                    i as int,
                ).contains((source, to)),
        decreases edges@.len() - i,
    {
        let (source, target): (CodeBlockId, CodeBlockId) = edges[i];
        let ghost before = sources@;
        let crossing: bool = target == to && part.contains(source);
        if crossing {
            sources.push(source);
        }
        proof {
            let (done, more) = (edges@.take(i as int), edges@.take(i + 1));
            assert(more =~= done.push((source, target)));
            assert forall|other: CodeBlockId| #[trigger]
                sources@.contains(other) <==> part@.contains(other) && more.contains(
                    (other, to),
                ) by {
                lemma_push_contains(done, (source, target), (other, to));
                if crossing {
                    lemma_push_contains(before, source, other);
                }
                assert(before.contains(other) <==> part@.contains(other) && done.contains(
                    (other, to),
                ));
            }
        }
        i = i + 1;
    }
    assert(edges@.take(i as int) =~= edges@);
    sources
}

/// What a sequence has with one more element.
pub proof fn lemma_push_contains<A>(s: Seq<A>, added: A, a: A)
    ensures
        s.push(added).contains(a) <==> s.contains(a) || a == added,
{
    let more = s.push(added);
    if s.contains(a) {
        let i = s.index_of(a);
        assert(more[i] == a);
    }
    if more.contains(a) {
        let i = more.index_of(a);
        if i < s.len() {
            assert(s[i] == a);
        }
    }
    assert(more[s.len() as int] == added);
}

/// What two sequences have together.
pub proof fn lemma_add_contains<A>(s: Seq<A>, t: Seq<A>, a: A)
    ensures
        (s + t).contains(a) <==> s.contains(a) || t.contains(a),
{
    let more = s + t;
    if s.contains(a) {
        let i = s.index_of(a);
        assert(more[i] == a);
    }
    if t.contains(a) {
        let i = t.index_of(a);
        assert(more[s.len() + i] == a);
    }
    if more.contains(a) {
        let i = more.index_of(a);
        if i < s.len() {
            assert(s[i] == a);
        } else {
            assert(t[i - s.len()] == a);
        }
    }
}

/// Adds all elements of one list to another.
fn append_sites(sites: &mut Vec<Address>, more: &Vec<Address>)
    ensures
        final(sites)@ == old(sites)@ + more@,
{
    let ghost before = sites@;
    let mut i: usize = 0;
    assert(before + more@.take(0) =~= before);
    while i < more.len()
        invariant
            i <= more@.len(),
            sites@ == before + more@.take(i as int),
        decreases more@.len() - i,
    {
        sites.push(more[i]);
        i = i + 1;
        assert(sites@ =~= before + more@.take(i as int));
    }
    assert(more@.take(i as int) =~= more@);
}

/// Where branches from one of the flows go to an address.
fn branch_sites(block: &CodeBlock, to: Address) -> (sites: Vec<Address>)
    ensures
        forall|site: Address| #[trigger] sites@.contains(site) <==> branches(block@, site, to),
{
    let flows: Vec<FlowTarget> = block.flow_targets();
    let mut sites: Vec<Address> = Vec::new();
    let mut k: usize = 0;
    while k < flows.len()
        invariant
            k <= flows@.len(),
            flows@ == block@.flows(),
            forall|site: Address| #[trigger]
                sites@.contains(site) <==> exists|j: int|
                    0 <= j < k && (#[trigger] flows@[j]).kind is Branch && flows@[j].to == to
                        && flows@[j].from == site,
        decreases flows@.len() - k,
    {
        let flow: FlowTarget = flows[k];
        let ghost before = sites@;
        let branch: bool = match flow.kind() {
            FlowKind::Branch => true,
            _ => false,
        };
        if branch && flow.to() == to {
            sites.push(flow.from());
        }
        proof {
            assert forall|site: Address| #[trigger]
                sites@.contains(site) <==> exists|j: int|
                    0 <= j < k + 1 && (#[trigger] flows@[j]).kind is Branch && flows@[j].to == to
                        && flows@[j].from == site by {
                if flow.kind is Branch && flow.to == to {
                    lemma_push_contains(before, flow.from, site);
                }
                assert(before.contains(site) <==> exists|j: int|
                    0 <= j < k && (#[trigger] flows@[j]).kind is Branch && flows@[j].to == to
                        && flows@[j].from == site);
                assert(flows@[k as int] == flow);
            }
        }
        k = k + 1;
    }
    sites
}

impl Function {
    /// Where the tail calls of the function are that come out of a part of it.
    fn tail_call_sites_in(&self, table: &CodeBlockTable, part: &FxIdSet<CodeBlockEntity>) -> (sites:
        Vec<Address>)
        requires
            self@.wf(),
            table.wf(),
            forall|i: int|
                0 <= i < self.blocks@.len() && part@.contains((#[trigger] self.blocks@[i]).1)
                    ==> table@.contains_key(self.blocks@[i].1),
        ensures
            forall|site: Address| #[trigger]
                sites@.contains(site) <==> tail_call_in(
                    self@,
                    self.blocks@.len() as int,
                    table@,
                    part@,
                    site,
                ),
    {
        let mut sites: Vec<Address> = Vec::new();
        let mut i: usize = 0;
        while i < self.blocks.len()
            invariant
                i <= self.blocks@.len(),
                self@.wf(),
                table.wf(),
                forall|j: int|
                    0 <= j < self.blocks@.len() && part@.contains((#[trigger] self.blocks@[j]).1)
                        ==> table@.contains_key(self.blocks@[j].1),
                forall|site: Address| #[trigger]
                    sites@.contains(site) <==> tail_call_in(
                        self@,
                        i as int,
                        table@,
                        part@,
                        site,
                    ),
            decreases self.blocks@.len() - i,
        {
            let id: CodeBlockId = self.blocks[i].1;
            let ghost before = sites@;
            if part.contains(id) {
                assert(table@.contains_key(self.blocks@[i as int].1));
                match table.get_by_id(id) {
                    Some(block) => {
                        let own: Vec<Address> = self.own_sites(block);
                        append_sites(&mut sites, &own);
                        proof {
                            assert forall|site: Address| #[trigger]
                                sites@.contains(site) <==> tail_call_in(
                                    self@,
                                    i + 1,
                                    table@,
                                    part@,
                                    site,
                                ) by {
                                lemma_add_contains(before, own@, site);
                                assert(before.contains(site) <==> tail_call_in(
                                    self@,
                                    i as int,
                                    table@,
                                    part@,
                                    site,
                                ));
                                self.lemma_tail_step(i as int, table@, part@, site);
                            }
                        }
                    },
                    None => {},
                }
            } else {
                proof {
                    assert forall|site: Address| #[trigger]
                        sites@.contains(site) <==> tail_call_in(
                            self@,
                            i + 1,
                            table@,
                            part@,
                            site,
                        ) by {
                        self.lemma_tail_step(i as int, table@, part@, site);
                        assert(before.contains(site) <==> tail_call_in(
                            self@,
                            i as int,
                            table@,
                            part@,
                            site,
                        ));
                    }
                }
            }
            i = i + 1;
        }
        sites
    }

    /// One more block adds its own tail calls.
    proof fn lemma_tail_step(
        &self,
        i: int,
        table: Blocks,
        part: Set<CodeBlockId>,
        site: Address,
    )
        requires
            0 <= i < self.blocks@.len(),
        ensures
            tail_call_in(self@, i + 1, table, part, site) <==> tail_call_in(
                self@,
                i,
                table,
                part,
                site,
            ) || (self.tail_call_sites@.contains(site) && part.contains(self.blocks@[i].1)
                && flows_from(table[self.blocks@[i].1], site)),
    {
        let blocks = self@.blocks;
        if tail_call_in(self@, i, table, part, site) {
            let j = choose|j: int|
                0 <= j < i && part.contains((#[trigger] blocks[j]).1) && flows_from(
                    table[blocks[j].1],
                    site,
                );
            assert(part.contains(blocks[j].1));
        }
        if self.tail_call_sites@.contains(site) && part.contains(blocks[i].1) && flows_from(
            table[blocks[i].1],
            site,
        ) {
            assert(part.contains(blocks[i].1));
        }
    }

    /// Where the tail calls of the function are that come out of a block.
    fn own_sites(&self, block: &CodeBlock) -> (sites: Vec<Address>)
        requires
            self@.wf(),
        ensures
            forall|site: Address| #[trigger]
                sites@.contains(site) <==> self.tail_call_sites@.contains(site) && flows_from(
                    block@,
                    site,
                ),
    {
        let flows: Vec<FlowTarget> = block.flow_targets();
        let mut sites: Vec<Address> = Vec::new();
        let mut k: usize = 0;
        while k < flows.len()
            invariant
                k <= flows@.len(),
                self@.wf(),
                flows@ == block@.flows(),
                forall|site: Address| #[trigger]
                    sites@.contains(site) <==> self.tail_call_sites@.contains(site) && exists|j: int|
                        0 <= j < k && (#[trigger] flows@[j]).from == site,
            decreases flows@.len() - k,
        {
            let from: Address = flows[k].from();
            let ghost before = sites@;
            let known: bool = holds_key(self.tail_call_sites.as_slice(), &from);
            if known {
                sites.push(from);
            }
            proof {
                assert forall|site: Address| #[trigger]
                    sites@.contains(site) <==> self.tail_call_sites@.contains(site) && exists|j: int|
                        0 <= j < k + 1 && (#[trigger] flows@[j]).from == site by {
                    if known {
                        lemma_push_contains(before, from, site);
                    }
                    assert(before.contains(site) <==> self.tail_call_sites@.contains(site)
                        && exists|j: int| 0 <= j < k && (#[trigger] flows@[j]).from == site);
                    assert(flows@[k as int].from == from);
                }
            }
            k = k + 1;
        }
        sites
    }

    /// Where the branches are from the given blocks to an address, if each has one.
    fn unconditional_branch_sites_to(
        &self,
        table: &CodeBlockTable,
        sources: &Vec<CodeBlockId>,
        to: Address,
    ) -> (sites: Option<Vec<Address>>)
        requires
            table.wf(),
            forall|i: int|
                0 <= i < sources@.len() ==> table@.contains_key(#[trigger] sources@[i]),
        ensures
            match sites {
                Some(sites) => {
                    &&& forall|source: CodeBlockId| #[trigger]
                        sources@.contains(source) ==> exists|site: Address| #[trigger]
                            branches(table@[source], site, to)
                    &&& forall|site: Address| #[trigger]
                        sites@.contains(site) <==> exists|source: CodeBlockId| #[trigger]
                            sources@.contains(source) && branches(table@[source], site, to)
                },
                None => exists|source: CodeBlockId| #[trigger]
                    sources@.contains(source) && forall|site: Address|
                        !(#[trigger] branches(table@[source], site, to)),
            },
    {
        let mut sites: Vec<Address> = Vec::new();
        let mut i: usize = 0;
        while i < sources.len()
            invariant
                i <= sources@.len(),
                table.wf(),
                forall|j: int|
                    0 <= j < sources@.len() ==> table@.contains_key(#[trigger] sources@[j]),
                forall|source: CodeBlockId| #[trigger]
                    sources@.take(i as int).contains(source) ==> exists|site: Address| #[trigger]
                        branches(table@[source], site, to),
                forall|site: Address| #[trigger]
                    sites@.contains(site) <==> exists|source: CodeBlockId| #[trigger]
                        sources@.take(i as int).contains(source) && branches(
                            table@[source],
                            site,
                            to,
                        ),
            decreases sources@.len() - i,
        {
            let source: CodeBlockId = sources[i];
            let ghost before = sites@;
            assert(table@.contains_key(sources@[i as int]));
            match table.get_by_id(source) {
                Some(block) => {
                    let own: Vec<Address> = branch_sites(block, to);
                    if own.len() == 0 {
                        proof {
                            assert(sources@.contains(source));
                            assert forall|site: Address|
                                !(#[trigger] branches(table@[source], site, to)) by {
                                assert(!own@.contains(site));
                            }
                        }
                        return None;
                    }
                    append_sites(&mut sites, &own);
                    proof {
                        let (done, more) = (sources@.take(i as int), sources@.take(i + 1));
                        assert(more =~= done.push(source));
                        assert(own@.contains(own@[0]));
                        assert(branches(table@[source], own@[0], to));
                        assert forall|other: CodeBlockId| #[trigger]
                            more.contains(other) implies exists|site: Address| #[trigger]
                            branches(table@[other], site, to) by {
                            lemma_push_contains(done, source, other);
                        }
                        assert forall|site: Address| #[trigger]
                            sites@.contains(site) <==> exists|other: CodeBlockId| #[trigger]
                                more.contains(other) && branches(table@[other], site, to) by {
                            lemma_add_contains(before, own@, site);
                            if before.contains(site) {
                                let other = choose|other: CodeBlockId| #[trigger]
                                    done.contains(other) && branches(table@[other], site, to);
                                lemma_push_contains(done, source, other);
                                assert(more.contains(other));
                            }
                            if own@.contains(site) {
                                lemma_push_contains(done, source, source);
                                assert(more.contains(source));
                            }
                            if exists|other: CodeBlockId| #[trigger]
                                more.contains(other) && branches(table@[other], site, to) {
                                let other = choose|other: CodeBlockId| #[trigger]
                                    more.contains(other) && branches(table@[other], site, to);
                                lemma_push_contains(done, source, other);
                                if done.contains(other) {
                                    assert(before.contains(site));
                                }
                            }
                        }
                    }
                },
                None => {},
            }
            i = i + 1;
        }
        assert(sources@.take(i as int) =~= sources@);
        Some(sites)
    }
}

/// Filtering keeps the order of what stays.
pub proof fn lemma_filter_ascending<K: Ranked + Copy>(keys: Seq<K>, keep: spec_fn(K) -> bool)
    requires
        ascending(keys),
    ensures
        ascending(keys.filter(keep)),
        forall|k: K| #[trigger] keys.filter(keep).contains(k) <==> keys.contains(k) && keep(k),
    decreases keys.len(),
{
    reveal(Seq::filter);
    if keys.len() > 0 {
        let rest = keys.drop_last();
        lemma_filter_ascending(rest, keep);
        let kept = rest.filter(keep);
        assert forall|k: K| #[trigger] keys.filter(keep).contains(k) <==> keys.contains(k) && keep(k) by {
            assert(keys =~= rest.push(keys.last()));
            lemma_push_contains(rest, keys.last(), k);
            if keep(keys.last()) {
                lemma_push_contains(kept, keys.last(), k);
            }
            assert(kept.contains(k) <==> rest.contains(k) && keep(k));
        }
        if keep(keys.last()) {
            assert forall|i: int, j: int| 0 <= i < j < keys.filter(keep).len() implies (#[trigger]
            keys.filter(keep)[i]).rank() < (#[trigger] keys.filter(keep)[j]).rank() by {
                if j == kept.len() {
                    assert(kept.contains(kept[i]));
                    assert(rest.contains(kept[i]));
                    let n = rest.index_of(kept[i]);
                    assert(keys[n].rank() < keys[keys.len() - 1].rank());
                } else {
                    assert(kept[i].rank() < kept[j].rank());
                }
            }
        }
    }
}

/// Filtering blocks keeps the order of their addresses.
pub proof fn lemma_filter_by_address(
    blocks: Seq<(Address, CodeBlockId)>,
    keep: spec_fn((Address, CodeBlockId)) -> bool,
)
    requires
        by_address(blocks),
    ensures
        by_address(blocks.filter(keep)),
        forall|b: (Address, CodeBlockId)| #[trigger]
            blocks.filter(keep).contains(b) <==> blocks.contains(b) && keep(b),
    decreases blocks.len(),
{
    reveal(Seq::filter);
    if blocks.len() > 0 {
        let rest = blocks.drop_last();
        lemma_filter_by_address(rest, keep);
        let kept = rest.filter(keep);
        let all = blocks.filter(keep);
        assert forall|b: (Address, CodeBlockId)| #[trigger]
            all.contains(b) <==> blocks.contains(b) && keep(b) by {
            assert(blocks =~= rest.push(blocks.last()));
            lemma_push_contains(rest, blocks.last(), b);
            if keep(blocks.last()) {
                lemma_push_contains(kept, blocks.last(), b);
            }
            assert(kept.contains(b) <==> rest.contains(b) && keep(b));
        }
        if keep(blocks.last()) {
            assert forall|i: int, j: int| 0 <= i < j < all.len() implies (#[trigger]
            all[i]).0.rank() <= (#[trigger] all[j]).0.rank() by {
                if j == kept.len() {
                    assert(kept.contains(kept[i]));
                    assert(rest.contains(kept[i]));
                    let n = rest.index_of(kept[i]);
                    assert(blocks[n].0.rank() <= blocks[blocks.len() - 1].0.rank());
                } else {
                    assert(kept[i].0.rank() <= kept[j].0.rank());
                }
            }
        }
    }
}

/// A block that is listed and kept is listed among what was kept.
pub proof fn lemma_kept_listed(
    blocks: Seq<(Address, CodeBlockId)>,
    part: Set<CodeBlockId>,
    id: CodeBlockId,
)
    requires
        by_address(blocks),
    ensures
        lists_block(blocks.filter(in_part(part)), id) <==> lists_block(blocks, id) && part.contains(
            id,
        ),
{
    lemma_filter_by_address(blocks, in_part(part));
    let kept = blocks.filter(in_part(part));
    if lists_block(blocks, id) && part.contains(id) {
        let i = choose|i: int| 0 <= i < blocks.len() && (#[trigger] blocks[i]).1 == id;
        assert(blocks.contains(blocks[i]));
        assert(kept.contains(blocks[i]));
        let j = kept.index_of(blocks[i]);
        assert(kept[j].1 == id);
    }
    if lists_block(kept, id) {
        let i = choose|i: int| 0 <= i < kept.len() && (#[trigger] kept[i]).1 == id;
        assert(kept.contains(kept[i]));
        assert(blocks.contains(kept[i]));
        let j = blocks.index_of(kept[i]);
        assert(blocks[j].1 == id);
    }
}

/// A part of a well-formed body is well-formed.
proof fn lemma_part_wf(function: FunctionView, part: Set<CodeBlockId>, view: FunctionView)
    requires
        function.wf(),
        view.blocks == function.blocks.filter(in_part(part)),
        view.edges == function.edges.filter(within(part)),
        ascending(view.tail_call_sites),
        lists_block(function.blocks, view.entry_block),
        part.contains(view.entry_block),
    ensures
        view.wf(),
{
    lemma_filter_by_address(function.blocks, in_part(part));
    lemma_filter_ascending(function.edges, within(part));
    lemma_kept_listed(function.blocks, part, view.entry_block);
    assert forall|i: int| 0 <= i < view.edges.len() implies lists_block(
        view.blocks,
        (#[trigger] view.edges[i]).0,
    ) && lists_block(view.blocks, view.edges[i].1) by {
        let edge = view.edges[i];
        assert(view.edges.contains(edge));
        assert(function.edges.contains(edge));
        let j = function.edges.index_of(edge);
        assert(lists_block(function.blocks, function.edges[j].0));
        lemma_kept_listed(function.blocks, part, edge.0);
        lemma_kept_listed(function.blocks, part, edge.1);
    }
}

impl Function {
    /// Gathers the blocks that stay with the old entry when the function is split.
    fn parent_members(
        &self,
        child: &FxIdSet<CodeBlockEntity>,
        reached: &FxIdSet<CodeBlockEntity>,
    ) -> (parent: FxIdSet<CodeBlockEntity>)
        ensures
            forall|b: CodeBlockId| #[trigger]
                parent@.contains(b) <==> lists_block(self.blocks@, b) && !(child@.contains(b)
                    && !reached@.contains(b)),
    {
        let mut parent: FxIdSet<CodeBlockEntity> = FxIdSet::new();
        let mut i: usize = 0;
        while i < self.blocks.len()
            invariant
                i <= self.blocks@.len(),
                forall|b: CodeBlockId| #[trigger]
                    parent@.contains(b) <==> lists_block(self.blocks@.take(i as int), b) && !(
                    child@.contains(b) && !reached@.contains(b)),
            decreases self.blocks@.len() - i,
        {
            let id: CodeBlockId = self.blocks[i].1;
            let ghost before = parent@;
            if !(child.contains(id) && !reached.contains(id)) {
                parent.insert(id);
            }
            proof {
                let (done, more) = (self.blocks@.take(i as int), self.blocks@.take(i + 1));
                assert forall|b: CodeBlockId| #[trigger]
                    parent@.contains(b) <==> lists_block(more, b) && !(child@.contains(b)
                        && !reached@.contains(b)) by {
                    assert(before.contains(b) <==> lists_block(done, b) && !(child@.contains(b)
                        && !reached@.contains(b)));
                    if lists_block(done, b) {
                        let j = choose|j: int| 0 <= j < done.len() && (#[trigger] done[j]).1 == b;
                        assert(more[j].1 == b);
                    }
                    if lists_block(more, b) {
                        let j = choose|j: int| 0 <= j < more.len() && (#[trigger] more[j]).1 == b;
                        if j < i {
                            assert(done[j].1 == b);
                        }
                    }
                    assert(more[i as int].1 == id);
                }
            }
            i = i + 1;
        }
        assert(self.blocks@.take(i as int) =~= self.blocks@);
        parent
    }

    /// Where the branches are that are cut when the edges out of a part to a block are, if each
    /// of the edges is a branch.
    fn cut_sites(
        &self,
        table: &CodeBlockTable,
        part: &FxIdSet<CodeBlockEntity>,
        to: CodeBlockId,
        address: Address,
    ) -> (sites: Option<Vec<Address>>)
        requires
            table.wf(),
            sources_known(self@, table@, part@, to),
        ensures
            sites is Some == cut_clean(self@, table@, part@, to, address),
            sites matches Some(sites) ==> forall|site: Address| #[trigger]
                sites@.contains(site) <==> cut_site(self@, table@, part@, to, address, site),
    {
        let sources: Vec<CodeBlockId> = part_sources(&self.edges, part, to);
        proof {
            assert forall|i: int| 0 <= i < sources@.len() implies table@.contains_key(
                #[trigger] sources@[i],
            ) by {
                let source = sources@[i];
                assert(sources@.contains(source));
                assert(self@.edges.contains((source, to)));
            }
        }
        match self.unconditional_branch_sites_to(table, &sources, address) {
            Some(cut) => {
                proof {
                    assert forall|source: CodeBlockId|
                        part@.contains(source) && #[trigger] self@.edges.contains(
                            (source, to),
                        ) implies exists|site: Address| #[trigger]
                        branches(table@[source], site, address) by {
                        assert(sources@.contains(source));
                    }
                    assert forall|site: Address| #[trigger]
                        cut@.contains(site) <==> cut_site(
                            self@,
                            table@,
                            part@,
                            to,
                            address,
                            site,
                        ) by {
                        if cut@.contains(site) {
                            let source = choose|source: CodeBlockId| #[trigger]
                                sources@.contains(source) && branches(
                                    table@[source],
                                    site,
                                    address,
                                );
                            assert(self@.edges.contains((source, to)));
                        }
                        if cut_site(self@, table@, part@, to, address, site) {
                            let source = choose|source: CodeBlockId|
                                part@.contains(source) && #[trigger] self@.edges.contains(
                                    (source, to),
                                ) && branches(table@[source], site, address);
                            assert(sources@.contains(source));
                        }
                    }
                }
                Some(cut)
            },
            None => {
                proof {
                    let source = choose|source: CodeBlockId| #[trigger]
                        sources@.contains(source) && forall|site: Address|
                            !(#[trigger] branches(table@[source], site, address));
                    assert(self@.edges.contains((source, to)));
                }
                None
            },
        }
    }

    /// The tail calls of a part, with the branches that are cut.
    fn sites_with_cuts(
        &self,
        table: &CodeBlockTable,
        part: &FxIdSet<CodeBlockEntity>,
        cut: &Vec<Address>,
    ) -> (sites: Vec<Address>)
        requires
            self@.wf(),
            table.wf(),
            blocks_known(self@, table@),
        ensures
            forall|site: Address| #[trigger]
                sites@.contains(site) <==> tail_call_in(
                    self@,
                    self.blocks@.len() as int,
                    table@,
                    part@,
                    site,
                ) || cut@.contains(site),
    {
        proof {
            assert forall|i: int|
                0 <= i < self.blocks@.len() && part@.contains((#[trigger] self.blocks@[i]).1)
                    implies table@.contains_key(self.blocks@[i].1) by {
                assert(table@.contains_key(self@.blocks[i].1));
            }
        }
        let mut sites: Vec<Address> = self.tail_call_sites_in(table, part);
        let ghost own = sites@;
        append_sites(&mut sites, cut);
        proof {
            assert forall|site: Address| #[trigger]
                sites@.contains(site) <==> tail_call_in(
                    self@,
                    self.blocks@.len() as int,
                    table@,
                    part@,
                    site,
                ) || cut@.contains(site) by {
                lemma_add_contains(own, cut@, site);
            }
        }
        sites
    }

    /// Splits the function in two at a block: what the block can reach becomes a function of
    /// its own, and only what nothing else can reach leaves the old one.
    pub fn split_at_block(&self, new_entry: CodeBlockId, table: &CodeBlockTable) -> (parts: Option<
        (Function, Function),
    >)
        requires
            self@.wf(),
            table.wf(),
            splittable(self@, table@, new_entry) ==> split_known(self@, table@, new_entry),
        ensures
            parts is Some == splits(self@, table@, new_entry),
            parts matches Some((parent, child)) ==> is_split(
                self@,
                table@,
                new_entry,
                parent@,
                child@,
            ) && parent@.wf() && child@.wf(),
    {
        let current: CodeBlockId = match self.entry_block() {
            Some(current) => current,
            None => {
                return None;
            },
        };
        if new_entry == current || !self.lists(new_entry) {
            return None;
        }
        let address: Address = match table.get_by_id(new_entry) {
            Some(block) => block.address(),
            None => {
                return None;
            },
        };
        let ghost (own, new) = (parent_part(self@, new_entry), child_part(self@, new_entry));
        let child_members: FxIdSet<CodeBlockEntity> = reachable_blocks(
            &self.edges,
            new_entry,
            current,
        );
        let reached: FxIdSet<CodeBlockEntity> = reachable_blocks(&self.edges, current, new_entry);
        let parent_members: FxIdSet<CodeBlockEntity> = self.parent_members(
            &child_members,
            &reached,
        );
        proof {
            assert(child_members@ =~= new);
            assert(parent_members@ =~= own);
        }
        let parent_blocks: Vec<(Address, CodeBlockId)> = part_blocks(&self.blocks, &parent_members);
        let child_blocks: Vec<(Address, CodeBlockId)> = part_blocks(&self.blocks, &child_members);
        proof {
            self.lemma_parts_nonempty(new_entry);
        }
        if parent_blocks.len() == 0 || child_blocks.len() == 0 {
            return None;
        }
        let parent_edges: Vec<(CodeBlockId, CodeBlockId)> = part_edges(
            &self.edges,
            &parent_members,
        );
        let child_edges: Vec<(CodeBlockId, CodeBlockId)> = part_edges(&self.edges, &child_members);
        let parent_cut: Vec<Address> = match self.cut_sites(
            table,
            &parent_members,
            new_entry,
            address,
        ) {
            Some(sites) => sites,
            None => {
                return None;
            },
        };
        let child_cut: Vec<Address> = match self.cut_sites(
            table,
            &child_members,
            current,
            self.entry,
        ) {
            Some(sites) => sites,
            None => {
                return None;
            },
        };
        let parent_sites: Vec<Address> = self.sites_with_cuts(table, &parent_members, &parent_cut);
        let child_sites: Vec<Address> = self.sites_with_cuts(table, &child_members, &child_cut);
        let mut parent: Function = self.clone().with_body(
            parent_blocks,
            parent_edges,
            Some(current),
        );
        parent.clear_body_analysis();
        parent.set_tail_call_sites(&parent_sites);
        let mut child: Function = Function::new(Id::invalid(), address).with_origin(
            self.origin,
        ).with_confidence(self.confidence).with_body(child_blocks, child_edges, Some(new_entry));
        child.set_tail_call_sites(&child_sites);
        proof {
            assert forall|site: Address| #[trigger]
                parent@.tail_call_sites.contains(site) <==> tail_call_in(
                    self@,
                    self@.blocks.len() as int,
                    table@,
                    own,
                    site,
                ) || cut_site(self@, table@, own, new_entry, address, site) by {
                assert(parent@.tail_call_sites.contains(site) <==> parent_sites@.contains(site));
            }
            assert forall|site: Address| #[trigger]
                child@.tail_call_sites.contains(site) <==> tail_call_in(
                    self@,
                    self@.blocks.len() as int,
                    table@,
                    new,
                    site,
                ) || cut_site(self@, table@, new, current, self.entry, site) by {
                assert(child@.tail_call_sites.contains(site) <==> child_sites@.contains(site));
            }
            lemma_part_wf(self@, own, parent@);
            lemma_part_wf(self@, new, child@);
        }
        Some((parent, child))
    }

    /// The entries belong to their parts.
    proof fn lemma_parts_nonempty(&self, new_entry: CodeBlockId)
        requires
            self@.wf(),
            self@.entry_block.id != u32::MAX,
            new_entry != self@.entry_block,
            lists_block(self@.blocks, new_entry),
        ensures
            parent_part(self@, new_entry).contains(self@.entry_block),
            child_part(self@, new_entry).contains(new_entry),
            self@.blocks.filter(in_part(parent_part(self@, new_entry))).len() > 0,
            self@.blocks.filter(in_part(child_part(self@, new_entry))).len() > 0,
    {
        let current = self@.entry_block;
        assert(!child_part(self@, new_entry).contains(current)) by {
            if reachable(self@.edges, new_entry, current, current) {
                let path = choose|path: Seq<CodeBlockId>| #[trigger]
                    is_path(self@.edges, current, path) && path.first() == new_entry && path.last()
                        == current;
                assert(path[path.len() - 1] != current);
            }
        }
        assert(child_part(self@, new_entry).contains(new_entry)) by {
            let path = seq![new_entry];
            assert(is_path(self@.edges, current, path));
            assert(path.first() == new_entry);
            assert(path.last() == new_entry);
        }
        lemma_kept_listed(self@.blocks, parent_part(self@, new_entry), current);
        lemma_kept_listed(self@.blocks, child_part(self@, new_entry), new_entry);
    }
}

/// Splitting loses no block: each goes with one of the two functions, and what neither entry
/// can reach stays with the old one.
pub proof fn law_split_keeps_every_block(
    function: FunctionView,
    table: Blocks,
    new_entry: CodeBlockId,
    parent: FunctionView,
    child: FunctionView,
    id: CodeBlockId,
)
    requires
        function.wf(),
        is_split(function, table, new_entry, parent, child),
    ensures
        lists_block(function.blocks, id) <==> lists_block(parent.blocks, id) || lists_block(
            child.blocks,
            id,
        ),
        lists_block(function.blocks, id) && !reachable(
            function.edges,
            new_entry,
            function.entry_block,
            id,
        ) ==> lists_block(parent.blocks, id),
{
    lemma_kept_listed(function.blocks, parent_part(function, new_entry), id);
    lemma_kept_listed(function.blocks, child_part(function, new_entry), id);
}

/// Whether a listed block of a function makes a tail call from a site to an address by a
/// branch.
pub open spec fn tail_branch(
    function: FunctionView,
    table: Blocks,
    id: CodeBlockId,
    site: Address,
    to: Address,
) -> bool {
    &&& lists_block(function.blocks, id)
    &&& function.tail_call_sites.contains(site)
    &&& branches(table[id], site, to)
}

/// Whether a site is a tail call of one function to another's entry by a branch.
pub open spec fn tail_calls(
    function: FunctionView,
    table: Blocks,
    site: Address,
    to: Address,
) -> bool {
    exists|id: CodeBlockId| #[trigger] tail_branch(function, table, id, site, to)
}

/// The blocks of two functions.
pub open spec fn members(a: FunctionView, b: FunctionView) -> Set<CodeBlockId> {
    Set::new(|id: CodeBlockId| lists_block(a.blocks, id) || lists_block(b.blocks, id))
}

/// Whether an edge belongs to the merged body: one of either function, or one in place of a
/// tail call between them.
pub open spec fn merged_edge(
    a: FunctionView,
    b: FunctionView,
    table: Blocks,
    edge: (CodeBlockId, CodeBlockId),
) -> bool {
    ||| a.edges.contains(edge)
    ||| b.edges.contains(edge)
    ||| edge.1 == b.entry_block && exists|site: Address| #[trigger]
        tail_branch(a, table, edge.0, site, b.entry)
    ||| edge.1 == a.entry_block && exists|site: Address| #[trigger]
        tail_branch(b, table, edge.0, site, a.entry)
}

/// Whether a site is still a tail call of the merged function.
pub open spec fn merged_site(
    a: FunctionView,
    b: FunctionView,
    table: Blocks,
    site: Address,
) -> bool {
    &&& tail_call_in(a, a.blocks.len() as int, table, members(a, b), site) || tail_call_in(
        b,
        b.blocks.len() as int,
        table,
        members(a, b),
        site,
    )
    &&& !tail_calls(a, table, site, b.entry)
    &&& !tail_calls(b, table, site, a.entry)
}

/// Whether this is what merging a second function into a first gives.
pub open spec fn is_merge(
    a: FunctionView,
    b: FunctionView,
    table: Blocks,
    merged: FunctionView,
) -> bool {
    &&& merged == (FunctionView {
        blocks: merged.blocks,
        edges: merged.edges,
        frame: no_frame(),
        properties: FunctionProperties { bits: 0 },
        tail_call_sites: merged.tail_call_sites,
        ..a
    })
    &&& sorts(merged.blocks, a.blocks + b.blocks)
    &&& ascending(merged.edges)
    &&& forall|edge: (CodeBlockId, CodeBlockId)| #[trigger]
        merged.edges.contains(edge) <==> merged_edge(a, b, table, edge)
    &&& ascending(merged.tail_call_sites)
    &&& forall|site: Address| #[trigger]
        merged.tail_call_sites.contains(site) <==> merged_site(a, b, table, site)
}

impl Function {
    /// The blocks and sites at which the function makes tail calls to an address by a branch.
    fn tail_call_sources_to(&self, table: &CodeBlockTable, to: Address) -> (sources: Vec<
        (CodeBlockId, Address),
    >)
        requires
            self@.wf(),
            table.wf(),
            blocks_known(self@, table@),
        ensures
            forall|id: CodeBlockId, site: Address| #[trigger]
                sources@.contains((id, site)) <==> tail_branch(self@, table@, id, site, to),
    {
        let mut sources: Vec<(CodeBlockId, Address)> = Vec::new();
        let mut i: usize = 0;
        while i < self.blocks.len()
            invariant
                i <= self.blocks@.len(),
                self@.wf(),
                table.wf(),
                blocks_known(self@, table@),
                forall|id: CodeBlockId, site: Address| #[trigger]
                    sources@.contains((id, site)) <==> lists_block(self.blocks@.take(i as int), id)
                        && self@.tail_call_sites.contains(site) && branches(table@[id], site, to),
            decreases self.blocks@.len() - i,
        {
            let id: CodeBlockId = self.blocks[i].1;
            let ghost before = sources@;
            assert(table@.contains_key(self@.blocks[i as int].1));
            match table.get_by_id(id) {
                Some(block) => {
                    let sites: Vec<Address> = branch_sites(block, to);
                    let mut k: usize = 0;
                    while k < sites.len()
                        invariant
                            k <= sites@.len(),
                            self@.wf(),
                            forall|other: CodeBlockId, site: Address| #[trigger]
                                sources@.contains((other, site)) <==> before.contains(
                                    (other, site),
                                ) || (other == id && self@.tail_call_sites.contains(site)
                                    && sites@.take(k as int).contains(site)),
                        decreases sites@.len() - k,
                    {
                        let site: Address = sites[k];
                        let ghost earlier = sources@;
                        let known: bool = holds_key(self.tail_call_sites.as_slice(), &site);
                        if known {
                            sources.push((id, site));
                        }
                        proof {
                            let (done, more) = (sites@.take(k as int), sites@.take(k + 1));
                            assert(more =~= done.push(site));
                            assert forall|other: CodeBlockId, s: Address| #[trigger]
                                sources@.contains((other, s)) <==> before.contains((other, s)) || (
                                other == id && self@.tail_call_sites.contains(s) && more.contains(
                                    s,
                                )) by {
                                lemma_push_contains(done, site, s);
                                if known {
                                    lemma_push_contains(earlier, (id, site), (other, s));
                                }
                                assert(earlier.contains((other, s)) <==> before.contains(
                                    (other, s),
                                ) || (other == id && self@.tail_call_sites.contains(s)
                                    && done.contains(s)));
                            }
                        }
                        k = k + 1;
                    }
                    proof {
                        assert(sites@.take(k as int) =~= sites@);
                        let (done, more) = (self.blocks@.take(i as int), self.blocks@.take(i + 1));
                        assert forall|other: CodeBlockId, site: Address| #[trigger]
                            sources@.contains((other, site)) <==> lists_block(more, other)
                                && self@.tail_call_sites.contains(site) && branches(
                                table@[other],
                                site,
                                to,
                            ) by {
                            lemma_one_more_block(self.blocks@, i as int, other);
                            assert(before.contains((other, site)) <==> lists_block(done, other)
                                && self@.tail_call_sites.contains(site) && branches(
                                table@[other],
                                site,
                                to,
                            ));
                            assert(sites@.contains(site) <==> branches(block@, site, to));
                        }
                    }
                },
                None => {},
            }
            i = i + 1;
        }
        assert(self.blocks@.take(i as int) =~= self.blocks@);
        sources
    }

    /// Merges another function into this one. Tail calls between the two become edges.
    pub fn merge_with(&self, source: &Function, table: &CodeBlockTable) -> (merged: Option<Function>)
        requires
            self@.wf(),
            source@.wf(),
            table.wf(),
            self@.entry_block.id != u32::MAX && source@.entry_block.id != u32::MAX ==> blocks_known(
                self@,
                table@,
            ) && blocks_known(source@, table@),
        ensures
            merged is Some == (self@.entry_block.id != u32::MAX && source@.entry_block.id
                != u32::MAX),
            merged matches Some(m) ==> is_merge(self@, source@, table@, m@) && m@.wf(),
    {
        let target_entry: CodeBlockId = match self.entry_block() {
            Some(entry) => entry,
            None => {
                return None;
            },
        };
        let source_entry: CodeBlockId = match source.entry_block() {
            Some(entry) => entry,
            None => {
                return None;
            },
        };
        let blocks: Vec<(Address, CodeBlockId)> = joined(&self.blocks, &source.blocks);
        let sorted: Vec<(Address, CodeBlockId)> = sort_keys(&blocks);
        let ids: FxIdSet<CodeBlockEntity> = listed_ids(&sorted);
        proof {
            self.lemma_members(source, blocks@, sorted@, ids@);
        }
        let target_boundary: Vec<(CodeBlockId, Address)> = self.tail_call_sources_to(
            table,
            source.entry,
        );
        let source_boundary: Vec<(CodeBlockId, Address)> = source.tail_call_sources_to(
            table,
            self.entry,
        );
        let mut edges: Vec<(CodeBlockId, CodeBlockId)> = joined(&self.edges, &source.edges);
        let ghost inner = edges@;
        push_edges(&mut edges, &target_boundary, source_entry);
        let ghost more = edges@;
        push_edges(&mut edges, &source_boundary, target_entry);
        let sorted_edges: Vec<(CodeBlockId, CodeBlockId)> = sort_keys(&edges);
        proof {
            assert forall|edge: (CodeBlockId, CodeBlockId)| #[trigger]
                sorted_edges@.contains(edge) <==> merged_edge(
                    self@,
                    source@,
                    table@,
                    edge,
                ) by {
                assert(sorted_edges@.contains(edge) <==> edges@.contains(edge));
                lemma_add_contains(self.edges@, source.edges@, edge);
                assert(more.contains(edge) <==> inner.contains(edge) || (edge.1 == source_entry
                    && has_source(target_boundary@, edge.0)));
                assert(edges@.contains(edge) <==> more.contains(edge) || (edge.1 == target_entry
                    && has_source(source_boundary@, edge.0)));
                lemma_has_source(self@, table@, target_boundary@, source@.entry, edge.0);
                lemma_has_source(source@, table@, source_boundary@, self@.entry, edge.0);
            }
        }
        let mut sites: Vec<Address> = self.tail_call_sites_in(table, &ids);
        let ghost own = sites@;
        let others: Vec<Address> = source.tail_call_sites_in(table, &ids);
        append_sites(&mut sites, &others);
        let ghost all = sites@;
        let left: Vec<Address> = without_sites(&sites, &target_boundary, &source_boundary);
        let mut merged: Function = self.clone().with_body(sorted, sorted_edges, Some(target_entry));
        merged.clear_body_analysis();
        merged.set_tail_call_sites(&left);
        proof {
            assert forall|site: Address| #[trigger]
                merged@.tail_call_sites.contains(site) <==> merged_site(
                    self@,
                    source@,
                    table@,
                    site,
                ) by {
                assert(merged@.tail_call_sites.contains(site) <==> left@.contains(site));
                lemma_add_contains(own, others@, site);
                assert(ids@ =~= members(self@, source@));
                lemma_has_site(self@, table@, target_boundary@, source@.entry, site);
                lemma_has_site(source@, table@, source_boundary@, self@.entry, site);
            }
            lemma_merge_wf(self@, source@, table@, merged@);
        }
        Some(merged)
    }

    /// What the merged blocks are.
    proof fn lemma_members(
        &self,
        source: &Function,
        blocks: Seq<(Address, CodeBlockId)>,
        sorted: Seq<(Address, CodeBlockId)>,
        ids: Set<CodeBlockId>,
    )
        requires
            blocks == self.blocks@ + source.blocks@,
            sorts(sorted, blocks),
            forall|id: CodeBlockId| #[trigger] ids.contains(id) <==> lists_block(sorted, id),
        ensures
            ids == members(self@, source@),
            forall|i: int|
                0 <= i < self.blocks@.len() ==> ids.contains((#[trigger] self.blocks@[i]).1),
            forall|i: int|
                0 <= i < source.blocks@.len() ==> ids.contains((#[trigger] source.blocks@[i]).1),
    {
        assert forall|id: CodeBlockId| #[trigger]
            ids.contains(id) <==> members(self@, source@).contains(id) by {
            lemma_sorted_lists(sorted, blocks, id);
            lemma_joined_lists(self.blocks@, source.blocks@, id);
        }
        assert(ids =~= members(self@, source@));
    }
}

/// Sorting lists the same blocks.
proof fn lemma_sorted_lists(
    sorted: Seq<(Address, CodeBlockId)>,
    blocks: Seq<(Address, CodeBlockId)>,
    id: CodeBlockId,
)
    requires
        sorts(sorted, blocks),
    ensures
        lists_block(sorted, id) <==> lists_block(blocks, id),
{
    if lists_block(sorted, id) {
        let i = choose|i: int| 0 <= i < sorted.len() && (#[trigger] sorted[i]).1 == id;
        assert(sorted.contains(sorted[i]));
        let j = blocks.index_of(sorted[i]);
        assert(blocks[j].1 == id);
    }
    if lists_block(blocks, id) {
        let i = choose|i: int| 0 <= i < blocks.len() && (#[trigger] blocks[i]).1 == id;
        assert(blocks.contains(blocks[i]));
        assert(sorted.contains(blocks[i]));
        let j = sorted.index_of(blocks[i]);
        assert(sorted[j].1 == id);
    }
}

/// Two lists together list what either does.
proof fn lemma_joined_lists(
    a: Seq<(Address, CodeBlockId)>,
    b: Seq<(Address, CodeBlockId)>,
    id: CodeBlockId,
)
    ensures
        lists_block(a + b, id) <==> lists_block(a, id) || lists_block(b, id),
{
    let c = a + b;
    if lists_block(a, id) {
        let i = choose|i: int| 0 <= i < a.len() && (#[trigger] a[i]).1 == id;
        assert(c[i].1 == id);
    }
    if lists_block(b, id) {
        let i = choose|i: int| 0 <= i < b.len() && (#[trigger] b[i]).1 == id;
        assert(c[a.len() + i].1 == id);
    }
    if lists_block(c, id) {
        let i = choose|i: int| 0 <= i < c.len() && (#[trigger] c[i]).1 == id;
        if i < a.len() {
            assert(a[i].1 == id);
        } else {
            assert(b[i - a.len()].1 == id);
        }
    }
}

/// A list up to one more place.
proof fn lemma_one_more_block(blocks: Seq<(Address, CodeBlockId)>, i: int, id: CodeBlockId)
    requires
        0 <= i < blocks.len(),
    ensures
        lists_block(blocks.take(i + 1), id) <==> lists_block(blocks.take(i), id) || blocks[i].1
            == id,
{
    let one = seq![blocks[i]];
    assert(blocks.take(i + 1) =~= blocks.take(i) + one);
    lemma_joined_lists(blocks.take(i), one, id);
    if blocks[i].1 == id {
        assert(one[0].1 == id);
    }
    if lists_block(one, id) {
        let j = choose|j: int| 0 <= j < one.len() && (#[trigger] one[j]).1 == id;
        assert(j == 0);
    }
}

/// A merged body is well-formed.
proof fn lemma_merge_wf(a: FunctionView, b: FunctionView, table: Blocks, merged: FunctionView)
    requires
        a.wf(),
        b.wf(),
        a.entry_block.id != u32::MAX,
        b.entry_block.id != u32::MAX,
        is_merge(a, b, table, merged),
    ensures
        merged.wf(),
{
    assert forall|id: CodeBlockId| lists_block(a.blocks, id) || lists_block(b.blocks, id) implies
        #[trigger] lists_block(merged.blocks, id) by {
        lemma_joined_lists(a.blocks, b.blocks, id);
        lemma_sorted_lists(merged.blocks, a.blocks + b.blocks, id);
    }
    assert forall|i: int| 0 <= i < merged.edges.len() implies lists_block(
        merged.blocks,
        (#[trigger] merged.edges[i]).0,
    ) && lists_block(merged.blocks, merged.edges[i].1) by {
        let edge = merged.edges[i];
        assert(merged.edges.contains(edge));
        assert(merged_edge(a, b, table, edge));
        if a.edges.contains(edge) {
            let j = a.edges.index_of(edge);
            assert(lists_block(a.blocks, a.edges[j].0));
        } else if b.edges.contains(edge) {
            let j = b.edges.index_of(edge);
            assert(lists_block(b.blocks, b.edges[j].0));
        }
    }
    assert forall|i: int, j: int| 0 <= i < j < merged.blocks.len() implies (#[trigger]
    merged.blocks[i]).0.rank() <= (#[trigger] merged.blocks[j]).0.rank() by {
        assert(merged.blocks[i].rank() < merged.blocks[j].rank());
    }
}

/// Copies two lists into one.
fn joined<T: Copy>(a: &Vec<T>, b: &Vec<T>) -> (c: Vec<T>)
    ensures
        c@ == a@ + b@,
{
    let mut c: Vec<T> = crate::types::copy_values(a);
    let mut i: usize = 0;
    assert(a@ + b@.take(0) =~= a@);
    while i < b.len()
        invariant
            i <= b@.len(),
            c@ == a@ + b@.take(i as int),
        decreases b@.len() - i,
    {
        c.push(b[i]);
        i = i + 1;
        assert(c@ =~= a@ + b@.take(i as int));
    }
    assert(b@.take(i as int) =~= b@);
    c
}

/// The identities of listed blocks.
fn listed_ids(blocks: &Vec<(Address, CodeBlockId)>) -> (ids: FxIdSet<CodeBlockEntity>)
    ensures
        forall|id: CodeBlockId| #[trigger] ids@.contains(id) <==> lists_block(blocks@, id),
{
    let mut ids: FxIdSet<CodeBlockEntity> = FxIdSet::new();
    let mut i: usize = 0;
    while i < blocks.len()
        invariant
            i <= blocks@.len(),
            forall|id: CodeBlockId| #[trigger]
                ids@.contains(id) <==> lists_block(blocks@.take(i as int), id),
        decreases blocks@.len() - i,
    {
        let ghost before = ids@;
        ids.insert(blocks[i].1);
        proof {
            assert forall|id: CodeBlockId| #[trigger]
                ids@.contains(id) <==> lists_block(blocks@.take(i + 1), id) by {
                lemma_one_more_block(blocks@, i as int, id);
                assert(before.contains(id) <==> lists_block(blocks@.take(i as int), id));
            }
        }
        i = i + 1;
    }
    assert(blocks@.take(i as int) =~= blocks@);
    ids
}

/// Whether one of the sources is a block.
spec fn has_source(sources: Seq<(CodeBlockId, Address)>, id: CodeBlockId) -> bool {
    exists|i: int| 0 <= i < sources.len() && (#[trigger] sources[i]).0 == id
}

/// Whether one of the sources is at a site.
spec fn has_site(sources: Seq<(CodeBlockId, Address)>, site: Address) -> bool {
    exists|i: int| 0 <= i < sources.len() && (#[trigger] sources[i]).1 == site
}

/// What the sources of tail calls say of a block.
proof fn lemma_has_source(
    function: FunctionView,
    table: Blocks,
    sources: Seq<(CodeBlockId, Address)>,
    to: Address,
    id: CodeBlockId,
)
    requires
        forall|other: CodeBlockId, site: Address| #[trigger]
            sources.contains((other, site)) <==> tail_branch(function, table, other, site, to),
    ensures
        has_source(sources, id) <==> exists|site: Address| #[trigger]
            tail_branch(function, table, id, site, to),
{
    if has_source(sources, id) {
        let i = choose|i: int| 0 <= i < sources.len() && (#[trigger] sources[i]).0 == id;
        assert(sources.contains((id, sources[i].1)));
        assert(tail_branch(function, table, id, sources[i].1, to));
    }
    if exists|site: Address| #[trigger] tail_branch(function, table, id, site, to) {
        let site = choose|site: Address| #[trigger] tail_branch(function, table, id, site, to);
        assert(sources.contains((id, site)));
        let i = sources.index_of((id, site));
        assert(sources[i].0 == id);
    }
}

/// What the sources of tail calls say of a site.
proof fn lemma_has_site(
    function: FunctionView,
    table: Blocks,
    sources: Seq<(CodeBlockId, Address)>,
    to: Address,
    site: Address,
)
    requires
        forall|other: CodeBlockId, site: Address| #[trigger]
            sources.contains((other, site)) <==> tail_branch(function, table, other, site, to),
    ensures
        has_site(sources, site) <==> tail_calls(function, table, site, to),
{
    if has_site(sources, site) {
        let i = choose|i: int| 0 <= i < sources.len() && (#[trigger] sources[i]).1 == site;
        assert(sources.contains((sources[i].0, site)));
        assert(tail_branch(function, table, sources[i].0, site, to));
    }
    if tail_calls(function, table, site, to) {
        let id = choose|id: CodeBlockId| #[trigger] tail_branch(function, table, id, site, to);
        assert(sources.contains((id, site)));
        let i = sources.index_of((id, site));
        assert(sources[i].1 == site);
    }
}

/// Adds an edge from each source to a block.
fn push_edges(
    edges: &mut Vec<(CodeBlockId, CodeBlockId)>,
    sources: &Vec<(CodeBlockId, Address)>,
    to: CodeBlockId,
)
    ensures
        forall|edge: (CodeBlockId, CodeBlockId)| #[trigger]
            final(edges)@.contains(edge) <==> old(edges)@.contains(edge) || (edge.1 == to
                && has_source(sources@, edge.0)),
{
    let ghost before = edges@;
    let mut i: usize = 0;
    while i < sources.len()
        invariant
            i <= sources@.len(),
            forall|edge: (CodeBlockId, CodeBlockId)| #[trigger]
                edges@.contains(edge) <==> before.contains(edge) || (edge.1 == to && has_source(
                    sources@.take(i as int),
                    edge.0,
                )),
        decreases sources@.len() - i,
    {
        let ghost earlier = edges@;
        let source: CodeBlockId = sources[i].0;
        edges.push((source, to));
        proof {
            let (done, more) = (sources@.take(i as int), sources@.take(i + 1));
            assert forall|edge: (CodeBlockId, CodeBlockId)| #[trigger]
                edges@.contains(edge) <==> before.contains(edge) || (edge.1 == to && has_source(
                    more,
                    edge.0,
                )) by {
                lemma_push_contains(earlier, (source, to), edge);
                assert(earlier.contains(edge) <==> before.contains(edge) || (edge.1 == to
                    && has_source(done, edge.0)));
                if has_source(done, edge.0) {
                    let j = choose|j: int| 0 <= j < done.len() && (#[trigger] done[j]).0 == edge.0;
                    assert(more[j].0 == edge.0);
                }
                if has_source(more, edge.0) {
                    let j = choose|j: int| 0 <= j < more.len() && (#[trigger] more[j]).0 == edge.0;
                    if j < i {
                        assert(done[j].0 == edge.0);
                    }
                }
                assert(more[i as int].0 == source);
            }
        }
        i = i + 1;
    }
    assert(sources@.take(i as int) =~= sources@);
}

/// Whether one of the sources is at a site.
fn is_source_site(sources: &Vec<(CodeBlockId, Address)>, site: Address) -> (found: bool)
    ensures
        found == has_site(sources@, site),
{
    let mut i: usize = 0;
    while i < sources.len()
        invariant
            i <= sources@.len(),
            forall|j: int| 0 <= j < i ==> (#[trigger] sources@[j]).1 != site,
        decreases sources@.len() - i,
    {
        if sources[i].1 == site {
            return true;
        }
        i = i + 1;
    }
    false
}

/// Leaves out the sites of the sources.
fn without_sites(
    sites: &Vec<Address>,
    a: &Vec<(CodeBlockId, Address)>,
    b: &Vec<(CodeBlockId, Address)>,
) -> (left: Vec<Address>)
    ensures
        forall|site: Address| #[trigger]
            left@.contains(site) <==> sites@.contains(site) && !has_site(a@, site) && !has_site(
                b@,
                site,
            ),
{
    let mut left: Vec<Address> = Vec::new();
    let mut i: usize = 0;
    while i < sites.len()
        invariant
            i <= sites@.len(),
            forall|site: Address| #[trigger]
                left@.contains(site) <==> sites@.take(i as int).contains(site) && !has_site(
                    a@,
                    site,
                ) && !has_site(b@, site),
        decreases sites@.len() - i,
    {
        let site: Address = sites[i];
        let ghost before = left@;
        let inner: bool = is_source_site(a, site) || is_source_site(b, site);
        if !inner {
            left.push(site);
        }
        proof {
            let (done, more) = (sites@.take(i as int), sites@.take(i + 1));
            assert(more =~= done.push(site));
            assert forall|other: Address| #[trigger]
                left@.contains(other) <==> more.contains(other) && !has_site(a@, other)
                    && !has_site(b@, other) by {
                lemma_push_contains(done, site, other);
                if !inner {
                    lemma_push_contains(before, site, other);
                }
                assert(before.contains(other) <==> done.contains(other) && !has_site(a@, other)
                    && !has_site(b@, other));
            }
        }
        i = i + 1;
    }
    assert(sites@.take(i as int) =~= sites@);
    left
}

/// The flows out of the first listed blocks that are in the table, as the function sees them.
pub open spec fn body_flows(function: FunctionView, table: Blocks, count: int) -> Seq<FlowTarget>
    decreases count,
{
    if count <= 0 {
        Seq::empty()
    } else {
        let before = body_flows(function, table, count - 1);
        let id = function.blocks[count - 1].1;
        if table.contains_key(id) {
            before + all_classified(function.tail_call_sites, table[id].flows())
        } else {
            before
        }
    }
}

impl Function {
    /// The flows out of the blocks of the function that are in the table.
    pub fn flow_targets(&self, table: &CodeBlockTable) -> (flows: Vec<FlowTarget>)
        requires
            self@.wf(),
            table.wf(),
        ensures
            flows@ == body_flows(self@, table@, self@.blocks.len() as int),
    {
        let mut flows: Vec<FlowTarget> = Vec::new();
        let mut i: usize = 0;
        while i < self.blocks.len()
            invariant
                i <= self.blocks@.len(),
                self@.wf(),
                table.wf(),
                flows@ == body_flows(self@, table@, i as int),
            decreases self.blocks@.len() - i,
        {
            match table.get_by_id(self.blocks[i].1) {
                Some(block) => {
                    let own: Vec<FlowTarget> = block.flow_targets();
                    let ghost before = flows@;
                    let ghost sites = self@.tail_call_sites;
                    let mut k: usize = 0;
                    assert(before + all_classified(sites, own@.take(0)) =~= before);
                    while k < own.len()
                        invariant
                            k <= own@.len(),
                            self@.wf(),
                            sites == self@.tail_call_sites,
                            flows@ == before + all_classified(sites, own@.take(k as int)),
                        decreases own@.len() - k,
                    {
                        flows.push(self.classify_flow_target(own[k]));
                        k = k + 1;
                        assert(flows@ =~= before + all_classified(sites, own@.take(k as int)));
                    }
                    assert(own@.take(k as int) =~= own@);
                },
                None => {},
            }
            i = i + 1;
        }
        flows
    }

    /// The references that the flows out of the function make.
    pub fn flow_references(&self, table: &CodeBlockTable) -> (references: Vec<Reference>)
        requires
            self@.wf(),
            table.wf(),
        ensures
            coalesces(references@, body_flows(self@, table@, self@.blocks.len() as int)),
    {
        coalesce_flows(&self.flow_targets(table))
    }
}

/// Merging the two parts of a split brings back the listed blocks.
pub proof fn law_merge_restores_blocks(
    function: FunctionView,
    table: Blocks,
    new_entry: CodeBlockId,
    parent: FunctionView,
    child: FunctionView,
    merged: FunctionView,
)
    requires
        function.wf(),
        ascending(function.blocks),
        is_split(function, table, new_entry, parent, child),
        is_merge(parent, child, table, merged),
    ensures
        merged.blocks == function.blocks,
        merged.entry_block == function.entry_block,
        merged.entry == function.entry,
{
    let (own, new) = (parent_part(function, new_entry), child_part(function, new_entry));
    lemma_filter_by_address(function.blocks, in_part(own));
    lemma_filter_by_address(function.blocks, in_part(new));
    assert forall|b: (Address, CodeBlockId)| #[trigger]
        merged.blocks.contains(b) <==> function.blocks.contains(b) by {
        lemma_add_contains(parent.blocks, child.blocks, b);
        assert(merged.blocks.contains(b) <==> (parent.blocks + child.blocks).contains(b));
        if function.blocks.contains(b) {
            let i = function.blocks.index_of(b);
            assert(function.blocks[i].1 == b.1);
            assert(lists_block(function.blocks, b.1));
        }
        assert(parent.blocks.contains(b) <==> function.blocks.contains(b) && in_part(own)(b));
        assert(child.blocks.contains(b) <==> function.blocks.contains(b) && in_part(new)(b));
    }
    crate::order::lemma_ascending_determined(merged.blocks, function.blocks);
}

/// Where a function is cut, it makes tail calls: each edge of a part to the other's entry is
/// a tail call of that part.
pub proof fn law_split_cuts_become_tail_calls(
    function: FunctionView,
    table: Blocks,
    new_entry: CodeBlockId,
    parent: FunctionView,
    child: FunctionView,
    source: CodeBlockId,
    site: Address,
)
    requires
        is_split(function, table, new_entry, parent, child),
    ensures
        parent_part(function, new_entry).contains(source) && function.edges.contains(
            (source, new_entry),
        ) && branches(table[source], site, table[new_entry].start)
            ==> parent.tail_call_sites.contains(site),
        child_part(function, new_entry).contains(source) && function.edges.contains(
            (source, function.entry_block),
        ) && branches(table[source], site, function.entry) ==> child.tail_call_sites.contains(site),
{
}

} // verus!
