//! Questions about tables as they will be once staged changes are published.
use vstd::prelude::*;

use crate::address::{Address, AddressRange};
use crate::block::{CodeBlock, CodeBlockId, CodeBlockView};
use crate::block_holders::held;
use crate::block_table::{block_meets, finds, CodeBlockTable};
use crate::body::lemma_push_contains;
use crate::coalesce::all_classified;
use crate::flow::FlowTarget;
use crate::function::{lists_block, Function, FunctionId};
use crate::function_table::{holds_some, FunctionTable};
use crate::order::{ascending, SortedSet};
use crate::reference::{flow_properties, flow_reference, Reference, ReferenceTarget};
use crate::staging::{
    lemma_listed_known, lemma_next_ids, tables, FunctionTableStaging, StagedFunctionRecord,
    StagingView, TablesView,
};

verus! {

/// Whether one of the members that are among the blocks shares an address with a range.
pub open spec fn members_meet(
    blocks: Map<CodeBlockId, CodeBlockView>,
    members: Seq<(Address, CodeBlockId)>,
    range: AddressRange,
) -> bool {
    exists|i: int|
        0 <= i < members.len() && blocks.contains_key((#[trigger] members[i]).1)
            && blocks[members[i].1].range().meets(range)
}

/// Whether a function that will be there has a block that shares an address with a range.
pub open spec fn function_meets(
    v: StagingView,
    t: TablesView,
    id: FunctionId,
    range: AddressRange,
) -> bool {
    v.functions_now(t).contains_key(id) && members_meet(
        v.blocks_now(t),
        v.functions_now(t)[id].blocks,
        range,
    )
}

/// Whether a function that will be there is the only one with a block that shares an address
/// with a range.
pub open spec fn only_one_meets(
    v: StagingView,
    t: TablesView,
    range: AddressRange,
    id: FunctionId,
) -> bool {
    &&& function_meets(v, t, id, range)
    &&& forall|other: FunctionId| #[trigger] function_meets(v, t, other, range) ==> other == id
}

/// Whether there is no such function.
pub open spec fn none_alone_meets(v: StagingView, t: TablesView, range: AddressRange) -> bool {
    forall|id: FunctionId| #[trigger]
        function_meets(v, t, id, range) ==> !only_one_meets(v, t, range, id)
}

/// The range of one address.
pub open spec fn point_range(address: Address) -> AddressRange {
    AddressRange { space: address.space, start: address.address, end: address.address }
}

/// What the table lists for a function that is not staged is what will be.
proof fn lemma_unstaged_meets(
    staging: &FunctionTableStaging,
    functions: &FunctionTable,
    blocks: &CodeBlockTable,
    id: FunctionId,
    range: AddressRange,
)
    requires
        staging.wf(functions, blocks),
        !staging@.functions.contains_key(id),
    ensures
        holds_some(functions.holders(), blocks@, range, id) <==> function_meets(
            staging@,
            tables(functions, blocks),
            id,
            range,
        ),
{
    let t = tables(functions, blocks);
    let v = staging@;
    blocks.lemma_wf();
    assert forall|b: CodeBlockId| blocks@.contains_key(b) && v.blocks.contains_key(
        b,
    ) implies #[trigger] v.blocks[b].block is None by {
        if v.blocks[b].block is Some {
            lemma_next_ids(v.block_ids, t.block_ids);
            let i = v.block_ids.index_of(b);
            assert(v.block_ids[i] == b);
        }
    }
    if holds_some(functions.holders(), blocks@, range, id) {
        let b = choose|b: CodeBlockId| #[trigger]
            blocks@.contains_key(b) && blocks@[b].range().meets(range) && held(
                functions.holders(),
                b,
            ).contains(id);
        assert(functions@.contains_key(id) && lists_block(functions@[id].blocks, b));
        assert(v.functions_now(t).contains_key(id));
        lemma_listed_known(v, t, id, b);
        let i = choose|i: int|
            0 <= i < functions@[id].blocks.len() && (#[trigger] functions@[id].blocks[i]).1 == b;
        assert(v.functions_now(t)[id].blocks[i].1 == b);
    }
    if function_meets(v, t, id, range) {
        let members = v.functions_now(t)[id].blocks;
        let i = choose|i: int|
            0 <= i < members.len() && v.blocks_now(t).contains_key((#[trigger] members[i]).1)
                && v.blocks_now(t)[members[i].1].range().meets(range);
        let b = members[i].1;
        assert(lists_block(members, b));
        assert(held(functions.holders(), b).contains(id));
        if v.blocks.contains_key(b) {
            lemma_next_ids(v.block_ids, t.block_ids);
            let k = v.block_ids.index_of(b);
            assert(v.block_ids[k] == b);
            assert(t.block_ids.pending(k) == b);
            assert(functions.holders().contains_key(b));
        }
        assert(blocks@.contains_key(b));
    }
}

impl FunctionTableStaging {
    /// Whether a function has a block that will be there and shares an address with a range.
    fn function_intersects(
        &self,
        functions: &FunctionTable,
        blocks: &CodeBlockTable,
        function: &Function,
        range: &AddressRange,
    ) -> (meets: bool)
        requires
            self.wf(functions, blocks),
        ensures
            meets == members_meet(
                self@.blocks_now(tables(functions, blocks)),
                function.blocks@,
                *range,
            ),
    {
        let ghost now = self@.blocks_now(tables(functions, blocks));
        let mut i: usize = 0;
        while i < function.blocks.len()
            invariant
                i <= function.blocks@.len(),
                self.wf(functions, blocks),
                now == self@.blocks_now(tables(functions, blocks)),
                forall|k: int|
                    0 <= k < i ==> !(now.contains_key((#[trigger] function.blocks@[k]).1)
                        && now[function.blocks@[k].1].range().meets(*range)),
            decreases function.blocks@.len() - i,
        {
            match self.block_now(blocks, function.blocks[i].1) {
                Some(block) => {
                    proof {
                        blocks.lemma_wf();
                    }
                    if block.address_range().intersects(range) {
                        assert(now.contains_key(function.blocks@[i as int].1));
                        return true;
                    }
                },
                None => {},
            }
            i = i + 1;
        }
        false
    }

    /// The functions that will have a block that shares an address with a range, in ascending
    /// order.
    pub fn functions_overlapping(
        &self,
        functions: &FunctionTable,
        blocks: &CodeBlockTable,
        range: &AddressRange,
    ) -> (found: Vec<FunctionId>)
        requires
            self.wf(functions, blocks),
            range.start.0 <= range.end.0,
        ensures
            ascending(found@),
            forall|id: FunctionId| #[trigger]
                found@.contains(id) <==> function_meets(
                    self@,
                    tables(functions, blocks),
                    id,
                    *range,
                ),
    {
        let ghost t = tables(functions, blocks);
        let ghost v = self@;
        let mut found: SortedSet<FunctionId> = SortedSet {
            items: functions.overlaps(blocks, range),
        };
        let listed: Vec<(FunctionId, &StagedFunctionRecord)> = self.staged();
        let mut i: usize = 0;
        while i < listed.len()
            invariant
                i <= listed@.len(),
                t == tables(functions, blocks),
                v == self@,
                self.wf(functions, blocks),
                found.wf(),
                forall|k: int|
                    0 <= k < listed@.len() ==> v.functions.contains_key((#[trigger] listed@[k]).0)
                        && v.functions[listed@[k].0] == listed@[k].1@,
                forall|a: int, b: int|
                    0 <= a < b < listed@.len() ==> (#[trigger] listed@[a]).0 != (#[trigger]
                    listed@[b]).0,
                forall|k: int|
                    0 <= k < i ==> (found@.contains((#[trigger] listed@[k]).0) <==> function_meets(
                        v,
                        t,
                        listed@[k].0,
                        *range,
                    )),
                forall|id: FunctionId|
                    !v.functions.contains_key(id) ==> (#[trigger] found@.contains(id) <==> holds_some(
                        functions.holders(),
                        blocks@,
                        *range,
                        id,
                    )),
            decreases listed@.len() - i,
        {
            let (id, record): (FunctionId, &StagedFunctionRecord) = listed[i];
            assert(v.functions.contains_key(listed@[i as int].0));
            let meets: bool = match &record.function {
                Some(function) => self.function_intersects(functions, blocks, function, range),
                None => false,
            };
            if meets {
                found.insert(id);
            } else {
                found.remove(&id);
            }
            i = i + 1;
        }
        proof {
            assert forall|id: FunctionId| #[trigger]
                found.items@.contains(id) <==> function_meets(v, t, id, *range) by {
                assert(found@.contains(id) <==> found.items@.contains(id));
                if v.functions.contains_key(id) {
                    let k = choose|k: int| 0 <= k < listed@.len() && (#[trigger] listed@[k]).0 == id;
                    assert(found@.contains(listed@[k].0) <==> function_meets(v, t, id, *range));
                } else {
                    lemma_unstaged_meets(self, functions, blocks, id, *range);
                }
            }
        }
        found.items
    }

    /// The functions that will have a block that an address lies in, in ascending order.
    pub fn functions_containing(
        &self,
        functions: &FunctionTable,
        blocks: &CodeBlockTable,
        address: Address,
    ) -> (found: Vec<FunctionId>)
        requires
            self.wf(functions, blocks),
        ensures
            ascending(found@),
            forall|id: FunctionId| #[trigger]
                found@.contains(id) <==> function_meets(
                    self@,
                    tables(functions, blocks),
                    id,
                    point_range(address),
                ),
    {
        self.functions_overlapping(functions, blocks, &AddressRange::point(address))
    }

    /// The function that an address belongs to: the one whose entry it is, or the only one that
    /// will have a block that it lies in.
    pub fn unique_function_containing_address(
        &self,
        functions: &FunctionTable,
        blocks: &CodeBlockTable,
        address: Address,
    ) -> (found: Option<FunctionId>)
        requires
            self.wf(functions, blocks),
        ensures
            ({
                let t = tables(functions, blocks);
                let index = self@.index_now(t);
                match found {
                    Some(id) => if index.contains_key(address) {
                        id == index[address]
                    } else {
                        only_one_meets(self@, t, point_range(address), id)
                    },
                    None => !index.contains_key(address) && none_alone_meets(
                        self@,
                        t,
                        point_range(address),
                    ),
                }
            }),
    {
        let ghost t = tables(functions, blocks);
        let ghost point = point_range(address);
        match self.function_by_address(functions, blocks, address) {
            Some(function) => {
                return Some(function.id());
            },
            None => {},
        }
        let containing: Vec<FunctionId> = self.functions_containing(functions, blocks, address);
        if containing.len() == 1 {
            let id: FunctionId = containing[0];
            proof {
                assert(containing@.contains(id));
                assert forall|other: FunctionId| #[trigger]
                    function_meets(self@, t, other, point) implies other == id by {
                    assert(containing@.contains(other));
                }
            }
            Some(id)
        } else {
            proof {
                assert forall|id: FunctionId| #[trigger] function_meets(self@, t, id, point) implies !(
                forall|other: FunctionId| #[trigger] function_meets(self@, t, other, point) ==> other
                    == id) by {
                    assert(containing@.contains(id));
                    let k = containing@.index_of(id);
                    let m = if k == 0 {
                        1
                    } else {
                        0
                    };
                    let other = containing@[m];
                    assert(containing@.contains(other));
                    assert(function_meets(self@, t, other, point));
                    assert(other != id);
                }
            }
            None
        }
    }
}

/// Whether a flow out of a function backs a reference: it leads where the reference does, from
/// an address in a block of the table that the function will be listed for.
pub open spec fn backs(
    v: StagingView,
    t: TablesView,
    reference: Reference,
    block: CodeBlockId,
    function: FunctionId,
    flow: FlowTarget,
) -> bool {
    &&& t.blocks.contains_key(block)
    &&& t.blocks[block].range().holds(reference.from)
    &&& held(v.holders_now(t), block).contains(function)
    &&& v.functions_now(t).contains_key(function)
    &&& all_classified(
        v.functions_now(t)[function].tail_call_sites,
        t.blocks[block].flows(),
    ).contains(flow)
    &&& flow.kind.leaves()
    &&& flow.from == reference.from
    &&& reference.target == ReferenceTarget::Address(flow.to)
}

/// Whether a flow out of some function backs a reference.
pub open spec fn is_backed_by(v: StagingView, t: TablesView, reference: Reference, flow: FlowTarget) -> bool {
    exists|block: CodeBlockId, function: FunctionId| #[trigger]
        backs(v, t, reference, block, function, flow)
}

/// Whether flags are those of the listed flows taken together.
pub open spec fn joins_flags(bits: u16, flows: Seq<FlowTarget>) -> bool {
    forall|mask: u16|
        (#[trigger] (bits & mask) != 0) <==> exists|i: int|
            0 <= i < flows.len() && flow_properties((#[trigger] flows[i]).kind) & mask != 0
}

proof fn lemma_or_flags(a: u16, b: u16, mask: u16)
    ensures
        (a | b) & mask != 0 <==> (a & mask != 0 || b & mask != 0),
{
    assert((a | b) & mask != 0 <==> (a & mask != 0 || b & mask != 0)) by (bit_vector);
}

/// The reference that flows with the same ends make together.
fn join_flows(flows: &Vec<FlowTarget>) -> (reference: Option<Reference>)
    requires
        forall|i: int|
            0 <= i < flows@.len() ==> (#[trigger] flows@[i]).from == flows@[0].from && flows@[i].to
                == flows@[0].to,
    ensures
        reference is Some == (flows@.len() > 0),
        reference matches Some(r) ==> r == (Reference {
            properties: r.properties,
            ..flow_reference(flows@[0])
        }) && joins_flags(r.properties.bits, flows@),
{
    let mut joined: Option<Reference> = None;
    let mut i: usize = 0;
    while i < flows.len()
        invariant
            i <= flows@.len(),
            forall|k: int|
                0 <= k < flows@.len() ==> (#[trigger] flows@[k]).from == flows@[0].from
                    && flows@[k].to == flows@[0].to,
            joined is Some == (i > 0),
            joined matches Some(r) ==> r == (Reference {
                properties: r.properties,
                ..flow_reference(flows@[0])
            }) && joins_flags(r.properties.bits, flows@.take(i as int)),
        decreases flows@.len() - i,
    {
        let candidate: Reference = Reference::of_flow(flows[i]);
        let ghost before = joined;
        joined =
        Some(
            match joined {
                Some(reference) => reference.with_merged_properties(candidate.properties),
                None => candidate,
            },
        );
        proof {
            let (less, more) = (flows@.take(i as int), flows@.take(i + 1));
            let bits = joined->0.properties.bits;
            let added = flow_properties(flows@[i as int].kind);
            assert forall|mask: u16|
                (#[trigger] (bits & mask) != 0) <==> exists|k: int|
                    0 <= k < more.len() && flow_properties((#[trigger] more[k]).kind) & mask != 0 by {
                if before is Some {
                    lemma_or_flags(before->0.properties.bits, added, mask);
                    assert((before->0.properties.bits & mask != 0) <==> exists|k: int|
                        0 <= k < less.len() && flow_properties((#[trigger] less[k]).kind) & mask
                            != 0);
                }
                if exists|k: int|
                    0 <= k < less.len() && flow_properties((#[trigger] less[k]).kind) & mask != 0 {
                    let k = choose|k: int|
                        0 <= k < less.len() && flow_properties((#[trigger] less[k]).kind) & mask
                            != 0;
                    assert(more[k] == less[k]);
                }
                if exists|k: int|
                    0 <= k < more.len() && flow_properties((#[trigger] more[k]).kind) & mask != 0 {
                    let k = choose|k: int|
                        0 <= k < more.len() && flow_properties((#[trigger] more[k]).kind) & mask
                            != 0;
                    if k < i {
                        assert(less[k] == more[k]);
                    }
                }
                assert(more[i as int] == flows@[i as int]);
            }
        }
        i = i + 1;
    }
    assert(flows@.take(i as int) =~= flows@);
    joined
}

impl FunctionTableStaging {
    /// Adds the flows of one block, as one function sees them, that back a reference.
    fn backing_flows_of(
        &self,
        function: &Function,
        block: &CodeBlock,
        reference: &Reference,
        flows: &mut Vec<FlowTarget>,
    )
        requires
            function@.wf(),
        ensures
            forall|flow: FlowTarget| #[trigger]
                final(flows)@.contains(flow) <==> old(flows)@.contains(flow) || (
                all_classified(
                    function@.tail_call_sites,
                    block@.flows(),
                ).contains(flow) && flow.kind.leaves() && flow.from == reference.from
                    && reference.target == ReferenceTarget::Address(flow.to)),
    {
        let ghost before = flows@;
        let own: Vec<FlowTarget> = block.flow_targets();
        let ghost sites = function@.tail_call_sites;
        let mut k: usize = 0;
        while k < own.len()
            invariant
                k <= own@.len(),
                function@.wf(),
                sites == function@.tail_call_sites,
                forall|flow: FlowTarget| #[trigger]
                    flows@.contains(flow) <==> before.contains(flow) || (
                    all_classified(sites, own@.take(k as int)).contains(flow)
                        && flow.kind.leaves() && flow.from == reference.from && reference.target
                        == ReferenceTarget::Address(flow.to)),
            decreases own@.len() - k,
        {
            let ghost earlier = flows@;
            let flow: FlowTarget = function.classify_flow_target(own[k]);
            let backs: bool = flow.kind().is_global() && flow.from() == reference.from
                && match reference.target {
                ReferenceTarget::Address(to) => flow.to() == to,
            };
            if backs {
                flows.push(flow);
            }
            proof {
                let less = all_classified(sites, own@.take(k as int));
                let more = all_classified(sites, own@.take(k + 1));
                assert(more =~= less.push(flow));
                assert forall|f: FlowTarget| #[trigger]
                    flows@.contains(f) <==> before.contains(f) || (more.contains(f)
                        && f.kind.leaves() && f.from == reference.from && reference.target
                        == ReferenceTarget::Address(f.to)) by {
                    lemma_push_contains(less, flow, f);
                    lemma_push_contains(earlier, flow, f);
                }
            }
            k = k + 1;
        }
        assert(own@.take(k as int) =~= own@);
    }

    /// The reference that the flows of functions back, if any does.
    pub fn supported_backing_flow_reference(
        &self,
        functions: &FunctionTable,
        blocks: &CodeBlockTable,
        reference: &Reference,
    ) -> (supported: Option<Reference>)
        requires
            self.wf(functions, blocks),
        ensures
            ({
                let t = tables(functions, blocks);
                match supported {
                    Some(r) => {
                        &&& exists|flow: FlowTarget| #[trigger]
                            is_backed_by(self@, t, *reference, flow) && r == (Reference {
                                properties: r.properties,
                                ..flow_reference(flow)
                            })
                        &&& forall|mask: u16|
                            (#[trigger] (r.properties.bits & mask) != 0)
                                <==> exists|flow: FlowTarget| #[trigger]
                                is_backed_by(self@, t, *reference, flow) && flow_properties(
                                    flow.kind,
                                ) & mask != 0
                    },
                    None => forall|flow: FlowTarget|
                        !(#[trigger] is_backed_by(self@, t, *reference, flow)),
                }
            }),
    {
        let ghost t = tables(functions, blocks);
        let ghost v = self@;
        let found: Vec<&CodeBlock> = blocks.overlaps_address(reference.from);
        let mut flows: Vec<FlowTarget> = Vec::new();
        let mut i: usize = 0;
        while i < found.len()
            invariant
                i <= found@.len(),
                t == tables(functions, blocks),
                v == self@,
                self.wf(functions, blocks),
                finds(found@, blocks@, block_meets(point_range(reference.from))),
                forall|flow: FlowTarget| #[trigger]
                    flows@.contains(flow) <==> backed_within(v, t, *reference, found@, i as int, flow),
            decreases found@.len() - i,
        {
            let ghost before = flows@;
            let block: &CodeBlock = found[i];
            assert(blocks@.contains_key(found@[i as int].id));
            assert(block_meets(point_range(reference.from))(found@[i as int]@));
            let ids: Vec<FunctionId> = self.holders_of(functions, block.id()).iter();
            let mut k: usize = 0;
            while k < ids.len()
                invariant
                    k <= ids@.len(),
                    t == tables(functions, blocks),
                    v == self@,
                    self.wf(functions, blocks),
                    blocks@.contains_key(block.id),
                    block@ == blocks@[block.id],
                    block@.range().holds(reference.from),
                    forall|id: FunctionId| #[trigger]
                        ids@.contains(id) <==> held(v.holders_now(t), block.id).contains(id),
                    forall|flow: FlowTarget| #[trigger]
                        flows@.contains(flow) <==> before.contains(flow) || backed_by_one(
                            v,
                            t,
                            *reference,
                            block.id,
                            ids@.take(k as int),
                            flow,
                        ),
                decreases ids@.len() - k,
            {
                let ghost earlier = flows@;
                let id: FunctionId = ids[k];
                assert(ids@.contains(id));
                match self.function_by_id(functions, id) {
                    Some(function) => {
                        proof {
                            functions.lemma_sound();
                            assert(v.functions_now(t).contains_key(id));
                            assert(function@ == v.functions_now(t)[id]);
                            assert(function@.wf());
                        }
                        self.backing_flows_of(&function, block, reference, &mut flows);
                    },
                    None => {
                        assert(!v.functions_now(t).contains_key(id));
                    },
                }
                proof {
                    let (less, more) = (ids@.take(k as int), ids@.take(k + 1));
                    assert(more =~= less.push(id));
                    assert forall|flow: FlowTarget| #[trigger]
                        flows@.contains(flow) <==> before.contains(flow) || backed_by_one(
                            v,
                            t,
                            *reference,
                            block.id,
                            more,
                            flow,
                        ) by {
                        assert(earlier.contains(flow) <==> before.contains(flow) || backed_by_one(
                            v,
                            t,
                            *reference,
                            block.id,
                            less,
                            flow,
                        ));
                        if backed_by_one(v, t, *reference, block.id, less, flow) {
                            let n = choose|n: int|
                                0 <= n < less.len() && backs(
                                    v,
                                    t,
                                    *reference,
                                    block.id,
                                    #[trigger] less[n],
                                    flow,
                                );
                            assert(more[n] == less[n]);
                        }
                        if backed_by_one(v, t, *reference, block.id, more, flow) {
                            let n = choose|n: int|
                                0 <= n < more.len() && backs(
                                    v,
                                    t,
                                    *reference,
                                    block.id,
                                    #[trigger] more[n],
                                    flow,
                                );
                            if n < k {
                                assert(less[n] == more[n]);
                            }
                        }
                        assert(more[k as int] == id);
                        assert(backs(v, t, *reference, block.id, id, flow) <==> (
                        v.functions_now(t).contains_key(id) && all_classified(
                            v.functions_now(t)[id].tail_call_sites,
                            block@.flows(),
                        ).contains(flow) && flow.kind.leaves() && flow.from == reference.from
                            && reference.target == ReferenceTarget::Address(flow.to)));
                    }
                }
                k = k + 1;
            }
            proof {
                assert(ids@.take(k as int) =~= ids@);
                assert forall|flow: FlowTarget| #[trigger]
                    flows@.contains(flow) <==> backed_within(
                        v,
                        t,
                        *reference,
                        found@,
                        i + 1,
                        flow,
                    ) by {
                    assert(before.contains(flow) <==> backed_within(
                        v,
                        t,
                        *reference,
                        found@,
                        i as int,
                        flow,
                    ));
                    if backed_by_one(v, t, *reference, block.id, ids@, flow) {
                        let n = choose|n: int|
                            0 <= n < ids@.len() && backs(
                                v,
                                t,
                                *reference,
                                block.id,
                                #[trigger] ids@[n],
                                flow,
                            );
                        assert(backs(v, t, *reference, found@[i as int].id, ids@[n], flow));
                    }
                    if backed_within(v, t, *reference, found@, i + 1, flow) {
                        let (m, f) = choose|m: int, f: FunctionId|
                            0 <= m < i + 1 && #[trigger] backs(
                                v,
                                t,
                                *reference,
                                found@[m].id,
                                f,
                                flow,
                            );
                        if m == i {
                            assert(held(v.holders_now(t), block.id).contains(f));
                            assert(ids@.contains(f));
                            let n = ids@.index_of(f);
                            assert(ids@[n] == f);
                            assert(backs(v, t, *reference, block.id, ids@[n], flow));
                        }
                    }
                }
            }
            i = i + 1;
        }
        proof {
            assert forall|flow: FlowTarget| #[trigger]
                flows@.contains(flow) <==> is_backed_by(v, t, *reference, flow) by {
                assert(flows@.contains(flow) <==> backed_within(
                    v,
                    t,
                    *reference,
                    found@,
                    found@.len() as int,
                    flow,
                ));
                if is_backed_by(v, t, *reference, flow) {
                    let (b, f) = choose|b: CodeBlockId, f: FunctionId| #[trigger]
                        backs(v, t, *reference, b, f, flow);
                    assert(block_meets(point_range(reference.from))(blocks@[b]));
                    let m = choose|m: int| 0 <= m < found@.len() && (#[trigger] found@[m]).id == b;
                    assert(backs(v, t, *reference, found@[m].id, f, flow));
                }
            }
            assert forall|k: int| 0 <= k < flows@.len() implies (#[trigger] flows@[k]).from
                == flows@[0].from && flows@[k].to == flows@[0].to by {
                assert(flows@.contains(flows@[k]));
                assert(flows@.contains(flows@[0]));
                assert(is_backed_by(v, t, *reference, flows@[k]));
                assert(is_backed_by(v, t, *reference, flows@[0]));
            }
        }
        let supported: Option<Reference> = join_flows(&flows);
        proof {
            match supported {
                Some(r) => {
                    assert(flows@.contains(flows@[0]));
                    assert(is_backed_by(v, t, *reference, flows@[0]));
                    assert forall|mask: u16|
                        (#[trigger] (r.properties.bits & mask) != 0) <==> exists|flow: FlowTarget|
                            #[trigger] is_backed_by(v, t, *reference, flow) && flow_properties(
                                flow.kind,
                            ) & mask != 0 by {
                        if r.properties.bits & mask != 0 {
                            let k = choose|k: int|
                                0 <= k < flows@.len() && flow_properties(
                                    (#[trigger] flows@[k]).kind,
                                ) & mask != 0;
                            assert(flows@.contains(flows@[k]));
                            assert(is_backed_by(v, t, *reference, flows@[k]));
                        }
                        if exists|flow: FlowTarget| #[trigger]
                            is_backed_by(v, t, *reference, flow) && flow_properties(flow.kind)
                                & mask != 0 {
                            let flow = choose|flow: FlowTarget| #[trigger]
                                is_backed_by(v, t, *reference, flow) && flow_properties(flow.kind)
                                    & mask != 0;
                            assert(flows@.contains(flow));
                            let k = flows@.index_of(flow);
                            assert(flows@[k] == flow);
                        }
                    }
                },
                None => {
                    assert forall|flow: FlowTarget|
                        !(#[trigger] is_backed_by(v, t, *reference, flow)) by {
                        assert(!flows@.contains(flow));
                    }
                },
            }
        }
        supported
    }
}

/// Whether a flow of one of the functions backs a reference from a block.
spec fn backed_by_one(
    v: StagingView,
    t: TablesView,
    reference: Reference,
    block: CodeBlockId,
    ids: Seq<FunctionId>,
    flow: FlowTarget,
) -> bool {
    exists|n: int|
        0 <= n < ids.len() && backs(v, t, reference, block, #[trigger] ids[n], flow)
}

/// Whether a flow backs a reference from one of the first blocks found.
spec fn backed_within(
    v: StagingView,
    t: TablesView,
    reference: Reference,
    found: Seq<&CodeBlock>,
    count: int,
    flow: FlowTarget,
) -> bool {
    exists|m: int, f: FunctionId|
        0 <= m < count && #[trigger] backs(v, t, reference, found[m].id, f, flow)
}

} // verus!
