//! Blocks of code.
use core::ops::RangeInclusive;

use vstd::prelude::*;

use crate::address::{offsets, Address, AddressRange, RawAddress};
use crate::address_set::AddressRangeSet;
use crate::flags::{CodeBlockProperties, InsnProperties};
use crate::flow::{FlowKind, FlowTarget};
use crate::id::{Id, IdSet};
use crate::insn::{
    address_after, find_call, first_call, flows_of, resolved_targets, Insn, InsnId, InsnTarget,
    InsnView,
};
use crate::types::{copy_values, AddressSpaceId, ContextSet};

verus! {

/// The kind of entry that a block's identity names.
#[derive(Debug, Clone, Copy)]
pub struct CodeBlockEntity;

pub type CodeBlockId = Id<CodeBlockEntity>;

/// The kind of entry that the identity of a block under construction names.
#[derive(Debug, Clone, Copy)]
pub struct IncompleteCodeBlockEntity;

pub type IncompleteCodeBlockId = Id<IncompleteCodeBlockEntity>;

/// Whether the `size` addresses from `start` on are at least one and do not run over the end
/// of their space.
pub open spec fn spans(start: Address, size: int) -> bool {
    0 < size && start.address.0 + size <= offsets()
}

/// The `size` addresses from `start` on.
pub open spec fn span_range(start: Address, size: int) -> AddressRange {
    AddressRange {
        space: start.space,
        start: start.address,
        end: RawAddress((start.address.0 + size - 1) as u64),
    }
}

/// Whether an address is one of the `size` addresses from `start` on.
pub open spec fn lies_in(address: Address, start: Address, size: int) -> bool {
    address.space == start.space && start.address.0 <= address.address.0 < start.address.0 + size
}

/// A flow out of a block, placed relative to the beginning of the block.
#[derive(Debug, Clone, Copy, PartialEq, Eq, Structural)]
pub struct CodeBlockFlowTarget {
    pub target: Address,
    pub source_offset: u16,
    pub kind: FlowKind,
}

impl CodeBlockFlowTarget {
    /// The flow, in a block that begins at `block`.
    pub open spec fn flow(self, block: Address) -> FlowTarget {
        FlowTarget {
            from: address_after(block, self.source_offset as int),
            to: self.target,
            kind: self.kind,
        }
    }

    pub fn from_flow(block: Address, size: usize, flow: FlowTarget) -> (r: Self)
        requires
            lies_in(flow.from, block, size as int),
            flow.from.address.0 - block.address.0 <= u16::MAX,
        ensures
            r == placed(block, flow),
            r.source_offset < size,
            r.flow(block) == flow,
    {
        let offset: u64 = flow.from().offset() - block.offset();
        let source_offset: u16 = offset as u16;
        proof {
            assert(source_offset == offset);
            assert(block.address.0.wrapping_add(source_offset as u64) == flow.from.address.0);
        }
        CodeBlockFlowTarget { target: flow.to(), source_offset, kind: flow.kind() }
    }

    pub fn to_flow(&self, block: Address) -> (flow: FlowTarget)
        ensures
            flow == self.flow(block),
    {
        FlowTarget { from: block + self.source_offset as usize, to: self.target, kind: self.kind }
    }
}

/// A flow placed relative to a block.
pub open spec fn placed(block: Address, flow: FlowTarget) -> CodeBlockFlowTarget {
    CodeBlockFlowTarget {
        target: flow.to,
        source_offset: (flow.from.address.0 - block.address.0) as u16,
        kind: flow.kind,
    }
}

/// Placing a flow in the block that it comes out of loses nothing of it.
pub proof fn law_placing_keeps_flow(block: Address, size: int, flow: FlowTarget)
    requires
        lies_in(flow.from, block, size),
        flow.from.address.0 - block.address.0 <= u16::MAX,
    ensures
        placed(block, flow).flow(block) == flow,
        placed(block, flow).source_offset < size,
{
    let offset = (flow.from.address.0 - block.address.0) as u16;
    assert(block.address.0.wrapping_add(offset as u64) == flow.from.address.0);
}

/// The flows that the targets of a block stand for.
pub open spec fn block_flows(start: Address, targets: Seq<CodeBlockFlowTarget>) -> Seq<FlowTarget> {
    targets.map_values(|t: CodeBlockFlowTarget| t.flow(start))
}

/// Writes out the flows that the targets of a block stand for.
pub fn unpack_flows(start: Address, targets: &Vec<CodeBlockFlowTarget>) -> (flows: Vec<FlowTarget>)
    ensures
        flows@ == block_flows(start, targets@),
{
    let mut flows: Vec<FlowTarget> = Vec::new();
    let mut i: usize = 0;
    while i < targets.len()
        invariant
            i <= targets@.len(),
            flows@ == block_flows(start, targets@.take(i as int)),
        decreases targets@.len() - i,
    {
        flows.push(targets[i].to_flow(start));
        i = i + 1;
        assert(flows@ =~= block_flows(start, targets@.take(i as int)));
    }
    assert(targets@.take(i as int) =~= targets@);
    flows
}

/// Those of the flows that matter to a block which ends before `end`: of the falls, only the
/// one out of the block.
pub open spec fn kept(flows: Seq<FlowTarget>, end: Address) -> Seq<FlowTarget>
    decreases flows.len(),
{
    if flows.len() == 0 {
        Seq::empty()
    } else {
        let before = kept(flows.drop_last(), end);
        let flow = flows.last();
        if flow.kind is Fall && flow.to != end {
            before
        } else {
            before.push(flow)
        }
    }
}

/// The flows out of a block that is made of the instructions and ends before `end`.
pub open spec fn leaving_flows(insns: Seq<InsnView>, end: Address) -> Seq<FlowTarget>
    decreases insns.len(),
{
    if insns.len() == 0 {
        Seq::empty()
    } else {
        leaving_flows(insns.drop_last(), end) + kept(insns.last().flows(), end)
    }
}

/// All flows of an instruction come from its address.
pub proof fn lemma_flows_from(
    address: Address,
    falls_through: bool,
    targets: Seq<(u16, InsnTarget)>,
    end: Address,
)
    ensures
        forall|i: int|
            0 <= i < flows_of(address, falls_through, targets).len() ==> (#[trigger] flows_of(
                address,
                falls_through,
                targets,
            )[i]).from == address,
    decreases targets.len(),
{
    if targets.len() > 0 {
        lemma_flows_from(address, falls_through, targets.drop_last(), end);
    }
}

/// What is kept of flows is among them.
pub proof fn lemma_kept(flows: Seq<FlowTarget>, end: Address)
    ensures
        forall|i: int| 0 <= i < kept(flows, end).len() ==> flows.contains(#[trigger] kept(flows, end)[i]),
    decreases flows.len(),
{
    if flows.len() > 0 {
        lemma_kept(flows.drop_last(), end);
        assert forall|i: int| 0 <= i < kept(flows, end).len() implies flows.contains(
            #[trigger] kept(flows, end)[i],
        ) by {
            let before = kept(flows.drop_last(), end);
            if i < before.len() {
                assert(flows.drop_last().contains(before[i]));
                let j = choose|j: int|
                    0 <= j < flows.drop_last().len() && flows.drop_last()[j] == before[i];
                assert(flows[j] == before[i]);
            } else {
                assert(flows[flows.len() - 1] == flows.last());
            }
        }
    }
}

/// The flags of a block that ends in an instruction.
pub open spec fn end_flags(insn: InsnView) -> u32 {
    let bits = insn.properties.bits;
    let call = bits & InsnProperties::CALL != 0;
    let ret = bits & InsnProperties::RETURN != 0;
    let open_end = bits & InsnProperties::BRANCH != 0 && bits
        & InsnProperties::INDIRECT != 0 && !call && !ret && resolved_targets(
        insn.targets,
    ).len() == 0;
    (if call {
        CodeBlockProperties::CALL
    } else {
        0
    }) | (if ret {
        CodeBlockProperties::RETURN
    } else {
        0
    }) | (if open_end {
        CodeBlockProperties::UNRESOLVED
    } else {
        0
    })
}

/// What instructions are, apart from how they are stored.
pub open spec fn insn_views(insns: Seq<&Insn>) -> Seq<InsnView> {
    insns.map_values(|insn: &Insn| insn@)
}

/// Whether the flows that are kept of each of the instructions come from within the block.
pub open spec fn flows_inside(insns: Seq<InsnView>, start: Address, size: int) -> bool {
    forall|i: int|
        0 <= i < insns.len() && kept((#[trigger] insns[i]).flows(), address_after(start, size)).len()
            > 0 ==> lies_in(insns[i].address, start, size)
}

/// What a block record is, apart from how it is stored.
#[verifier::ext_equal]
pub struct CodeBlockRecordView {
    pub address: Address,
    pub context: Seq<(u32, u64)>,
    pub targets: Seq<CodeBlockFlowTarget>,
    pub properties: CodeBlockProperties,
    pub size: u16,
}

/// A block before it has an identity.
#[derive(Debug)]
pub struct CodeBlockRecord {
    pub address: Address,
    pub context: ContextSet,
    pub targets: Vec<CodeBlockFlowTarget>,
    pub properties: CodeBlockProperties,
    pub size: u16,
}

impl View for CodeBlockRecord {
    type V = CodeBlockRecordView;

    open spec fn view(&self) -> CodeBlockRecordView {
        CodeBlockRecordView {
            address: self.address,
            context: self.context@,
            targets: self.targets@,
            properties: self.properties,
            size: self.size,
        }
    }
}

impl Clone for CodeBlockRecord {
    fn clone(&self) -> (copy: Self)
        ensures
            copy@ == self@,
    {
        CodeBlockRecord {
            address: self.address,
            context: self.context.clone(),
            targets: copy_values(&self.targets),
            properties: self.properties,
            size: self.size,
        }
    }
}

/// The record of the block that is made of the instructions.
pub open spec fn recorded(
    address: Address,
    size: u16,
    insns: Seq<InsnView>,
    context: Seq<(u32, u64)>,
) -> CodeBlockRecordView {
    CodeBlockRecordView {
        address,
        context,
        targets: leaving_flows(insns, address_after(address, size as int)).map_values(
            |f: FlowTarget| placed(address, f),
        ),
        properties: CodeBlockProperties {
            bits: if insns.len() == 0 {
                0
            } else {
                end_flags(insns.last())
            },
        },
        size,
    }
}

/// The flows of a recorded block are those of its instructions.
pub proof fn law_record_keeps_flows(
    address: Address,
    size: u16,
    insns: Seq<InsnView>,
    context: Seq<(u32, u64)>,
)
    requires
        flows_inside(insns, address, size as int),
    ensures
        recorded(address, size, insns, context).flows() == leaving_flows(
            insns,
            address_after(address, size as int),
        ),
{
    lemma_leaving_inside(insns, address, size as int);
    let end = address_after(address, size as int);
    let flows = leaving_flows(insns, end);
    let packed = recorded(address, size, insns, context).targets;
    assert forall|i: int| 0 <= i < flows.len() implies #[trigger] packed[i].flow(address)
        == flows[i] by {
        law_placing_keeps_flow(address, size as int, flows[i]);
    }
    assert(recorded(address, size, insns, context).flows() =~= flows);
}

/// The flows out of a block come from within it.
pub proof fn lemma_leaving_inside(insns: Seq<InsnView>, start: Address, size: int)
    requires
        flows_inside(insns, start, size),
    ensures
        forall|i: int|
            0 <= i < leaving_flows(insns, address_after(start, size)).len() ==> lies_in(
                (#[trigger] leaving_flows(insns, address_after(start, size))[i]).from,
                start,
                size,
            ),
    decreases insns.len(),
{
    let end = address_after(start, size);
    if insns.len() > 0 {
        let rest = insns.drop_last();
        assert(flows_inside(rest, start, size)) by {
            assert forall|i: int| 0 <= i < rest.len() && kept((#[trigger] rest[i]).flows(), end).len()
                > 0 implies lies_in(rest[i].address, start, size) by {
                assert(rest[i] == insns[i]);
            }
        }
        lemma_leaving_inside(rest, start, size);
        let last = insns.last();
        assert(last == insns[insns.len() - 1]);
        lemma_flows_from(last.address, last.falls_through(), last.targets, end);
        lemma_kept(last.flows(), end);
        let before = leaving_flows(rest, end);
        let added = kept(last.flows(), end);
        assert forall|i: int| 0 <= i < leaving_flows(insns, end).len() implies lies_in(
            (#[trigger] leaving_flows(insns, end)[i]).from,
            start,
            size,
        ) by {
            if i >= before.len() {
                let flow = added[i - before.len()];
                assert(last.flows().contains(flow));
                let j = choose|j: int| 0 <= j < last.flows().len() && last.flows()[j] == flow;
                assert(last.flows()[j].from == last.address);
            } else {
                assert(leaving_flows(insns, end)[i] == before[i]);
            }
        }
    }
}

impl CodeBlockRecordView {
    /// The flows out of the block.
    pub open spec fn flows(self) -> Seq<FlowTarget> {
        block_flows(self.address, self.targets)
    }

    /// The block under an identity.
    pub open spec fn under(self, id: CodeBlockId) -> CodeBlockView {
        CodeBlockView {
            id,
            start: self.address,
            size: self.size,
            targets: self.targets,
            properties: self.properties,
            context: self.context,
        }
    }
}

impl CodeBlockRecord {
    /// Records the block that is made of the instructions.
    pub fn new(address: Address, size: u16, insns: &Vec<&Insn>, context: ContextSet) -> (record:
        Self)
        requires
            size > 0,
            flows_inside(insn_views(insns@), address, size as int),
        ensures
            record@ == recorded(address, size, insn_views(insns@), context@),
    {
        let ghost views = insn_views(insns@);
        let end: Address = address + size as usize;
        let ghost placing = |f: FlowTarget| placed(address, f);
        assert(end == address_after(address, size as int));
        let mut targets: Vec<CodeBlockFlowTarget> = Vec::new();
        let mut i: usize = 0;
        assert(targets@ =~= leaving_flows(views.take(0), end).map_values(placing));
        while i < insns.len()
            invariant
                i <= insns@.len(),
                size > 0,
                views == insn_views(insns@),
                end == address_after(address, size as int),
                placing == (|f: FlowTarget| placed(address, f)),
                flows_inside(views, address, size as int),
                targets@ == leaving_flows(views.take(i as int), end).map_values(placing),
            decreases insns@.len() - i,
        {
            let insn: &Insn = insns[i];
            let flows: Vec<FlowTarget> = insn.flow_targets();
            let ghost before = targets@;
            let mut k: usize = 0;
            proof {
                assert(views[i as int] == insn@);
                lemma_flows_from(insn.address, insn.falls_through(), insn.targets@, end);
                assert(before + kept(flows@.take(0), end).map_values(placing) =~= before);
            }
            while k < flows.len()
                invariant
                    k <= flows@.len(),
                    size > 0,
                    end == address_after(address, size as int),
                    placing == (|f: FlowTarget| placed(address, f)),
                    kept(flows@, end).len() > 0 ==> lies_in(insn.address, address, size as int),
                    forall|m: int| 0 <= m < flows@.len() ==> (#[trigger] flows@[m]).from == insn.address,
                    targets@ == before + kept(flows@.take(k as int), end).map_values(placing),
                decreases flows@.len() - k,
            {
                let flow: FlowTarget = flows[k];
                let ghost done = kept(flows@.take(k as int), end);
                proof {
                    assert(flows@.take(k + 1).drop_last() =~= flows@.take(k as int));
                    assert(flows@.take(k + 1).last() == flow);
                }
                if !flow.kind().is_fall_through() || flow.to() == end {
                    proof {
                        lemma_kept_some(flows@, end, k as int);
                    }
                    targets.push(CodeBlockFlowTarget::from_flow(address, size as usize, flow));
                    assert(done.push(flow).map_values(placing) =~= done.map_values(placing).push(
                        placed(address, flow),
                    ));
                    assert(targets@ =~= before + kept(flows@.take(k + 1), end).map_values(placing));
                }
                k = k + 1;
            }
            proof {
                assert(flows@.take(k as int) =~= flows@);
                assert(views.take(i + 1).drop_last() =~= views.take(i as int));
                assert(views.take(i + 1).last() == insn@);
                assert(targets@ =~= leaving_flows(views.take(i + 1), end).map_values(placing));
            }
            i = i + 1;
        }
        assert(views.take(i as int) =~= views);
        let mut properties: CodeBlockProperties = CodeBlockProperties::empty();
        if insns.len() > 0 {
            let terminator: &Insn = insns[insns.len() - 1];
            assert(views.last() == terminator@);
            let call: bool = terminator.is_call();
            let ret: bool = terminator.is_return();
            let open_end: bool = terminator.is_branch() && terminator.is_indirect() && !call && !ret
                && terminator.iter_targets().len() == 0;
            let call_flag: u32 = if call {
                CodeBlockProperties::CALL
            } else {
                0
            };
            let return_flag: u32 = if ret {
                CodeBlockProperties::RETURN
            } else {
                0
            };
            let open_flag: u32 = if open_end {
                CodeBlockProperties::UNRESOLVED
            } else {
                0
            };
            properties = CodeBlockProperties::of(call_flag | return_flag | open_flag);
            assert(properties.bits == end_flags(views.last()));
        }
        let record = CodeBlockRecord { address, context, targets, properties, size };
        assert(record@ =~= recorded(address, size, views, context@));
        record
    }

    pub fn address(&self) -> (address: Address)
        ensures
            address == self.address,
    {
        self.address
    }

    pub fn context(&self) -> (context: &ContextSet)
        ensures
            *context == self.context,
    {
        &self.context
    }

    /// The addresses of the block, which must not run over the end of the space.
    pub fn address_range(&self) -> (range: AddressRange)
        requires
            spans(self.address, self.size as int),
        ensures
            range == span_range(self.address, self.size as int),
    {
        AddressRange::new(
            self.address.space(),
            self.address.raw_address(),
            RawAddress(self.address.offset() + (self.size - 1) as u64),
        )
    }

    pub fn flow_targets(&self) -> (flows: Vec<FlowTarget>)
        ensures
            flows@ == self@.flows(),
    {
        unpack_flows(self.address, &self.targets)
    }

    /// Whether a block is the recorded one under some identity.
    pub fn matches(&self, block: &CodeBlock) -> (same: bool)
        ensures
            same == (block@ == self@.under(block.id)),
    {
        let same: bool = block.start == self.address && block.size == self.size
            && block.context.same(&self.context) && same_targets(&block.targets, &self.targets)
            && block.properties == self.properties;
        proof {
            if same {
                assert(block@ =~= self@.under(block.id));
            }
        }
        same
    }

    /// Gives the block an identity.
    pub fn materialise(self, id: CodeBlockId) -> (block: CodeBlock)
        ensures
            block@ == self@.under(id),
    {
        CodeBlock {
            id,
            start: self.address,
            size: self.size,
            targets: self.targets,
            properties: self.properties,
            context: self.context,
        }
    }
}

/// If a flow is kept, there is one that is.
proof fn lemma_kept_some(flows: Seq<FlowTarget>, end: Address, k: int)
    requires
        0 <= k < flows.len(),
        !(flows[k].kind is Fall) || flows[k].to == end,
    ensures
        kept(flows, end).len() > 0,
    decreases flows.len(),
{
    if k < flows.len() - 1 {
        lemma_kept_some(flows.drop_last(), end, k);
    }
}

/// Whether two lists of targets are the same.
pub fn same_targets(a: &Vec<CodeBlockFlowTarget>, b: &Vec<CodeBlockFlowTarget>) -> (same: bool)
    ensures
        same == (a@ == b@),
{
    if a.len() != b.len() {
        return false;
    }
    let mut i: usize = 0;
    while i < a.len()
        invariant
            i <= a@.len(),
            a@.len() == b@.len(),
            forall|j: int| 0 <= j < i ==> a@[j] == b@[j],
        decreases a@.len() - i,
    {
        if a[i] != b[i] {
            return false;
        }
        i = i + 1;
    }
    assert(a@ =~= b@);
    true
}

/// What a block is, apart from how it is stored.
#[verifier::ext_equal]
pub struct CodeBlockView {
    pub id: CodeBlockId,
    pub start: Address,
    pub size: u16,
    pub targets: Seq<CodeBlockFlowTarget>,
    pub properties: CodeBlockProperties,
    pub context: Seq<(u32, u64)>,
}

impl CodeBlockView {
    /// The flows out of the block.
    pub open spec fn flows(self) -> Seq<FlowTarget> {
        block_flows(self.start, self.targets)
    }

    /// Whether the block has addresses and they do not run over the end of their space.
    pub open spec fn fits(self) -> bool {
        spans(self.start, self.size as int)
    }

    /// The addresses of the block.
    pub open spec fn range(self) -> AddressRange {
        span_range(self.start, self.size as int)
    }
}

/// A block of code: instructions that follow each other, told by where they begin, how many
/// bytes they have and where they lead.
#[derive(Debug)]
pub struct CodeBlock {
    pub id: CodeBlockId,
    pub start: Address,
    pub size: u16,
    pub targets: Vec<CodeBlockFlowTarget>,
    pub properties: CodeBlockProperties,
    pub context: ContextSet,
}

impl View for CodeBlock {
    type V = CodeBlockView;

    open spec fn view(&self) -> CodeBlockView {
        CodeBlockView {
            id: self.id,
            start: self.start,
            size: self.size,
            targets: self.targets@,
            properties: self.properties,
            context: self.context@,
        }
    }
}

impl Clone for CodeBlock {
    fn clone(&self) -> (copy: Self)
        ensures
            copy@ == self@,
    {
        CodeBlock {
            id: self.id,
            start: self.start,
            size: self.size,
            targets: copy_values(&self.targets),
            properties: self.properties,
            context: self.context.clone(),
        }
    }
}

impl CodeBlock {
    pub fn id(&self) -> (id: CodeBlockId)
        ensures
            id == self.id,
    {
        self.id
    }

    pub fn address(&self) -> (address: Address)
        ensures
            address == self.start,
    {
        self.start
    }

    pub fn space(&self) -> (space: AddressSpaceId)
        ensures
            space == self.start.space,
    {
        self.start.space()
    }

    pub fn size(&self) -> (size: usize)
        ensures
            size == self.size,
    {
        self.size as usize
    }

    pub fn is_call(&self) -> (r: bool)
        ensures
            r == (self.properties.bits & CodeBlockProperties::CALL == CodeBlockProperties::CALL),
    {
        self.properties.contains(CodeBlockProperties::CALL)
    }

    pub fn is_return(&self) -> (r: bool)
        ensures
            r == (self.properties.bits & CodeBlockProperties::RETURN == CodeBlockProperties::RETURN),
    {
        self.properties.contains(CodeBlockProperties::RETURN)
    }

    /// Whether one of the flows out of the block is a branch.
    pub fn is_branch(&self) -> (r: bool)
        ensures
            r == exists|i: int|
                0 <= i < self.targets@.len() && (#[trigger] self.targets@[i]).kind.branches(),
    {
        let mut i: usize = 0;
        while i < self.targets.len()
            invariant
                i <= self.targets@.len(),
                forall|j: int| 0 <= j < i ==> !(#[trigger] self.targets@[j]).kind.branches(),
            decreases self.targets@.len() - i,
        {
            if self.targets[i].kind.is_branch() {
                return true;
            }
            i = i + 1;
        }
        false
    }

    /// Where the first call of the block goes.
    pub fn call_target(&self) -> (target: Option<Address>)
        ensures
            target == first_call(self@.flows()),
    {
        find_call(&self.flow_targets())
    }

    pub fn has_unresolved(&self) -> (r: bool)
        ensures
            r == (self.properties.bits & CodeBlockProperties::UNRESOLVED
                == CodeBlockProperties::UNRESOLVED),
    {
        self.properties.contains(CodeBlockProperties::UNRESOLVED)
    }

    pub fn context(&self) -> (context: &ContextSet)
        ensures
            *context == self.context,
    {
        &self.context
    }

    /// The address before the first one behind the block.
    pub fn last_address(&self) -> (address: Address)
        ensures
            address.space == self.start.space,
            address.address.0 == self.start.address.0.wrapping_add(self.size as u64).wrapping_sub(1),
            self@.fits() ==> address.address == self@.range().end,
    {
        self.start + self.size() - 1usize
    }

    /// The first address behind the block.
    pub fn next_address(&self) -> (address: Address)
        ensures
            address == address_after(self.start, self.size as int),
    {
        self.start + self.size()
    }

    pub fn range(&self) -> (range: RangeInclusive<Address>)
        requires
            self@.fits(),
        ensures
            range@.start == self.start,
            range@.end.space == self.start.space,
            range@.end.address == self@.range().end,
            !range@.exhausted,
    {
        RangeInclusive::new(self.address(), self.last_address())
    }

    /// Whether two blocks are the same.
    pub fn same(&self, other: &CodeBlock) -> (same: bool)
        ensures
            same == (self@ == other@),
    {
        let same: bool = self.id == other.id && self.start == other.start && self.size
            == other.size && self.properties == other.properties && self.context.same(
            &other.context,
        ) && same_targets(&self.targets, &other.targets);
        proof {
            if same {
                assert(self@ =~= other@);
            }
        }
        same
    }

    pub fn address_range(&self) -> (range: AddressRange)
        requires
            self@.fits(),
        ensures
            range == self@.range(),
    {
        AddressRange::new(
            self.space(),
            self.address().raw_address(),
            self.last_address().raw_address(),
        )
    }

    /// The addresses of the block as a set.
    pub fn coverage(&self) -> (covered: AddressRangeSet)
        requires
            self@.fits(),
        ensures
            covered.wf(),
            covered@ == Set::new(|a: Address| self@.range().holds(a)),
    {
        let mut covered: AddressRangeSet = AddressRangeSet::new();
        self.coverage_into(&mut covered);
        assert(covered@ =~= Set::new(|a: Address| self@.range().holds(a)));
        covered
    }

    /// Adds the addresses of the block to a set.
    pub fn coverage_into(&self, covered: &mut AddressRangeSet)
        requires
            self@.fits(),
            old(covered).wf(),
        ensures
            final(covered).wf(),
            final(covered)@ == old(covered)@.union(Set::new(|a: Address| self@.range().holds(a))),
    {
        covered.insert_range(self.address_range());
    }

    pub fn flow_targets(&self) -> (flows: Vec<FlowTarget>)
        ensures
            flows@ == self@.flows(),
    {
        unpack_flows(self.start, &self.targets)
    }
}

/// What a block under construction is, apart from how it is stored.
#[verifier::ext_equal]
pub struct IncompleteCodeBlockView {
    pub start: Address,
    pub size: u16,
    pub context: Seq<(u32, u64)>,
    pub successors: Set<IncompleteCodeBlockId>,
    pub predecessors: Set<IncompleteCodeBlockId>,
    pub insn_ids: Seq<InsnId>,
}

/// A block under construction.
pub struct IncompleteCodeBlock {
    pub start: Address,
    pub size: u16,
    pub context: ContextSet,
    pub successors: IdSet<IncompleteCodeBlockEntity>,
    pub predecessors: IdSet<IncompleteCodeBlockEntity>,
    pub insn_ids: Vec<InsnId>,
}

impl View for IncompleteCodeBlock {
    type V = IncompleteCodeBlockView;

    open spec fn view(&self) -> IncompleteCodeBlockView {
        IncompleteCodeBlockView {
            start: self.start,
            size: self.size,
            context: self.context@,
            successors: self.successors@,
            predecessors: self.predecessors@,
            insn_ids: self.insn_ids@,
        }
    }
}

impl IncompleteCodeBlock {
    pub fn new(start: Address, size: u16, insn_ids: Vec<InsnId>, context: ContextSet) -> (block:
        Self)
        ensures
            block@ == (IncompleteCodeBlockView {
                start,
                size,
                context: context@,
                successors: Set::empty(),
                predecessors: Set::empty(),
                insn_ids: insn_ids@,
            }),
    {
        IncompleteCodeBlock {
            start,
            size,
            context,
            successors: IdSet::new(),
            predecessors: IdSet::new(),
            insn_ids,
        }
    }

    /// The block, if its size is one that a block can have.
    pub fn try_new(start: Address, size: usize, insn_ids: Vec<InsnId>, context: ContextSet) -> (
    block: Option<Self>)
        ensures
            block is Some == (size <= u16::MAX),
            block matches Some(b) ==> b@ == (IncompleteCodeBlockView {
                start,
                size: size as u16,
                context: context@,
                successors: Set::empty(),
                predecessors: Set::empty(),
                insn_ids: insn_ids@,
            }),
    {
        if size > u16::MAX as usize {
            return None;
        }
        Some(IncompleteCodeBlock::new(start, size as u16, insn_ids, context))
    }

    pub fn address(&self) -> (address: Address)
        ensures
            address == self.start,
    {
        self.start
    }

    pub fn size(&self) -> (size: usize)
        ensures
            size == self.size,
    {
        self.size as usize
    }

    pub fn is_empty(&self) -> (empty: bool)
        ensures
            empty == (self.size == 0),
    {
        self.size == 0
    }

    pub fn insn_ids(&self) -> (ids: &[InsnId])
        ensures
            ids@ == self.insn_ids@,
    {
        self.insn_ids.as_slice()
    }

    pub fn context(&self) -> (context: &ContextSet)
        ensures
            *context == self.context,
    {
        &self.context
    }

    pub fn context_mut(&mut self) -> (context: &mut ContextSet)
        ensures
            *context == old(self).context,
            *final(self) == (IncompleteCodeBlock { context: *final(context), ..*old(self) }),
    {
        &mut self.context
    }

    pub fn predecessors(&self) -> (ids: &IdSet<IncompleteCodeBlockEntity>)
        ensures
            *ids == self.predecessors,
    {
        &self.predecessors
    }

    pub fn successors(&self) -> (ids: &IdSet<IncompleteCodeBlockEntity>)
        ensures
            *ids == self.successors,
    {
        &self.successors
    }

    pub fn push_insn(&mut self, id: InsnId)
        ensures
            final(self)@ == (IncompleteCodeBlockView {
                insn_ids: old(self).insn_ids@.push(id),
                ..old(self)@
            }),
    {
        self.insn_ids.push(id);
    }

    pub fn add_predecessor(&mut self, id: IncompleteCodeBlockId)
        ensures
            final(self)@ == (IncompleteCodeBlockView {
                predecessors: old(self)@.predecessors.insert(id),
                ..old(self)@
            }),
    {
        self.predecessors.insert(id);
    }

    pub fn remove_predecessor(&mut self, id: IncompleteCodeBlockId)
        ensures
            final(self)@ == (IncompleteCodeBlockView {
                predecessors: old(self)@.predecessors.remove(id),
                ..old(self)@
            }),
    {
        self.predecessors.remove(id);
    }

    pub fn add_successor(&mut self, id: IncompleteCodeBlockId)
        ensures
            final(self)@ == (IncompleteCodeBlockView {
                successors: old(self)@.successors.insert(id),
                ..old(self)@
            }),
    {
        self.successors.insert(id);
    }

    pub fn remove_successor(&mut self, id: IncompleteCodeBlockId)
        ensures
            final(self)@ == (IncompleteCodeBlockView {
                successors: old(self)@.successors.remove(id),
                ..old(self)@
            }),
    {
        self.successors.remove(id);
    }
}

} // verus!
