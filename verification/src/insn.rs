//! Instructions and where they lead.
use vstd::prelude::*;

use crate::address::{Address, RawAddress};
use crate::flags::InsnProperties;
use crate::flow::{target_flow, FlowTarget};
use crate::id::Id;
use crate::location::Location;
use crate::reference::{flow_reference, Reference};
use crate::types::copy_values;

verus! {

/// The kind of entry that an instruction's identity names.
#[derive(Debug, Clone, Copy)]
pub struct InsnEntity;

pub type InsnId = Id<InsnEntity>;

/// Why there is no such instruction.
#[derive(Debug, Clone, Copy, PartialEq, Eq, Structural)]
pub enum InsnError {
    InsnTooLarge { size: usize },
}

impl InsnError {
    pub fn insn_too_large(size: usize) -> (error: Self)
        ensures
            error == (InsnError::InsnTooLarge { size }),
    {
        InsnError::InsnTooLarge { size }
    }
}

/// Whether a target lies within the function or beyond.
#[derive(Debug, Clone, Copy, PartialEq, Eq, PartialOrd, Ord, Hash, Structural)]
pub enum InsnTargetKind {
    Global,
    Local,
}

impl InsnTargetKind {
    pub fn is_local(&self) -> (r: bool)
        ensures
            r == (*self is Local),
    {
        matches!(self, InsnTargetKind::Local)
    }

    pub fn is_global(&self) -> (r: bool)
        ensures
            r == (*self is Global),
    {
        matches!(self, InsnTargetKind::Global)
    }
}

/// Where an instruction may lead.
#[derive(Debug, Clone, Copy, PartialEq, Eq, PartialOrd, Ord, Hash, Structural)]
pub enum InsnTarget {
    InterBlk(Address),
    InterRet(Option<Address>, bool),
    InterSub(Address),
    InterSubIndirect(Option<Address>),
    IntraBlk(Location, bool),
    IntraIns(Location, bool),
    Intrinsic,
    Unresolved,
}

impl InsnTarget {
    pub open spec fn falls(self) -> bool {
        match self {
            InsnTarget::IntraIns(_, falls) => falls,
            InsnTarget::IntraBlk(_, falls) => falls,
            _ => false,
        }
    }

    pub fn is_call(&self) -> (r: bool)
        ensures
            r == (*self is InterSub || *self is InterSubIndirect),
    {
        matches!(self, InsnTarget::InterSub(_) | InsnTarget::InterSubIndirect(_))
    }

    pub fn is_fall_through(&self) -> (r: bool)
        ensures
            r == self.falls(),
    {
        matches!(self, InsnTarget::IntraIns(_, true) | InsnTarget::IntraBlk(_, true))
    }

    pub fn is_indirect(&self) -> (r: bool)
        ensures
            r == (*self is InterSubIndirect || *self is Unresolved || (*self matches
                InsnTarget::InterRet(to, _) && to is None)),
    {
        matches!(
            self,
            InsnTarget::InterSubIndirect(_) | InsnTarget::InterRet(None, _) | InsnTarget::Unresolved
        )
    }

    pub fn is_intrinsic(&self) -> (r: bool)
        ensures
            r == (*self is Intrinsic),
    {
        matches!(self, InsnTarget::Intrinsic)
    }

    pub fn is_return(&self) -> (r: bool)
        ensures
            r == (*self is InterRet),
    {
        matches!(self, InsnTarget::InterRet(_, _))
    }

    /// The address that the target names, if it names one.
    pub open spec fn named(self) -> Option<Address> {
        match self {
            InsnTarget::IntraIns(location, _) => Some(location.address),
            InsnTarget::IntraBlk(location, _) => Some(location.address),
            InsnTarget::InterBlk(address) => Some(address),
            InsnTarget::InterSub(address) => Some(address),
            InsnTarget::InterSubIndirect(address) => address,
            InsnTarget::InterRet(address, _) => address,
            InsnTarget::Intrinsic => None,
            InsnTarget::Unresolved => None,
        }
    }

    pub fn address(&self) -> (address: Option<Address>)
        ensures
            address == self.named(),
    {
        match *self {
            InsnTarget::IntraIns(location, _) => Some(location.address()),
            InsnTarget::IntraBlk(location, _) => Some(location.address()),
            InsnTarget::InterBlk(address) => Some(address),
            InsnTarget::InterSub(address) => Some(address),
            InsnTarget::InterSubIndirect(address) => address,
            InsnTarget::InterRet(address, _) => address,
            InsnTarget::Intrinsic => None,
            InsnTarget::Unresolved => None,
        }
    }

    /// The instruction that the target leads to, if it is known and leads to the beginning of
    /// one.
    pub open spec fn leads_to(self) -> Option<(InsnTargetKind, Address)> {
        match self {
            InsnTarget::IntraBlk(location, _) => if location.position == 0 {
                Some((InsnTargetKind::Local, location.address))
            } else {
                None
            },
            InsnTarget::InterBlk(address) => Some((InsnTargetKind::Local, address)),
            InsnTarget::InterSub(address) => Some((InsnTargetKind::Global, address)),
            InsnTarget::InterSubIndirect(Some(address)) => Some((InsnTargetKind::Global, address)),
            InsnTarget::InterRet(Some(address), _) => Some((InsnTargetKind::Global, address)),
            _ => None,
        }
    }

    pub fn resolved(&self) -> (r: Option<(InsnTargetKind, Address)>)
        ensures
            r == self.leads_to(),
    {
        match *self {
            InsnTarget::IntraBlk(taken, _) => {
                if taken.position() == 0 {
                    Some((InsnTargetKind::Local, taken.address()))
                } else {
                    None
                }
            },
            InsnTarget::InterBlk(taken) => Some((InsnTargetKind::Local, taken)),
            InsnTarget::InterSub(taken) => Some((InsnTargetKind::Global, taken)),
            InsnTarget::InterSubIndirect(Some(taken)) => Some((InsnTargetKind::Global, taken)),
            InsnTarget::InterRet(Some(taken), _) => Some((InsnTargetKind::Global, taken)),
            _ => None,
        }
    }

    /// The flags that an instruction has from the target.
    pub open spec fn flags(self) -> u16 {
        match self {
            InsnTarget::IntraBlk(_, falls) => if falls {
                InsnProperties::FALL_THROUGH
            } else {
                InsnProperties::BRANCH
            },
            InsnTarget::InterBlk(_) => InsnProperties::BRANCH,
            InsnTarget::Unresolved => InsnProperties::BRANCH | InsnProperties::INDIRECT,
            InsnTarget::InterSub(_) => InsnProperties::CALL,
            InsnTarget::InterSubIndirect(_) => InsnProperties::CALL | InsnProperties::INDIRECT,
            InsnTarget::InterRet(Some(_), _) => InsnProperties::RETURN,
            InsnTarget::InterRet(None, _) => InsnProperties::RETURN | InsnProperties::INDIRECT,
            _ => 0,
        }
    }
}

/// The flags that an instruction has from its targets.
pub open spec fn target_flags(targets: Seq<(u16, InsnTarget)>) -> u16
    decreases targets.len(),
{
    if targets.len() == 0 {
        0
    } else {
        target_flags(targets.drop_last()) | targets.last().1.flags()
    }
}

impl InsnProperties {
    pub fn from_targets(targets: &Vec<(u16, InsnTarget)>) -> (flags: Self)
        ensures
            flags.bits == target_flags(targets@),
    {
        let mut flags: InsnProperties = InsnProperties::empty();
        let mut i: usize = 0;
        assert(targets@.take(0) =~= Seq::empty());
        while i < targets.len()
            invariant
                i <= targets@.len(),
                flags.bits == target_flags(targets@.take(i as int)),
            decreases targets@.len() - i,
        {
            let added: u16 = match targets[i].1 {
                InsnTarget::IntraBlk(_, true) => InsnProperties::FALL_THROUGH,
                InsnTarget::IntraBlk(_, false) => InsnProperties::BRANCH,
                InsnTarget::InterBlk(_) => InsnProperties::BRANCH,
                InsnTarget::Unresolved => InsnProperties::BRANCH | InsnProperties::INDIRECT,
                InsnTarget::InterSub(_) => InsnProperties::CALL,
                InsnTarget::InterSubIndirect(_) => InsnProperties::CALL | InsnProperties::INDIRECT,
                InsnTarget::InterRet(Some(_), _) => InsnProperties::RETURN,
                InsnTarget::InterRet(None, _) => InsnProperties::RETURN | InsnProperties::INDIRECT,
                _ => 0,
            };
            flags.insert(added);
            assert(targets@.take(i + 1).drop_last() =~= targets@.take(i as int));
            assert(targets@.take(i + 1).last() == targets@[i as int]);
            i = i + 1;
        }
        assert(targets@.take(i as int) =~= targets@);
        flags
    }
}

/// Where one of the operations of an instruction leads.
#[derive(Debug, Clone, Copy, PartialEq, Eq, Structural)]
pub enum RawPCodeFlow {
    Branch(Option<Location>),
    Call(Option<Location>),
    FallThrough(Location),
    Intrinsic,
    Return(Option<Address>),
}

/// The target that a flow of the operation at `index` stands for, in the instruction at
/// `address` that has `count` operations and is followed by `next`. Operations are numbered in
/// 16 bits, and so is their count where an operation is compared with the last one.
pub open spec fn flow_as_target(
    address: Address,
    next: Address,
    count: usize,
    index: u16,
    flow: RawPCodeFlow,
) -> InsnTarget {
    match flow {
        RawPCodeFlow::Branch(Some(location)) => if location.address == address {
            InsnTarget::IntraIns(location, false)
        } else if location.address == next {
            InsnTarget::IntraBlk(location, false)
        } else {
            InsnTarget::InterBlk(location.address)
        },
        RawPCodeFlow::Branch(None) => InsnTarget::Unresolved,
        RawPCodeFlow::Call(Some(location)) => if location.position != 0 {
            InsnTarget::IntraIns(location, false)
        } else {
            InsnTarget::InterSub(location.address)
        },
        RawPCodeFlow::Call(None) => InsnTarget::InterSubIndirect(None),
        RawPCodeFlow::FallThrough(location) => if location.address == address {
            InsnTarget::IntraIns(location, true)
        } else {
            InsnTarget::IntraBlk(location, true)
        },
        RawPCodeFlow::Intrinsic => InsnTarget::Intrinsic,
        RawPCodeFlow::Return(to) => InsnTarget::InterRet(to, index + 1 == count % 0x1_0000),
    }
}

/// What an instruction is, apart from how it is stored.
#[verifier::ext_equal]
pub struct InsnView {
    pub address: Address,
    pub properties: InsnProperties,
    pub targets: Seq<(u16, InsnTarget)>,
    pub size: u8,
}

/// An instruction.
#[derive(Debug)]
pub struct Insn {
    pub address: Address,
    pub properties: InsnProperties,
    pub targets: Vec<(u16, InsnTarget)>,
    pub size: u8,
}

impl View for Insn {
    type V = InsnView;

    open spec fn view(&self) -> InsnView {
        InsnView {
            address: self.address,
            properties: self.properties,
            targets: self.targets@,
            size: self.size,
        }
    }
}

/// The address `size` after another.
pub open spec fn address_after(address: Address, size: int) -> Address {
    Address {
        space: address.space,
        address: RawAddress(address.address.0.wrapping_add(size as u64)),
    }
}

/// The flows to those targets of an instruction that lead somewhere.
pub open spec fn flows_of(
    address: Address,
    falls_through: bool,
    targets: Seq<(u16, InsnTarget)>,
) -> Seq<FlowTarget>
    decreases targets.len(),
{
    if targets.len() == 0 {
        Seq::empty()
    } else {
        let before = flows_of(address, falls_through, targets.drop_last());
        let target = targets.last().1;
        match (target.leads_to(), target_flow(falls_through, target)) {
            (Some((_, to)), Some(kind)) => before.push(FlowTarget { from: address, to, kind }),
            _ => before,
        }
    }
}

/// The targets of an instruction that lead somewhere, and where.
pub open spec fn resolved_targets(targets: Seq<(u16, InsnTarget)>) -> Seq<
    (InsnTarget, InsnTargetKind, Address),
>
    decreases targets.len(),
{
    if targets.len() == 0 {
        Seq::empty()
    } else {
        let before = resolved_targets(targets.drop_last());
        let target = targets.last().1;
        match target.leads_to() {
            Some((kind, to)) => before.push((target, kind, to)),
            None => before,
        }
    }
}

impl InsnView {
    pub open spec fn falls_through(self) -> bool {
        self.properties.bits & InsnProperties::FALL_THROUGH == InsnProperties::FALL_THROUGH
    }

    pub open spec fn flows(self) -> Seq<FlowTarget> {
        flows_of(self.address, self.falls_through(), self.targets)
    }

    /// The flags that are not taken from targets.
    pub open spec fn own_flags(self) -> u16 {
        self.properties.bits & !InsnProperties::FLOW & !InsnProperties::FALL_THROUGH
    }

    /// The instruction with other targets and the flow flags from them.
    pub open spec fn with_targets(self, targets: Seq<(u16, InsnTarget)>) -> InsnView {
        InsnView {
            targets,
            properties: InsnProperties { bits: target_flags(targets) | self.own_flags() },
            ..self
        }
    }

    /// The instruction with every unknown destination of an indirect call made known.
    pub open spec fn calling(self, to: Address) -> InsnView {
        self.with_targets(with_call_target(self.targets, to))
    }

    /// The instruction without the targets that it falls through to.
    pub open spec fn without_fall_through(self) -> InsnView {
        self.with_targets(self.targets.filter(|t: (u16, InsnTarget)| !t.1.falls()))
    }
}

/// The references that the flows out of a function make.
pub open spec fn leaving_references(flows: Seq<FlowTarget>) -> Seq<Reference>
    decreases flows.len(),
{
    if flows.len() == 0 {
        Seq::empty()
    } else {
        let before = leaving_references(flows.drop_last());
        if flows.last().kind.leaves() {
            before.push(flow_reference(flows.last()))
        } else {
            before
        }
    }
}

/// The first of the flows that is a call.
pub open spec fn first_call(flows: Seq<FlowTarget>) -> Option<Address>
    decreases flows.len(),
{
    if flows.len() == 0 {
        None
    } else if flows.first().kind.calls() {
        Some(flows.first().to)
    } else {
        first_call(flows.drop_first())
    }
}

/// Looks for the first of the flows that is a call.
pub fn find_call(flows: &Vec<FlowTarget>) -> (target: Option<Address>)
    ensures
        target == first_call(flows@),
{
    let mut i: usize = 0;
    assert(flows@.skip(0) =~= flows@);
    while i < flows.len()
        invariant
            i <= flows@.len(),
            first_call(flows@) == first_call(flows@.skip(i as int)),
        decreases flows@.len() - i,
    {
        assert(flows@.skip(i as int).first() == flows@[i as int]);
        assert(flows@.skip(i as int).drop_first() =~= flows@.skip(i + 1));
        if flows[i].kind().is_call() {
            return Some(flows[i].to());
        }
        i = i + 1;
    }
    None
}

/// The targets with every unknown destination of an indirect call made known.
pub open spec fn with_call_target(targets: Seq<(u16, InsnTarget)>, to: Address) -> Seq<
    (u16, InsnTarget),
> {
    targets.map_values(
        |t: (u16, InsnTarget)|
            if t.1 == InsnTarget::InterSubIndirect(None) {
                (t.0, InsnTarget::InterSubIndirect(Some(to)))
            } else {
                t
            },
    )
}

impl Insn {
    pub open spec fn falls_through(&self) -> bool {
        self@.falls_through()
    }

    fn from_targets(
        address: Address,
        size: usize,
        properties: InsnProperties,
        targets: Vec<(u16, InsnTarget)>,
    ) -> (insn: Result<Self, InsnError>)
        ensures
            match insn {
                Ok(i) => size <= u8::MAX && i@ == (InsnView {
                    address,
                    properties,
                    targets: targets@,
                    size: size as u8,
                }),
                Err(error) => size > u8::MAX && error == (InsnError::InsnTooLarge { size }),
            },
    {
        if size > 255 {
            return Err(InsnError::insn_too_large(size));
        }
        Ok(Insn { address, properties, targets, size: size as u8 })
    }

    /// An instruction whose flow is known to be these targets.
    pub open spec fn is_flow_insn(
        insn: Result<Insn, InsnError>,
        address: Address,
        size: usize,
        targets: Seq<(u16, InsnTarget)>,
    ) -> bool {
        match insn {
            Ok(i) => size <= u8::MAX && i@ == (InsnView {
                address,
                properties: InsnProperties {
                    bits: target_flags(targets) | InsnProperties::FLOW_RESOLVED,
                },
                targets,
                size: size as u8,
            }),
            Err(error) => size > u8::MAX && error == (InsnError::InsnTooLarge { size }),
        }
    }

    /// The target of an instruction that goes on to the next one.
    pub open spec fn fall_through_target(address: Address, size: usize) -> (u16, InsnTarget) {
        (
            0,
            InsnTarget::IntraBlk(
                Location { address: address_after(address, size as int), position: 0 },
                true,
            ),
        )
    }

    pub fn from_direct_branch(address: Address, size: usize, target: Address, conditional: bool) -> (
    insn: Result<Self, InsnError>)
        ensures
            Self::is_flow_insn(
                insn,
                address,
                size,
                if conditional {
                    seq![
                        (0u16, InsnTarget::InterBlk(target)),
                        Self::fall_through_target(address, size),
                    ]
                } else {
                    seq![(0u16, InsnTarget::InterBlk(target))]
                },
            ),
    {
        Insn::from_direct_flow(address, size, InsnTarget::InterBlk(target), conditional)
    }

    pub fn from_direct_call(address: Address, size: usize, target: Address) -> (insn: Result<
        Self,
        InsnError,
    >)
        ensures
            Self::is_flow_insn(
                insn,
                address,
                size,
                seq![
                    (0u16, InsnTarget::InterSub(target)),
                    Self::fall_through_target(address, size),
                ],
            ),
    {
        Insn::from_direct_flow(address, size, InsnTarget::InterSub(target), true)
    }

    pub fn from_indirect_branch(address: Address, size: usize) -> (insn: Result<Self, InsnError>)
        ensures
            Self::is_flow_insn(insn, address, size, seq![(0u16, InsnTarget::Unresolved)]),
    {
        let mut targets: Vec<(u16, InsnTarget)> = Vec::new();
        targets.push((0, InsnTarget::Unresolved));
        assert(targets@ =~= seq![(0u16, InsnTarget::Unresolved)]);
        Insn::from_flow_targets(address, size, targets)
    }

    pub fn from_indirect_call(address: Address, size: usize) -> (insn: Result<Self, InsnError>)
        ensures
            Self::is_flow_insn(
                insn,
                address,
                size,
                seq![
                    (0u16, InsnTarget::InterSubIndirect(None)),
                    Self::fall_through_target(address, size),
                ],
            ),
    {
        Insn::from_direct_flow(address, size, InsnTarget::InterSubIndirect(None), true)
    }

    pub fn from_return(address: Address, size: usize) -> (insn: Result<Self, InsnError>)
        ensures
            Self::is_flow_insn(insn, address, size, seq![(0u16, InsnTarget::InterRet(None, true))]),
    {
        let mut targets: Vec<(u16, InsnTarget)> = Vec::new();
        targets.push((0, InsnTarget::InterRet(None, true)));
        assert(targets@ =~= seq![(0u16, InsnTarget::InterRet(None, true))]);
        Insn::from_flow_targets(address, size, targets)
    }

    fn from_direct_flow(address: Address, size: usize, target: InsnTarget, fall_through: bool) -> (
    insn: Result<Self, InsnError>)
        ensures
            Self::is_flow_insn(
                insn,
                address,
                size,
                if fall_through {
                    seq![(0u16, target), Self::fall_through_target(address, size)]
                } else {
                    seq![(0u16, target)]
                },
            ),
    {
        let mut targets: Vec<(u16, InsnTarget)> = Vec::new();
        targets.push((0, target));
        if fall_through {
            let next: Address = address + size;
            targets.push((0, InsnTarget::IntraBlk(Location { address: next, position: 0 }, true)));
            assert(targets@ =~= seq![(0u16, target), Self::fall_through_target(address, size)]);
        } else {
            assert(targets@ =~= seq![(0u16, target)]);
        }
        Insn::from_flow_targets(address, size, targets)
    }

    fn from_flow_targets(address: Address, size: usize, targets: Vec<(u16, InsnTarget)>) -> (insn:
        Result<Self, InsnError>)
        ensures
            Self::is_flow_insn(insn, address, size, targets@),
    {
        let mut properties: InsnProperties = InsnProperties::from_targets(&targets);
        properties.insert(InsnProperties::FLOW_RESOLVED);
        Insn::from_targets(address, size, properties, targets)
    }

    /// The instruction whose operations lead where `flows` say, each flow with the place of its
    /// operation. There are `operation_count` operations.
    pub fn from_resolved_flow(
        address: Address,
        size: usize,
        operation_count: usize,
        flows: &Vec<(u16, RawPCodeFlow)>,
    ) -> (insn: Result<Self, InsnError>)
        requires
            forall|i: int|
                0 <= i < flows@.len() && (#[trigger] flows@[i]).1 is Return ==> flows@[i].0
                    < u16::MAX,
        ensures
            ({
                let targets = flows@.map_values(
                    |f: (u16, RawPCodeFlow)|
                        (
                            f.0,
                            flow_as_target(
                                address,
                                address_after(address, size as int),
                                operation_count,
                                f.0,
                                f.1,
                            ),
                        ),
                );
                let nop = if operation_count == 0 {
                    InsnProperties::NOP
                } else {
                    0
                };
                match insn {
                    Ok(i) => size <= u8::MAX && i@ == (InsnView {
                        address,
                        properties: InsnProperties {
                            bits: target_flags(targets) | nop | InsnProperties::FLOW_RESOLVED,
                        },
                        targets,
                        size: size as u8,
                    }),
                    Err(error) => size > u8::MAX && error == (InsnError::InsnTooLarge { size }),
                }
            }),
    {
        let next: Address = address + size;
        let count: u16 = (operation_count % 0x1_0000) as u16;
        let mut targets: Vec<(u16, InsnTarget)> = Vec::new();
        let mut i: usize = 0;
        while i < flows.len()
            invariant
                i <= flows@.len(),
                forall|k: int|
                    0 <= k < flows@.len() && (#[trigger] flows@[k]).1 is Return ==> flows@[k].0
                        < u16::MAX,
                count == operation_count % 0x1_0000,
                targets@.len() == i,
                next == address_after(address, size as int),
                forall|k: int|
                    0 <= k < i ==> #[trigger] targets@[k] == (
                        flows@[k].0,
                        flow_as_target(address, next, operation_count, flows@[k].0, flows@[k].1),
                    ),
            decreases flows@.len() - i,
        {
            let (index, flow): (u16, RawPCodeFlow) = flows[i];
            let target: InsnTarget = match flow {
                RawPCodeFlow::Branch(Some(location)) => {
                    if location.address() == address {
                        InsnTarget::IntraIns(location, false)
                    } else if location.address() == next {
                        InsnTarget::IntraBlk(location, false)
                    } else {
                        InsnTarget::InterBlk(location.address())
                    }
                },
                RawPCodeFlow::Branch(None) => InsnTarget::Unresolved,
                RawPCodeFlow::Call(Some(location)) => {
                    if location.position() != 0 {
                        InsnTarget::IntraIns(location, false)
                    } else {
                        InsnTarget::InterSub(location.address())
                    }
                },
                RawPCodeFlow::Call(None) => InsnTarget::InterSubIndirect(None),
                RawPCodeFlow::FallThrough(location) => {
                    if location.address() == address {
                        InsnTarget::IntraIns(location, true)
                    } else {
                        InsnTarget::IntraBlk(location, true)
                    }
                },
                RawPCodeFlow::Intrinsic => InsnTarget::Intrinsic,
                RawPCodeFlow::Return(to) => InsnTarget::InterRet(to, index + 1 == count),
            };
            targets.push((index, target));
            i = i + 1;
        }
        assert(targets@ =~= flows@.map_values(
            |f: (u16, RawPCodeFlow)|
                (
                    f.0,
                    flow_as_target(
                        address,
                        address_after(address, size as int),
                        operation_count,
                        f.0,
                        f.1,
                    ),
                ),
        ));
        let mut properties: InsnProperties = InsnProperties::from_targets(&targets);
        if operation_count == 0 {
            properties.insert(InsnProperties::NOP);
        } else {
            proof {
                let bits = properties.bits;
                assert(bits | 0 == bits) by (bit_vector);
            }
        }
        properties.insert(InsnProperties::FLOW_RESOLVED);
        Insn::from_targets(address, size, properties, targets)
    }

    /// Learns where the operations of the instruction lead.
    pub fn resolve_flow(
        &mut self,
        size: usize,
        operation_count: usize,
        flows: &Vec<(u16, RawPCodeFlow)>,
    ) -> (r: Result<(), InsnError>)
        requires
            forall|i: int|
                0 <= i < flows@.len() && (#[trigger] flows@[i]).1 is Return ==> flows@[i].0
                    < u16::MAX,
        ensures
            match r {
                Ok(_) => size <= u8::MAX && final(self).address == old(self).address && final(self).size == size && final(self).targets@ == flows@.map_values(
                    |f: (u16, RawPCodeFlow)|
                        (
                            f.0,
                            flow_as_target(
                                old(self).address,
                                address_after(old(self).address, size as int),
                                operation_count,
                                f.0,
                                f.1,
                            ),
                        ),
                ) && final(self).properties.bits == target_flags(final(self).targets@) | (
                if operation_count == 0 {
                    InsnProperties::NOP
                } else {
                    0
                }) | InsnProperties::FLOW_RESOLVED,
                Err(error) => size > u8::MAX && error == (InsnError::InsnTooLarge { size })
                    && *final(self) == *old(self),
            },
    {
        match Insn::from_resolved_flow(self.address, size, operation_count, flows) {
            Ok(insn) => {
                *self = insn;
                Ok(())
            },
            Err(error) => Err(error),
        }
    }

    /// An instruction of which only the flags are known.
    pub fn from_disassembly(address: Address, size: usize, properties: InsnProperties) -> (insn:
        Result<Self, InsnError>)
        ensures
            match insn {
                Ok(i) => size <= u8::MAX && i@ == (InsnView {
                    address,
                    properties,
                    targets: Seq::empty(),
                    size: size as u8,
                }),
                Err(error) => size > u8::MAX && error == (InsnError::InsnTooLarge { size }),
            },
    {
        let targets: Vec<(u16, InsnTarget)> = Vec::new();
        Insn::from_targets(address, size, properties, targets)
    }

    pub fn address(&self) -> (address: Address)
        ensures
            address == self.address,
    {
        self.address
    }

    pub fn properties(&self) -> (properties: InsnProperties)
        ensures
            properties == self.properties,
    {
        self.properties
    }

    pub fn size(&self) -> (size: usize)
        ensures
            size == self.size,
    {
        self.size as usize
    }

    /// The targets that lead somewhere, and where.
    pub fn iter_targets(&self) -> (targets: Vec<(InsnTarget, InsnTargetKind, Address)>)
        ensures
            targets@ == resolved_targets(self.targets@),
    {
        let mut targets: Vec<(InsnTarget, InsnTargetKind, Address)> = Vec::new();
        let mut i: usize = 0;
        assert(self.targets@.take(0) =~= Seq::empty());
        while i < self.targets.len()
            invariant
                i <= self.targets@.len(),
                targets@ == resolved_targets(self.targets@.take(i as int)),
            decreases self.targets@.len() - i,
        {
            let target: InsnTarget = self.targets[i].1;
            assert(self.targets@.take(i + 1).drop_last() =~= self.targets@.take(i as int));
            assert(self.targets@.take(i + 1).last() == self.targets@[i as int]);
            match target.resolved() {
                Some((kind, to)) => targets.push((target, kind, to)),
                None => {},
            }
            i = i + 1;
        }
        assert(self.targets@.take(i as int) =~= self.targets@);
        targets
    }

    /// The flows to those targets that lead somewhere.
    pub fn flow_targets(&self) -> (flows: Vec<FlowTarget>)
        ensures
            flows@ == self@.flows(),
    {
        let mut flows: Vec<FlowTarget> = Vec::new();
        let mut i: usize = 0;
        assert(self.targets@.take(0) =~= Seq::empty());
        while i < self.targets.len()
            invariant
                i <= self.targets@.len(),
                flows@ == flows_of(
                    self.address,
                    self.falls_through(),
                    self.targets@.take(i as int),
                ),
            decreases self.targets@.len() - i,
        {
            let target: InsnTarget = self.targets[i].1;
            assert(self.targets@.take(i + 1).drop_last() =~= self.targets@.take(i as int));
            assert(self.targets@.take(i + 1).last() == self.targets@[i as int]);
            match target.resolved() {
                Some((_, to)) => {
                    match FlowTarget::from_insn_target(self, &target, to) {
                        Some(flow) => flows.push(flow),
                        None => {},
                    }
                },
                None => {},
            }
            i = i + 1;
        }
        assert(self.targets@.take(i as int) =~= self.targets@);
        flows
    }

    /// The references that the flows out of the function make.
    pub fn flow_references(&self) -> (references: Vec<Reference>)
        ensures
            references@ == leaving_references(self@.flows()),
    {
        let flows: Vec<FlowTarget> = self.flow_targets();
        let mut references: Vec<Reference> = Vec::new();
        let mut i: usize = 0;
        assert(flows@.take(0) =~= Seq::empty());
        while i < flows.len()
            invariant
                i <= flows@.len(),
                references@ == leaving_references(flows@.take(i as int)),
            decreases flows@.len() - i,
        {
            let target: FlowTarget = flows[i];
            assert(flows@.take(i + 1).drop_last() =~= flows@.take(i as int));
            assert(flows@.take(i + 1).last() == flows@[i as int]);
            if target.kind().is_global() {
                references.push(Reference::of_flow(target));
            }
            i = i + 1;
        }
        assert(flows@.take(i as int) =~= flows@);
        references
    }

    /// Makes `target` the destination of an indirect call that has none.
    pub fn set_call_target(&mut self, target: Address)
        ensures
            final(self)@ == old(self)@.calling(target),
    {
        let ghost before = self@;
        let mut i: usize = 0;
        while i < self.targets.len()
            invariant
                i <= self.targets@.len(),
                self.targets@.len() == before.targets.len(),
                self.address == before.address,
                self.properties == before.properties,
                self.size == before.size,
                forall|k: int|
                    0 <= k < i ==> #[trigger] self.targets@[k] == with_call_target(
                        before.targets,
                        target,
                    )[k],
                forall|k: int|
                    i <= k < self.targets@.len() ==> #[trigger] self.targets@[k]
                        == before.targets[k],
            decreases self.targets@.len() - i,
        {
            let (index, existing): (u16, InsnTarget) = self.targets[i];
            if matches!(existing, InsnTarget::InterSubIndirect(None)) {
                self.targets.set(i, (index, InsnTarget::InterSubIndirect(Some(target))));
            }
            i = i + 1;
        }
        assert(self.targets@ =~= with_call_target(before.targets, target));
        self.refresh_flags();
        assert(self@ =~= (InsnView {
            targets: with_call_target(before.targets, target),
            properties: InsnProperties {
                bits: target_flags(with_call_target(before.targets, target)) | before.own_flags(),
            },
            ..before
        }));
    }

    /// Takes the flow flags from the targets again.
    fn refresh_flags(&mut self)
        ensures
            final(self)@ == (InsnView {
                properties: InsnProperties {
                    bits: target_flags(old(self).targets@) | old(self)@.own_flags(),
                },
                ..old(self)@
            }),
    {
        let flags: InsnProperties = InsnProperties::from_targets(&self.targets);
        let own: u16 = self.properties.bits() & !InsnProperties::FLOW
            & !InsnProperties::FALL_THROUGH;
        self.properties = InsnProperties::of(flags.bits() | own);
    }

    /// The address after the instruction.
    pub fn next_address(&self) -> (address: Address)
        ensures
            address == address_after(self.address, self.size as int),
    {
        self.address + self.size as usize
    }

    /// Where the instruction calls to, if it is known.
    pub fn call_target(&self) -> (target: Option<Address>)
        ensures
            target == first_call(self@.flows()),
    {
        let flows: Vec<FlowTarget> = self.flow_targets();
        find_call(&flows)
    }

    pub fn is_taken(&self) -> (r: bool)
        ensures
            r == (self.properties.bits & InsnProperties::TAKEN != 0),
    {
        self.properties().intersects(InsnProperties::TAKEN)
    }

    pub fn is_nonsense(&self) -> (r: bool)
        ensures
            r == (self.properties.bits & InsnProperties::NONSENSE != 0),
    {
        self.properties().intersects(InsnProperties::NONSENSE)
    }

    pub fn is_nop(&self) -> (r: bool)
        ensures
            r == (self.properties.bits & InsnProperties::NOP != 0),
    {
        self.properties().intersects(InsnProperties::NOP)
    }

    pub fn is_trap(&self) -> (r: bool)
        ensures
            r == (self.properties.bits & InsnProperties::TRAP != 0),
    {
        self.properties().intersects(InsnProperties::TRAP)
    }

    pub fn is_invalid(&self) -> (r: bool)
        ensures
            r == (self.properties.bits & InsnProperties::INVALID != 0),
    {
        self.properties().intersects(InsnProperties::INVALID)
    }

    pub fn is_halt(&self) -> (r: bool)
        ensures
            r == (self.properties.bits & InsnProperties::HALT != 0),
    {
        self.properties().intersects(InsnProperties::HALT)
    }

    pub fn is_branch(&self) -> (r: bool)
        ensures
            r == (self.properties.bits & InsnProperties::BRANCH != 0),
    {
        self.properties().intersects(InsnProperties::BRANCH)
    }

    pub fn is_call(&self) -> (r: bool)
        ensures
            r == (self.properties.bits & InsnProperties::CALL != 0),
    {
        self.properties().intersects(InsnProperties::CALL)
    }

    pub fn is_return(&self) -> (r: bool)
        ensures
            r == (self.properties.bits & InsnProperties::RETURN != 0),
    {
        self.properties().intersects(InsnProperties::RETURN)
    }

    pub fn is_indirect(&self) -> (r: bool)
        ensures
            r == (self.properties.bits & InsnProperties::INDIRECT != 0),
    {
        self.properties().intersects(InsnProperties::INDIRECT)
    }

    pub fn is_branch_dest(&self) -> (r: bool)
        ensures
            r == (self.properties.bits & InsnProperties::BRANCH_DEST != 0),
    {
        self.properties().intersects(InsnProperties::BRANCH_DEST)
    }

    pub fn is_call_dest(&self) -> (r: bool)
        ensures
            r == (self.properties.bits & InsnProperties::CALL_DEST != 0),
    {
        self.properties().intersects(InsnProperties::CALL_DEST)
    }

    pub fn is_flow(&self) -> (r: bool)
        ensures
            r == (self.properties.bits & InsnProperties::FLOW != 0),
    {
        self.properties().intersects(InsnProperties::FLOW)
    }

    pub fn has_resolved_flow(&self) -> (r: bool)
        ensures
            r == (self.properties.bits & InsnProperties::FLOW_RESOLVED != 0),
    {
        self.properties().intersects(InsnProperties::FLOW_RESOLVED)
    }

    pub fn needs_flow_resolution(&self) -> (r: bool)
        ensures
            r == (self.properties.bits & InsnProperties::NEEDS_FLOW_RESOLUTION != 0),
    {
        self.properties().intersects(InsnProperties::NEEDS_FLOW_RESOLUTION)
    }

    pub fn mark_branch_dest(&mut self)
        ensures
            final(self)@ == (InsnView {
                properties: InsnProperties { bits: old(self).properties.bits | InsnProperties::BRANCH_DEST },
                ..old(self)@
            }),
    {
        self.properties.insert(InsnProperties::BRANCH_DEST);
    }

    pub fn unmark_branch_dest(&mut self)
        ensures
            final(self)@ == (InsnView {
                properties: InsnProperties { bits: old(self).properties.bits & !InsnProperties::BRANCH_DEST },
                ..old(self)@
            }),
    {
        self.properties.remove(InsnProperties::BRANCH_DEST);
    }

    pub fn mark_call_dest(&mut self)
        ensures
            final(self)@ == (InsnView {
                properties: InsnProperties { bits: old(self).properties.bits | InsnProperties::CALL_DEST },
                ..old(self)@
            }),
    {
        self.properties.insert(InsnProperties::CALL_DEST);
    }

    pub fn unmark_call_dest(&mut self)
        ensures
            final(self)@ == (InsnView {
                properties: InsnProperties { bits: old(self).properties.bits & !InsnProperties::CALL_DEST },
                ..old(self)@
            }),
    {
        self.properties.remove(InsnProperties::CALL_DEST);
    }

    pub fn mark_maybe_taken(&mut self)
        ensures
            final(self)@ == (InsnView {
                properties: InsnProperties { bits: old(self).properties.bits | InsnProperties::MAYBE_TAKEN },
                ..old(self)@
            }),
    {
        self.properties.insert(InsnProperties::MAYBE_TAKEN);
    }

    pub fn unmark_maybe_taken(&mut self)
        ensures
            final(self)@ == (InsnView {
                properties: InsnProperties { bits: old(self).properties.bits & !InsnProperties::MAYBE_TAKEN },
                ..old(self)@
            }),
    {
        self.properties.remove(InsnProperties::MAYBE_TAKEN);
    }

    pub fn mark_nonsense(&mut self)
        ensures
            final(self)@ == (InsnView {
                properties: InsnProperties { bits: old(self).properties.bits | InsnProperties::NONSENSE },
                ..old(self)@
            }),
    {
        self.properties.insert(InsnProperties::NONSENSE);
    }

    pub fn unmark_nonsense(&mut self)
        ensures
            final(self)@ == (InsnView {
                properties: InsnProperties { bits: old(self).properties.bits & !InsnProperties::NONSENSE },
                ..old(self)@
            }),
    {
        self.properties.remove(InsnProperties::NONSENSE);
    }

    pub fn mark_halt(&mut self)
        ensures
            final(self)@ == (InsnView {
                properties: InsnProperties { bits: old(self).properties.bits | InsnProperties::HALT },
                ..old(self)@
            }),
    {
        self.properties.insert(InsnProperties::HALT);
    }

    pub fn unmark_halt(&mut self)
        ensures
            final(self)@ == (InsnView {
                properties: InsnProperties { bits: old(self).properties.bits & !InsnProperties::HALT },
                ..old(self)@
            }),
    {
        self.properties.remove(InsnProperties::HALT);
    }

    pub fn mark_trap(&mut self)
        ensures
            final(self)@ == (InsnView {
                properties: InsnProperties { bits: old(self).properties.bits | InsnProperties::TRAP },
                ..old(self)@
            }),
    {
        self.properties.insert(InsnProperties::TRAP);
    }

    pub fn unmark_trap(&mut self)
        ensures
            final(self)@ == (InsnView {
                properties: InsnProperties { bits: old(self).properties.bits & !InsnProperties::TRAP },
                ..old(self)@
            }),
    {
        self.properties.remove(InsnProperties::TRAP);
    }

    pub fn mark_invalid(&mut self)
        ensures
            final(self)@ == (InsnView {
                properties: InsnProperties { bits: old(self).properties.bits | InsnProperties::INVALID },
                ..old(self)@
            }),
    {
        self.properties.insert(InsnProperties::INVALID);
    }

    pub fn unmark_invalid(&mut self)
        ensures
            final(self)@ == (InsnView {
                properties: InsnProperties { bits: old(self).properties.bits & !InsnProperties::INVALID },
                ..old(self)@
            }),
    {
        self.properties.remove(InsnProperties::INVALID);
    }

    pub fn mark_flow_resolved(&mut self)
        ensures
            final(self)@ == (InsnView {
                properties: InsnProperties { bits: old(self).properties.bits | InsnProperties::FLOW_RESOLVED },
                ..old(self)@
            }),
    {
        self.properties.insert(InsnProperties::FLOW_RESOLVED);
    }

    pub fn mark_needs_flow_resolution(&mut self)
        ensures
            final(self)@ == (InsnView {
                properties: InsnProperties { bits: old(self).properties.bits | InsnProperties::NEEDS_FLOW_RESOLUTION },
                ..old(self)@
            }),
    {
        self.properties.insert(InsnProperties::NEEDS_FLOW_RESOLUTION);
    }

    pub fn has_fall_through(&self) -> (r: bool)
        ensures
            r == self.falls_through(),
    {
        self.properties().contains(InsnProperties::FALL_THROUGH)
    }

    /// Drops the targets that the instruction falls through to.
    pub fn remove_fall_through(&mut self)
        ensures
            final(self)@ == old(self)@.without_fall_through(),
    {
        let ghost before = self@;
        let ghost keep = |t: (u16, InsnTarget)| !t.1.falls();
        let mut kept: Vec<(u16, InsnTarget)> = Vec::new();
        let mut i: usize = 0;
        proof {
            crate::types::lemma_filter_none(before.targets, keep);
        }
        while i < self.targets.len()
            invariant
                i <= self.targets@.len(),
                self@ == before,
                keep == (|t: (u16, InsnTarget)| !t.1.falls()),
                kept@ == before.targets.take(i as int).filter(keep),
            decreases self.targets@.len() - i,
        {
            if !self.targets[i].1.is_fall_through() {
                kept.push(self.targets[i]);
            }
            proof {
                crate::types::lemma_filter_step(before.targets, i as int, keep);
            }
            i = i + 1;
        }
        assert(before.targets.take(i as int) =~= before.targets);
        self.targets = kept;
        self.refresh_flags();
    }
}

impl Clone for Insn {
    fn clone(&self) -> (copy: Self)
        ensures
            copy@ == self@,
    {
        Insn {
            address: self.address,
            properties: self.properties,
            targets: copy_values(&self.targets),
            size: self.size,
        }
    }
}

} // verus!
