//! Control flow between addresses.
use vstd::prelude::*;
use vstd::std_specs::convert::IntoSpec;

use crate::address::Address;
use crate::insn::{Insn, InsnTarget};

verus! {

/// How control gets from one address to another.
#[derive(Debug, Clone, Copy, PartialEq, Eq, PartialOrd, Ord, Hash, Structural)]
pub enum FlowKind {
    Branch,
    Call,
    CBranch,
    Fall,
    IBranch,
    ICall,
    Return,
    ServiceCall,
    SwitchBranch,
    SwitchCall,
    TailCallBranch,
}

/// How control gets to a target of an instruction, if it does in one of the known ways.
pub open spec fn target_flow(falls_through: bool, target: InsnTarget) -> Option<FlowKind> {
    let branch = if falls_through {
        FlowKind::CBranch
    } else {
        FlowKind::Branch
    };
    match target {
        InsnTarget::IntraBlk(location, falls) => if location.position != 0 {
            None
        } else if falls {
            Some(FlowKind::Fall)
        } else {
            Some(branch)
        },
        InsnTarget::InterBlk(_) => Some(branch),
        InsnTarget::InterSub(_) => Some(FlowKind::Call),
        InsnTarget::InterSubIndirect(_) => Some(FlowKind::ICall),
        InsnTarget::InterRet(_, _) => Some(FlowKind::Return),
        InsnTarget::Intrinsic => Some(FlowKind::ServiceCall),
        InsnTarget::IntraIns(_, _) => None,
        InsnTarget::Unresolved => None,
    }
}

impl FlowKind {
    pub fn from_insn_target(insn: &Insn, target: &InsnTarget) -> (kind: Option<Self>)
        ensures
            kind == target_flow(insn.falls_through(), *target),
    {
        match *target {
            InsnTarget::IntraBlk(location, falls) => {
                if location.position() != 0 {
                    None
                } else if falls {
                    Some(FlowKind::Fall)
                } else if insn.has_fall_through() {
                    Some(FlowKind::CBranch)
                } else {
                    Some(FlowKind::Branch)
                }
            },
            InsnTarget::InterBlk(_) => {
                if insn.has_fall_through() {
                    Some(FlowKind::CBranch)
                } else {
                    Some(FlowKind::Branch)
                }
            },
            InsnTarget::InterSub(_) => Some(FlowKind::Call),
            InsnTarget::InterSubIndirect(_) => Some(FlowKind::ICall),
            InsnTarget::InterRet(_, _) => Some(FlowKind::Return),
            InsnTarget::Intrinsic => Some(FlowKind::ServiceCall),
            InsnTarget::IntraIns(_, _) => None,
            InsnTarget::Unresolved => None,
        }
    }

    pub open spec fn calls(self) -> bool {
        self is Call || self is ICall || self is ServiceCall || self is SwitchCall
            || self is TailCallBranch
    }

    /// Whether the flow leaves the function.
    pub open spec fn leaves(self) -> bool {
        self.calls() || self is Return
    }

    pub open spec fn branches(self) -> bool {
        self is Branch || self is CBranch || self is IBranch
    }

    pub fn is_branch(&self) -> (r: bool)
        ensures
            r == self.branches(),
    {
        matches!(self, FlowKind::Branch | FlowKind::CBranch | FlowKind::IBranch)
    }

    pub fn is_call(&self) -> (r: bool)
        ensures
            r == self.calls(),
    {
        matches!(
            self,
            FlowKind::Call | FlowKind::ICall | FlowKind::ServiceCall | FlowKind::SwitchCall
                | FlowKind::TailCallBranch
        )
    }

    pub fn is_conditional(&self) -> (r: bool)
        ensures
            r == (*self is CBranch),
    {
        matches!(self, FlowKind::CBranch)
    }

    pub fn is_fall_through(&self) -> (r: bool)
        ensures
            r == (*self is Fall),
    {
        matches!(self, FlowKind::Fall)
    }

    pub fn is_global(&self) -> (r: bool)
        ensures
            r == self.leaves(),
    {
        self.is_call() || self.is_return()
    }

    pub fn is_indirect(&self) -> (r: bool)
        ensures
            r == (*self is ICall || *self is IBranch),
    {
        matches!(self, FlowKind::ICall | FlowKind::IBranch)
    }

    pub fn is_return(&self) -> (r: bool)
        ensures
            r == (*self is Return),
    {
        matches!(self, FlowKind::Return)
    }

    pub fn is_switch(&self) -> (r: bool)
        ensures
            r == (*self is SwitchBranch || *self is SwitchCall),
    {
        matches!(self, FlowKind::SwitchBranch | FlowKind::SwitchCall)
    }
}

/// One way in which control gets from an address to another.
#[derive(Debug, Clone, Copy, PartialEq, Eq, PartialOrd, Ord, Hash, Structural)]
pub struct FlowTarget {
    pub from: Address,
    pub to: Address,
    pub kind: FlowKind,
}

impl FlowTarget {
    pub fn new<A: Into<Address>, B: Into<Address>>(from: A, to: B, kind: FlowKind) -> (target: Self)
        ensures
            A::obeys_into_spec() ==> target.from == from.into_spec(),
            B::obeys_into_spec() ==> target.to == to.into_spec(),
            target.kind == kind,
    {
        FlowTarget { from: from.into(), to: to.into(), kind }
    }

    /// The flow to a target of an instruction that leads to `to`, if it is of a known kind.
    pub fn from_insn_target(insn: &Insn, target: &InsnTarget, to: Address) -> (flow: Option<Self>)
        ensures
            flow is Some == target_flow(insn.falls_through(), *target) is Some,
            flow matches Some(f) ==> f == (FlowTarget {
                from: insn.address,
                to,
                kind: target_flow(insn.falls_through(), *target)->0,
            }),
    {
        match FlowKind::from_insn_target(insn, target) {
            Some(kind) => Some(FlowTarget { from: insn.address(), to, kind }),
            None => None,
        }
    }

    pub fn from(&self) -> (from: Address)
        ensures
            from == self.from,
    {
        self.from
    }

    pub fn to(&self) -> (to: Address)
        ensures
            to == self.to,
    {
        self.to
    }

    pub fn kind(&self) -> (kind: FlowKind)
        ensures
            kind == self.kind,
    {
        self.kind
    }
}

/// A list of flows.
#[derive(Debug)]
pub struct FlowTargets {
    pub targets: Vec<FlowTarget>,
}

impl FlowTargets {
    pub fn new(targets: Vec<FlowTarget>) -> (r: Self)
        ensures
            r.targets == targets,
    {
        FlowTargets { targets }
    }

    pub fn targets(&self) -> (targets: &[FlowTarget])
        ensures
            targets@ == self.targets@,
    {
        self.targets.as_slice()
    }
}

} // verus!
