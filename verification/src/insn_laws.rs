//! What the flags and flows of an instruction say of where its operations lead.
use vstd::prelude::*;

use crate::address::Address;
use crate::flags::InsnProperties;
use crate::flow::{target_flow, FlowKind, FlowTarget};
use crate::flow_laws::lemma_joined_flag;
use crate::insn::{
    address_after, first_call, flow_as_target, flows_of, target_flags, Insn, InsnError, InsnTarget,
    InsnView, RawPCodeFlow,
};
use crate::location::Location;
use crate::types::lemma_filter_holds;

verus! {

/// Whether one of the flows is as described.
pub open spec fn some_flow(
    flows: Seq<(u16, RawPCodeFlow)>,
    such: spec_fn(RawPCodeFlow) -> bool,
) -> bool {
    exists|k: int| 0 <= k < flows.len() && such((#[trigger] flows[k]).1)
}

/// Whether one of the targets gives a flag.
spec fn some_target(targets: Seq<(u16, InsnTarget)>, flag: u16) -> bool {
    exists|k: int| 0 <= k < targets.len() && (#[trigger] targets[k]).1.flags() & flag != 0
}

/// The flags of targets are those of each of them.
proof fn lemma_target_flag(targets: Seq<(u16, InsnTarget)>, flag: u16)
    ensures
        target_flags(targets) & flag != 0 <==> some_target(targets, flag),
    decreases targets.len(),
{
    if targets.len() == 0 {
        assert(0u16 & flag == 0) by (bit_vector);
    } else {
        let rest = targets.drop_last();
        lemma_target_flag(rest, flag);
        lemma_joined_flag(target_flags(rest), targets.last().1.flags(), flag);
        if some_target(rest, flag) {
            let k = choose|k: int|
                0 <= k < rest.len() && (#[trigger] rest[k]).1.flags() & flag != 0;
            assert(targets[k] == rest[k]);
        }
        if some_target(targets, flag) {
            let k = choose|k: int|
                0 <= k < targets.len() && (#[trigger] targets[k]).1.flags() & flag != 0;
            if k < rest.len() {
                assert(rest[k] == targets[k]);
            }
        }
        if targets.last().1.flags() & flag != 0 {
            assert(targets[targets.len() - 1].1.flags() & flag != 0);
        }
    }
}

/// Whether a target gives the flags that it should.
spec fn flags_fit(target: InsnTarget) -> bool {
    &&& target.flags() & InsnProperties::FALL_THROUGH != 0 <==> target is IntraBlk
        && target.falls()
    &&& target.flags() & InsnProperties::BRANCH != 0 <==> (target is IntraBlk && !target.falls())
        || target is InterBlk || target is Unresolved
    &&& target.flags() & InsnProperties::CALL != 0 <==> target is InterSub
        || target is InterSubIndirect
    &&& target.flags() & InsnProperties::RETURN != 0 <==> target is InterRet
    &&& target.flags() & InsnProperties::INDIRECT != 0 <==> target is Unresolved
        || target is InterSubIndirect || (target is InterRet && target->InterRet_0 is None)
    &&& target.flags() & InsnProperties::NOP == 0
    &&& target.flags() & InsnProperties::FLOW_RESOLVED == 0
}

/// Which flags the sets of flags have that targets give.
proof fn lemma_flags_of_target(target: InsnTarget)
    ensures
        flags_fit(target),
        InsnProperties::NOP & InsnProperties::FALL_THROUGH == 0,
        InsnProperties::NOP & InsnProperties::BRANCH == 0,
        InsnProperties::NOP & InsnProperties::CALL == 0,
        InsnProperties::NOP & InsnProperties::RETURN == 0,
        InsnProperties::NOP & InsnProperties::INDIRECT == 0,
        InsnProperties::NOP & InsnProperties::NOP != 0,
        InsnProperties::FLOW_RESOLVED & InsnProperties::FALL_THROUGH == 0,
        InsnProperties::FLOW_RESOLVED & InsnProperties::BRANCH == 0,
        InsnProperties::FLOW_RESOLVED & InsnProperties::CALL == 0,
        InsnProperties::FLOW_RESOLVED & InsnProperties::RETURN == 0,
        InsnProperties::FLOW_RESOLVED & InsnProperties::INDIRECT == 0,
        InsnProperties::FLOW_RESOLVED & InsnProperties::NOP == 0,
        InsnProperties::FLOW_RESOLVED & InsnProperties::FLOW_RESOLVED != 0,
        0u16 & InsnProperties::NOP == 0,
        0u16 & InsnProperties::FALL_THROUGH == 0,
        0u16 & InsnProperties::BRANCH == 0,
        0u16 & InsnProperties::CALL == 0,
        0u16 & InsnProperties::RETURN == 0,
        0u16 & InsnProperties::INDIRECT == 0,
{
    assert(0x2u16 | 0x10 == 0x12
        && 0x4u16 | 0x10 == 0x14
        && 0x8u16 | 0x10 == 0x18
        && 0x0u16 & 0x1 == 0x0
        && 0x0u16 & 0x2 == 0x0
        && 0x0u16 & 0x4 == 0x0
        && 0x0u16 & 0x8 == 0x0
        && 0x0u16 & 0x10 == 0x0
        && 0x0u16 & 0x100 == 0x0
        && 0x0u16 & 0x2000 == 0x0
        && 0x1u16 & 0x1 == 0x1
        && 0x1u16 & 0x2 == 0x0
        && 0x1u16 & 0x4 == 0x0
        && 0x1u16 & 0x8 == 0x0
        && 0x1u16 & 0x10 == 0x0
        && 0x1u16 & 0x100 == 0x0
        && 0x1u16 & 0x2000 == 0x0
        && 0x2u16 & 0x1 == 0x0
        && 0x2u16 & 0x2 == 0x2
        && 0x2u16 & 0x4 == 0x0
        && 0x2u16 & 0x8 == 0x0
        && 0x2u16 & 0x10 == 0x0
        && 0x2u16 & 0x100 == 0x0
        && 0x2u16 & 0x2000 == 0x0
        && 0x4u16 & 0x1 == 0x0
        && 0x4u16 & 0x2 == 0x0
        && 0x4u16 & 0x4 == 0x4
        && 0x4u16 & 0x8 == 0x0
        && 0x4u16 & 0x10 == 0x0
        && 0x4u16 & 0x100 == 0x0
        && 0x4u16 & 0x2000 == 0x0
        && 0x8u16 & 0x1 == 0x0
        && 0x8u16 & 0x2 == 0x0
        && 0x8u16 & 0x4 == 0x0
        && 0x8u16 & 0x8 == 0x8
        && 0x8u16 & 0x10 == 0x0
        && 0x8u16 & 0x100 == 0x0
        && 0x8u16 & 0x2000 == 0x0
        && 0x12u16 & 0x1 == 0x0
        && 0x12u16 & 0x2 == 0x2
        && 0x12u16 & 0x4 == 0x0
        && 0x12u16 & 0x8 == 0x0
        && 0x12u16 & 0x10 == 0x10
        && 0x12u16 & 0x100 == 0x0
        && 0x12u16 & 0x2000 == 0x0
        && 0x14u16 & 0x1 == 0x0
        && 0x14u16 & 0x2 == 0x0
        && 0x14u16 & 0x4 == 0x4
        && 0x14u16 & 0x8 == 0x0
        && 0x14u16 & 0x10 == 0x10
        && 0x14u16 & 0x100 == 0x0
        && 0x14u16 & 0x2000 == 0x0
        && 0x18u16 & 0x1 == 0x0
        && 0x18u16 & 0x2 == 0x0
        && 0x18u16 & 0x4 == 0x0
        && 0x18u16 & 0x8 == 0x8
        && 0x18u16 & 0x10 == 0x10
        && 0x18u16 & 0x100 == 0x0
        && 0x18u16 & 0x2000 == 0x0
        && 0x100u16 & 0x1 == 0x0
        && 0x100u16 & 0x2 == 0x0
        && 0x100u16 & 0x4 == 0x0
        && 0x100u16 & 0x8 == 0x0
        && 0x100u16 & 0x10 == 0x0
        && 0x100u16 & 0x100 == 0x100
        && 0x100u16 & 0x2000 == 0x0
        && 0x2000u16 & 0x1 == 0x0
        && 0x2000u16 & 0x2 == 0x0
        && 0x2000u16 & 0x4 == 0x0
        && 0x2000u16 & 0x8 == 0x0
        && 0x2000u16 & 0x10 == 0x0
        && 0x2000u16 & 0x100 == 0x0
        && 0x2000u16 & 0x2000 == 0x2000) by (bit_vector);
}

/// The flows of targets are those of each of them that leads somewhere.
proof fn lemma_flow_of_target(
    address: Address,
    falls_through: bool,
    targets: Seq<(u16, InsnTarget)>,
    flow: FlowTarget,
)
    ensures
        flows_of(address, falls_through, targets).contains(flow) <==> flow.from == address
            && exists|k: int|
            0 <= k < targets.len() && (#[trigger] targets[k]).1.leads_to() is Some
                && (targets[k].1.leads_to()->0).1 == flow.to && target_flow(
                falls_through,
                targets[k].1,
            ) == Some(flow.kind),
    decreases targets.len(),
{
    let all = flows_of(address, falls_through, targets);
    if targets.len() > 0 {
        let rest = targets.drop_last();
        let before = flows_of(address, falls_through, rest);
        lemma_flow_of_target(address, falls_through, rest, flow);
        let last = targets.last().1;
        match (last.leads_to(), target_flow(falls_through, last)) {
            (Some((_, to)), Some(kind)) => {
                crate::body::lemma_push_contains(
                    before,
                    FlowTarget { from: address, to, kind },
                    flow,
                );
            },
            _ => {},
        }
        if before.contains(flow) {
            let k = choose|k: int|
                0 <= k < rest.len() && (#[trigger] rest[k]).1.leads_to() is Some
                    && (rest[k].1.leads_to()->0).1 == flow.to && target_flow(falls_through, rest[k].1)
                    == Some(flow.kind);
            assert(targets[k] == rest[k]);
        }
        if flow.from == address && exists|k: int|
            0 <= k < targets.len() && (#[trigger] targets[k]).1.leads_to() is Some
                && (targets[k].1.leads_to()->0).1 == flow.to && target_flow(
                falls_through,
                targets[k].1,
            ) == Some(flow.kind) {
            let k = choose|k: int|
                0 <= k < targets.len() && (#[trigger] targets[k]).1.leads_to() is Some
                    && (targets[k].1.leads_to()->0).1 == flow.to && target_flow(
                    falls_through,
                    targets[k].1,
                ) == Some(flow.kind);
            if k < rest.len() {
                assert(rest[k] == targets[k]);
                assert(before.contains(flow));
            }
        }
        if all.contains(flow) && !before.contains(flow) {
            assert(targets[targets.len() - 1].1 == last);
        }
    }
}

/// The flags of an instruction say what its operations do. It calls only where an operation
/// is a call, and then to a place that is unknown or the beginning of an instruction. It
/// branches where an operation does to an unknown place or to another instruction, and goes on
/// where one falls through to another. It returns where one returns. It is indirect where one
/// leads to an unknown place.
pub proof fn law_flags_say_where_operations_lead(
    address: Address,
    size: usize,
    operation_count: usize,
    flows: Vec<(u16, RawPCodeFlow)>,
    insn: Insn,
)
    requires
        call_ensures(
            Insn::from_resolved_flow,
            (address, size, operation_count, &flows),
            Ok::<Insn, InsnError>(insn),
        ),
    ensures
        insn.address == address,
        insn.size == size,
        insn.properties.bits & InsnProperties::CALL != 0 <==> some_flow(
            flows@,
            |f: RawPCodeFlow|
                match f {
                    RawPCodeFlow::Call(Some(location)) => location.position == 0,
                    RawPCodeFlow::Call(None) => true,
                    _ => false,
                },
        ),
        insn.properties.bits & InsnProperties::BRANCH != 0 <==> some_flow(
            flows@,
            |f: RawPCodeFlow|
                match f {
                    RawPCodeFlow::Branch(Some(location)) => location.address != address,
                    RawPCodeFlow::Branch(None) => true,
                    _ => false,
                },
        ),
        insn.properties.bits & InsnProperties::FALL_THROUGH != 0 <==> some_flow(
            flows@,
            |f: RawPCodeFlow|
                match f {
                    RawPCodeFlow::FallThrough(location) => location.address != address,
                    _ => false,
                },
        ),
        insn.properties.bits & InsnProperties::RETURN != 0 <==> some_flow(
            flows@,
            |f: RawPCodeFlow| f is Return,
        ),
        insn.properties.bits & InsnProperties::INDIRECT != 0 <==> some_flow(
            flows@,
            |f: RawPCodeFlow|
                match f {
                    RawPCodeFlow::Branch(None) => true,
                    RawPCodeFlow::Call(None) => true,
                    RawPCodeFlow::Return(None) => true,
                    _ => false,
                },
        ),
        insn.properties.bits & InsnProperties::NOP != 0 <==> operation_count == 0,
        insn.properties.bits & InsnProperties::FLOW_RESOLVED != 0,
{
    let targets = insn.targets@;
    let nop: u16 = if operation_count == 0 {
        InsnProperties::NOP
    } else {
        0
    };
    lemma_flags_of_target(InsnTarget::Intrinsic);
    assert forall|k: int| 0 <= k < targets.len() implies flags_fit((#[trigger] targets[k]).1) by {
        lemma_flags_of_target(targets[k].1);
    }
    lemma_resolved_flag(
        flows@,
        targets,
        nop,
        InsnProperties::CALL,
        |f: RawPCodeFlow|
            match f {
                RawPCodeFlow::Call(Some(location)) => location.position == 0,
                RawPCodeFlow::Call(None) => true,
                _ => false,
            },
    );
    lemma_resolved_flag(
        flows@,
        targets,
        nop,
        InsnProperties::BRANCH,
        |f: RawPCodeFlow|
            match f {
                RawPCodeFlow::Branch(Some(location)) => location.address != address,
                RawPCodeFlow::Branch(None) => true,
                _ => false,
            },
    );
    lemma_resolved_flag(
        flows@,
        targets,
        nop,
        InsnProperties::FALL_THROUGH,
        |f: RawPCodeFlow|
            match f {
                RawPCodeFlow::FallThrough(location) => location.address != address,
                _ => false,
            },
    );
    lemma_resolved_flag(
        flows@,
        targets,
        nop,
        InsnProperties::RETURN,
        |f: RawPCodeFlow| f is Return,
    );
    lemma_resolved_flag(
        flows@,
        targets,
        nop,
        InsnProperties::INDIRECT,
        |f: RawPCodeFlow|
            match f {
                RawPCodeFlow::Branch(None) => true,
                RawPCodeFlow::Call(None) => true,
                RawPCodeFlow::Return(None) => true,
                _ => false,
            },
    );
    lemma_joined_flag(target_flags(targets), nop, InsnProperties::NOP);
    lemma_joined_flag(
        target_flags(targets) | nop,
        InsnProperties::FLOW_RESOLVED,
        InsnProperties::NOP,
    );
    lemma_joined_flag(
        target_flags(targets) | nop,
        InsnProperties::FLOW_RESOLVED,
        InsnProperties::FLOW_RESOLVED,
    );
    lemma_target_flag(targets, InsnProperties::NOP);
}

/// The flags of an instruction, one by one.
proof fn lemma_resolved_flag(
    flows: Seq<(u16, RawPCodeFlow)>,
    targets: Seq<(u16, InsnTarget)>,
    nop: u16,
    flag: u16,
    such: spec_fn(RawPCodeFlow) -> bool,
)
    requires
        targets.len() == flows.len(),
        nop & flag == 0,
        InsnProperties::FLOW_RESOLVED & flag == 0,
        forall|k: int|
            0 <= k < targets.len() ==> ((#[trigger] targets[k]).1.flags() & flag != 0 <==> such(
                flows[k].1,
            )),
    ensures
        (target_flags(targets) | nop | InsnProperties::FLOW_RESOLVED) & flag != 0 <==> some_flow(
            flows,
            such,
        ),
{
    lemma_target_flag(targets, flag);
    lemma_joined_flag(target_flags(targets), nop, flag);
    lemma_joined_flag(target_flags(targets) | nop, InsnProperties::FLOW_RESOLVED, flag);
    if some_target(targets, flag) {
        let k = choose|k: int|
            0 <= k < targets.len() && (#[trigger] targets[k]).1.flags() & flag != 0;
        assert(such(flows[k].1));
    }
    if some_flow(flows, such) {
        let k = choose|k: int| 0 <= k < flows.len() && such((#[trigger] flows[k]).1);
        assert(targets[k].1.flags() & flag != 0);
    }
}

/// Where the flows of an instruction lead, to an address by a kind of flow. It goes on to
/// where an operation falls through to, if that is the beginning of another instruction. It
/// branches to where an operation does, if that is another instruction, and conditionally so
/// where it may go on as well; of the one behind it, only to its beginning. It calls where an
/// operation calls the beginning of an instruction and returns where one returns to a known
/// address. There are no flows else.
pub proof fn law_flows_follow_operations(
    address: Address,
    size: usize,
    operation_count: usize,
    flows: Vec<(u16, RawPCodeFlow)>,
    insn: Insn,
    flow: FlowTarget,
)
    requires
        call_ensures(
            Insn::from_resolved_flow,
            (address, size, operation_count, &flows),
            Ok::<Insn, InsnError>(insn),
        ),
    ensures
        insn@.flows().contains(flow) <==> flow.from == address && match flow.kind {
            FlowKind::Fall => some_flow(
                flows@,
                |f: RawPCodeFlow|
                    f matches RawPCodeFlow::FallThrough(location) && location.address != address
                        && location.position == 0 && location.address == flow.to,
            ),
            FlowKind::Branch => insn.properties.bits & InsnProperties::FALL_THROUGH == 0
                && branches_to(flows@, address, size, flow.to),
            FlowKind::CBranch => insn.properties.bits & InsnProperties::FALL_THROUGH != 0
                && branches_to(flows@, address, size, flow.to),
            FlowKind::Call => some_flow(
                flows@,
                |f: RawPCodeFlow|
                    f matches RawPCodeFlow::Call(Some(location)) && location.position == 0
                        && location.address == flow.to,
            ),
            FlowKind::Return => some_flow(
                flows@,
                |f: RawPCodeFlow| f == RawPCodeFlow::Return(Some(flow.to)),
            ),
            _ => false,
        },
{
    let targets = insn.targets@;
    let falls = insn@.falls_through();
    let bits = insn.properties.bits;
    lemma_one_flag(bits);
    lemma_flow_of_target(address, falls, targets, flow);
    if insn@.flows().contains(flow) {
        let k = choose|k: int|
            0 <= k < targets.len() && (#[trigger] targets[k]).1.leads_to() is Some
                && (targets[k].1.leads_to()->0).1 == flow.to && target_flow(falls, targets[k].1)
                == Some(flow.kind);
        let f = flows@[k].1;
        assert(targets[k].1 == flow_as_target(
            address,
            address_after(address, size as int),
            operation_count,
            flows@[k].0,
            f,
        ));
    }
    assert forall|k: int| 0 <= k < flows@.len() implies targets[k].1 == flow_as_target(
        address,
        address_after(address, size as int),
        operation_count,
        (#[trigger] flows@[k]).0,
        flows@[k].1,
    ) by {}
}

/// Whether a branch of an operation leads to another instruction: to its beginning where it is
/// the one behind, to anywhere in it where it is not.
pub open spec fn branches_to(
    flows: Seq<(u16, RawPCodeFlow)>,
    address: Address,
    size: usize,
    to: Address,
) -> bool {
    some_flow(
        flows,
        |f: RawPCodeFlow|
            f matches RawPCodeFlow::Branch(Some(location)) && location.address == to && to
                != address && (to == address_after(address, size as int) ==> location.position
                == 0),
    )
}

/// A set has a flag or not.
proof fn lemma_one_flag(bits: u16)
    ensures
        bits & InsnProperties::FALL_THROUGH == InsnProperties::FALL_THROUGH <==> bits
            & InsnProperties::FALL_THROUGH != 0,
{
    assert(bits & 0x1 == 0x1 <==> bits & 0x1 != 0) by (bit_vector);
}

/// The first call of flows is where the first of them leads that is a call.
pub proof fn law_first_call_is_first(flows: Seq<FlowTarget>, k: int)
    requires
        0 <= k < flows.len(),
    ensures
        flows[k].kind.calls() && (forall|i: int| 0 <= i < k ==> !(#[trigger] flows[i]).kind.calls())
            ==> first_call(flows) == Some(flows[k].to),
        (forall|i: int| 0 <= i < flows.len() ==> !(#[trigger] flows[i]).kind.calls())
            ==> first_call(flows) is None,
    decreases flows.len(),
{
    let rest = flows.drop_first();
    assert(flows.first() == flows[0]);
    assert forall|i: int| 0 <= i < rest.len() implies #[trigger] rest[i] == flows[i + 1] by {}
    if rest.len() > 0 {
        if k > 0 {
            law_first_call_is_first(rest, k - 1);
        } else {
            law_first_call_is_first(rest, 0);
        }
    }
}

/// An instruction whose only flow is a branch to a known location at another address branches
/// and does not call, return or go on. Its one flow, where the location is the beginning of an
/// instruction, is an unconditional branch there, and it has no call target.
pub proof fn law_lone_branch_is_no_call(
    address: Address,
    size: usize,
    operation_count: usize,
    flows: Vec<(u16, RawPCodeFlow)>,
    insn: Insn,
    location: Location,
)
    requires
        call_ensures(
            Insn::from_resolved_flow,
            (address, size, operation_count, &flows),
            Ok::<Insn, InsnError>(insn),
        ),
        flows@.len() == 1,
        flows@[0].1 == RawPCodeFlow::Branch(Some(location)),
        location.address != address,
    ensures
        insn.properties.bits & InsnProperties::BRANCH != 0,
        insn.properties.bits & InsnProperties::CALL == 0,
        insn.properties.bits & InsnProperties::RETURN == 0,
        insn.properties.bits & InsnProperties::FALL_THROUGH == 0,
        location.position == 0 ==> insn@.flows() == seq![
            FlowTarget { from: address, to: location.address, kind: FlowKind::Branch },
        ],
        first_call(insn@.flows()) is None,
{
    let targets = insn.targets@;
    law_flags_say_where_operations_lead(address, size, operation_count, flows, insn);
    assert(flows@[0].1 is Branch);
    lemma_one_flag(insn.properties.bits);
    assert(targets.len() == 1);
    assert(targets[0] == targets.last());
    assert(targets.drop_last() =~= Seq::empty());
    assert(targets[0].1 == flow_as_target(
        address,
        address_after(address, size as int),
        operation_count,
        flows@[0].0,
        flows@[0].1,
    ));
    let before = flows_of(address, insn@.falls_through(), targets.drop_last());
    assert(before =~= Seq::empty());
    if insn@.flows().len() > 0 {
        law_first_call_is_first(insn@.flows(), 0);
    }
    if location.position == 0 {
        assert(insn@.flows() =~= seq![
            FlowTarget { from: address, to: location.address, kind: FlowKind::Branch },
        ]);
    }
}

/// The flows of targets come one after another.
proof fn lemma_flows_pushed(
    address: Address,
    falls: bool,
    targets: Seq<(u16, InsnTarget)>,
    target: (u16, InsnTarget),
)
    ensures
        flows_of(address, falls, targets.push(target)) == match (
            target.1.leads_to(),
            target_flow(falls, target.1),
        ) {
            (Some((_, to)), Some(kind)) => flows_of(address, falls, targets).push(
                FlowTarget { from: address, to, kind },
            ),
            _ => flows_of(address, falls, targets),
        },
        target_flags(targets.push(target)) == target_flags(targets) | target.1.flags(),
{
    assert(targets.push(target).drop_last() =~= targets);
}

/// The flags of an instruction with one or two targets.
proof fn lemma_made_flags(insn: InsnView, first: (u16, InsnTarget), flag: u16)
    requires
        insn.targets.len() > 0,
        insn.targets[0] == first,
        insn.properties.bits == target_flags(insn.targets) | InsnProperties::FLOW_RESOLVED,
        InsnProperties::FLOW_RESOLVED & flag == 0,
    ensures
        insn.targets.len() == 1 ==> (insn.properties.bits & flag != 0 <==> first.1.flags() & flag
            != 0),
        insn.targets.len() == 2 ==> (insn.properties.bits & flag != 0 <==> first.1.flags() & flag
            != 0 || insn.targets[1].1.flags() & flag != 0),
{
    let targets = insn.targets;
    lemma_target_flag(targets, flag);
    lemma_joined_flag(target_flags(targets), InsnProperties::FLOW_RESOLVED, flag);
    if first.1.flags() & flag != 0 {
        assert(targets[0].1.flags() & flag != 0);
    }
    if targets.len() == 2 && targets[1].1.flags() & flag != 0 {
        assert(some_target(targets, flag));
    }
}

/// What an instruction with one or two targets does.
proof fn lemma_made_insn(insn: InsnView)
    requires
        1 <= insn.targets.len() <= 2,
        insn.properties.bits == target_flags(insn.targets) | InsnProperties::FLOW_RESOLVED,
    ensures
        flags_fit(insn.targets[0].1),
        flags_fit(insn.targets.last().1),
        forall|flag: u16|
            InsnProperties::FLOW_RESOLVED & flag == 0 ==> (#[trigger] (insn.properties.bits & flag)
                != 0 <==> insn.targets[0].1.flags() & flag != 0 || insn.targets.last().1.flags()
                & flag != 0),
        insn.falls_through() <==> insn.properties.bits & InsnProperties::FALL_THROUGH != 0,
        InsnProperties::FLOW_RESOLVED & InsnProperties::FALL_THROUGH == 0,
        InsnProperties::FLOW_RESOLVED & InsnProperties::BRANCH == 0,
        InsnProperties::FLOW_RESOLVED & InsnProperties::CALL == 0,
        InsnProperties::FLOW_RESOLVED & InsnProperties::RETURN == 0,
        InsnProperties::FLOW_RESOLVED & InsnProperties::INDIRECT == 0,
        insn.targets.len() == 1 ==> insn.targets == Seq::empty().push(insn.targets[0]),
        insn.targets.len() == 2 ==> insn.targets == Seq::empty().push(insn.targets[0]).push(
            insn.targets[1],
        ),
{
    lemma_flags_of_target(insn.targets[0].1);
    lemma_flags_of_target(insn.targets.last().1);
    lemma_one_flag(insn.properties.bits);
    assert forall|flag: u16| InsnProperties::FLOW_RESOLVED & flag == 0 implies (#[trigger] (
    insn.properties.bits & flag) != 0 <==> insn.targets[0].1.flags() & flag != 0
        || insn.targets.last().1.flags() & flag != 0) by {
        lemma_made_flags(insn, insn.targets[0], flag);
    }
    if insn.targets.len() == 1 {
        assert(insn.targets =~= Seq::empty().push(insn.targets[0]));
    } else {
        assert(insn.targets =~= Seq::empty().push(insn.targets[0]).push(insn.targets[1]));
    }
}

/// A direct call calls its target and goes on behind itself, and does nothing else.
pub proof fn law_direct_call_calls(address: Address, size: usize, target: Address, insn: Insn)
    requires
        call_ensures(
            Insn::from_direct_call,
            (address, size, target),
            Ok::<Insn, InsnError>(insn),
        ),
    ensures
        insn.address == address && insn.size == size,
        insn.properties.bits & InsnProperties::CALL != 0,
        insn.properties.bits & InsnProperties::FALL_THROUGH != 0,
        insn.properties.bits & InsnProperties::BRANCH == 0,
        insn.properties.bits & InsnProperties::RETURN == 0,
        insn.properties.bits & InsnProperties::INDIRECT == 0,
        insn@.flows() == seq![
            FlowTarget { from: address, to: target, kind: FlowKind::Call },
            FlowTarget {
                from: address,
                to: address_after(address, size as int),
                kind: FlowKind::Fall,
            },
        ],
        first_call(insn@.flows()) == Some(target),
{
    let (first, second) = (insn.targets@[0], insn.targets@[1]);
    lemma_made_insn(insn@);
    lemma_flows_pushed(address, true, Seq::empty(), first);
    lemma_flows_pushed(address, true, Seq::empty().push(first), second);
    assert(flows_of(address, true, Seq::empty()) =~= Seq::empty());
    assert(insn@.flows() =~= seq![
        FlowTarget { from: address, to: target, kind: FlowKind::Call },
        FlowTarget { from: address, to: address_after(address, size as int), kind: FlowKind::Fall },
    ]);
    law_first_call_is_first(insn@.flows(), 0);
}

/// A direct branch goes to its target, and behind itself if it is conditional.
pub proof fn law_direct_branch_branches(
    address: Address,
    size: usize,
    target: Address,
    conditional: bool,
    insn: Insn,
)
    requires
        call_ensures(
            Insn::from_direct_branch,
            (address, size, target, conditional),
            Ok::<Insn, InsnError>(insn),
        ),
    ensures
        insn.address == address && insn.size == size,
        insn.properties.bits & InsnProperties::BRANCH != 0,
        insn.properties.bits & InsnProperties::FALL_THROUGH != 0 <==> conditional,
        insn.properties.bits & InsnProperties::CALL == 0,
        insn.properties.bits & InsnProperties::RETURN == 0,
        insn.properties.bits & InsnProperties::INDIRECT == 0,
        insn@.flows() == if conditional {
            seq![
                FlowTarget { from: address, to: target, kind: FlowKind::CBranch },
                FlowTarget {
                    from: address,
                    to: address_after(address, size as int),
                    kind: FlowKind::Fall,
                },
            ]
        } else {
            seq![FlowTarget { from: address, to: target, kind: FlowKind::Branch }]
        },
        first_call(insn@.flows()) is None,
{
    let first = insn.targets@[0];
    lemma_made_insn(insn@);
    lemma_flows_pushed(address, conditional, Seq::empty(), first);
    assert(flows_of(address, conditional, Seq::empty()) =~= Seq::empty());
    if conditional {
        lemma_flows_pushed(address, true, Seq::empty().push(first), insn.targets@[1]);
        assert(insn@.flows() =~= seq![
            FlowTarget { from: address, to: target, kind: FlowKind::CBranch },
            FlowTarget {
                from: address,
                to: address_after(address, size as int),
                kind: FlowKind::Fall,
            },
        ]);
    } else {
        assert(insn@.flows() =~= seq![
            FlowTarget { from: address, to: target, kind: FlowKind::Branch },
        ]);
    }
    law_first_call_is_first(insn@.flows(), 0);
}

/// An indirect branch branches, an indirect call calls and goes on, and a return returns; each
/// is indirect, and none of them says where it leads, but for the call's going on.
pub proof fn law_indirect_flow_leads_nowhere_known(
    address: Address,
    size: usize,
    branch: Insn,
    call: Insn,
    ret: Insn,
)
    requires
        call_ensures(
            Insn::from_indirect_branch,
            (address, size),
            Ok::<Insn, InsnError>(branch),
        ),
        call_ensures(Insn::from_indirect_call, (address, size), Ok::<Insn, InsnError>(call)),
        call_ensures(Insn::from_return, (address, size), Ok::<Insn, InsnError>(ret)),
    ensures
        branch.properties.bits & InsnProperties::BRANCH != 0,
        branch.properties.bits & InsnProperties::CALL == 0,
        branch.properties.bits & InsnProperties::RETURN == 0,
        branch.properties.bits & InsnProperties::FALL_THROUGH == 0,
        branch.properties.bits & InsnProperties::INDIRECT != 0,
        branch@.flows().len() == 0,
        call.properties.bits & InsnProperties::CALL != 0,
        call.properties.bits & InsnProperties::BRANCH == 0,
        call.properties.bits & InsnProperties::RETURN == 0,
        call.properties.bits & InsnProperties::FALL_THROUGH != 0,
        call.properties.bits & InsnProperties::INDIRECT != 0,
        call@.flows() == seq![
            FlowTarget {
                from: address,
                to: address_after(address, size as int),
                kind: FlowKind::Fall,
            },
        ],
        ret.properties.bits & InsnProperties::RETURN != 0,
        ret.properties.bits & InsnProperties::CALL == 0,
        ret.properties.bits & InsnProperties::BRANCH == 0,
        ret.properties.bits & InsnProperties::FALL_THROUGH == 0,
        ret.properties.bits & InsnProperties::INDIRECT != 0,
        ret@.flows().len() == 0,
{
    lemma_made_insn(branch@);
    lemma_made_insn(call@);
    lemma_made_insn(ret@);
    assert(flows_of(address, true, Seq::empty()) =~= Seq::empty());
    assert(flows_of(address, false, Seq::empty()) =~= Seq::empty());
    lemma_flows_pushed(address, false, Seq::empty(), branch.targets@[0]);
    lemma_flows_pushed(address, false, Seq::empty(), ret.targets@[0]);
    lemma_flows_pushed(address, true, Seq::empty(), call.targets@[0]);
    lemma_flows_pushed(address, true, Seq::empty().push(call.targets@[0]), call.targets@[1]);
    assert(call@.flows() =~= seq![
        FlowTarget { from: address, to: address_after(address, size as int), kind: FlowKind::Fall },
    ]);
}

/// What a target gives an instruction of flags agrees with the kind of flow to it: it calls
/// where the flow is a call, returns where it returns, branches where it branches and goes on
/// where it falls through; and a target is beyond the function where the flow leaves it.
pub proof fn law_flags_agree_with_flows(falls: bool, target: InsnTarget)
    ensures
        target_flow(falls, target) matches Some(kind) ==> {
            &&& target.flags() & InsnProperties::CALL != 0 <==> kind is Call || kind is ICall
            &&& target.flags() & InsnProperties::RETURN != 0 <==> kind is Return
            &&& target.flags() & InsnProperties::BRANCH != 0 <==> kind is Branch
                || kind is CBranch
            &&& target.flags() & InsnProperties::FALL_THROUGH != 0 <==> kind is Fall
            &&& kind is CBranch ==> falls
            &&& kind is Branch ==> !falls
            &&& kind is ServiceCall <==> target is Intrinsic
            &&& target.leads_to() matches Some((side, to)) ==> (side is Global
                <==> kind.leaves()) && target.named() == Some(to)
        },
        target_flow(falls, target) is None ==> target.leads_to() is None,
{
    lemma_flags_of_target(target);
}

/// Making the destination of an indirect call known adds the calls to it where there were
/// indirect calls to nowhere, and leaves all other flows and all flags as they were.
pub proof fn law_known_destination_adds_calls(insn: InsnView, to: Address, flow: FlowTarget)
    requires
        insn.properties.bits & InsnProperties::FALL_THROUGH != 0 <==> target_flags(insn.targets)
            & InsnProperties::FALL_THROUGH != 0,
    ensures
        insn.calling(to).address == insn.address && insn.calling(to).size == insn.size,
        insn.calling(to).flows().contains(flow) <==> insn.flows().contains(flow) || (flow
            == FlowTarget { from: insn.address, to, kind: FlowKind::ICall } && exists|k: int|
            0 <= k < insn.targets.len() && (#[trigger] insn.targets[k]).1
                == InsnTarget::InterSubIndirect(None)),
{
    let after = insn.calling(to);
    let flag = InsnProperties::FALL_THROUGH;
    lemma_refreshed_fall(insn, after.targets);
    lemma_target_flag(insn.targets, flag);
    lemma_target_flag(after.targets, flag);
    assert forall|k: int| 0 <= k < insn.targets.len() implies (#[trigger] insn.targets[k]).1.flags()
        == after.targets[k].1.flags() by {}
    assert(some_target(insn.targets, flag) <==> some_target(after.targets, flag)) by {
        if some_target(insn.targets, flag) {
            let k = choose|k: int|
                0 <= k < insn.targets.len() && (#[trigger] insn.targets[k]).1.flags() & flag != 0;
            assert(after.targets[k].1.flags() & flag != 0);
        }
        if some_target(after.targets, flag) {
            let k = choose|k: int|
                0 <= k < after.targets.len() && (#[trigger] after.targets[k]).1.flags() & flag != 0;
            assert(insn.targets[k].1.flags() & flag != 0);
        }
    }
    lemma_one_flag(insn.properties.bits);
    let falls = insn.falls_through();
    lemma_flow_of_target(insn.address, falls, insn.targets, flow);
    lemma_flow_of_target(insn.address, falls, after.targets, flow);
    if insn.flows().contains(flow) {
        let k = choose|k: int|
            0 <= k < insn.targets.len() && (#[trigger] insn.targets[k]).1.leads_to() is Some && (
            insn.targets[k].1.leads_to()->0).1 == flow.to && target_flow(falls, insn.targets[k].1)
                == Some(flow.kind);
        assert(after.targets[k] == insn.targets[k]);
    }
    if after.flows().contains(flow) {
        let k = choose|k: int|
            0 <= k < after.targets.len() && (#[trigger] after.targets[k]).1.leads_to() is Some && (
            after.targets[k].1.leads_to()->0).1 == flow.to && target_flow(falls, after.targets[k].1)
                == Some(flow.kind);
        if insn.targets[k].1 != InsnTarget::InterSubIndirect(None) {
            assert(after.targets[k] == insn.targets[k]);
        }
    }
    if flow == (FlowTarget { from: insn.address, to, kind: FlowKind::ICall }) && exists|k: int|
        0 <= k < insn.targets.len() && (#[trigger] insn.targets[k]).1
            == InsnTarget::InterSubIndirect(None) {
        let k = choose|k: int|
            0 <= k < insn.targets.len() && (#[trigger] insn.targets[k]).1
                == InsnTarget::InterSubIndirect(None);
        assert(after.targets[k].1 == InsnTarget::InterSubIndirect(Some(to)));
    }
}

/// Whether an instruction goes on after its flags were taken from targets.
proof fn lemma_refreshed_fall(insn: InsnView, targets: Seq<(u16, InsnTarget)>)
    ensures
        insn.with_targets(targets).falls_through() <==> target_flags(targets)
            & InsnProperties::FALL_THROUGH != 0,
{
    let (flags, bits) = (target_flags(targets), insn.properties.bits);
    assert((flags | (bits & !0xeu16 & !0x1u16)) & 0x1 == 0x1 <==> flags & 0x1 != 0) by (bit_vector);
}

/// An instruction that falls through no more goes on nowhere: what it falls through to is gone
/// from its flows, its branches are unconditional, and every other flow is as it was.
pub proof fn law_removed_fall_through_is_gone(insn: InsnView, flow: FlowTarget)
    ensures
        insn.without_fall_through().address == insn.address,
        insn.without_fall_through().size == insn.size,
        !insn.without_fall_through().falls_through(),
        insn.without_fall_through().flows().contains(flow) <==> match flow.kind {
            FlowKind::Fall => false,
            FlowKind::CBranch => false,
            FlowKind::Branch => insn.flows().contains(
                FlowTarget {
                    kind: if insn.falls_through() {
                        FlowKind::CBranch
                    } else {
                        FlowKind::Branch
                    },
                    ..flow
                },
            ),
            _ => insn.flows().contains(flow),
        },
{
    let keep = |t: (u16, InsnTarget)| !t.1.falls();
    let after = insn.without_fall_through();
    let flag = InsnProperties::FALL_THROUGH;
    let before = FlowTarget {
        kind: if flow.kind is Branch && insn.falls_through() {
            FlowKind::CBranch
        } else {
            flow.kind
        },
        ..flow
    };
    assert forall|t: (u16, InsnTarget)| #[trigger]
        after.targets.contains(t) <==> insn.targets.contains(t) && !t.1.falls() by {
        lemma_filter_holds(insn.targets, keep, t);
    }
    lemma_refreshed_fall(insn, after.targets);
    lemma_target_flag(after.targets, flag);
    if some_target(after.targets, flag) {
        let k = choose|k: int|
            0 <= k < after.targets.len() && (#[trigger] after.targets[k]).1.flags() & flag != 0;
        lemma_flags_of_target(after.targets[k].1);
        assert(after.targets.contains(after.targets[k]));
    }
    lemma_flow_of_target(insn.address, insn.falls_through(), insn.targets, before);
    lemma_flow_of_target(insn.address, false, after.targets, flow);
    if after.flows().contains(flow) {
        let k = choose|k: int|
            0 <= k < after.targets.len() && (#[trigger] after.targets[k]).1.leads_to() is Some && (
            after.targets[k].1.leads_to()->0).1 == flow.to && target_flow(false, after.targets[k].1)
                == Some(flow.kind);
        assert(after.targets.contains(after.targets[k]));
        let j = insn.targets.index_of(after.targets[k]);
        assert(target_flow(insn.falls_through(), insn.targets[j].1) == Some(before.kind));
    }
    if insn.flows().contains(before) && !(flow.kind is Fall) && !(flow.kind is CBranch) {
        let k = choose|k: int|
            0 <= k < insn.targets.len() && (#[trigger] insn.targets[k]).1.leads_to() is Some && (
            insn.targets[k].1.leads_to()->0).1 == before.to && target_flow(
                insn.falls_through(),
                insn.targets[k].1,
            ) == Some(before.kind);
        assert(insn.targets.contains(insn.targets[k]));
        assert(after.targets.contains(insn.targets[k]));
        let j = after.targets.index_of(insn.targets[k]);
        assert(target_flow(false, after.targets[j].1) == Some(flow.kind));
    }
}

/// Resolving the flow of an instruction in place makes it what an instruction with that flow is
/// made as, and where it is too large leaves it as it was.
pub proof fn law_resolving_in_place_is_making_anew(
    size: usize,
    operation_count: usize,
    flows: Vec<(u16, RawPCodeFlow)>,
    made: Result<Insn, InsnError>,
)
    ensures
        forall|insn: &mut Insn, r: Result<(), InsnError>| #[trigger]
            call_ensures(Insn::resolve_flow, (insn, size, operation_count, &flows), r)
                && call_ensures(
                Insn::from_resolved_flow,
                (insn.address, size, operation_count, &flows),
                made,
            ) ==> {
                &&& r is Ok <==> made is Ok
                &&& made matches Ok(other) ==> final(insn)@ == other@
                &&& made matches Err(error) ==> r == Err::<(), InsnError>(error) && final(insn)@
                    == insn@
            },
{
    assert forall|insn: &mut Insn, r: Result<(), InsnError>| #[trigger]
        call_ensures(Insn::resolve_flow, (insn, size, operation_count, &flows), r) && call_ensures(
            Insn::from_resolved_flow,
            (insn.address, size, operation_count, &flows),
            made,
        ) implies {
        &&& r is Ok <==> made is Ok
        &&& made matches Ok(other) ==> final(insn)@ == other@
        &&& made matches Err(error) ==> r == Err::<(), InsnError>(error) && final(insn)@ == insn@
    } by {
        if made is Ok {
            assert(final(insn)@.targets =~= made->Ok_0@.targets);
            assert(final(insn)@ =~= made->Ok_0@);
        }
    }
}

/// Setting the destination of a call and removing what an instruction falls through to do what
/// they say to the flows of the instruction that they are called on.
pub proof fn law_changed_flows_are_those_of_the_instruction(to: Address, flow: FlowTarget)
    ensures
        forall|insn: &mut Insn| #[trigger]
            call_ensures(Insn::set_call_target, (insn, to), ()) && flow == (FlowTarget {
                from: insn.address,
                to,
                kind: FlowKind::ICall,
            }) && (exists|k: int|
                0 <= k < insn.targets@.len() && (#[trigger] insn.targets@[k]).1
                    == InsnTarget::InterSubIndirect(None)) ==> final(insn)@.flows().contains(flow),
        forall|insn: &mut Insn| #[trigger]
            call_ensures(Insn::remove_fall_through, (insn,), ()) ==> !final(insn)@.falls_through()
                && (flow.kind is Fall ==> !final(insn)@.flows().contains(flow)),
{
    assert forall|insn: &mut Insn| #[trigger]
        call_ensures(Insn::set_call_target, (insn, to), ()) && flow == (FlowTarget {
            from: insn.address,
            to,
            kind: FlowKind::ICall,
        }) && (exists|k: int|
            0 <= k < insn.targets@.len() && (#[trigger] insn.targets@[k]).1
                == InsnTarget::InterSubIndirect(None)) implies final(insn)@.flows().contains(
        flow,
    ) by {
        let k = choose|k: int|
            0 <= k < insn.targets@.len() && (#[trigger] insn.targets@[k]).1
                == InsnTarget::InterSubIndirect(None);
        let after = insn@.calling(to);
        assert(after.targets[k].1 == InsnTarget::InterSubIndirect(Some(to)));
        lemma_flow_of_target(insn.address, after.falls_through(), after.targets, flow);
    }
    assert forall|insn: &mut Insn| #[trigger]
        call_ensures(Insn::remove_fall_through, (insn,), ()) implies !final(insn)@.falls_through()
        && (flow.kind is Fall ==> !final(insn)@.flows().contains(flow)) by {
        law_removed_fall_through_is_gone(insn@, flow);
    }
}

/// Taking the flow flags from other targets leaves every flag that has nothing to do with flow.
pub proof fn law_other_flags_stay(insn: InsnView, targets: Seq<(u16, InsnTarget)>, flag: u16)
    requires
        flag & 0x1f == 0,
    ensures
        insn.with_targets(targets).properties.bits & flag != 0 <==> insn.properties.bits & flag != 0,
        insn.with_targets(targets).targets == targets,
        insn.with_targets(targets).address == insn.address,
        insn.with_targets(targets).size == insn.size,
{
    let bits = insn.properties.bits;
    lemma_target_flag(targets, flag);
    lemma_joined_flag(target_flags(targets), insn.own_flags(), flag);
    assert(flag & 0x1f == 0 ==> (bits & !0xeu16 & !0x1u16) & flag == bits & flag && 0u16 & flag == 0
        && 0x1u16 & flag == 0 && 0x2u16 & flag == 0 && 0x4u16 & flag == 0 && 0x8u16 & flag == 0 && (
    0x2u16 | 0x10) & flag == 0 && (0x4u16 | 0x10) & flag == 0 && (0x8u16 | 0x10) & flag == 0)
        by (bit_vector);
    if some_target(targets, flag) {
        let k = choose|k: int|
            0 <= k < targets.len() && (#[trigger] targets[k]).1.flags() & flag != 0;
        assert(targets[k].1.flags() & flag == 0);
    }
}

} // verus!
