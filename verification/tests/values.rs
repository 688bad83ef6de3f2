use fugue_ir::address::{Address, AddressRange, AddressTable, RawAddress};
use fugue_ir::address_set::AddressRangeSet;
use fugue_ir::basic_block::{BasicBlock, BasicBlockId};
use fugue_ir::codec::KeyCodec;
use fugue_ir::flags::{SegmentProperties, SwitchProperties};
use fugue_ir::frame::FunctionFrame;
use fugue_ir::function::{Function, FunctionId};
use fugue_ir::insn::InsnId;
use fugue_ir::location::Location;
use fugue_ir::problem::{Problem, ProblemClass, ProblemId, ProblemKind, ProblemScope};
use fugue_ir::segment::{ExternFunctionTemplate, ExternSegment, ExternSegmentError};
use fugue_ir::switch::{Switch, SwitchCase, SwitchCaseLabel, SwitchId, SwitchModel};
use fugue_ir::types::{AddressSpaceId, Confidence, ContextSet, Revision};
use fugue_ir::address::AddressWithContext;
use ustr::Ustr;

fn at(offset: u64) -> Address {
    Address::from(offset)
}

fn in_space(space: u16, offset: u64) -> Address {
    Address {
        space: AddressSpaceId::from(space),
        address: RawAddress::from(offset),
    }
}

#[test]
fn segment_properties_answer_by_flag() {
    let code = SegmentProperties::of(
        SegmentProperties::PERM_READ | SegmentProperties::PERM_EXECUTE
            | SegmentProperties::LITTLE_ENDIAN,
    );
    assert!(code.is_readable() && code.is_executable() && code.is_little_endian());
    assert!(!code.is_writable() && !code.is_external());
    assert!(code.is_initialised() && !code.is_uninitialised());
    let bss = SegmentProperties::of(SegmentProperties::UNINITIALISED);
    assert!(bss.is_uninitialised());
}

#[test]
fn extern_functions_lie_one_step_apart() {
    let template = ExternFunctionTemplate::new(&[1, 2, 3, 4, 5]);
    assert_eq!(template.bytes(), &[1, 2, 3, 4, 5]);
    assert!(!template.is_empty());
    let mut segment = ExternSegment::new(at(0x1000), 3, template);
    assert_eq!(segment.alignment(), 4);
    assert_eq!(segment.aligned_template_size(), 8);
    assert!(segment.is_empty());
    assert_eq!(segment.last_address(), None);
    assert_eq!(segment.add_extern(), at(0x1000));
    assert_eq!(segment.add_extern(), at(0x1008));
    assert_eq!(segment.size(), 16);
    assert_eq!(segment.last_address(), Some(at(0x100f)));
    assert_eq!(segment.range(), Some(at(0x1000)..at(0x1010)));
    assert_eq!(segment.range_inclusive(), Some(at(0x1000)..=at(0x100f)));
    assert_eq!(segment.iter(), vec![at(0x1000), at(0x1008)]);
    assert!(segment.add_extern_at(at(0x1008)).is_ok());
    assert_eq!(segment.symbols(), 2);
    assert!(segment.add_extern_at(at(0x1020)).is_ok());
    assert_eq!(segment.len(), 5);
}

#[test]
fn extern_functions_are_refused_off_the_grid() {
    let mut segment =
        ExternSegment::new(at(0x1000), 4, ExternFunctionTemplate::new(&[0, 0, 0, 0]));
    assert_eq!(
        segment.add_extern_at(at(0xff8)),
        Err(ExternSegmentError::AddressOutOfBounds(at(0xff8)))
    );
    assert_eq!(
        segment.add_extern_at(at(0x1002)),
        Err(ExternSegmentError::AddressMisaligned(at(0x1002)))
    );
    assert!(segment.is_empty());
}

#[test]
fn basic_block_marks_accumulate() {
    let id = BasicBlockId::new(1);
    let mut block = BasicBlock::new(id, at(0x1000), 4, vec![InsnId::new(0)]);
    assert_eq!(block.start(), at(0x1000));
    assert_eq!(block.len(), 4);
    assert!(!block.is_call());
    block.mark_tail_call();
    assert!(block.is_call() && block.is_tail_call());
    block.mark_entry();
    block.mark_exit();
    block.mark_non_returning();
    block.mark_unresolved();
    assert!(block.is_entry() && block.is_exit() && block.is_non_returning());
    assert!(block.has_unresolved() && block.is_tail_call());
    block.add_successor(BasicBlockId::new(2));
    block.add_successor(BasicBlockId::new(2));
    block.add_predecessor(BasicBlockId::new(3));
    assert_eq!(block.successors().len(), 1);
    assert!(block.predecessors().contains(BasicBlockId::new(3)));
}

#[test]
fn problem_scopes_cover_their_regions() {
    let space = AddressSpaceId::from(1u16);
    let mut regions = AddressRangeSet::new();
    assert_eq!(ProblemScope::for_regions(&regions), ProblemScope::Global);
    let first = AddressRange::new(space, RawAddress::from(1u64), RawAddress::from(4u64));
    regions.insert_range(first);
    assert_eq!(
        ProblemScope::for_regions(&regions),
        ProblemScope::Range(first)
    );
    regions.insert_range(AddressRange::new(
        space,
        RawAddress::from(9u64),
        RawAddress::from(9u64),
    ));
    assert_eq!(
        ProblemScope::for_regions(&regions),
        ProblemScope::AddressSpace(space)
    );
    regions.insert(at(3));
    assert_eq!(ProblemScope::for_regions(&regions), ProblemScope::Global);

    let here = ProblemScope::Address(in_space(1, 4));
    assert_eq!(here.covering(here), here);
    assert_eq!(
        here.covering(ProblemScope::Range(first)),
        ProblemScope::AddressSpace(space)
    );
    assert_eq!(
        here.covering(ProblemScope::Address(at(4))),
        ProblemScope::Global
    );
}

#[test]
fn problems_record_attempts() {
    let mut problem = Problem::new(
        ProblemId::new(0),
        at(0x1000),
        ProblemKind::DecodeFailed,
        Revision::new(2),
    );
    assert_eq!(problem.attempt_count(), 1);
    problem.record_attempt(Revision::new(5));
    assert_eq!(problem.attempt_count(), 2);
    assert_eq!(problem.first_seen(), Revision::new(2));
    assert_eq!(problem.last_seen(), Revision::new(5));
    assert_eq!(problem.key().address(), Some(at(0x1000)));
    assert_eq!(
        ProblemKind::ReadSetCollapsed.class(),
        ProblemClass::Operational
    );
}

#[test]
fn contexts_merge_by_variable() {
    let mut context = ContextSet::new();
    context.assign(1, 10);
    context.assign(2, 20);
    let mut other = ContextSet::new();
    other.assign(2, 21);
    other.assign(3, 30);
    context.merge(&other);
    assert_eq!(context.get(1), Some(10));
    assert_eq!(context.get(2), Some(21));
    assert_eq!(context.get(3), Some(30));
    assert_eq!(context.get(4), None);
    let mut seen = AddressWithContext::new(at(1), context);
    seen.merge_max_confidence(Confidence::certain());
    assert!(seen.confidence() == Confidence::certain());
}

#[test]
fn addresses_encode_in_order() {
    let mut bytes = Vec::new();
    in_space(1, 0x0203).encode(&mut bytes);
    assert_eq!(bytes, vec![0, 1, 0, 0, 0, 0, 0, 0, 2, 3]);
    let mut input: &[u8] = &bytes;
    assert_eq!(Address::decode(&mut input), Some(in_space(1, 0x0203)));
    let mut short: &[u8] = &bytes[..9];
    assert_eq!(Address::decode(&mut short), None);
}

#[test]
fn frames_list_change_points() {
    let mut frame = FunctionFrame::new(16, 8, -4);
    frame.add_change_point(at(0x1004), -8);
    assert_eq!(frame.locals_size(), 16);
    assert_eq!(frame.preserved_registers_size(), 8);
    assert_eq!(frame.frame_pointer_delta(), -4);
    assert_eq!(frame.change_points().len(), 1);
    assert_eq!(frame.change_points()[0].delta(), -8);
    assert!(frame.same(&frame.clone()));
}

#[test]
fn functions_with_equal_names_are_the_same() {
    let a = Function::new_with(FunctionId::new(1), at(0x1000), Some(Ustr::from("main")));
    let b = Function::new_with(FunctionId::new(1), at(0x1000), Some(Ustr::from("main")));
    let c = Function::new_with(FunctionId::new(1), at(0x1000), Some(Ustr::from("exit")));
    assert!(a.same(&b));
    assert!(!a.same(&c));
    assert!(a.same(&a.clone()));
}

#[test]
fn locations_move_by_position() {
    let location = Location::new(at(0x1000), 3);
    let moved = location + 2u16;
    assert_eq!(moved.address(), at(0x1000));
    assert_eq!(moved.position(), 5);
}

#[test]
fn switches_list_targets_and_confidence() {
    let table = AddressTable::new(at(0x4000), 4).with_element_count(2);
    let mut switch = Switch::new(SwitchId::new(0), at(0x1000), SwitchModel::Absolute(table));
    let mut case = SwitchCase::new(AddressWithContext::new(at(0x2000), ContextSet::new()));
    case.add_label(SwitchCaseLabel::new(7));
    assert_eq!(case.labels().len(), 1);
    switch.add_case(case);
    assert!(!switch.has_default());
    switch.set_default_case(SwitchCase::new(AddressWithContext::new(
        at(0x3000),
        ContextSet::new(),
    )));
    assert!(switch.has_default());
    assert_eq!(switch.case_count(), 1);
    let targets: Vec<Address> = switch.targets().iter().map(|t| t.address()).collect();
    assert!(targets.contains(&at(0x2000)) && targets.contains(&at(0x3000)));
    switch.set_properties(SwitchProperties::from_recovery(true, true));
    assert!(switch.is_truncated());
    switch.mark_override();
    assert!(switch.is_override());
}
