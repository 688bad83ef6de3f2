use fugue_ir::address::{Address, AddressTable, RawAddress};
use fugue_ir::flags::{InsnProperties, SwitchProperties};
use fugue_ir::block::CodeBlockFlowTarget;
use fugue_ir::flow::{FlowKind, FlowTarget};
use fugue_ir::incomplete::{IncompleteFunction, InsnEntry};
use fugue_ir::insn::{Insn, InsnError, InsnTarget, RawPCodeFlow};
use fugue_ir::location::Location;
use fugue_ir::switch::{Switch, SwitchCaseLabel, SwitchId, SwitchModel};
use fugue_ir::types::AddressSpaceId;

#[test]
fn set_call_target_preserves_indirect_classification() -> Result<(), InsnError> {
    let address = Address::from(0x1000u64);
    let target = Address::from(0x2000u64);
    let mut insn = Insn::from_indirect_call(address, 4)?;

    insn.set_call_target(target);

    assert!(insn.is_indirect());
    assert_eq!(insn.call_target(), Some(target));
    assert_eq!(
        insn.flow_targets()
            .iter()
            .find(|flow| flow.kind().is_call())
            .expect("resolved indirect call must retain its call flow")
            .kind(),
        FlowKind::ICall
    );

    Ok(())
}

#[test]
fn insns_have_at_most_the_size_that_fits() {
    let address = Address::from(0x1000u64);
    assert!(matches!(
        Insn::from_return(address, 256),
        Err(InsnError::InsnTooLarge { size: 256 })
    ));
    let insn = Insn::from_return(address, 255).unwrap();
    assert_eq!(insn.size(), 255);
    assert!(insn.is_return());
    assert_eq!(insn.next_address(), Address::from(0x10ffu64));
}

#[test]
fn conditional_branches_fall_through() {
    let address = Address::from(0x1000u64);
    let target = Address::from(0x2000u64);
    let insn = Insn::from_direct_branch(address, 2, target, true).unwrap();
    assert!(insn.has_fall_through());
    let kinds: Vec<FlowKind> = insn.flow_targets().iter().map(|flow| flow.kind()).collect();
    assert!(kinds.contains(&FlowKind::CBranch));
    assert!(insn.flow_targets().iter().any(|flow| flow.to() == target));
    let insn = Insn::from_direct_branch(address, 2, target, false).unwrap();
    assert!(!insn.has_fall_through());
}

#[test]
fn resolving_flow_replaces_the_targets() {
    let address = Address::from(0x1000u64);
    let target = Address::from(0x2000u64);
    let mut insn =
        Insn::from_disassembly(address, 1, InsnProperties::of(InsnProperties::FALL_THROUGH))
            .unwrap();
    let flows = vec![(0u16, RawPCodeFlow::Call(Some(Location::new(target, 0))))];
    insn.resolve_flow(1, 1, &flows).unwrap();
    assert!(insn.is_call());
    assert_eq!(insn.call_target(), Some(target));
    assert_eq!(insn.flow_references().len(), 1);
}

fn fall_through(address: Address) -> Result<Insn, InsnError> {
    Insn::from_disassembly(address, 1, InsnProperties::of(InsnProperties::FALL_THROUGH))
}

#[test]
fn sorted_insns_do_not_materialise_an_index() -> Result<(), InsnError> {
    let first = Address::from(0x1000u64);
    let second = first + 1u64;
    let mut function = IncompleteFunction::new(first);

    let InsnEntry::Vacant(entry) = function.insn_entry(first) else {
        panic!("new function must not contain an instruction");
    };
    let first_id = entry.insert(fall_through(first)?);
    let InsnEntry::Vacant(entry) = function.insn_entry(second) else {
        panic!("new function must not contain the next instruction");
    };
    entry.insert(fall_through(second)?);

    assert!(function.insn_index.is_empty());
    assert!(function.contains_insn(first));
    assert!(function.first_insn_id_at(first) == Some(first_id));
    assert_eq!(function.insns_at(second).len(), 1);
    assert!(function.insn_index.is_empty());
    Ok(())
}

#[test]
fn out_of_order_insns_materialise_an_index() -> Result<(), InsnError> {
    let first = Address::from(0x1000u64);
    let second = first + 1u64;
    let mut function = IncompleteFunction::new(first);

    let InsnEntry::Vacant(entry) = function.insn_entry(second) else {
        panic!("new function must not contain an instruction");
    };
    entry.insert(fall_through(second)?);
    let InsnEntry::Vacant(entry) = function.insn_entry(first) else {
        panic!("new function must not contain the preceding instruction");
    };
    entry.insert(fall_through(first)?);

    assert!(!function.insn_index.is_empty());
    assert!(function.insns_unsorted);
    assert!(function.contains_insn(first));
    assert!(function.contains_insn(second));
    function.sort_insns_by_address();
    assert_eq!(function.insns()[0].address(), first);
    assert_eq!(function.insns()[1].address(), second);
    Ok(())
}

#[test]
fn case_label_exposes_signed_interpretation() {
    let label = SwitchCaseLabel::new(u64::MAX);
    assert_eq!(label.value(), u64::MAX);
    assert_eq!(label.signed_value(), -1);
}

#[test]
fn switch_properties_ignore_unknown_bits() {
    let known = SwitchProperties::of(SwitchProperties::GUARD_FOUND | SwitchProperties::OVERRIDE);
    assert_eq!(SwitchProperties::from_bits_truncate(known.bits() | 0x8000_0000), known);
}

#[test]
fn derived_references_cover_every_table() {
    let at = |offset: u64| Address {
        space: AddressSpaceId::new(1),
        address: RawAddress::from(offset),
    };
    let branch = at(0x1000);
    let outer = AddressTable::new(at(0x4000), 4).with_element_count(3);
    let inner = AddressTable::new(at(0x5000), 4).with_element_count(3);
    let switch = Switch::new(
        SwitchId::default(),
        branch,
        SwitchModel::TwoLevel { outer, inner },
    );

    let mut table_targets = switch
        .derived_references()
        .iter()
        .filter(|reference| reference.is_data())
        .filter_map(|reference| reference.target().address())
        .collect::<Vec<_>>();
    table_targets.sort();

    assert_eq!(table_targets, vec![at(0x4000), at(0x5000)]);
}

#[test]
fn only_insns_without_operations_do_nothing() {
    let address = Address::from(0x1000u64);
    let nop = |count: usize| {
        Insn::from_resolved_flow(address, 1, count, &Vec::new())
            .unwrap()
            .properties()
            .bits()
            & InsnProperties::NOP
            != 0
    };
    assert!(nop(0));
    assert!(!nop(1));
    assert!(!nop(0x1_0000));

    let mut insn = Insn::from_return(address, 1).unwrap();
    insn.resolve_flow(1, 0x1_0000, &Vec::new()).unwrap();
    assert_eq!(insn.properties().bits() & InsnProperties::NOP, 0);
}

#[test]
fn last_operations_are_compared_in_sixteen_bits() {
    let address = Address::from(0x1000u64);
    let returns = |index: u16, count: usize| {
        let flows = vec![(index, RawPCodeFlow::Return(None))];
        Insn::from_resolved_flow(address, 1, count, &flows).unwrap().targets[0].1
    };
    assert!(matches!(returns(0, 1), InsnTarget::InterRet(None, true)));
    assert!(matches!(returns(0, 2), InsnTarget::InterRet(None, false)));
    assert!(matches!(returns(0, 0x1_0001), InsnTarget::InterRet(None, true)));

    let flows = vec![(u16::MAX, RawPCodeFlow::Intrinsic)];
    let insn = Insn::from_resolved_flow(address, 1, 0x1_0000, &flows).unwrap();
    assert!(matches!(insn.targets[0], (u16::MAX, InsnTarget::Intrinsic)));
}

#[test]
fn placed_flows_come_back() {
    let block = Address::from(0x1000u64);
    let from = Address::from(0x1000u64 + 0xffff);
    let flow = FlowTarget::new(from, Address::from(0x40u64), FlowKind::Branch);
    let placed = CodeBlockFlowTarget::from_flow(block, 0x20_0000, flow);
    assert_eq!(placed.source_offset, 0xffff);
    assert_eq!(placed.to_flow(block), flow);
}
