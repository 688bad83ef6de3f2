use std::cmp::Ordering;

use fugue_ir::address::{Address, RawAddress};
use fugue_ir::block::IncompleteCodeBlock;
use fugue_ir::block_table::CodeBlockTable;
use fugue_ir::codec::KeyCodec;
use fugue_ir::flags::ReferenceProperties;
use fugue_ir::flow::FlowKind;
use fugue_ir::function::FunctionId;
use fugue_ir::function_table::FunctionTable;
use fugue_ir::incomplete::{IncompleteFunction, InsnEntry};
use fugue_ir::insn::{Insn, RawPCodeFlow};
use fugue_ir::location::Location;
use fugue_ir::reference::{
    Reference, ReferenceKey, ReferenceKind, ReferenceOrigin, ReferenceRecord, ReferenceTarget,
};
use fugue_ir::reference_index::ReferenceIndex;
use fugue_ir::staging::FunctionTableStaging;
use fugue_ir::types::{AddressSpaceId, ContextSet, Revision};

fn address(space: u16, offset: u64) -> Address {
    Address {
        space: AddressSpaceId::from(space),
        address: RawAddress::from(offset),
    }
}

fn flags(bits: u16) -> ReferenceProperties {
    ReferenceProperties::of(bits)
}

fn flow_reference(from: Address, to: Address) -> Reference {
    Reference::flow(from, to, flags(ReferenceProperties::CALL))
        .with_origin(ReferenceOrigin::Derived)
}

fn derived_read(from: Address, to: Address) -> Reference {
    Reference::data(from, to, flags(ReferenceProperties::READ))
        .with_origin(ReferenceOrigin::Derived)
}

fn insert_function(
    functions: &mut FunctionTable,
    blocks: &mut CodeBlockTable,
    entry: Address,
    targets: &[Address],
) -> FunctionId {
    let insns = targets
        .iter()
        .enumerate()
        .map(|(offset, target)| {
            let flows = vec![(0u16, RawPCodeFlow::Call(Some(Location::new(*target, 0))))];
            Insn::from_resolved_flow(entry + offset, 1, 1, &flows).unwrap()
        })
        .collect();
    insert_function_insns(functions, blocks, entry, insns)
}

fn insert_function_insns(
    functions: &mut FunctionTable,
    blocks: &mut CodeBlockTable,
    entry: Address,
    insns: Vec<Insn>,
) -> FunctionId {
    let mut function = IncompleteFunction::new(entry);
    let ids = insns
        .into_iter()
        .map(|insn| match function.insn_entry(insn.address()) {
            InsnEntry::Vacant(entry) => entry.insert(insn),
            InsnEntry::Occupied(entry) => entry.id(),
        })
        .collect::<Vec<_>>();
    let block =
        IncompleteCodeBlock::try_new(entry, ids.len().max(1), ids, ContextSet::new()).unwrap();
    function.push_block(block);

    let mut staging = FunctionTableStaging::new();
    let function = function.normalise().ok().unwrap();
    let record = staging.stage_materialisation(functions, blocks, function);
    let id = record.id();
    let batch = staging.prepare(functions, blocks);
    batch.publish(functions, blocks);
    id
}

#[test]
fn derived_kind_matches_ignores_kind_and_shadowing() {
    let from = address(0, 0x1000);
    let data_target = address(0, 0x2000);
    let flow_target = address(0, 0x3000);

    let current = vec![
        derived_read(from, data_target),
        flow_reference(from, flow_target),
    ];
    let derived = vec![derived_read(from, data_target)];
    assert!(ReferenceIndex::derived_kind_matches(
        &current,
        &derived,
        ReferenceKind::Data,
    ));

    let upgraded = vec![Reference::data(
        from,
        data_target,
        flags(ReferenceProperties::READ | ReferenceProperties::WRITE),
    )
    .with_origin(ReferenceOrigin::Derived)];
    assert!(!ReferenceIndex::derived_kind_matches(
        &current,
        &upgraded,
        ReferenceKind::Data,
    ));

    let asserted = vec![derived_read(from, data_target).with_origin(ReferenceOrigin::Asserted)];
    assert!(ReferenceIndex::derived_kind_matches(
        &asserted,
        &derived,
        ReferenceKind::Data,
    ));
}

#[test]
fn reference_properties_compose_and_predicate() {
    let reference = Reference::flow(
        address(0, 0x1000),
        address(0, 0x2000),
        flags(ReferenceProperties::CALL)
            | flags(ReferenceProperties::CONDITIONAL)
            | flags(ReferenceProperties::COMPUTED),
    );
    assert!(reference.is_flow());
    assert!(reference.is_call());
    assert!(reference.is_conditional());
    assert!(reference.is_computed());
    assert!(!reference.is_jump());
    assert!(!reference.is_read());
}

#[test]
fn reference_merges_data_access() {
    let merged = Reference::data(
        address(0, 0x1000),
        address(0, 0x2000),
        flags(ReferenceProperties::READ),
    )
    .with_merged_properties(flags(ReferenceProperties::WRITE));
    assert!(merged.is_read());
    assert!(merged.is_write());
    assert!(merged.is_data());
}

#[test]
fn flow_kind_conversion_preserves_semantics() {
    let from = address(0, 0x1000);
    let to = address(0, 0x2000);
    assert!(Reference::from_flow(from, to, FlowKind::Call).is_call());
    assert!(Reference::from_flow(from, to, FlowKind::ICall).is_computed());
    assert!(Reference::from_flow(from, to, FlowKind::CBranch).is_conditional());
    assert!(Reference::from_flow(from, to, FlowKind::CBranch).is_jump());
    assert!(Reference::from_flow(from, to, FlowKind::Return).is_terminal());
    assert!(Reference::from_flow(from, to, FlowKind::Fall).has_fall_through());
}

#[test]
fn reference_record_round_trips_kind_and_origin() {
    for (kind, properties) in [
        (
            ReferenceKind::Flow,
            ReferenceProperties::CALL | ReferenceProperties::CONDITIONAL,
        ),
        (
            ReferenceKind::Flow,
            ReferenceProperties::JUMP | ReferenceProperties::COMPUTED,
        ),
        (
            ReferenceKind::Data,
            ReferenceProperties::READ | ReferenceProperties::INDIRECT,
        ),
        (ReferenceKind::Data, ReferenceProperties::WRITE),
    ] {
        let properties = flags(properties);
        for origin in [ReferenceOrigin::Derived, ReferenceOrigin::Asserted] {
            let reference =
                Reference::new(address(0, 0x1000), address(0, 0x2000), kind, properties)
                    .with_origin(origin);
            let record = ReferenceRecord::of(&reference);
            assert_eq!(record.kind(), kind);
            assert_eq!(record.properties(), properties);
            assert_eq!(record.origin(), origin);
            let back = record.reference(address(0, 0x1000), address(0, 0x2000).into());
            assert!(back.same_fact(&reference));
        }
    }
}

fn encoded(key: ReferenceKey) -> Vec<u8> {
    let mut bytes = Vec::new();
    key.encode(&mut bytes);
    bytes
}

#[test]
fn reference_target_encoding_preserves_order() {
    let low = ReferenceTarget::from(address(0, 0x10));
    let mid = ReferenceTarget::from(address(0, 0x20));
    let high = ReferenceTarget::from(address(1, 0x00));
    let from = Address::minimum();
    let low_encoded = encoded(ReferenceKey::new(from, low));
    let mid_encoded = encoded(ReferenceKey::new(from, mid));
    let high_encoded = encoded(ReferenceKey::new(from, high));

    assert!(low_encoded < mid_encoded);
    assert!(mid_encoded < high_encoded);

    let mut rest: &[u8] = &low_encoded;
    assert_eq!(Address::decode(&mut rest), Some(from));
    assert_eq!(ReferenceTarget::decode(&mut rest), Some(low));
    assert!(rest.is_empty());
}

#[test]
fn reference_identity_ignores_properties() {
    let base = Reference::flow(
        address(0, 0x1000),
        address(0, 0x2000),
        flags(ReferenceProperties::CALL),
    )
    .with_origin(ReferenceOrigin::Derived);
    let repainted = Reference::flow(
        address(0, 0x1000),
        address(0, 0x2000),
        flags(ReferenceProperties::JUMP),
    );
    assert_eq!(base, repainted);
    assert_eq!(base.partial_cmp(&repainted), Some(Ordering::Equal));

    let elsewhere = Reference::flow(
        address(0, 0x1000),
        address(0, 0x3000),
        flags(ReferenceProperties::CALL),
    )
    .with_origin(ReferenceOrigin::Derived);
    assert!(base < elsewhere);
}

#[test]
fn reference_index_serves_both_directions() {
    let mut index = ReferenceIndex::new_transient();
    let a = address(0, 0x1000);
    let b = address(0, 0x2000);
    let c = address(0, 0x3000);

    index.insert(&flow_reference(a, b));
    index.insert(&Reference::data(a, c, flags(ReferenceProperties::READ)));
    index.insert(&flow_reference(c, b));

    let from_a = index.references_from(a, None);
    assert_eq!(from_a.len(), 2);
    assert_eq!(from_a[0].target().address(), Some(b));
    assert!(from_a[0].is_call());
    assert_eq!(from_a[1].target().address(), Some(c));
    assert!(from_a[1].is_read());

    let to_b = index.references_to(b.into(), None);
    assert_eq!(to_b.len(), 2);
    assert_eq!(to_b[0].from(), a);
    assert_eq!(to_b[1].from(), c);
}

#[test]
fn cross_space_references_scan_from_both_sides() {
    let mut index = ReferenceIndex::new_transient();
    let base_from = address(0, 0x1000);
    let overlay_to = address(1, 0x2000);

    index.insert(&flow_reference(base_from, overlay_to));

    let from_side = index.references_from(base_from, None);
    assert_eq!(from_side.len(), 1);
    assert_eq!(from_side[0].target().address(), Some(overlay_to));

    let to_side = index.references_to(overlay_to.into(), None);
    assert_eq!(to_side.len(), 1);
    assert_eq!(to_side[0].from(), base_from);
}

#[test]
fn reference_index_get_reads_record() {
    let mut index = ReferenceIndex::new_transient();
    let a = address(0, 0x1000);
    let b = address(0, 0x2000);

    assert!(index.get(a, b.into()).is_none());

    index.insert(&Reference::data(
        a,
        b,
        flags(ReferenceProperties::READ | ReferenceProperties::INDIRECT),
    ));

    let stored = index.get(a, b.into()).unwrap();
    assert!(stored.is_read());
    assert!(stored.is_indirect());
    assert!(stored.origin().is_asserted());
}

#[test]
fn reference_index_remove_clears_both_sides() {
    let mut index = ReferenceIndex::new_transient();
    let a = address(0, 0x1000);
    let b = address(0, 0x2000);

    index.insert(&flow_reference(a, b));
    index.remove(a, b.into());

    assert!(index.references_from(a, None).is_empty());
    assert!(index.references_to(b.into(), None).is_empty());
}

#[test]
fn reference_index_pages_from_cursor() {
    let mut index = ReferenceIndex::new_transient();
    let from = address(0, 0x1000);
    for offset in 0..8u64 {
        index.insert(&flow_reference(from, address(0, 0x2000 + offset * 0x10)));
    }

    let mut walked = Vec::new();
    let mut cursor = None;
    loop {
        let page = index
            .references_from(from, cursor)
            .into_iter()
            .take(3)
            .collect::<Vec<_>>();
        if page.is_empty() {
            break;
        }
        cursor = page.last().copied();
        walked.extend(page);
    }

    let full = index.references_from(from, None);
    assert_eq!(walked, full);
    assert_eq!(walked.len(), 8);
    assert!(walked.windows(2).all(|pair| pair[0] < pair[1]));
}

#[test]
fn reference_index_ensure_current_derives_flow_references() {
    let mut index = ReferenceIndex::new_transient();
    let mut functions = FunctionTable::new_transient();
    let mut blocks = CodeBlockTable::new();
    let entry = address(0, 0x1000);
    let callee = address(0, 0x2000);

    insert_function(&mut functions, &mut blocks, entry, &[callee]);

    assert!(index.ensure_current(None, &functions, &blocks, Revision::new(1)));

    let derived = index.references_from(entry, None);
    assert_eq!(derived.len(), 1);
    assert_eq!(derived[0].target().address(), Some(callee));
    assert!(derived[0].is_call());
    assert!(derived[0].origin().is_derived());
}

#[test]
fn block_reference_derivation_excludes_instruction_data_references() {
    let insn_address = address(0, 0x1000);
    let flows = vec![(
        1u16,
        RawPCodeFlow::FallThrough(Location::new(insn_address + 1usize, 0)),
    )];
    let read_modify_write = Insn::from_resolved_flow(insn_address, 1, 2, &flows).unwrap();

    let mut functions = FunctionTable::new_transient();
    let mut blocks = CodeBlockTable::new();
    let function = insert_function_insns(
        &mut functions,
        &mut blocks,
        insn_address,
        vec![read_modify_write],
    );
    let function = functions.get_by_id(function).unwrap();
    let derived = function.flow_references(&blocks);

    assert!(derived.iter().all(|reference| !reference.is_data()));
}

#[test]
fn rebuild_preserves_asserted_references() {
    let mut index = ReferenceIndex::new_transient();
    let mut functions = FunctionTable::new_transient();
    let mut blocks = CodeBlockTable::new();
    let entry = address(0, 0x1000);
    let callee = address(0, 0x2000);
    insert_function(&mut functions, &mut blocks, entry, &[callee]);

    let asserted_from = address(0, 0x5000);
    let asserted_to = address(0, 0x6000);
    index.insert(
        &Reference::data(asserted_from, asserted_to, flags(ReferenceProperties::READ))
            .with_origin(ReferenceOrigin::Asserted),
    );

    index.ensure_current(None, &functions, &blocks, Revision::new(7));

    let survived = index.get(asserted_from, asserted_to.into());
    assert!(survived.is_some_and(|reference| reference.origin().is_asserted()));

    let derived = index.references_from(entry, None);
    assert!(derived.iter().any(|reference| {
        reference.target().address() == Some(callee) && reference.origin().is_derived()
    }));
    assert!(!index.ensure_current(Some(Revision::new(7)), &functions, &blocks, Revision::new(7)));
}
