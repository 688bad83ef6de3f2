use std::collections::BTreeSet;

use fugue_ir::address::{Address, RawAddress};
use fugue_ir::block::IncompleteCodeBlock;
use fugue_ir::block_table::CodeBlockTable;
use fugue_ir::call_graph::{CallGraphEdgeKey, CallGraphIndex, CallGraphStaging};
use fugue_ir::codec::KeyCodec;
use fugue_ir::function::FunctionId;
use fugue_ir::function_table::FunctionTable;
use fugue_ir::incomplete::{IncompleteFunction, InsnEntry};
use fugue_ir::insn::{Insn, RawPCodeFlow};
use fugue_ir::location::Location;
use fugue_ir::order::SortedSet;
use fugue_ir::staging::FunctionTableStaging;
use fugue_ir::types::{AddressSpaceId, ContextSet, Revision};

fn address(space: u16, offset: u64) -> Address {
    Address {
        space: AddressSpaceId::from(space),
        address: RawAddress::from(offset),
    }
}

struct CallGraphMismatch {
    missing: Vec<CallGraphEdgeKey>,
    extra: Vec<CallGraphEdgeKey>,
    inverse_missing: Vec<CallGraphEdgeKey>,
    inverse_extra: Vec<CallGraphEdgeKey>,
}

fn mismatch(
    graph: &CallGraphIndex,
    functions: &FunctionTable,
    blocks: &CodeBlockTable,
) -> Option<CallGraphMismatch> {
    let mut expected = BTreeSet::new();
    for function in functions.iter() {
        for target in &CallGraphIndex::function_call_targets(function, blocks) {
            expected.insert(CallGraphEdgeKey::new(function.entry(), *target));
        }
    }
    let forward = graph.edges(None).into_iter().collect::<BTreeSet<_>>();
    let inverse = graph
        .inverse
        .items
        .iter()
        .map(|edge| CallGraphEdgeKey::new(edge.caller(), edge.callee()))
        .collect::<BTreeSet<_>>();

    let mismatch = CallGraphMismatch {
        missing: expected.difference(&forward).copied().collect(),
        extra: forward.difference(&expected).copied().collect(),
        inverse_missing: expected.difference(&inverse).copied().collect(),
        inverse_extra: inverse.difference(&expected).copied().collect(),
    };
    if mismatch.missing.is_empty()
        && mismatch.extra.is_empty()
        && mismatch.inverse_missing.is_empty()
        && mismatch.inverse_extra.is_empty()
    {
        None
    } else {
        Some(mismatch)
    }
}

fn assert_consistent(graph: &CallGraphIndex, functions: &FunctionTable, blocks: &CodeBlockTable) {
    assert!(mismatch(graph, functions, blocks).is_none());
}

fn call_insn(address: Address, target: Address) -> Insn {
    let flows = vec![(0u16, RawPCodeFlow::Call(Some(Location::new(target, 0))))];
    Insn::from_resolved_flow(address, 1, 1, &flows).unwrap()
}

fn insert_function(
    functions: &mut FunctionTable,
    blocks: &mut CodeBlockTable,
    entry: Address,
    targets: &[Address],
) -> FunctionId {
    let mut function = IncompleteFunction::new(entry);
    let mut insns = Vec::with_capacity(targets.len());

    for (index, target) in targets.iter().enumerate() {
        let insn = call_insn(entry + index, *target);
        let id = match function.insn_entry(insn.address()) {
            InsnEntry::Vacant(entry) => entry.insert(insn),
            InsnEntry::Occupied(entry) => entry.id(),
        };
        insns.push(id);
    }

    let size = insns.len().max(1);
    let block = IncompleteCodeBlock::try_new(entry, size, insns, ContextSet::new()).unwrap();
    function.push_block(block);

    let mut staging = FunctionTableStaging::new();
    let function = function.normalise().ok().unwrap();
    let record = staging.stage_materialisation(functions, blocks, function);
    let id = record.id();
    let batch = staging.prepare(functions, blocks);
    batch.publish(functions, blocks);
    id
}

fn update_function(
    functions: &mut FunctionTable,
    blocks: &mut CodeBlockTable,
    function_id: FunctionId,
    entry: Address,
    targets: &[Address],
) {
    insert_function(functions, blocks, entry, targets);
    assert!(
        functions
            .get_by_address(entry)
            .map(|function| function.id())
            == Some(function_id)
    );
}

fn remove_function(
    functions: &mut FunctionTable,
    blocks: &mut CodeBlockTable,
    function_id: FunctionId,
) -> Option<Address> {
    let entry = functions.get_by_id(function_id)?.entry();
    let mut staging = FunctionTableStaging::new();
    staging.remove(functions, blocks, function_id);
    let batch = staging.prepare(functions, blocks);
    batch.publish(functions, blocks);
    Some(entry)
}

fn update_graph_for_function(
    graph: &mut CallGraphIndex,
    functions: &FunctionTable,
    blocks: &CodeBlockTable,
    function_id: FunctionId,
) {
    let Some(function) = functions.get_by_id(function_id) else {
        return;
    };
    let targets = CallGraphIndex::function_call_targets(function, blocks);
    graph.set_callees(function.entry(), &targets);
}

#[test]
fn cross_space_edges_are_scanned_and_removed() {
    let mut graph = CallGraphIndex::new_transient();
    let base_caller = address(0, 0x1000);
    let base_callee = address(0, 0x1100);
    let overlay_caller = address(1, 0x2000);
    let overlay_callee = address(1, 0x2100);

    graph.set_callees(overlay_caller, &vec![base_callee]);
    graph.set_callees(base_caller, &vec![overlay_callee]);

    assert_eq!(graph.callees(overlay_caller, None), vec![base_callee]);
    assert_eq!(graph.callers(base_callee, None), vec![overlay_caller]);
    assert_eq!(graph.callees(base_caller, None), vec![overlay_callee]);
    assert_eq!(graph.callers(overlay_callee, None), vec![base_caller]);

    graph.set_callees(overlay_caller, &Vec::new());

    assert!(graph.callees(overlay_caller, None).is_empty());
    assert!(graph.callers(base_callee, None).is_empty());
}

#[test]
fn verifier_reports_forward_and_inverse_mismatches() {
    let mut graph = CallGraphIndex::new_transient();
    let mut functions = FunctionTable::new_transient();
    let mut blocks = CodeBlockTable::new();
    let caller = address(1, 0x1000);
    let expected_callee = address(1, 0x2000);
    let extra_callee = address(1, 0x3000);

    insert_function(&mut functions, &mut blocks, caller, &[expected_callee]);
    graph.set_callees(caller, &vec![extra_callee]);

    let error = mismatch(&graph, &functions, &blocks).expect("call graph should mismatch");

    assert_eq!(
        error.missing,
        vec![CallGraphEdgeKey::new(caller, expected_callee)]
    );
    assert_eq!(
        error.extra,
        vec![CallGraphEdgeKey::new(caller, extra_callee)]
    );
    assert_eq!(
        error.inverse_missing,
        vec![CallGraphEdgeKey::new(caller, expected_callee)]
    );
    assert_eq!(
        error.inverse_extra,
        vec![CallGraphEdgeKey::new(caller, extra_callee)]
    );
}

#[test]
fn ensure_current_rebuilds_when_marker_is_stale() {
    let mut graph = CallGraphIndex::new_transient();
    let mut functions = FunctionTable::new_transient();
    let mut blocks = CodeBlockTable::new();
    let caller = address(2, 0x1000);
    let expected_callee = address(2, 0x2000);
    let stale_callee = address(2, 0x3000);

    insert_function(&mut functions, &mut blocks, caller, &[expected_callee]);
    graph.set_callees(caller, &vec![stale_callee]);

    assert!(graph.ensure_current(
        Some(Revision::new(6)),
        &functions,
        &blocks,
        Revision::new(7)
    ));

    assert_consistent(&graph, &functions, &blocks);
    assert_eq!(graph.callees(caller, None), vec![expected_callee]);
}

#[test]
fn ensure_current_trusts_matching_marker_without_rebuild() {
    let mut graph = CallGraphIndex::new_transient();
    let mut functions = FunctionTable::new_transient();
    let mut blocks = CodeBlockTable::new();
    let caller = address(2, 0x4000);
    let expected_callee = address(2, 0x5000);
    let indexed_callee = address(2, 0x6000);

    insert_function(&mut functions, &mut blocks, caller, &[expected_callee]);
    graph.set_callees(caller, &vec![indexed_callee]);

    assert!(!graph.ensure_current(
        Some(Revision::new(7)),
        &functions,
        &blocks,
        Revision::new(7)
    ));

    assert_eq!(graph.callees(caller, None), vec![indexed_callee]);
    assert!(mismatch(&graph, &functions, &blocks).is_some());
}

#[test]
fn call_graph_incremental_maintenance_holds_for_multispace_updates() {
    let mut graph = CallGraphIndex::new_transient();
    let mut functions = FunctionTable::new_transient();
    let mut blocks = CodeBlockTable::new();
    let entries = (0..16u64)
        .map(|index| address((index % 4) as u16, 0x1000u64 + (index * 0x100u64)))
        .collect::<Vec<_>>();
    let mut function_ids: Vec<Option<FunctionId>> = vec![None; entries.len()];
    let mut state = 0x5eed_u64;

    for step in 0..2048 {
        state ^= state << 13;
        state ^= state >> 7;
        state ^= state << 17;

        let index = (state as usize).wrapping_add(step) % entries.len();
        let entry = entries[index];
        let op = (state >> 11) % 5;

        if function_ids[index].is_none() || op == 0 {
            if function_ids[index].is_none() {
                let targets = generated_targets(state, entry, &entries);
                let function_id = insert_function(&mut functions, &mut blocks, entry, &targets);
                function_ids[index] = Some(function_id);
                update_graph_for_function(&mut graph, &functions, &blocks, function_id);
            }
        } else if op == 1 {
            let function_id = function_ids[index].take().unwrap();
            if let Some(entry) = remove_function(&mut functions, &mut blocks, function_id) {
                graph.set_callees(entry, &Vec::new());
            }
        } else {
            let function_id = function_ids[index].unwrap();
            let targets = generated_targets(state.rotate_left((op * 7) as u32), entry, &entries);
            update_function(&mut functions, &mut blocks, function_id, entry, &targets);
            update_graph_for_function(&mut graph, &functions, &blocks, function_id);
        }

        assert_consistent(&graph, &functions, &blocks);
    }
}

fn generated_targets(state: u64, entry: Address, entries: &[Address]) -> Vec<Address> {
    let mut targets = BTreeSet::new();
    let count = ((state & 0x7) as usize).min(5);

    for offset in 0..count {
        let raw = state.rotate_left((offset * 9) as u32) as usize;
        let target = entries[raw % entries.len()];
        targets.insert(Address {
            space: entry.space(),
            address: target.raw_address(),
        });
    }

    if state & 0x20 != 0 {
        targets.insert(entry);
    }

    targets.into_iter().collect()
}

#[test]
fn call_graph_scans_resume_behind_the_cursor() {
    let mut graph = CallGraphIndex::new_transient();
    let caller = address(0, 0x1000);
    let callees = [0x2000, 0x3000, 0x4000].map(|offset| address(0, offset));
    graph.set_callees(caller, &callees.to_vec());
    assert_eq!(graph.callees(caller, Some(callees[0])), callees[1..].to_vec());
    graph.insert_edge(address(0, 0x9000), callees[0]);
    assert_eq!(
        graph.callers(callees[0], Some(caller)),
        vec![address(0, 0x9000)]
    );
    graph.remove_edge(caller, callees[1]);
    assert_eq!(graph.callees(caller, None), vec![callees[0], callees[2]]);
    assert_eq!(graph.edges(None).len(), 3);
    graph.clear();
    assert!(graph.edges(None).is_empty());
}

#[test]
fn staged_callees_reach_the_graph_on_publishing() {
    let mut graph = CallGraphIndex::new_transient();
    let caller = address(0, 0x1000);
    let before = address(0, 0x2000);
    let after = address(0, 0x3000);
    graph.set_callees(caller, &vec![before]);

    let mut staging = CallGraphStaging::new();
    let mut callees = SortedSet::new();
    callees.insert(after);
    staging.set_callees(caller, callees, false);
    let batch = staging.prepare(&graph);
    assert!(!batch.writes().is_empty());
    assert_eq!(graph.callees(caller, None), vec![before]);
    batch.publish(&mut graph);
    assert_eq!(graph.callees(caller, None), vec![after]);
    assert!(graph.callers(before, None).is_empty());
}

#[test]
fn call_keys_decode_to_the_call() {
    let key = CallGraphEdgeKey::new(address(1, 2), address(3, 4));
    let mut bytes = Vec::new();
    key.encode(&mut bytes);
    assert_eq!(bytes.len(), 20);
    let mut input: &[u8] = &bytes;
    assert_eq!(CallGraphEdgeKey::decode(&mut input), Some(key));
    assert!(input.is_empty());
}
