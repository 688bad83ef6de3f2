use fugue_ir::address::{Address, AddressRange};
use fugue_ir::batch_writes::{
    append_batch_writes, append_block_rows, append_function_rows, append_prepared_block_writes,
    append_prepared_writes,
};
use fugue_ir::block::{
    CodeBlockId, CodeBlockRecord, IncompleteCodeBlock, IncompleteCodeBlockId,
};
use fugue_ir::block_buckets::StoredBlockIndex;
use fugue_ir::block_table::CodeBlockTable;
use fugue_ir::call_graph::CallGraphIndex;
use fugue_ir::flags::FunctionProperties;
use fugue_ir::flow::FlowKind;
use fugue_ir::function::{Function, FunctionId};
use fugue_ir::function_table::FunctionTable;
use fugue_ir::incomplete::{IncompleteFunction, IncompleteFunctionError, InsnEntry};
use fugue_ir::index_rebuild::{rebuild_block_indexes, rebuild_function_indexes};
use fugue_ir::insn::{Insn, InsnId};
use fugue_ir::prepared_writes::FunctionIndexWrite;
use fugue_ir::staging::FunctionTableStaging;
use fugue_ir::stored_ids::{IdWrite, PersistentIdAllocator, PersistentTable};
use fugue_ir::types::{ContextSet, Revision};

fn at(offset: u64) -> Address {
    Address::from(offset)
}

fn push_insn(function: &mut IncompleteFunction, insn: Insn) -> InsnId {
    match function.insn_entry(insn.address()) {
        InsnEntry::Vacant(entry) => entry.insert(insn),
        InsnEntry::Occupied(entry) => entry.id(),
    }
}

fn push_block(function: &mut IncompleteFunction, insn: Insn) -> IncompleteCodeBlockId {
    let start = insn.address();
    let size = insn.size();
    let id = push_insn(function, insn);
    let block = IncompleteCodeBlock::try_new(start, size, vec![id], ContextSet::new()).unwrap();
    function.push_block(block)
}

/// Three blocks: the first branches to the last or falls into the second, which branches to
/// the last.
fn diamond(entry: u64) -> IncompleteFunction {
    let mut function = IncompleteFunction::new(at(entry));
    let first = push_block(
        &mut function,
        Insn::from_direct_branch(at(entry), 4, at(entry + 8), true).unwrap(),
    );
    let second = push_block(
        &mut function,
        Insn::from_direct_branch(at(entry + 4), 4, at(entry + 8), false).unwrap(),
    );
    let last = push_block(&mut function, Insn::from_return(at(entry + 8), 4).unwrap());
    assert!(function.add_block_edge(first, second).is_ok());
    assert!(function.add_block_edge(first, last).is_ok());
    assert!(function.add_block_edge(second, last).is_ok());
    function
}

fn publish(
    functions: &mut FunctionTable,
    blocks: &mut CodeBlockTable,
    function: IncompleteFunction,
) -> FunctionId {
    let mut staging = FunctionTableStaging::new();
    let record = function.normalise().ok().unwrap();
    let change = staging.stage_materialisation(functions, blocks, record);
    let id = change.id();
    staging.prepare(functions, blocks).publish(functions, blocks);
    id
}

#[test]
fn published_function_has_blocks_edges_and_entry() {
    let mut functions = FunctionTable::new();
    let mut blocks = CodeBlockTable::new();
    let id = publish(&mut functions, &mut blocks, diamond(0x1000));
    let function = functions.get_by_id(id).unwrap();
    assert_eq!(function.blocks().len(), 3);
    assert_eq!(function.edges().len(), 3);
    let entry_block = function.entry_block().unwrap();
    assert_eq!(blocks.get_by_id(entry_block).unwrap().address(), at(0x1000));
    assert_eq!(function.successors(entry_block).len(), 2);
    assert_eq!(blocks.len(), 3);
    assert_eq!(
        functions.get_by_block_id(entry_block).iter().len(),
        1
    );
    assert!(functions.functions_containing(&blocks, at(0x1005)) == vec![id]);
    let range = AddressRange::from_size(at(0x100b), 4).unwrap();
    assert!(functions.overlaps(&blocks, &range) == vec![id]);
    assert!(functions.functions_containing(&blocks, at(0x100c)).is_empty());
}

#[test]
fn splitting_cuts_become_tail_calls_and_merging_undoes_them() {
    let mut functions = FunctionTable::new();
    let mut blocks = CodeBlockTable::new();
    let mut function = IncompleteFunction::new(at(0x1000));
    let first = push_block(
        &mut function,
        Insn::from_direct_branch(at(0x1000), 4, at(0x1008), false).unwrap(),
    );
    let last = push_block(&mut function, Insn::from_return(at(0x1008), 4).unwrap());
    assert!(function.add_block_edge(first, last).is_ok());
    let id = publish(&mut functions, &mut blocks, function);

    let function = functions.get_by_id(id).unwrap();
    let last = function.blocks_at(at(0x1008))[0];
    let (parent, child) = function.split_at_block(last, &blocks).unwrap();
    assert_eq!(parent.blocks().len(), 1);
    assert_eq!(child.blocks().len(), 1);
    assert_eq!(child.entry(), at(0x1008));
    let kinds: Vec<FlowKind> = parent
        .flow_targets(&blocks)
        .iter()
        .map(|flow| flow.kind())
        .collect();
    assert_eq!(kinds, vec![FlowKind::TailCallBranch]);
    let merged = parent.merge_with(&child, &blocks).unwrap();
    assert_eq!(merged.blocks().len(), 2);
    assert_eq!(merged.edges().len(), 1);
    let kinds: Vec<FlowKind> = merged
        .flow_targets(&blocks)
        .iter()
        .map(|flow| flow.kind())
        .collect();
    assert!(kinds.contains(&FlowKind::Branch));
    assert!(!kinds.contains(&FlowKind::TailCallBranch));
    assert!(function
        .split_at_block(function.entry_block().unwrap(), &blocks)
        .is_none());
}

#[test]
fn staging_replaces_and_removes_functions() {
    let mut functions = FunctionTable::new();
    let mut blocks = CodeBlockTable::new();
    let id = publish(&mut functions, &mut blocks, diamond(0x1000));

    let mut shorter = IncompleteFunction::new(at(0x1000));
    push_block(&mut shorter, Insn::from_return(at(0x1000), 4).unwrap());
    let again = publish(&mut functions, &mut blocks, shorter);
    assert!(id == again);
    assert_eq!(functions.len(), 1);
    assert_eq!(blocks.len(), 1);

    let mut staging = FunctionTableStaging::new();
    let mut removed = staging.remove(&functions, &blocks, id).unwrap();
    assert_eq!(
        removed.take_coverage().ranges(),
        vec![AddressRange::from_size(at(0x1000), 4).unwrap()]
    );
    assert!(staging.function_by_id(&functions, id).is_none());
    assert!(functions.get_by_id(id).is_some());
    staging
        .prepare(&functions, &blocks)
        .publish(&mut functions, &mut blocks);
    assert!(functions.is_empty());
    assert!(blocks.is_empty());
}

#[test]
fn functions_share_equal_blocks() {
    let mut functions = FunctionTable::new();
    let mut blocks = CodeBlockTable::new();
    publish(&mut functions, &mut blocks, diamond(0x1000));

    let mut other = IncompleteFunction::new(at(0x1008));
    push_block(&mut other, Insn::from_return(at(0x1008), 4).unwrap());
    let other = publish(&mut functions, &mut blocks, other);
    assert_eq!(blocks.len(), 3);
    let shared = functions.get_by_id(other).unwrap().entry_block().unwrap();
    assert_eq!(functions.get_by_block_id(shared).len(), 2);

    let mut staging = FunctionTableStaging::new();
    staging.remove(&functions, &blocks, other);
    staging
        .prepare(&functions, &blocks)
        .publish(&mut functions, &mut blocks);
    assert_eq!(blocks.len(), 3);
    assert_eq!(functions.get_by_block_id(shared).len(), 1);
}

#[test]
fn staged_properties_reach_the_table() {
    let mut functions = FunctionTable::new();
    let mut blocks = CodeBlockTable::new();
    let id = publish(&mut functions, &mut blocks, diamond(0x1000));
    let mut staging = FunctionTableStaging::new();
    let thunk = FunctionProperties::of(FunctionProperties::THUNK);
    assert!(staging
        .set_properties(&functions, &blocks, at(0x1000), thunk, Revision::new(4))
        .is_some());
    assert!(staging
        .set_properties(&functions, &blocks, at(0x9000), thunk, Revision::new(4))
        .is_none());
    staging
        .prepare(&functions, &blocks)
        .publish(&mut functions, &mut blocks);
    let function = functions.get_by_id(id).unwrap();
    assert!(function.is_thunk());
    assert_eq!(function.input_revision(), Revision::new(4));
}

#[test]
fn normalising_names_the_fault() {
    let mut function = IncompleteFunction::new(at(0x1000));
    let block =
        IncompleteCodeBlock::try_new(at(0x1000), 4, vec![InsnId::new(9)], ContextSet::new())
            .unwrap();
    function.push_block(block);
    assert!(matches!(
        function.normalise(),
        Err(IncompleteFunctionError::InvalidInsnId(_))
    ));

    let mut function = diamond(0x1000);
    let stale = function.blocks()[0].successors().iter()[0];
    function.clear_blocks();
    let block = push_block(&mut function, Insn::from_return(at(0x1000), 4).unwrap());
    assert!(matches!(
        function.add_block_edge(block, stale),
        Err(IncompleteFunctionError::InvalidBlockId(_))
    ));
    assert!(matches!(
        function.remove_block_edge(stale, block),
        Err(IncompleteFunctionError::InvalidBlockId(_))
    ));
    assert!(function.block(stale).is_none());
    assert!(function.block(block).is_some());
}

#[test]
fn blocks_have_at_most_the_size_that_fits() {
    assert!(
        IncompleteCodeBlock::try_new(at(0x1000), 0x1_0000, Vec::new(), ContextSet::new()).is_none()
    );
    let block =
        IncompleteCodeBlock::try_new(at(0x1000), 0xffff, Vec::new(), ContextSet::new()).unwrap();
    assert_eq!(block.size(), 0xffff);
}

#[test]
fn normalised_records_list_calls_and_coverage() {
    let mut function = IncompleteFunction::new(at(0x1000));
    push_block(
        &mut function,
        Insn::from_direct_call(at(0x1000), 4, at(0x4000)).unwrap(),
    );
    push_block(&mut function, Insn::from_return(at(0x1004), 4).unwrap());
    let mut record = function.normalise().ok().unwrap();
    assert_eq!(record.take_call_targets().items, vec![at(0x4000)]);
    assert_eq!(
        record.take_coverage().ranges(),
        vec![AddressRange::from_size(at(0x1000), 8).unwrap()]
    );
    assert!(record
        .take_references()
        .iter()
        .any(|reference| reference.is_call()));
    assert_eq!(record.block_count(), 2);
    assert_eq!(record.block_addresses(), vec![at(0x1000), at(0x1004)]);
}

#[test]
fn maintained_call_graph_agrees_with_rebuilt_one() {
    let mut functions = FunctionTable::new();
    let mut blocks = CodeBlockTable::new();
    let mut graph = CallGraphIndex::new_transient();
    for (entry, callee) in [(0x1000, 0x2000), (0x2000, 0x1000), (0x1000, 0x3000)] {
        let mut function = IncompleteFunction::new(at(entry));
        push_block(
            &mut function,
            Insn::from_direct_call(at(entry), 4, at(callee)).unwrap(),
        );
        let id = publish(&mut functions, &mut blocks, function);
        let function = functions.get_by_id(id).unwrap();
        graph.set_callees(
            function.entry(),
            &CallGraphIndex::function_call_targets(function, &blocks),
        );
        let mut rebuilt = CallGraphIndex::new_transient();
        rebuilt.rebuild(&functions, &blocks);
        assert_eq!(graph.edges(None), rebuilt.edges(None));
    }
    assert_eq!(graph.edges(None).len(), 2);
}

#[test]
fn rebuilt_indexes_describe_the_tables() {
    let mut functions = FunctionTable::new();
    let mut blocks = CodeBlockTable::new();
    let id = publish(&mut functions, &mut blocks, diamond(0x1000));

    let (writes, allocator) = rebuild_block_indexes(&blocks.iter());
    assert_eq!(allocator.len(), 3);
    assert_eq!(allocator.pending_id(0).index(), 3);
    let mut index = StoredBlockIndex::new();
    index.apply(&writes);
    assert_eq!(index.overlap_ids(at(0x1005)).len(), 1);
    assert_eq!(index.ids_starting_at(at(0x1008)).len(), 1);
    assert!(index.overlap_ids(at(0x100c)).is_empty());

    let (writes, allocator) = rebuild_function_indexes(&functions.iter());
    assert_eq!(allocator.len(), 1);
    assert_eq!(writes.len(), 4);
    assert!(writes.iter().any(|write| matches!(
        write,
        FunctionIndexWrite::InsertEntry { entry, id: found } if *entry == at(0x1000) && *found == id
    )));
}

#[test]
fn published_removals_give_identities_back() {
    let mut functions = FunctionTable::new();
    let mut blocks = CodeBlockTable::new();
    let id = publish(&mut functions, &mut blocks, diamond(0x1000));
    assert_eq!(functions.pending_id(0).index(), 1);
    let mut staging = FunctionTableStaging::new();
    staging.remove(&functions, &blocks, id);
    staging
        .prepare(&functions, &blocks)
        .publish(&mut functions, &mut blocks);
    assert!(functions.pending_id(0) == id.next_generation());
    assert_eq!(functions.pending_id(1).index(), 1);
    let handed: Vec<u32> = (0..3)
        .map(|offset| blocks.pending_id(offset).generation())
        .collect();
    assert_eq!(handed, vec![1, 1, 1]);
    assert_eq!(blocks.pending_id(3).index(), 3);

    let again = publish(&mut functions, &mut blocks, diamond(0x2000));
    assert_eq!(again.index(), id.index());
    let function = functions.get_by_id(again).unwrap();
    assert!(function
        .blocks()
        .iter()
        .all(|(_, block)| blocks.get_by_id(*block).is_some()));
}

#[test]
fn added_blocks_stand_in_the_order_of_their_addresses() {
    let first = CodeBlockId::new(1);
    let second = CodeBlockId::new(2);
    let third = CodeBlockId::new(3);
    let function = Function::new(FunctionId::new(0), at(0x1000)).with_blocks(&vec![
        (at(0x2000), first),
        (at(0x1000), second),
        (at(0x1000), third),
    ]);
    assert!(function.blocks() == [(at(0x1000), second), (at(0x1000), third), (at(0x2000), first)]);
    assert!(function.entry_block() == Some(second));
    assert!(function.blocks_at(at(0x1000)) == vec![second, third]);
}

#[test]
fn functions_are_not_split_where_a_cut_is_no_branch() {
    let mut blocks = CodeBlockTable::new();
    let make = |id: CodeBlockId, start: Address| {
        Ok(CodeBlockRecord::new(start, 4, &Vec::new(), ContextSet::new()).materialise(id))
    };
    let first = blocks.insert(at(0x1000), make).ok().unwrap();
    let second = blocks.insert(at(0x1004), make).ok().unwrap();
    let unknown = CodeBlockId::new(40);
    let function = Function::new(FunctionId::new(0), at(0x1000)).with_body(
        vec![(at(0x1000), first), (at(0x1004), second), (at(0x2000), unknown)],
        vec![(first, second)],
        Some(first),
    );
    assert!(function.split_at_block(second, &blocks).is_none());
}

#[test]
fn identities_of_blocks_that_are_not_needed_any_more_are_cancelled() {
    let mut functions = FunctionTable::new();
    let mut blocks = CodeBlockTable::new();
    let mut staging = FunctionTableStaging::new();
    let record = diamond(0x1000).normalise().ok().unwrap();
    let id = staging.stage_materialisation(&functions, &blocks, record).id();
    assert!(staging.remove(&functions, &blocks, id).is_some());
    let batch = staging.prepare(&functions, &blocks);
    assert_eq!(batch.block_reservations.len(), 3);
    assert_eq!(batch.cancelled_blocks.len(), 3);
    assert_eq!(batch.cancelled_functions.len(), 1);
    batch.publish(&mut functions, &mut blocks);
    assert!(functions.is_empty() && blocks.is_empty());
    assert_eq!(functions.pending_id(0).generation(), 1);
    assert_eq!(blocks.pending_id(0).generation(), 1);
}

#[test]
fn staged_blocks_are_found_again_in_the_order_they_came() {
    let functions = FunctionTable::new();
    let blocks = CodeBlockTable::new();
    let mut staging = FunctionTableStaging::new();
    let record = || CodeBlockRecord::new(at(0x1000), 4, &Vec::new(), ContextSet::new());
    let other = CodeBlockRecord::new(at(0x1000), 8, &Vec::new(), ContextSet::new());
    let first = staging.resolve_block(&functions, &blocks, &record());
    let second = staging.resolve_block(&functions, &blocks, &other);
    assert!(first == blocks.pending_id(0) && second == blocks.pending_id(1));
    assert!(staging.resolve_block(&functions, &blocks, &record()) == first);
    assert!(staging.resolve_block(&functions, &blocks, &other) == second);
}

#[test]
fn members_behind_a_missing_block_are_not_looked_at() {
    let functions = FunctionTable::new();
    let mut blocks = CodeBlockTable::new();
    let known = blocks
        .insert(at(0x2000), |id, start| {
            Ok(CodeBlockRecord::new(start, 4, &Vec::new(), ContextSet::new()).materialise(id))
        })
        .ok()
        .unwrap();
    let missing = CodeBlockId::new(9);
    let function = Function::new(FunctionId::new(0), at(0x1000))
        .with_blocks(&vec![(at(0x1000), missing), (at(0x1004), known)]);
    let mut staging = FunctionTableStaging::new();
    let staged = staging.stage_membership(&functions, &blocks, function);
    assert!(matches!(
        staged,
        Err(IncompleteFunctionError::MissingCodeBlock(id)) if id == missing
    ));
}

#[test]
fn batches_write_entries_indexes_and_identities() {
    let mut functions = FunctionTable::new();
    let mut blocks = CodeBlockTable::new();
    let mut function_ids = PersistentIdAllocator::initialise(PersistentTable::Functions, 0, 0);
    let mut block_ids = PersistentIdAllocator::initialise(PersistentTable::CodeBlocks, 0, 0);
    let index = StoredBlockIndex::new();

    let mut staging = FunctionTableStaging::new();
    let record = diamond(0x1000).normalise().ok().unwrap();
    let id = staging.stage_materialisation(&functions, &blocks, record).id();
    let batch = staging.prepare(&functions, &blocks);
    let writes = append_batch_writes(&function_ids, &block_ids, &index, &batch);
    assert_eq!(writes.blocks.len(), 3);
    assert!(writes.blocks.iter().all(|(_, block)| block.is_some()));
    assert_eq!(writes.functions.len(), 1);
    assert!(writes.functions[0].0 == id && writes.functions[0].1.is_some());
    assert_eq!(writes.function_index.len(), 4);
    assert!(matches!(
        writes.function_index[0],
        FunctionIndexWrite::InsertEntry { entry, id: led } if entry == at(0x1000) && led == id
    ));
    assert!(writes.function_index[1..]
        .iter()
        .all(|write| matches!(write, FunctionIndexWrite::InsertBlock(key) if key.function == id)));
    assert!(matches!(
        writes.function_ids.last(),
        Some(IdWrite::State { state, .. }) if state.next_index == 1 && state.live == 1
    ));
    assert_eq!(writes.block_index.len(), 7);
    assert!(matches!(
        writes.block_ids.last(),
        Some(IdWrite::State { state, .. }) if state.next_index == 3 && state.live == 3
    ));
    function_ids.publish_transition(&batch.function_reservations, &Vec::new(), 1, 0);
    block_ids.publish_transition(&batch.block_reservations, &Vec::new(), 3, 0);
    batch.publish(&mut functions, &mut blocks);

    let mut staging = FunctionTableStaging::new();
    assert!(staging.remove(&functions, &blocks, id).is_some());
    let batch = staging.prepare(&functions, &blocks);
    let (function_index, ids) = append_prepared_writes(&function_ids, &batch);
    assert!(
        matches!(function_index[0], FunctionIndexWrite::RemoveEntry(entry) if entry == at(0x1000))
    );
    assert_eq!(function_index.len(), 4);
    assert!(matches!(ids[0], IdWrite::Free { key, generation: 1 } if key.index == 0));
    assert!(matches!(
        ids.last(),
        Some(IdWrite::State { state, .. }) if state.next_index == 1 && state.live == 0
    ));
    let rows = append_block_rows(&batch.blocks);
    assert_eq!(rows.len(), 3);
    assert!(rows.iter().all(|(_, block)| block.is_none()));
    assert!(append_function_rows(&batch.functions)[0].1.is_none());
    let (_, ids) = append_prepared_block_writes(&block_ids, &index, &batch);
    assert_eq!(ids.len(), 4);
}
