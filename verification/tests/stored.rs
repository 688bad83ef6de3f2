use fugue_ir::address::{Address, AddressRange, RawAddress};
use fugue_ir::block::{CodeBlockEntity, CodeBlockId};
use fugue_ir::block_buckets::{
    BlockIndexWrite, BlockRangeChange, CodeBlockSizeBucket, CodeBlockStartKey, StoredBlockIndex,
};
use fugue_ir::block_holders::BlockHolders;
use fugue_ir::codec::KeyCodec;
use fugue_ir::function::{Function, FunctionId};
use fugue_ir::function_table::FunctionTableError;
use fugue_ir::id::Id;
use fugue_ir::order::{SortedMap, SortedSet};
use fugue_ir::prepared::PreparedFunctionRecord;
use fugue_ir::prepared_writes::{
    append_entry_writes, append_holder_writes, block_transition, function_transition,
    FunctionBlockKey, FunctionIndexWrite,
};
use fugue_ir::problem::{Problem, ProblemKind, ProblemScope};
use fugue_ir::problem_table::ProblemTableError;
use fugue_ir::stored_ids::{
    FreeIdKey, IdWrite, PersistentIdAllocator, PersistentTable, TableIndexState,
};
use fugue_ir::stored_writes::{
    insert_function_with, insert_problem, insert_switch, remove_function, remove_problem,
    remove_switch, EntryWrite, EntryWrites,
};
use fugue_ir::switch::{Switch, SwitchModel};
use fugue_ir::switch_table::SwitchTableError;
use fugue_ir::types::Revision;

fn at(offset: u64) -> Address {
    Address::from(offset)
}

fn change(id: u32, previous: Option<AddressRange>, range: Option<AddressRange>) -> BlockRangeChange {
    BlockRangeChange {
        id: CodeBlockId::new(id),
        previous,
        range,
    }
}

fn span(offset: u64, size: u64) -> AddressRange {
    AddressRange::from_size(at(offset), size).unwrap()
}

#[test]
fn buckets_hold_blocks_of_like_size() {
    let bucket = CodeBlockSizeBucket::new(span(0x1000, 0x10));
    assert_eq!(bucket, CodeBlockSizeBucket::new(span(0x5000, 0x9)));
    assert_ne!(bucket, CodeBlockSizeBucket::new(span(0x1000, 0x11)));
    let start = bucket.overlap_search_start(RawAddress::from(0x1010u64));
    assert_eq!(start, RawAddress::from(0x1001u64));
    assert_eq!(
        bucket.overlap_search_start(RawAddress::from(3u64)),
        RawAddress::from(0u64)
    );
}

#[test]
fn stored_index_follows_its_writes() {
    let mut index = StoredBlockIndex::new();
    let changes = vec![
        change(0, None, Some(span(0x1000, 0x10))),
        change(1, None, Some(span(0x1008, 0x4))),
        change(2, None, Some(span(0x2000, 0x10))),
    ];
    let writes = index.append_prepared_writes(&changes);
    assert!(writes
        .iter()
        .any(|write| matches!(write, BlockIndexWrite::InsertBuckets { .. })));
    index.apply(&writes);
    let mut ids = index.overlap_ids(at(0x1009));
    ids.sort_by_key(|id| id.index());
    assert!(ids == vec![CodeBlockId::new(0), CodeBlockId::new(1)]);
    assert!(index.ids_starting_at(at(0x2000)) == vec![CodeBlockId::new(2)]);

    let writes = index.append_prepared_writes(&vec![change(0, Some(span(0x1000, 0x10)), None)]);
    assert!(!writes
        .iter()
        .any(|write| matches!(write, BlockIndexWrite::RemoveBuckets(_))));
    index.apply(&writes);
    assert!(index.overlap_ids(at(0x1009)) == vec![CodeBlockId::new(1)]);

    let writes = index.append_prepared_writes(&vec![
        change(1, Some(span(0x1008, 0x4)), None),
        change(2, Some(span(0x2000, 0x10)), None),
    ]);
    assert!(writes
        .iter()
        .any(|write| matches!(write, BlockIndexWrite::RemoveBuckets(_))));
    index.apply(&writes);
    assert!(index.overlap_ids(at(0x1009)).is_empty());
    assert!(index.ids_starting_at(at(0x2000)).is_empty());
}

#[test]
fn block_start_keys_sort_as_their_bytes() {
    let low = CodeBlockStartKey {
        address: at(0x10),
        id: Id::with_generation(9, 1),
    };
    let high = CodeBlockStartKey {
        address: at(0x11),
        id: Id::new(0),
    };
    let (mut low_bytes, mut high_bytes) = (Vec::new(), Vec::new());
    low.encode(&mut low_bytes);
    high.encode(&mut high_bytes);
    assert_eq!(low_bytes.len(), 18);
    assert!(low_bytes < high_bytes);
    let mut input: &[u8] = &low_bytes;
    let back = CodeBlockStartKey::decode(&mut input).unwrap();
    assert_eq!(back.address, low.address);
    assert!(back.id == low.id);
}

#[test]
fn stored_allocator_reuses_lowest_free_slots_first() {
    let table = PersistentTable::CodeBlocks;
    let mut allocator =
        PersistentIdAllocator::<CodeBlockEntity>::initialise(table, 3, 3);
    let released = vec![CodeBlockId::new(2), CodeBlockId::new(0)];
    let writes = allocator.append_transition(&Vec::new(), &released, 0, 2);
    assert_eq!(writes.len(), 3);
    assert!(matches!(writes[2], IdWrite::State { .. }));
    allocator.publish_transition(&Vec::new(), &released, 0, 2);
    assert_eq!(allocator.len(), 1);
    let first = allocator.pending_id(0);
    let second = allocator.pending_id(1);
    let third = allocator.pending_id(2);
    assert!(first == Id::with_generation(0, 1));
    assert!(second == Id::with_generation(2, 1));
    assert!(third == Id::new(3));
    allocator.publish_transition(&vec![first, second, third], &Vec::new(), 3, 0);
    assert_eq!(allocator.len(), 4);
    assert!(allocator.pending_id(0) == Id::new(4));
    assert!(allocator
        .append_transition(&Vec::new(), &Vec::new(), 0, 0)
        .is_empty());
}

#[test]
fn allocator_loads_only_from_a_known_state() {
    let table = PersistentTable::Functions;
    let mut free = SortedMap::new();
    free.insert(1u32, 4u32);
    assert!(
        PersistentIdAllocator::<CodeBlockEntity>::load(table, None, SortedMap::new()).is_none()
    );
    let state = TableIndexState::new(2, 1);
    assert!(state.is_current());
    let allocator =
        PersistentIdAllocator::<CodeBlockEntity>::load(table, Some(state), free).unwrap();
    assert!(allocator.pending_id(0) == Id::with_generation(1, 4));
    assert!(allocator.pending_id(1) == Id::new(2));
}

#[test]
fn free_slot_keys_start_with_their_table() {
    let key = FreeIdKey {
        table: PersistentTable::Problems,
        index: 0x0102_0304,
    };
    let mut bytes = Vec::new();
    key.encode(&mut bytes);
    assert_eq!(bytes.len(), 5);
    assert_eq!(bytes[0], PersistentTable::Problems.to_byte());
    assert_eq!(bytes[1..], [1, 2, 3, 4]);
    let mut input: &[u8] = &bytes;
    assert!(FreeIdKey::decode(&mut input).is_some_and(|read| read.index == key.index));
    assert!(PersistentTable::from_byte(0xff).is_none());
    assert_eq!(FreeIdKey::first(PersistentTable::Problems).index, 0);
}

#[test]
fn entry_writes_follow_the_records() {
    let id = FunctionId::new(1);
    let records = vec![
        PreparedFunctionRecord {
            function: Some(Function::new(id, at(0x2000))),
            id,
            previous: Some(at(0x1000)),
        },
        PreparedFunctionRecord {
            function: None,
            id: FunctionId::new(2),
            previous: Some(at(0x3000)),
        },
    ];
    let writes = append_entry_writes(&records);
    assert!(writes.iter().any(|write| matches!(
        write,
        FunctionIndexWrite::RemoveEntry(entry) if *entry == at(0x3000)
    )));
    assert!(writes.iter().any(|write| matches!(
        write,
        FunctionIndexWrite::InsertEntry { entry, .. } if *entry == at(0x2000)
    )));
    let transition = function_transition(&records, &SortedSet::new());
    assert_eq!(transition.added, 0);
    assert_eq!(transition.removed, 1);
    assert!(transition.releases == vec![FunctionId::new(2)]);
}

#[test]
fn holder_writes_are_the_difference() {
    let block = CodeBlockId::new(3);
    let (kept, gone, added) = (FunctionId::new(1), FunctionId::new(2), FunctionId::new(4));
    let mut before = BlockHolders::new();
    before.add_holder(block, kept);
    before.add_holder(block, gone);
    let mut now = BlockHolders::new();
    now.add_holder(block, kept);
    now.add_holder(block, added);
    let writes = append_holder_writes(&now, &before);
    assert_eq!(writes.len(), 2);
    assert!(writes.iter().any(|write| matches!(
        write,
        FunctionIndexWrite::RemoveBlock(key) if key.function == gone
    )));
    assert!(writes.iter().any(|write| matches!(
        write,
        FunctionIndexWrite::InsertBlock(key) if key.function == added
    )));
    assert!(FunctionBlockKey::first(block).block == block);
}

#[test]
fn block_transition_counts_changes() {
    let changes = vec![
        change(0, None, Some(span(0x1000, 0x10))),
        change(1, Some(span(0x1008, 0x4)), None),
        change(2, Some(span(0x2000, 0x4)), Some(span(0x2000, 0x8))),
    ];
    let transition = block_transition(&changes, &SortedSet::new());
    assert_eq!(transition.added, 1);
    assert_eq!(transition.removed, 1);
    assert!(transition.releases == vec![CodeBlockId::new(1)]);
}

fn state_of<T>(writes: &EntryWrites<T>) -> (u64, u64) {
    match writes.ids.last() {
        Some(IdWrite::State { state, .. }) => (state.next_index, state.live),
        _ => panic!("identities are written"),
    }
}

#[test]
fn single_insertions_write_what_changed() {
    let allocator = PersistentIdAllocator::initialise(PersistentTable::Functions, 2, 2);
    let first = CodeBlockId::new(1);
    let second = CodeBlockId::new(2);
    let third = CodeBlockId::new(3);
    let make = |blocks: Vec<(Address, CodeBlockId)>| {
        move |id: FunctionId, entry: Address| {
            Ok((Function::new(id, entry).with_blocks(&blocks), blocks.len()))
        }
    };

    let (made, count, writes) = insert_function_with(
        &allocator,
        None,
        at(0x1000),
        make(vec![(at(0x1000), first), (at(0x1004), second)]),
    )
    .ok()
    .unwrap();
    assert_eq!(count, 2);
    assert_eq!(made.id().index(), 2);
    assert!(matches!(writes.entry, EntryWrite::Insert(id) if id == made.id()));
    assert_eq!(writes.index.len(), 3);
    assert!(matches!(
        writes.index[0],
        FunctionIndexWrite::InsertEntry { entry, id } if entry == at(0x1000) && id == made.id()
    ));
    assert!(matches!(
        writes.index[1],
        FunctionIndexWrite::InsertBlock(key) if key.block == first && key.function == made.id()
    ));
    assert!(matches!(writes.index[2], FunctionIndexWrite::InsertBlock(key) if key.block == second));
    assert_eq!(state_of(&writes), (3, 3));

    let (again, _, writes) = insert_function_with(
        &allocator,
        Some(&made),
        at(0x1000),
        make(vec![(at(0x1004), second), (at(0x1008), third)]),
    )
    .ok()
    .unwrap();
    assert!(again.id() == made.id());
    assert_eq!(writes.index.len(), 3);
    assert!(matches!(writes.index[1], FunctionIndexWrite::RemoveBlock(key) if key.block == first));
    assert!(matches!(writes.index[2], FunctionIndexWrite::InsertBlock(key) if key.block == third));
    assert!(writes.ids.is_empty());

    let refused = insert_function_with(&allocator, None, at(0x1000), |id, _| {
        Ok((Function::new(id, at(0x2000)), ()))
    });
    assert!(matches!(refused, Err(FunctionTableError::AddressMismatch)));

    let writes = remove_function(&allocator, &again);
    assert!(matches!(writes.entry, EntryWrite::Remove(id) if id == again.id()));
    assert_eq!(writes.index.len(), 3);
    assert!(
        matches!(writes.index[0], FunctionIndexWrite::RemoveEntry(entry) if entry == at(0x1000))
    );
    assert!(matches!(writes.index[1], FunctionIndexWrite::RemoveBlock(key) if key.block == second));
    assert!(matches!(
        writes.ids[0],
        IdWrite::Free { key, generation: 1 } if key.index == 2
    ));
    assert_eq!(state_of(&writes), (2, 1));
}

#[test]
fn single_switches_and_problems_write_their_identities() {
    let allocator = PersistentIdAllocator::initialise(PersistentTable::Switches, 0, 0);
    let (switch, writes) = insert_switch(&allocator, None, at(0x10), |id, branch| {
        Ok(Switch::new(id, branch, SwitchModel::Explicit))
    })
    .ok()
    .unwrap();
    assert_eq!(switch.id().index(), 0);
    assert_eq!(state_of(&writes), (1, 1));
    let (_, writes) = insert_switch(&allocator, Some(switch.id()), at(0x10), |id, branch| {
        Ok(Switch::new(id, branch, SwitchModel::Explicit))
    })
    .ok()
    .unwrap();
    assert!(writes.ids.is_empty() && writes.index.is_empty());
    let refused = insert_switch(&allocator, None, at(0x10), |id, _| {
        Ok(Switch::new(id, at(0x20), SwitchModel::Explicit))
    });
    assert!(matches!(refused, Err(SwitchTableError::AddressMismatch)));
    let filled = PersistentIdAllocator::initialise(PersistentTable::Switches, 1, 1);
    let writes = remove_switch(&filled, switch.id());
    assert!(matches!(writes.entry, EntryWrite::Remove(id) if id == switch.id()));
    assert_eq!(state_of(&writes), (1, 0));

    let allocator = PersistentIdAllocator::initialise(PersistentTable::Problems, 4, 2);
    let scope = ProblemScope::Address(at(0x10));
    let kind = ProblemKind::minimum();
    let (problem, writes) = insert_problem(&allocator, None, scope, kind, |id, scope| {
        Ok(Problem::new_scoped(id, scope, kind, Revision::new(1)))
    })
    .ok()
    .unwrap();
    assert_eq!(problem.id().index(), 4);
    assert_eq!(state_of(&writes), (5, 3));
    let refused = insert_problem(&allocator, None, scope, ProblemKind::maximum(), |id, scope| {
        Ok(Problem::new_scoped(id, scope, kind, Revision::new(1)))
    });
    assert!(matches!(refused, Err(ProblemTableError::KeyMismatch)));
    let writes = remove_problem(&allocator, problem.id());
    assert!(matches!(
        writes.ids[0],
        IdWrite::Free { key, generation: 1 } if key.index == 4
    ));
    assert_eq!(state_of(&writes), (4, 1));
}
