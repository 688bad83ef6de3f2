use fugue_ir::address::{Address, AddressRange, RawAddress};
use fugue_ir::block::{CodeBlock, CodeBlockId, CodeBlockRecord};
use fugue_ir::block_table::{CodeBlockTable, CodeBlockTableError};
use fugue_ir::flags::CodeBlockProperties;
use fugue_ir::function::{Function, FunctionEntity, FunctionId};
use fugue_ir::function_table::{FunctionTable, FunctionTableError};
use fugue_ir::order::KeyBound;
use fugue_ir::problem::{ProblemKey, ProblemKind, ProblemScope};
use fugue_ir::problem_table::{ProblemTable, ProblemTableError};
use fugue_ir::staged_records::StagedEntityRecords;
use fugue_ir::switch::{Switch, SwitchModel};
use fugue_ir::switch_table::{SwitchTable, SwitchTableError};
use fugue_ir::types::{AddressSpaceId, ContextSet, Revision};
use ustr::Ustr;

fn block(id: CodeBlockId, start: Address, size: u16) -> CodeBlock {
    CodeBlockRecord::new(start, size, &Vec::new(), ContextSet::new()).materialise(id)
}

#[test]
fn table_test_basic_operations() {
    let mut table = CodeBlockTable::new();
    assert!(table.is_empty());
    assert_eq!(table.len(), 0);

    let addr = Address::from(0x1000);
    let blk_id = table
        .insert(addr, |id, start| Ok(block(id, start, 0x10)))
        .ok()
        .unwrap();
    assert!(!table.is_empty());
    assert_eq!(table.len(), 1);

    let blk = table.get_by_id(blk_id).unwrap();
    assert_eq!(blk.address(), addr);
    assert_eq!(blk.size(), 0x10);

    let removed = table.remove_by_id(blk_id);
    assert!(removed);
    assert!(table.is_empty());
    assert_eq!(table.len(), 0);
}

#[test]
fn test_overlapped() {
    let mut table = CodeBlockTable::new();

    let addr1 = Address::from(0x1000);
    let addr2 = Address::from(0x1000);
    let addr3 = Address::from(0x1005);

    let blk_id1 = table
        .insert(addr1, |id, start| Ok(block(id, start, 0x10)))
        .ok()
        .unwrap();
    let blk_id2 = table
        .insert(addr2, |id, start| Ok(block(id, start, 0x8)))
        .ok()
        .unwrap();
    let blk_id3 = table
        .insert(addr3, |id, start| Ok(block(id, start, 0x6)))
        .ok()
        .unwrap();

    let overlaps = table.overlaps_address(Address::from(0x1007));
    assert_eq!(overlaps.len(), 3);
    assert!(overlaps.iter().any(|blk| blk.id() == blk_id1));
    assert!(overlaps.iter().any(|blk| blk.id() == blk_id2));
    assert!(overlaps.iter().any(|blk| blk.id() == blk_id3));

    let removed_count = table.remove_by_address(Address::from(0x1000));
    assert_eq!(removed_count, 2);

    let remaining_blk = table.get_by_id(blk_id3).unwrap();
    assert_eq!(remaining_blk.address(), addr3);
}

#[test]
fn block_table_answers_by_address_and_range() {
    let mut table = CodeBlockTable::new();
    let start = Address::from(0x1000);
    let id = table
        .insert(start, |id, start| Ok(block(id, start, 0x10)))
        .ok()
        .unwrap();
    assert!(table.contains(start));
    assert!(table.contains(Address::from(0x100f)));
    assert!(!table.contains(Address::from(0x1010)));
    assert_eq!(table.get_by_address(start).len(), 1);
    let mut context = ContextSet::new();
    assert_eq!(table.get_by_address_and_context(start, &context).len(), 1);
    context.assign(1, 1);
    assert!(table.get_by_address_and_context(start, &context).is_empty());
    let touching = AddressRange::from_size(Address::from(0x100f), 4).unwrap();
    assert_eq!(table.overlaps(&touching).len(), 1);
    let behind = AddressRange::from_size(Address::from(0x1010), 4).unwrap();
    assert!(table.overlaps(&behind).is_empty());
    assert_eq!(
        table.coverage(&vec![id]).ranges(),
        vec![AddressRange::from_size(start, 0x10).unwrap()]
    );
    let failed = table.insert(start, |_, _| {
        Err(CodeBlockTableError::other("refused".to_string()))
    });
    assert!(matches!(failed, Err(CodeBlockTableError::Other(_))));
    assert_eq!(table.len(), 1);
}

fn insert(table: &mut FunctionTable, addr: Address) -> FunctionId {
    table
        .insert(addr, |id, entry| Ok(Function::new(id, entry)))
        .ok()
        .unwrap()
}

fn function_table_round(mut table: FunctionTable) {
    let addr = Address::from(0x1000);
    let func_id = insert(&mut table, addr);

    assert_eq!(table.len(), 1);

    let func = table.get_by_address(addr).unwrap();
    assert!(func.id() == func_id);

    assert!(table.remove_by_id(func_id));
    assert_eq!(table.len(), 0);

    assert!(table.get_by_address(addr).is_none());
}

#[test]
fn test_basic_operations() {
    function_table_round(FunctionTable::new());
}

#[test]
fn basic_operations() {
    function_table_round(FunctionTable::new());
}

#[test]
fn test_transient_basic_operations() {
    function_table_round(FunctionTable::new_transient());
}

#[test]
fn transient_basic_operations() {
    function_table_round(FunctionTable::new_transient());
}

#[test]
fn removal_operations() {
    let mut table = FunctionTable::new();

    let addr1 = Address::from(0x1000);
    let addr2 = Address::from(0x2000);
    let addr3 = Address::from(0x3000);

    let func_id1 = insert(&mut table, addr1);
    let func_id2 = insert(&mut table, addr2);

    assert_eq!(table.len(), 2);

    assert!(table.remove_by_address(addr1));
    assert_eq!(table.len(), 1);

    assert!(table.get_by_address(addr1).is_none());
    assert!(table.get_by_address(addr2).is_some());

    let func_id3 = insert(&mut table, addr3);

    assert_eq!(table.len(), 2);

    assert_eq!(func_id1.index(), func_id3.index());
    assert_eq!(func_id1.generation() + 1, func_id3.generation());
    assert!(table.get_by_id(func_id1).is_none());
    assert_eq!(table.get_by_id(func_id3).unwrap().entry(), addr3);

    let func_id4 = insert(&mut table, addr1);

    assert_eq!(table.len(), 3);
    assert_ne!(func_id4.index(), func_id1.index());

    assert!(table.remove_by_id(func_id2));
    assert_eq!(table.len(), 2);
}

#[test]
fn mod_stale_id_does_not_remove_reused_slot() {
    let mut table = FunctionTable::new_transient();
    let first_entry = Address::from(0x1000u64);
    let second_entry = Address::from(0x2000u64);
    let first = insert(&mut table, first_entry);
    assert!(table.remove_by_id(first));

    let second = insert(&mut table, second_entry);
    assert_eq!(first.index(), second.index());
    assert!(first != second);
    assert!(!table.remove_by_id(first));
    assert_eq!(
        table.get_by_id(second).map(|function| function.entry()),
        Some(second_entry)
    );
    assert_eq!(table.len(), 1);
}

fn rename_all(mut table: FunctionTable) {
    let addrs = [0x1000u64, 0x2000, 0x3000].map(Address::from);
    let ids = addrs
        .iter()
        .map(|&addr| insert(&mut table, addr))
        .collect::<Vec<_>>();

    for address in table.addresses() {
        let function = table.get_by_address_mut(address).unwrap();
        function.set_name(Ustr::from("renamed"));
    }

    for &id in &ids {
        let function = table.get_by_id(id).unwrap();
        assert_eq!(function.name().as_deref(), Some("renamed"));
    }
}

#[test]
fn test_transient_iter_mut_mutate_reload() {
    rename_all(FunctionTable::new_transient());
}

#[test]
fn transient_iter_mut_mutate_reload() {
    rename_all(FunctionTable::new_transient());
}

#[test]
fn function_table_refuses_what_does_not_fit() {
    let mut table = FunctionTable::new();
    let addr = Address::from(0x1000);
    let elsewhere = Address::from(0x2000);
    let wrong = table.insert(addr, |id, _| Ok(Function::new(id, elsewhere)));
    assert!(matches!(wrong, Err(FunctionTableError::AddressMismatch)));
    let failed = table.insert(addr, |_, _| {
        Err(FunctionTableError::custom("refused".to_string()))
    });
    assert!(failed.is_err());
    assert!(table.is_empty());
    let id = insert(&mut table, addr);
    assert_eq!(id.index(), 0);
    let renamed = table.modify_by_id(id, |function| function.mark_thunk());
    assert!(renamed.is_some());
    assert!(table.get_by_id(id).unwrap().is_thunk());
    assert!(table
        .modify_by_address(elsewhere, |function| function.mark_thunk())
        .is_none());
}

#[test]
fn function_table_lists_addresses_of_a_space() {
    let mut table = FunctionTable::new();
    let other = Address {
        space: AddressSpaceId::from(1u16),
        address: RawAddress::from(0x1800u64),
    };
    for addr in [Address::from(0x3000), Address::from(0x1000), other] {
        insert(&mut table, addr);
    }
    assert_eq!(
        table.addresses(),
        vec![Address::from(0x1000), Address::from(0x3000), other]
    );
    assert_eq!(
        table.addresses_in_range(
            AddressSpaceId::from(0u16),
            KeyBound::Excluded(RawAddress::from(0x1000u64)),
            KeyBound::Unbounded,
        ),
        vec![Address::from(0x3000)]
    );
    assert_eq!(
        table.addresses_in_space_after(AddressSpaceId::from(1u16), None),
        vec![other]
    );
}

#[test]
fn staged_entities_retain_contiguous_order() {
    let mut entries = StagedEntityRecords::<FunctionEntity, i32>::new();
    let first = FunctionId::from_index(7);
    let second = FunctionId::from_index(8);

    assert_eq!(entries.insert(first, 11), None);
    assert_eq!(entries.insert(second, 12), None);
    assert_eq!(entries.insert(first, 13), Some(11));
    assert_eq!(entries.get(&first), Some(&13));

    let (entries, ordered) = entries.into_entries();
    assert!(ordered);
    assert!(entries == [(first, 13), (second, 12)]);
}

#[test]
fn staged_entities_promote_discontinuous_ids() {
    let mut entries = StagedEntityRecords::<FunctionEntity, i32>::new();
    let first = FunctionId::from_index(7);
    let third = FunctionId::from_index(9);

    entries.insert(first, 11);
    entries.insert(third, 13);

    let (mut entries, ordered) = entries.into_entries();
    assert!(!ordered);
    entries.sort_unstable_by_key(|(id, _)| id.key());
    assert!(entries == [(first, 11), (third, 13)]);
}

#[test]
fn staged_entities_promote_before_removal() {
    let mut entries = StagedEntityRecords::<FunctionEntity, i32>::new();
    let first = FunctionId::from_index(7);
    let second = FunctionId::from_index(8);

    entries.insert(first, 11);
    entries.insert(second, 12);

    assert_eq!(entries.remove(&first), Some(11));
    assert_eq!(entries.get(&first), None);
    assert_eq!(entries.get(&second), Some(&12));
    assert_eq!(entries.len(), 1);
    assert!(!entries.into_entries().1);
}

fn function(index: usize) -> FunctionId {
    FunctionId::from_index(index)
}

fn switch_tables() -> [SwitchTable; 2] {
    [SwitchTable::new_transient(), SwitchTable::new()]
}

#[test]
fn indexes_switches_by_owning_function() {
    let owner = function(0);
    let other = function(1);
    let placements = [
        (Address::from(0x1000u64), owner),
        (Address::from(0x2000u64), owner),
        (Address::from(0x3000u64), other),
    ];

    for mut table in switch_tables() {
        for (branch, owning) in placements {
            table
                .insert(branch, |id, branch| {
                    Ok(Switch::new(id, branch, SwitchModel::Explicit).with_function(owning))
                })
                .ok()
                .unwrap();
        }

        let mut owned = table.branches_of_function(owner);
        owned.sort();
        assert_eq!(
            owned,
            vec![Address::from(0x1000u64), Address::from(0x2000u64)]
        );
        assert_eq!(
            table.branches_of_function(other),
            vec![Address::from(0x3000u64)]
        );

        table.remove_by_branch(Address::from(0x1000u64));
        assert_eq!(
            table.branches_of_function(owner),
            vec![Address::from(0x2000u64)]
        );

        table.modify_by_branch(Address::from(0x2000u64), |switch| {
            switch.set_function(other);
        });
        assert!(table.branches_of_function(owner).is_empty());
        assert_eq!(
            table.branches_of_function(other),
            vec![Address::from(0x2000u64), Address::from(0x3000u64)]
        );
    }
}

#[test]
fn entry_iteration_resumes_after_branch() {
    let branches = [
        Address::from(0x1000u64),
        Address::from(0x2000u64),
        Address::from(0x3000u64),
    ];

    for mut table in switch_tables() {
        for branch in branches {
            table
                .insert(branch, |id, branch| {
                    Ok(Switch::new(id, branch, SwitchModel::Explicit))
                })
                .ok()
                .unwrap();
        }

        assert_eq!(
            table
                .entries_after(Some(branches[0]))
                .iter()
                .map(|switch| switch.branch())
                .collect::<Vec<_>>(),
            branches[1..]
        );
    }
}

#[test]
fn stale_id_does_not_remove_reused_slot() {
    let mut table = SwitchTable::new_transient();
    let first_branch = Address::from(0x1000u64);
    let second_branch = Address::from(0x2000u64);
    let first = table
        .insert(first_branch, |id, branch| {
            Ok(Switch::new(id, branch, SwitchModel::Explicit))
        })
        .ok()
        .unwrap();

    assert!(table.remove_by_id(first));

    let second = table
        .insert(second_branch, |id, branch| {
            Ok(Switch::new(id, branch, SwitchModel::Explicit))
        })
        .ok()
        .unwrap();

    assert_eq!(first.index(), second.index());
    assert!(first != second);
    assert!(!table.remove_by_id(first));
    assert_eq!(
        table.get_by_id(second).map(|switch| switch.branch()),
        Some(second_branch)
    );
}

#[test]
fn switch_table_refuses_what_does_not_fit() {
    let mut table = SwitchTable::new();
    let branch = Address::from(0x1000u64);
    let wrong = table.insert(branch, |id, branch| {
        Ok(Switch::new(id, branch + 1usize, SwitchModel::Explicit))
    });
    assert!(matches!(wrong, Err(SwitchTableError::AddressMismatch)));
    let failed = table.insert(branch, |_, _| {
        Err(SwitchTableError::other_with("refused".to_string()))
    });
    assert!(matches!(failed, Err(SwitchTableError::Other(_))));
    assert!(table.is_empty());
}

#[test]
fn problem_table_counts_attempts_and_keeps_first_sight() {
    let mut table = ProblemTable::new_transient();
    let at = Address::from(0x1000u64);
    let kind = ProblemKind::minimum();
    let first = table.insert(at, kind, Revision::new(3)).ok().unwrap();
    let again = table.insert(at, kind, Revision::new(5)).ok().unwrap();
    assert!(first == again);
    assert_eq!(table.len(), 1);
    let problem = table.get(at, kind).unwrap();
    assert_eq!(problem.first_seen(), Revision::new(3));
    assert_eq!(problem.last_seen(), Revision::new(5));
    assert_eq!(problem.attempt_count(), 2);
    assert!(table.contains(at));
    assert!(!table.contains(Address::from(0x1001u64)));
    assert!(table.contains_any(at, &[ProblemKind::maximum(), kind]));
    assert!(!table.contains_any(at, &[ProblemKind::maximum()]));

    let range = AddressRange::from_size(Address::from(0x1000u64), 4).unwrap();
    let scoped = table
        .insert_scoped(ProblemScope::Range(range), kind, Revision::new(6))
        .ok()
        .unwrap();
    assert!(table.get_scoped(ProblemScope::Range(range), kind).is_some());
    assert_eq!(table.keys().len(), 2);
    assert_eq!(table.address_keys_in(range).len(), 1);
    let key = table.keys()[0];
    assert_eq!(table.entries_after(Some(key)).len(), 1);
    assert!(table.remove(at, kind));
    assert!(!table.remove(at, kind));
    assert!(table.remove_by_id(scoped));
    assert!(table.is_empty());
}

#[test]
fn problem_table_refuses_another_key() {
    let mut table = ProblemTable::new();
    let scope = ProblemScope::Address(Address::from(0x1000u64));
    let kind = ProblemKind::minimum();
    let wrong = table.insert_with(scope, kind, |id, scope| {
        Ok(fugue_ir::problem::Problem::new_scoped(
            id,
            scope,
            ProblemKind::maximum(),
            Revision::new(1),
        ))
    });
    assert!(matches!(wrong, Err(ProblemTableError::KeyMismatch)));
    assert!(table.get_by_key(ProblemKey::scoped(scope, kind)).is_none());
    let failed = table.insert_with(scope, kind, |_, _| {
        Err(ProblemTableError::other("refused".to_string()))
    });
    assert!(matches!(failed, Err(ProblemTableError::Other(_))));
    assert!(table.is_empty());
}

#[test]
fn block_overlaps_agree_with_brute_force() {
    let mut table = CodeBlockTable::new();
    let mut placed: Vec<(CodeBlockId, u64, u64)> = Vec::new();
    let mut state = 0x9e37_79b9_7f4a_7c15_u64;
    for _ in 0..600 {
        state ^= state << 13;
        state ^= state >> 7;
        state ^= state << 17;
        if state % 4 == 0 && !placed.is_empty() {
            let (id, _, _) = placed.swap_remove((state >> 9) as usize % placed.len());
            assert!(table.remove_by_id(id));
        } else {
            let start = (state >> 16) % 256;
            let size = 1 + (state >> 32) % 24;
            let id = table
                .insert(Address::from(start), |id, at| Ok(block(id, at, size as u16)))
                .ok()
                .unwrap();
            placed.push((id, start, size));
        }
        let probe = (state >> 48) % 300;
        let mut found: Vec<u64> = table
            .overlaps_address(Address::from(probe))
            .iter()
            .map(|blk| blk.id().key())
            .collect();
        found.sort();
        let mut expected: Vec<u64> = placed
            .iter()
            .filter(|(_, start, size)| *start <= probe && probe < start + size)
            .map(|(id, _, _)| id.key())
            .collect();
        expected.sort();
        assert_eq!(found, expected);
        assert_eq!(table.len(), placed.len());
        assert_eq!(table.contains(Address::from(probe)), !expected.is_empty());
    }
}

#[test]
fn fallible_problem_calls_agree_with_the_others() {
    let mut table = ProblemTable::new();
    let at = Address::from(0x1000u64);
    let kind = ProblemKind::maximum();
    let id = table.insert(at, kind, Revision::new(1)).ok().unwrap();
    assert!(matches!(table.try_get_by_id(id), Ok(Some(_))));
    assert!(matches!(table.try_get(at, kind), Ok(Some(_))));
    assert!(matches!(
        table.try_get_key(ProblemKey::new(at, ProblemKind::minimum())),
        Ok(None)
    ));
    let seen = table.try_modify_by_id(id, |problem| {
        problem.record_attempt(Revision::new(2));
        problem.attempt_count()
    });
    assert!(matches!(seen, Ok(Some(2))));
    assert!(matches!(table.try_remove(at, kind), Ok(true)));
    assert!(matches!(
        table.try_remove_key(ProblemKey::new(at, kind)),
        Ok(false)
    ));
}

#[test]
fn removed_blocks_give_every_identity_back() {
    let mut table = CodeBlockTable::new();
    let at = Address::from(0x1000u64);
    for size in [4u16, 8, 12] {
        assert!(table.insert(at, |id, start| Ok(block(id, start, size))).is_ok());
    }
    assert_eq!(table.remove_by_address(at), 3);
    let mut back: Vec<(usize, u32)> = (0..3)
        .map(|offset| table.pending_id(offset))
        .map(|id| (id.index(), id.generation()))
        .collect();
    back.sort();
    assert_eq!(back, vec![(0, 1), (1, 1), (2, 1)]);
    assert_eq!(table.pending_id(3).index(), 3);
    assert_eq!(table.pending_id(3).generation(), 0);
}

#[test]
fn fallible_calls_agree_with_the_others() {
    let at = Address::from(0x1000u64);
    let elsewhere = Address::from(0x2000u64);

    let mut functions = FunctionTable::new();
    let id = insert(&mut functions, at);
    assert!(matches!(functions.try_get_by_id(id), Ok(Some(f)) if f.entry() == at));
    assert!(matches!(functions.try_get_by_address(elsewhere), Ok(None)));
    if let Ok(Some(function)) = functions.try_get_by_id_mut(id) {
        function.set_name(Ustr::from("first"));
    }
    assert_eq!(
        functions.get_by_id(id).unwrap().name().as_deref(),
        Some("first")
    );
    if let Ok(Some(function)) = functions.try_get_by_address_mut(at) {
        function.set_name(Ustr::from("second"));
    }
    let seen = functions.try_modify_by_id(id, |f| f.name().as_deref() == Some("second"));
    assert!(matches!(seen, Ok(Some(true))));
    assert!(matches!(
        functions.try_modify_by_address(elsewhere, |_| 1),
        Ok(None)
    ));
    assert!(matches!(
        functions.try_remove_by_address(elsewhere),
        Ok(false)
    ));
    assert!(matches!(functions.try_remove_by_id(id), Ok(true)));
    assert!(functions.get_by_address(at).is_none());

    let mut switches = SwitchTable::new();
    let id = switches
        .insert(at, |id, branch| {
            Ok(Switch::new(id, branch, SwitchModel::Explicit).with_function(function(0)))
        })
        .ok()
        .unwrap();
    assert!(matches!(switches.try_get_by_id(id), Ok(Some(_))));
    assert!(matches!(switches.try_get_by_branch(elsewhere), Ok(None)));
    assert!(matches!(switches.try_modify_by_id(id, |_| 7), Ok(Some(7))));
    assert!(matches!(
        switches.try_modify_by_branch(at, |_| 8),
        Ok(Some(8))
    ));
    assert!(matches!(switches.try_remove_by_branch(at), Ok(true)));
    assert!(matches!(switches.try_remove_by_id(id), Ok(false)));

    let mut blocks = CodeBlockTable::new();
    let id = blocks
        .insert(at, |id, start| Ok(block(id, start, 4)))
        .ok()
        .unwrap();
    assert!(matches!(blocks.try_get_by_id(id), Ok(Some(_))));
    assert!(matches!(
        blocks.try_get_by_id(id.next_generation()),
        Ok(None)
    ));
}

#[test]
fn noting_a_problem_grows_the_table_once() {
    let mut table = ProblemTable::new();
    let scope = ProblemScope::Address(Address::from(0x10u64));
    let kind = ProblemKind::minimum();
    let id = table.insert_scoped(scope, kind, Revision::new(4)).ok().unwrap();
    assert_eq!(table.len(), 1);
    for revision in 5..300u64 {
        let again = table
            .insert_scoped(scope, kind, Revision::new(revision))
            .ok()
            .unwrap();
        assert!(again == id);
    }
    assert_eq!(table.len(), 1);
    let problem = table.get_by_id(id).unwrap();
    assert_eq!(problem.attempt_count(), 255);
    assert_eq!(problem.first_seen(), Revision::new(4));
    assert_eq!(problem.observed_revision(), Revision::new(4));
    assert_eq!(problem.last_seen(), Revision::new(299));
    let kind = ProblemKind::maximum();
    assert!(table.insert_scoped(scope, kind, Revision::new(1)).is_ok());
    assert_eq!(table.len(), 2);
}

#[test]
fn entries_that_lose_their_identity_are_not_shown() {
    let mut table = ProblemTable::new();
    let at = Address::from(0x10u64);
    let kind = ProblemKind::minimum();
    let id = table.insert(at, kind, Revision::new(1)).ok().unwrap();
    let other = id.next_generation();
    assert_eq!(table.modify_by_id(id, |problem| problem.id = other), Some(()));
    assert!(table.get_by_id(id).is_none());
    assert!(table.get_by_id(other).is_some());

    let mut functions = FunctionTable::new();
    let id = insert(&mut functions, at);
    functions.get_by_id_mut(id).unwrap().set_id(id.next_generation());
    assert!(functions.get_by_id(id).is_none());
    assert!(functions.get_by_address(at).is_none());
    assert!(functions.get_by_id(id.next_generation()).is_some());
}

#[test]
fn blocks_can_be_changed_in_place() {
    let mut table = CodeBlockTable::new();
    let at = Address::from(0x1000u64);
    let id = table
        .insert(at, |id, start| Ok(block(id, start, 8)))
        .ok()
        .unwrap();
    let seen = table.modify_by_id(id, |block| {
        block.properties = CodeBlockProperties::of(CodeBlockProperties::RETURN);
        block.size
    });
    assert_eq!(seen, Some(8));
    assert!(table.get_by_id(id).unwrap().is_return());
    assert_eq!(table.overlaps_address(Address::from(0x1007u64)).len(), 1);
    table.get_by_id_mut(id).unwrap().properties = CodeBlockProperties::of(0);
    assert!(!table.get_by_id(id).unwrap().is_return());
    let stale = id.next_generation();
    assert!(table.get_by_id_mut(stale).is_none());
    assert_eq!(table.modify_by_id(stale, |block| block.size), None);
}
