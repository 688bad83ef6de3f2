use std::collections::BTreeSet;

use fugue_ir::codec::KeyCodec;
use fugue_ir::id::{Id, IdAllocator, IdSet};

#[derive(Debug)]
struct Marker;

#[test]
fn id_allocator_restores_reuse_and_fresh_allocations() {
    let mut allocator = IdAllocator::<Marker>::new();
    let first = allocator.allocate();
    let second = allocator.allocate();
    let third = allocator.allocate();
    allocator.release(first);
    allocator.release(second);

    let allocation = allocator.checkpoint(1);
    assert_eq!(allocator.allocate(), second.next_generation());
    allocator.release(third);
    allocator.restore(allocation);

    assert_eq!(allocator.free_len(), 2);
    assert_eq!(allocator.next_id(), second.next_generation());

    let mut fresh = IdAllocator::<Marker>::new();
    assert_eq!(fresh.allocate().index(), 0);
    let allocation = fresh.checkpoint(0);
    assert_eq!(fresh.allocate().index(), 1);
    fresh.restore(allocation);
    assert_eq!(fresh.next_id().index(), 1);
}

#[test]
fn id_allocator_does_not_commit_failed_allocation() {
    let mut allocator = IdAllocator::<Marker>::new();
    let result = allocator.try_allocate(|_| Err::<(), _>("failure"));

    assert_eq!(result, Err("failure"));
    assert_eq!(allocator.next_id().index(), 0);
}

#[test]
fn pending_ids_are_those_that_are_allocated_next() {
    let mut allocator = IdAllocator::<Marker>::new();
    let first = allocator.allocate();
    let _ = allocator.allocate();
    allocator.release(first);
    let pending: Vec<Id<Marker>> = (0..3).map(|offset| allocator.pending_id(offset)).collect();
    for id in pending {
        assert_eq!(allocator.allocate(), id);
    }
}

#[test]
fn id_keys_decode_to_the_id() {
    let id = Id::<Marker>::with_generation(7, 3);
    let mut bytes = Vec::new();
    id.encode(&mut bytes);
    assert_eq!(bytes, vec![0, 0, 0, 3, 0, 0, 0, 7]);
    let mut input: &[u8] = &bytes;
    assert!(Id::<Marker>::decode(&mut input) == Some(id));
    assert!(input.is_empty());
    let mut short: &[u8] = &bytes[..7];
    assert!(Id::<Marker>::decode(&mut short).is_none());
    assert!(Id::<Marker>::default().is_invalid());
    assert!(id.is_valid());
}

#[test]
fn id_sets_hold_each_id_once() {
    let mut set = IdSet::<Marker>::new();
    assert!(set.is_empty());
    assert!(set.insert(Id::new(4)));
    assert!(!set.insert(Id::new(4)));
    assert!(set.insert(Id::with_generation(4, 1)));
    assert_eq!(set.len(), 2);
    assert!(set.contains(Id::with_generation(4, 1)));
    assert!(!set.contains(Id::new(5)));
    assert_eq!(set.iter().len(), 2);
    assert!(set.remove(Id::new(4)));
    assert!(!set.remove(Id::new(4)));
    assert!(set.iter() == vec![Id::with_generation(4, 1)]);
}

#[test]
fn id_sets_agree_with_an_ordered_set() {
    let mut set = IdSet::<Marker>::new();
    let mut expected = BTreeSet::new();
    let mut state = 0x1234_5678_9abc_def1_u64;
    for _ in 0..4000 {
        state ^= state << 13;
        state ^= state >> 7;
        state ^= state << 17;
        let id = Id::with_generation((state >> 8) as u32 % 300, (state >> 40) as u32 % 4);
        if state % 3 == 0 {
            assert_eq!(set.remove(id), expected.remove(&id.key()));
        } else {
            assert_eq!(set.insert(id), expected.insert(id.key()));
        }
        assert_eq!(set.len(), expected.len());
        assert!(set.contains(id) == expected.contains(&id.key()));
    }
    let mut keys: Vec<u64> = set.iter().iter().map(|id| id.key()).collect();
    keys.sort();
    assert_eq!(keys, expected.into_iter().collect::<Vec<_>>());
}

#[test]
fn identities_are_never_handed_out_twice() {
    let mut allocator = IdAllocator::<Marker>::new();
    let mut earlier = BTreeSet::new();
    let mut out: Vec<Id<Marker>> = Vec::new();
    let mut last_released: Option<Id<Marker>> = None;
    let mut used = 0usize;
    let mut state = 0x9e37_79b9u32;
    for _ in 0..400 {
        state = state.wrapping_mul(1_664_525).wrapping_add(1_013_904_223);
        if !out.is_empty() && state & 0x4000_0000 == 0 {
            let released = out.swap_remove((state >> 8) as usize % out.len());
            allocator.release(released);
            last_released = Some(released);
        } else {
            let expected = allocator.next_id();
            let id = allocator.allocate();
            assert!(id == expected);
            assert!(earlier.insert((id.index(), id.generation())));
            assert!(out.iter().all(|other| other.index() != id.index()));
            if let Some(released) = last_released {
                assert!(id == released.next_generation());
            }
            if id.index() == used {
                assert_eq!(out.len(), used);
                used += 1;
            }
            last_released = None;
            out.push(id);
        }
    }
}
