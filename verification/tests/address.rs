use std::ops::RangeInclusive;

use fugue_ir::address::{Address, AddressRange, AddressTable, RawAddress};
use fugue_ir::address_map::RawAddressMap;
use fugue_ir::address_set::AddressRangeSet;
use fugue_ir::order::KeyBound;
use fugue_ir::range_ext::AddressRangeExt;
use fugue_ir::range_set::RawAddressRangeSet;
use fugue_ir::types::AddressSpaceId;

#[test]
fn empty_address_table_has_no_range() {
    let table = AddressTable::new(Address::from(0x1000u64), 4);
    assert_eq!(table.range(), None);
}

#[test]
fn zero_element_size_table_has_no_range() {
    let mut table = AddressTable::new(Address::from(0x1000u64), 0);
    table.set_element_count(4);
    assert_eq!(table.range(), None);
}

#[test]
fn table_range_ends_at_last_byte_of_last_element() {
    let table = AddressTable::new(Address::from(0x1000u64), 4).with_element_count(3);
    assert_eq!(table.size(), 12);
    assert_eq!(table.entry_address(2), Address::from(0x1008u64));
    assert_eq!(table.range(), Some(range(0, 0x1000, 0x100b)));
}

#[test]
fn raw_address_aligns_in_both_directions() {
    let address = RawAddress::from(0x1003u64);
    assert_eq!(address.align(4), RawAddress::from(0x1004u64));
    assert_eq!(address.align_down(4), RawAddress::from(0x1000u64));
}

#[test]
fn raw_address_sums_wrap_and_checked_sums_do_not() {
    let last = RawAddress::max_value();
    assert_eq!(last + 1usize, RawAddress::zero());
    assert_eq!(last.checked_add(1u64), None);
    assert_eq!(RawAddress::zero().checked_sub(1u64), None);
    assert_eq!(RawAddress::from(7u64).checked_sub(3u64), Some(RawAddress::from(4u64)));
    assert_eq!(RawAddress::from(3u64).absolute_difference(&RawAddress::from(9u64)), 6);
}

#[test]
fn inclusive_size() {
    assert_eq!(
        (RawAddress::from(0u64)..=RawAddress::from(9u64)).size(),
        Some(10)
    );
    assert_eq!(
        (RawAddress::from(5u64)..=RawAddress::from(5u64)).size(),
        Some(1)
    );
    assert_eq!((RawAddress::zero()..=RawAddress::max_value()).size(), None);
    assert_eq!(
        (RawAddress::from(5u64)..=RawAddress::from(3u64)).size(),
        Some(0)
    );
}

#[test]
fn inclusive_bounds() {
    let range = RawAddress::from(4u64)..=RawAddress::from(8u64);
    assert_eq!(range.first(), RawAddress::from(4u64));
    assert_eq!(AddressRangeExt::last(&range), RawAddress::from(8u64));
    assert!(!AddressRangeExt::is_empty(&range));
    assert!(range.contains_address(RawAddress::from(4u64)));
    assert!(range.contains_address(RawAddress::from(8u64)));
    assert!(!range.contains_address(RawAddress::from(9u64)));
    assert_eq!(
        range.inclusive(),
        RawAddress::from(4u64)..=RawAddress::from(8u64)
    );
}

#[test]
fn exclusive_size() {
    assert_eq!(
        (RawAddress::from(0u64)..RawAddress::from(10u64)).size(),
        Some(10)
    );
    assert_eq!(
        (RawAddress::from(5u64)..RawAddress::from(5u64)).size(),
        Some(0)
    );
}

#[test]
fn exclusive_bounds() {
    let range = RawAddress::from(4u64)..RawAddress::from(9u64);
    assert_eq!(range.first(), RawAddress::from(4u64));
    assert_eq!(AddressRangeExt::last(&range), RawAddress::from(8u64));
    assert!(!AddressRangeExt::is_empty(&range));
    assert!(range.contains_address(RawAddress::from(4u64)));
    assert!(!range.contains_address(RawAddress::from(9u64)));
    assert_eq!(
        range.inclusive(),
        RawAddress::from(4u64)..=RawAddress::from(8u64)
    );
    let nothing: Vec<RangeInclusive<RawAddress>> = Vec::new();
    assert!((RawAddress::zero()..RawAddress::zero())
        .difference(nothing)
        .is_empty());
}

#[test]
fn range_difference_leaves_what_no_exclusion_covers() {
    let whole = RawAddress::from(0u64)..=RawAddress::from(20u64);
    let excluded = vec![
        RawAddress::from(3u64)..=RawAddress::from(5u64),
        RawAddress::from(10u64)..=RawAddress::from(20u64),
    ];
    assert_eq!(
        whole.difference(excluded),
        vec![
            RawAddress::from(0u64)..=RawAddress::from(2u64),
            RawAddress::from(6u64)..=RawAddress::from(9u64),
        ]
    );
}

fn range(space: u8, start: u64, end: u64) -> AddressRange {
    AddressRange::new(
        AddressSpaceId::from(space),
        RawAddress::from(start),
        RawAddress::from(end),
    )
}

#[test]
fn address_range_contains_and_size() {
    let span = range(0, 0x1000, 0x1fff);

    assert!(span.contains(RawAddress::from(0x1000u64)));
    assert!(span.contains(RawAddress::from(0x1fffu64)));
    assert!(!span.contains(RawAddress::from(0xfffu64)));
    assert!(!span.contains(RawAddress::from(0x2000u64)));
    assert_eq!(span.size(), 0x1000);
    assert!(!span.is_empty());
}

#[test]
fn address_range_from_size_rejects_empty_and_overflowing_extents() {
    let start = Address::from(0x1000u64);
    assert_eq!(
        AddressRange::from_size(start, 0x20),
        Some(range(0, 0x1000, 0x101f))
    );
    assert_eq!(AddressRange::from_size(start, 0), None);
    assert_eq!(AddressRange::from_size(Address::from(u64::MAX), 2), None);
}

#[test]
fn address_range_intersects() {
    let base = range(0, 0x1000, 0x1fff);

    assert!(base.intersects(&range(0, 0x1fff, 0x2fff)));
    assert!(base.intersects(&range(0, 0x1400, 0x14ff)));
    assert!(base.intersects(&range(0, 0x0, 0x1000)));
    assert!(!base.intersects(&range(0, 0x2000, 0x2fff)));
    assert!(!base.intersects(&range(0, 0x0, 0xfff)));
    assert!(!base.intersects(&range(1, 0x1000, 0x1fff)));
}

#[test]
fn address_range_set_ranges_round_trip() {
    let mut covered = AddressRangeSet::new();
    covered.insert_range(range(0, 0x1000, 0x1fff));
    covered.insert_range(range(0, 0x2000, 0x2fff));
    covered.insert_range(range(1, 0x1000, 0x10ff));

    let ranges = covered.ranges();

    assert_eq!(
        ranges,
        vec![range(0, 0x1000, 0x2fff), range(1, 0x1000, 0x10ff)]
    );
}

#[test]
fn address_range_set_intersection_agrees_with_brute_force() {
    let mut covered = AddressRangeSet::new();
    covered.insert_range(range(0, 0x1000, 0x1fff));
    covered.insert_range(range(0, 0x4000, 0x4fff));
    covered.insert_range(range(2, 0x0, 0xff));

    let candidates = [
        range(0, 0x0, 0xfff),
        range(0, 0x0, 0x1000),
        range(0, 0x2000, 0x3fff),
        range(0, 0x4fff, 0x5fff),
        range(1, 0x1000, 0x1fff),
        range(2, 0xff, 0x1ff),
    ];

    for candidate in candidates {
        let brute = covered
            .ranges()
            .iter()
            .any(|span| span.intersects(&candidate));
        assert_eq!(covered.intersects_range(&candidate), brute);

        let mut other = AddressRangeSet::new();
        other.insert_range(candidate);
        assert_eq!(covered.intersects(&other), brute);
    }
}

#[test]
fn address_range_set_operations_keep_spaces_apart() {
    let mut left = AddressRangeSet::new();
    left.insert_range(range(0, 1, 4));
    left.insert_range(range(1, 1, 4));
    let mut right = AddressRangeSet::new();
    right.insert_range(range(0, 3, 9));

    assert_eq!(left.intersection(&right).ranges(), vec![range(0, 3, 4)]);
    assert_eq!(
        left.difference(&right).ranges(),
        vec![range(0, 1, 2), range(1, 1, 4)]
    );
    assert_eq!(
        left.union(&right).ranges(),
        vec![range(0, 1, 9), range(1, 1, 4)]
    );
    left.remove_range(range(1, 1, 4));
    assert_eq!(left.ranges(), vec![range(0, 1, 4)]);
    assert_eq!(left.range_count(), 1);
    assert_eq!(left.addresses().len(), 4);
    assert!(!left.insert(Address::from(1u64)));
    assert!(left.insert(Address::from(9u64)));
    assert_eq!(left.spanning_ranges().ranges(), vec![range(0, 1, 9)]);
}

fn raw_range(start: u64, end: u64) -> RangeInclusive<RawAddress> {
    RawAddress::from(start)..=RawAddress::from(end)
}

fn offsets(set: &RawAddressRangeSet) -> Vec<u64> {
    set.iter().iter().map(|address| address.offset()).collect()
}

#[test]
fn raw_address_range_set_preserves_set_operations() {
    let mut left = RawAddressRangeSet::new();
    left.insert_range(raw_range(1, 5));
    left.insert_range(raw_range(10, 12));
    let mut right = RawAddressRangeSet::new();
    right.insert_range(raw_range(4, 10));

    assert_eq!(offsets(&left.difference(&right)), vec![1, 2, 3, 11, 12]);
    assert_eq!(offsets(&left.intersection(&right)), vec![4, 5, 10]);
    assert_eq!(
        offsets(&left.symmetric_difference(&right)),
        vec![1, 2, 3, 6, 7, 8, 9, 11, 12]
    );
    assert_eq!(
        offsets(&left.union(&right)),
        (1u64..=12).collect::<Vec<_>>()
    );
    assert_eq!(left.span(), Some(raw_range(1, 12)));
}

#[test]
fn raw_address_range_set_difference_handles_spanning_exclusions() {
    let mut included = RawAddressRangeSet::new();
    included.insert_range(raw_range(0, 10));
    included.insert_range(raw_range(20, 30));

    let mut excluded = RawAddressRangeSet::new();
    excluded.insert_range(raw_range(0, 0));
    excluded.insert_range(raw_range(3, 5));
    excluded.insert_range(raw_range(8, 22));
    excluded.insert_range(raw_range(30, u64::MAX));

    assert_eq!(
        included.difference(&excluded).ranges(),
        vec![raw_range(1, 2), raw_range(6, 7), raw_range(23, 29)]
    );
}

#[test]
fn raw_address_range_set_forgets_what_is_removed() {
    let mut set = RawAddressRangeSet::new();
    assert!(set.is_empty());
    assert!(set.insert(RawAddress::from(4u64)));
    assert!(!set.insert(RawAddress::from(4u64)));
    assert!(set.contains(RawAddress::from(4u64)));
    set.insert_range(raw_range(10, 20));
    assert_eq!(set.range_count(), 2);
    assert!(set.intersects_range(raw_range(20, 30)));
    assert!(!set.intersects_range(raw_range(21, 30)));
    set.remove(RawAddress::from(15u64));
    set.remove_range(raw_range(0, 5));
    assert_eq!(set.ranges(), vec![raw_range(10, 14), raw_range(16, 20)]);
    assert_eq!(
        set.overlapping_ranges(raw_range(12, 17)),
        vec![raw_range(10, 14), raw_range(16, 20)]
    );
    set.clear();
    assert!(set.is_empty());
    assert_eq!(set.span(), None);
}

#[test]
fn raw_address_map_bounds_and_overlaps_preserve_point_semantics() {
    let mut map = RawAddressMap::new();
    map.insert_range(raw_range(2, 5), 1);
    map.insert_range(raw_range(8, 10), 2);
    assert_eq!(map.insert(RawAddress::from(4u64), 3), Some(1));
    assert_eq!(map.run_count(), 4);

    let bounded = map
        .range(
            KeyBound::Excluded(RawAddress::from(2u64)),
            KeyBound::Excluded(RawAddress::from(9u64)),
        )
        .iter()
        .map(|(address, value)| (address.offset(), *value))
        .collect::<Vec<_>>();

    assert_eq!(bounded, vec![(3, 1), (4, 3), (5, 1), (8, 2)]);
    assert_eq!(map.max_in_range(raw_range(4, 8)), Some(3));
    assert_eq!(map.remove(RawAddress::from(4u64)), Some(3));
    assert_eq!(map.get(RawAddress::from(4u64)), None);
    assert!(map
        .range(
            KeyBound::Excluded(RawAddress::max_value()),
            KeyBound::Unbounded,
        )
        .is_empty());
}

#[test]
fn raw_address_map_coalesces_equal_neighbours() {
    let mut map = RawAddressMap::new();
    assert!(map.is_empty());
    assert_eq!(map.insert(RawAddress::from(1u64), 7), None);
    assert_eq!(map.insert(RawAddress::from(2u64), 7), None);
    assert_eq!(map.run_count(), 1);
    assert_eq!(map.insert(RawAddress::from(3u64), 8), None);
    assert_eq!(map.run_count(), 2);
    assert!(map.contains_address(RawAddress::from(3u64)));
    assert!(!map.contains_address(RawAddress::from(4u64)));
    assert_eq!(
        map.iter(),
        vec![
            (RawAddress::from(1u64), 7),
            (RawAddress::from(2u64), 7),
            (RawAddress::from(3u64), 8),
        ]
    );
    assert_eq!(map.max_in_range(raw_range(4, 9)), None);
    assert_eq!(map.max_in_range(raw_range(9, 4)), None);
    map.clear();
    assert!(map.is_empty());
}

#[test]
fn offsets_are_read_from_text() {
    assert_eq!("4096".parse::<RawAddress>(), Ok(RawAddress::from(4096u64)));
    assert_eq!("0x1aF".parse::<RawAddress>(), Ok(RawAddress::from(0x1afu64)));
    assert_eq!("0X10".parse::<RawAddress>(), Ok(RawAddress::from(16u64)));
    assert_eq!("+7".parse::<RawAddress>(), Ok(RawAddress::from(7u64)));
    assert_eq!(
        RawAddress::parse("0xffffffffffffffff"),
        Ok(RawAddress::max_value())
    );
    assert!(RawAddress::parse("").is_err());
    assert!(RawAddress::parse("0x").is_err());
    assert!(RawAddress::parse("1f").is_err());
    assert!(RawAddress::parse("-1").is_err());
    assert!(RawAddress::parse("18446744073709551616").is_err());
}

#[test]
fn sets_and_maps_are_made_of_lists() {
    let set = RawAddressRangeSet::from_iter(vec![
        RawAddress::from(2u64),
        RawAddress::from(1u64),
        RawAddress::from(2u64),
    ]);
    assert_eq!(offsets(&set), vec![1, 2]);
    let map = RawAddressMap::from_iter(vec![
        (RawAddress::from(2u64), 5),
        (RawAddress::from(2u64), 6),
    ]);
    assert_eq!(map.iter(), vec![(RawAddress::from(2u64), 6)]);
}
