//! What addresses, ranges and lists at addresses are for.
use vstd::prelude::*;

use crate::address::{Address, AddressRange, AddressTable, RawAddress};
use crate::address_map::{given, RawAddressMap};
use crate::id::Id;
use crate::ids_by_address::{differs, taken_out};
use crate::order::KeyBound;
use crate::types::{lemma_filter_holds, Confidence, Language};

verus! {

/// A range that is made of a beginning and a size holds that many addresses from there on, and
/// says so.
pub proof fn law_sized_range_holds_size(
    start: Address,
    size: u64,
    range: Option<AddressRange>,
    said: u64,
    address: Address,
)
    requires
        call_ensures(AddressRange::from_size, (start, size), range),
        range matches Some(r) ==> call_ensures(AddressRange::size, (&r,), said),
    ensures
        range is Some <==> size > 0 && start.address.0 + size <= 0x1_0000_0000_0000_0000,
        range matches Some(r) ==> said == size && (r.holds(address) <==> address.space
            == start.space && start.address.0 <= address.address.0 < start.address.0 + size),
{
}

/// What remains of a range from an address on is as many addresses as the range holds from
/// there.
pub proof fn law_remaining_reaches_end(
    range: AddressRange,
    address: Address,
    remaining: Option<u64>,
    other: Address,
)
    requires
        call_ensures(AddressRange::remaining_from, (&range, address), remaining),
    ensures
        !range.holds(address) ==> remaining is None,
        range.holds(address) && !(address.address.0 == 0 && range.end.0 == u64::MAX)
            ==> remaining is Some,
        remaining matches Some(left) ==> (range.holds(other) && address.address.0
            <= other.address.0 <==> other.space == address.space && address.address.0
            <= other.address.0 < address.address.0 + left),
{
}

/// The entries of a table follow each other from its beginning, and its range is made of the
/// bytes of all of them, where it does not run over the end of its space.
pub proof fn law_entries_fill_table(
    table: AddressTable,
    index: u32,
    entry: Address,
    next: Address,
    range: Option<AddressRange>,
    address: Address,
)
    requires
        call_ensures(AddressTable::entry_address, (&table, index), entry),
        index + 1 < table.element_count,
        call_ensures(AddressTable::entry_address, (&table, (index + 1) as u32), next),
        call_ensures(AddressTable::range, (&table,), range),
        table.address.address.0 + table.element_count * table.element_size <= u64::MAX,
        table.element_size > 0,
    ensures
        index == 0 ==> entry == table.address,
        entry.space == table.address.space,
        next.address.0 - entry.address.0 == table.element_size,
        range is Some,
        range->0.holds(entry),
        range->0.holds(address) <==> address.space == table.address.space
            && table.address.address.0 <= address.address.0 < table.address.address.0
            + table.element_count * table.element_size,
{
    let (size, count) = (table.element_size as int, table.element_count as int);
    assert(index * size + size == (index + 1) * size) by (nonlinear_arith);
    assert((index + 1) * size <= count * size) by (nonlinear_arith)
        requires
            index + 1 < count,
            0 < size,
    ;
    assert(0 <= index * size && 0 < (index + 1) * size) by (nonlinear_arith)
        requires
            0 <= index,
            0 < size,
    ;
    assert(0 * size == 0);
}

/// Wrapping brings each offset into the space of a language, leaves those that are in it, and
/// moves others by whole spaces.
pub proof fn law_wrapping_stays_in_space(address: RawAddress, language: Language, wrapped: RawAddress)
    requires
        call_ensures(RawAddress::wrap, (&address, &language), wrapped),
    ensures
        wrapped.0 <= language.highest,
        address.0 <= language.highest ==> wrapped == address,
        (address.0 - wrapped.0) % (language.highest + 1) == 0,
{
    let size = language.highest + 1;
    vstd::arithmetic::div_mod::lemma_fundamental_div_mod(address.0 as int, size);
    vstd::arithmetic::div_mod::lemma_mod_multiples_basic(address.0 as int / size, size);
    vstd::arithmetic::mul::lemma_mul_is_commutative(size, address.0 as int / size);
    if address.0 <= language.highest {
        vstd::arithmetic::div_mod::lemma_small_mod(address.0 as nat, size as nat);
    }
}

/// The distance between two offsets is the same from both, is none from one to itself, and
/// leads from the lower one to the other.
pub proof fn law_distance_is_symmetric(a: RawAddress, b: RawAddress, ab: u64, ba: u64)
    requires
        call_ensures(RawAddress::absolute_difference, (&a, &b), ab),
        call_ensures(RawAddress::absolute_difference, (&b, &a), ba),
    ensures
        ab == ba,
        ab == 0 <==> a == b,
        a.0 <= b.0 ==> a.0 + ab == b.0,
{
}

/// Being certain exceeds being somewhat certain, which exceeds being uncertain; no level exceeds
/// itself, and of two different levels one exceeds the other.
pub proof fn law_confidence_is_ordered(a: Confidence, b: Confidence, ab: bool, ba: bool)
    requires
        call_ensures(Confidence::exceeds, (&a, &b), ab),
        call_ensures(Confidence::exceeds, (&b, &a), ba),
    ensures
        !(ab && ba),
        a != b ==> ab || ba,
        ab ==> a is Certain || b is Uncertain,
        ab ==> !(a is Uncertain) && !(b is Certain),
{
}

/// An identity that is taken out of a list is in it no more, and all others stay.
pub proof fn law_taken_identity_is_gone<T>(ids: Seq<Id<T>>, id: Id<T>, other: Id<T>)
    requires
        ids.no_duplicates(),
    ensures
        taken_out(ids, id).contains(other) <==> ids.contains(other) && other != id,
{
    let after = taken_out(ids, id);
    if ids.len() > 0 {
        let rest = ids.drop_first();
        let first = ids.first();
        assert(ids[0] == first);
        assert forall|i: int| 0 <= i < rest.len() implies #[trigger] rest[i] == ids[i + 1] by {}
        assert(ids.contains(other) <==> other == first || rest.contains(other)) by {
            if ids.contains(other) && other != first {
                let i = ids.index_of(other);
                assert(rest[i - 1] == other);
            }
            if rest.contains(other) {
                assert(ids[rest.index_of(other) + 1] == other);
            }
        }
        if first == id {
            assert(!rest.contains(id)) by {
                if rest.contains(id) {
                    let i = rest.index_of(id);
                    assert(ids[i + 1] == ids[0]);
                }
            }
        } else {
            let kept = rest.filter(differs(id));
            lemma_filter_holds(rest, differs(id), other);
            crate::body::lemma_add_contains(seq![first], kept, other);
            assert(seq![first].contains(other) <==> other == first) by {
                assert(seq![first][0] == first);
            }
        }
    }
}

/// Of values that are given to one offset the last counts, and an offset that is given none has
/// none.
pub proof fn law_last_value_counts(points: Seq<(RawAddress, u64)>, offset: u64, last: int)
    requires
        -1 <= last < points.len(),
        last >= 0 ==> points[last].0.0 == offset,
        forall|i: int| last < i < points.len() ==> (#[trigger] points[i]).0.0 != offset,
    ensures
        given(points).get(offset) == if last < 0 {
            None
        } else {
            Some(points[last].1)
        },
    decreases points.len(),
{
    if points.len() > 0 {
        let rest = points.drop_last();
        assert(points[points.len() - 1] == points.last());
        if last < points.len() - 1 {
            assert forall|i: int| last < i < rest.len() implies (#[trigger] rest[i]).0.0
                != offset by {
                assert(points[i] == rest[i]);
            }
            law_last_value_counts(rest, offset, last);
        }
    }
}

/// The points listed in a span are those of the map between its bounds.
pub proof fn law_points_in_span_are_listed(
    map: RawAddressMap,
    start: KeyBound<RawAddress>,
    end: KeyBound<RawAddress>,
    points: Vec<(RawAddress, u64)>,
    address: RawAddress,
    value: u64,
)
    requires
        map.wf(),
        call_ensures(RawAddressMap::range, (&map, start, end), points),
    ensures
        points@.contains((address, value)) <==> {
            &&& map@.contains_key(address.0) && map@[address.0] == value
            &&& match start {
                KeyBound::Included(low) => low.0 <= address.0,
                KeyBound::Excluded(low) => low.0 < address.0,
                KeyBound::Unbounded => true,
            }
            &&& match end {
                KeyBound::Included(high) => address.0 <= high.0,
                KeyBound::Excluded(high) => address.0 < high.0,
                KeyBound::Unbounded => true,
            }
        },
{
}

} // verus!
