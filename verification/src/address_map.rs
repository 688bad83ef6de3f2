//! Values at offsets, kept as runs of neighbours with the same value.
use core::ops::RangeInclusive;

use rangemap::RangeInclusiveMap;
use vstd::prelude::*;

use crate::address::RawAddress;
use crate::order::KeyBound;

verus! {

/// The type of range maps of the `rangemap` crate.
#[verifier::external_type_specification]
#[verifier::external_body]
#[verifier::reject_recursive_types(K)]
#[verifier::reject_recursive_types(V)]
#[verifier::reject_recursive_types(StepFnsT)]
pub struct ExRangeInclusiveMap<K, V, StepFnsT>(RangeInclusiveMap<K, V, StepFnsT>);

/// The stored ranges of a `RangeInclusiveMap` with their values, as triples of both bounds and
/// the value in the order of iteration.
pub uninterp spec fn map_runs(map: RangeInclusiveMap<u64, u64>) -> Seq<(u64, u64, u64)>;

/// Whether one of the runs gives an offset a value.
pub open spec fn gives(runs: Seq<(u64, u64, u64)>, offset: int, value: u64) -> bool {
    exists|i: int|
        0 <= i < runs.len() && (#[trigger] runs[i]).0 <= offset <= runs[i].1 && runs[i].2 == value
}

/// Whether the runs hold something, ascend, and neighbours that touch have different values.
pub open spec fn parted(runs: Seq<(u64, u64, u64)>) -> bool {
    &&& forall|i: int| 0 <= i < runs.len() ==> (#[trigger] runs[i]).0 <= runs[i].1
    &&& forall|i: int, j: int|
        0 <= i < j < runs.len() ==> {
            ||| (#[trigger] runs[i]).1 + 1 < (#[trigger] runs[j]).0
            ||| runs[i].1 + 1 == runs[j].0 && runs[i].2 != runs[j].2
        }
}

/// Whether a run is one of some runs and shares an offset with a span.
pub open spec fn reaches(
    runs: Seq<(u64, u64, u64)>,
    run: (u64, u64, u64),
    start: u64,
    end: u64,
) -> bool {
    runs.contains(run) && run.0 <= end && start <= run.1
}

/// `RangeInclusiveMap::new` makes a map that stores nothing.
#[verifier::external_body]
fn map_new() -> (map: RangeInclusiveMap<u64, u64>)
    ensures
        map_runs(map) == Seq::<(u64, u64, u64)>::empty(),
{
    RangeInclusiveMap::new()
}

/// `RangeInclusiveMap::get` gives the value of the stored range that holds the key. The stored
/// ranges do not overlap.
#[verifier::external_body]
fn map_get(map: &RangeInclusiveMap<u64, u64>, offset: u64) -> (value: Option<u64>)
    ensures
        match value {
            Some(v) => gives(map_runs(*map), offset as int, v),
            None => forall|v: u64| !#[trigger] gives(map_runs(*map), offset as int, v),
        },
{
    map.get(&offset).copied()
}

/// `RangeInclusiveMap::insert` gives the keys of a range a value in place of those that they
/// had, and coalesces what touches and has the same value. It panics where the range begins
/// after its end.
#[verifier::external_body]
fn map_insert(map: &mut RangeInclusiveMap<u64, u64>, start: u64, end: u64, value: u64)
    requires
        start <= end,
    ensures
        parted(map_runs(*final(map))),
        forall|offset: int, v: u64| #[trigger]
            gives(map_runs(*final(map)), offset, v) <==> if start <= offset <= end {
                v == value
            } else {
                gives(map_runs(*old(map)), offset, v)
            },
{
    map.insert(start..=end, value)
}

/// `RangeInclusiveMap::remove` takes the keys of a range out. It panics where the range begins
/// after its end.
#[verifier::external_body]
fn map_remove(map: &mut RangeInclusiveMap<u64, u64>, start: u64, end: u64)
    requires
        start <= end,
    ensures
        parted(map_runs(*final(map))),
        forall|offset: int, v: u64| #[trigger]
            gives(map_runs(*final(map)), offset, v) <==> !(start <= offset <= end) && gives(
                map_runs(*old(map)),
                offset,
                v,
            ),
{
    map.remove(start..=end)
}

/// `RangeInclusiveMap::iter` gives the stored ranges and their values in order; ranges hold
/// something, ascend, and touch only where the values differ.
#[verifier::external_body]
fn map_iter(map: &RangeInclusiveMap<u64, u64>) -> (runs: Vec<(u64, u64, u64)>)
    ensures
        runs@ == map_runs(*map),
        parted(runs@),
{
    map.iter().map(|(range, value)| (*range.start(), *range.end(), *value)).collect()
}

/// `RangeInclusiveMap::overlapping` gives, in order, the stored ranges that share a key with
/// the given one, and their values.
#[verifier::external_body]
fn map_overlapping(map: &RangeInclusiveMap<u64, u64>, start: u64, end: u64) -> (runs: Vec<
    (u64, u64, u64),
>)
    requires
        start <= end,
    ensures
        parted(runs@),
        forall|run: (u64, u64, u64)| #[trigger]
            runs@.contains(run) == reaches(map_runs(*map), run, start, end),
{
    map.overlapping(start..=end).map(|(range, value)| (*range.start(), *range.end(), *value)).collect()
}

/// `RangeInclusiveMap::len` counts the stored ranges.
#[verifier::external_body]
fn map_len(map: &RangeInclusiveMap<u64, u64>) -> (len: usize)
    ensures
        len == map_runs(*map).len(),
{
    map.len()
}

/// `RangeInclusiveMap::is_empty` says whether nothing is stored.
#[verifier::external_body]
fn map_is_empty(map: &RangeInclusiveMap<u64, u64>) -> (empty: bool)
    ensures
        empty == (map_runs(*map).len() == 0),
{
    map.is_empty()
}

/// `RangeInclusiveMap::clear` takes everything out.
#[verifier::external_body]
fn map_clear(map: &mut RangeInclusiveMap<u64, u64>)
    ensures
        map_runs(*final(map)) == Seq::<(u64, u64, u64)>::empty(),
{
    map.clear()
}

/// The values of runs by offset.
pub open spec fn run_values(runs: Seq<(u64, u64, u64)>) -> Map<u64, u64> {
    Map::new(
        |offset: u64| exists|value: u64| #[trigger] gives(runs, offset as int, value),
        |offset: u64| choose|value: u64| #[trigger] gives(runs, offset as int, value),
    )
}

/// In runs that do not overlap, an offset has one value.
proof fn lemma_one_value(runs: Seq<(u64, u64, u64)>, offset: int, a: u64, b: u64)
    requires
        parted(runs),
        gives(runs, offset, a),
        gives(runs, offset, b),
    ensures
        a == b,
{
    let i = choose|i: int|
        0 <= i < runs.len() && (#[trigger] runs[i]).0 <= offset <= runs[i].1 && runs[i].2 == a;
    let j = choose|j: int|
        0 <= j < runs.len() && (#[trigger] runs[j]).0 <= offset <= runs[j].1 && runs[j].2 == b;
    if i < j {
        assert(runs[i].1 + 1 <= runs[j].0);
    } else if j < i {
        assert(runs[j].1 + 1 <= runs[i].0);
    }
}

/// What runs give an offset is its value.
proof fn lemma_value(runs: Seq<(u64, u64, u64)>, offset: u64, value: u64)
    requires
        parted(runs),
    ensures
        gives(runs, offset as int, value) <==> run_values(runs).get(offset) == Some(value),
{
    if gives(runs, offset as int, value) {
        lemma_one_value(runs, offset as int, value, run_values(runs)[offset]);
    }
}

/// The offsets that a span of offsets leaves: the first and the last, if there are any.
pub open spec fn span_offsets(start: KeyBound<RawAddress>, end: KeyBound<RawAddress>) -> (int, int) {
    (
        match start {
            KeyBound::Included(address) => address.0 as int,
            KeyBound::Excluded(address) => address.0 + 1,
            KeyBound::Unbounded => 0,
        },
        match end {
            KeyBound::Included(address) => address.0 as int,
            KeyBound::Excluded(address) => address.0 - 1,
            KeyBound::Unbounded => u64::MAX as int,
        },
    )
}

/// The first and last offset of a span, if there are any.
pub fn raw_address_bounds(start: KeyBound<RawAddress>, end: KeyBound<RawAddress>) -> (bounds: Option<
    (u64, u64),
>)
    ensures
        ({
            let (first, last) = span_offsets(start, end);
            match bounds {
                Some((a, b)) => a == first && b == last && first <= last,
                None => first > last,
            }
        }),
{
    let first: u64 = match start {
        KeyBound::Included(address) => address.offset(),
        KeyBound::Excluded(address) => match address.offset().checked_add(1) {
            Some(first) => first,
            None => {
                return None;
            },
        },
        KeyBound::Unbounded => 0,
    };
    let last: u64 = match end {
        KeyBound::Included(address) => address.offset(),
        KeyBound::Excluded(address) => match address.offset().checked_sub(1) {
            Some(last) => last,
            None => {
                return None;
            },
        },
        KeyBound::Unbounded => u64::MAX,
    };
    if first <= last {
        Some((first, last))
    } else {
        None
    }
}

/// Whether points are those of a map in a span of offsets, in order.
pub open spec fn lists_points(
    points: Seq<(RawAddress, u64)>,
    map: Map<u64, u64>,
    first: int,
    last: int,
) -> bool {
    &&& forall|i: int, j: int|
        0 <= i < j < points.len() ==> (#[trigger] points[i]).0.0 < (#[trigger] points[j]).0.0
    &&& forall|address: RawAddress, value: u64| #[trigger]
        points.contains((address, value)) <==> first <= address.0 <= last && map.get(address.0)
            == Some(value)
}

/// The map that comes of giving offsets their values one after the other.
pub open spec fn given(points: Seq<(RawAddress, u64)>) -> Map<u64, u64>
    decreases points.len(),
{
    if points.len() == 0 {
        Map::empty()
    } else {
        given(points.drop_last()).insert(points.last().0.0, points.last().1)
    }
}

/// Values at offsets.
pub struct RawAddressMap(RangeInclusiveMap<u64, u64>);

impl View for RawAddressMap {
    type V = Map<u64, u64>;

    closed spec fn view(&self) -> Map<u64, u64> {
        run_values(map_runs(self.0))
    }
}

impl RawAddressMap {
    /// The stored runs are parted.
    pub closed spec fn wf(&self) -> bool {
        parted(map_runs(self.0))
    }

    /// The runs of neighbours with the same value, in order.
    pub closed spec fn runs(&self) -> Seq<(u64, u64, u64)> {
        map_runs(self.0)
    }

    /// The runs hold the values of the map, and runs that touch have different values.
    pub proof fn law_runs_hold_values(&self)
        requires
            self.wf(),
        ensures
            parted(self.runs()),
            self@ == run_values(self.runs()),
    {
    }

    pub fn new() -> (map: Self)
        ensures
            map.wf(),
            map@ == Map::<u64, u64>::empty(),
    {
        let map = RawAddressMap(map_new());
        assert(map@ =~= Map::<u64, u64>::empty());
        map
    }

    /// The map that comes of giving offsets their values one after the other.
    pub fn from_iter(points: Vec<(RawAddress, u64)>) -> (map: Self)
        ensures
            map.wf(),
            map@ == given(points@),
    {
        let mut map: RawAddressMap = RawAddressMap::new();
        let mut i: usize = 0;
        while i < points.len()
            invariant
                i <= points@.len(),
                map.wf(),
                map@ == given(points@.take(i as int)),
            decreases points@.len() - i,
        {
            let (address, value): (RawAddress, u64) = points[i];
            let _ = map.insert(address, value);
            i = i + 1;
            assert(points@.take(i as int).drop_last() =~= points@.take(i - 1));
        }
        assert(points@.take(i as int) =~= points@);
        map
    }

    pub fn get(&self, address: RawAddress) -> (value: Option<u64>)
        requires
            self.wf(),
        ensures
            value == self@.get(address.0),
    {
        let value: Option<u64> = map_get(&self.0, address.offset());
        proof {
            match value {
                Some(v) => lemma_value(map_runs(self.0), address.0, v),
                None => {
                    if self@.contains_key(address.0) {
                        let v = choose|v: u64| #[trigger]
                            gives(map_runs(self.0), address.0 as int, v);
                        assert(gives(map_runs(self.0), address.0 as int, v));
                    }
                },
            }
        }
        value
    }

    pub fn contains_address(&self, address: RawAddress) -> (found: bool)
        requires
            self.wf(),
        ensures
            found == self@.contains_key(address.0),
    {
        self.get(address).is_some()
    }

    pub fn is_empty(&self) -> (empty: bool)
        requires
            self.wf(),
        ensures
            empty == (self@ == Map::<u64, u64>::empty()),
    {
        let empty: bool = map_is_empty(&self.0);
        proof {
            let runs = map_runs(self.0);
            if empty {
                assert(self@ =~= Map::<u64, u64>::empty());
            } else {
                assert(runs[0].0 <= runs[0].1);
                assert(gives(runs, runs[0].0 as int, runs[0].2));
                assert(self@.contains_key(runs[0].0));
            }
        }
        empty
    }

    /// How many runs of neighbours with the same value there are.
    pub fn run_count(&self) -> (count: usize)
        ensures
            count == self.runs().len(),
    {
        map_len(&self.0)
    }

    /// All offsets with their values, in order.
    pub fn iter(&self) -> (points: Vec<(RawAddress, u64)>)
        requires
            self.wf(),
        ensures
            lists_points(points@, self@, 0, u64::MAX as int),
    {
        let runs: Vec<(u64, u64, u64)> = map_iter(&self.0);
        let points: Vec<(RawAddress, u64)> = run_points(&runs, 0, u64::MAX);
        proof {
            assert forall|address: RawAddress, value: u64| #[trigger]
                points@.contains((address, value)) <==> 0 <= address.0 <= u64::MAX && self@.get(
                    address.0,
                ) == Some(value) by {
                lemma_value(runs@, address.0, value);
            }
        }
        points
    }

    /// The offsets of a span with their values, in order.
    pub fn range(&self, start: KeyBound<RawAddress>, end: KeyBound<RawAddress>) -> (points: Vec<
        (RawAddress, u64),
    >)
        requires
            self.wf(),
        ensures
            lists_points(
                points@,
                self@,
                span_offsets(start, end).0,
                span_offsets(start, end).1,
            ),
    {
        let (first, last): (u64, u64) = match raw_address_bounds(start, end) {
            Some(bounds) => bounds,
            None => {
                return Vec::new();
            },
        };
        let runs: Vec<(u64, u64, u64)> = map_overlapping(&self.0, first, last);
        let points: Vec<(RawAddress, u64)> = run_points(&runs, first, last);
        proof {
            let all = map_runs(self.0);
            assert forall|address: RawAddress, value: u64| #[trigger]
                points@.contains((address, value)) <==> first <= address.0 <= last && self@.get(
                    address.0,
                ) == Some(value) by {
                lemma_value(all, address.0, value);
                if first <= address.0 <= last {
                    lemma_overlapping(all, runs@, first, last, address.0 as int, value);
                }
            }
        }
        points
    }

    /// Gives an offset a value and says what it had.
    pub fn insert(&mut self, address: RawAddress, value: u64) -> (previous: Option<u64>)
        requires
            old(self).wf(),
        ensures
            final(self).wf(),
            final(self)@ == old(self)@.insert(address.0, value),
            previous == old(self)@.get(address.0),
    {
        let ghost before = *self;
        let previous: Option<u64> = self.get(address);
        map_insert(&mut self.0, address.offset(), address.offset(), value);
        proof {
            lemma_values_set(
                map_runs(before.0),
                map_runs(self.0),
                address.0,
                address.0,
                value,
            );
            assert forall|offset: u64| #[trigger] self@.contains_key(offset) <==> before@.insert(
                address.0,
                value,
            ).contains_key(offset) by {
                assert(run_values(map_runs(self.0)).get(offset) == if offset == address.0 {
                    Some(value)
                } else {
                    before@.get(offset)
                });
            }
            assert forall|offset: u64| self@.contains_key(offset) implies #[trigger] self@[offset]
                == before@.insert(address.0, value)[offset] by {
                assert(run_values(map_runs(self.0)).get(offset) == if offset == address.0 {
                    Some(value)
                } else {
                    before@.get(offset)
                });
            }
            assert(self@ =~= before@.insert(address.0, value));
        }
        previous
    }

    /// Gives the offsets of a range a value.
    pub fn insert_range(&mut self, range: RangeInclusive<RawAddress>, value: u64)
        requires
            old(self).wf(),
            !range@.exhausted,
            range@.start.0 <= range@.end.0,
        ensures
            final(self).wf(),
            forall|offset: u64| #[trigger]
                final(self)@.get(offset) == if range@.start.0 <= offset <= range@.end.0 {
                    Some(value)
                } else {
                    old(self)@.get(offset)
                },
    {
        let ghost before = *self;
        map_insert(&mut self.0, range.start().offset(), range.end().offset(), value);
        proof {
            lemma_values_set(
                map_runs(before.0),
                map_runs(self.0),
                range@.start.0,
                range@.end.0,
                value,
            );
        }
    }

    /// Takes the value of an offset away and says what it was.
    pub fn remove(&mut self, address: RawAddress) -> (previous: Option<u64>)
        requires
            old(self).wf(),
        ensures
            final(self).wf(),
            final(self)@ == old(self)@.remove(address.0),
            previous == old(self)@.get(address.0),
    {
        let ghost before = *self;
        let previous: Option<u64> = self.get(address);
        map_remove(&mut self.0, address.offset(), address.offset());
        proof {
            let old_runs = map_runs(before.0);
            let new_runs = map_runs(self.0);
            assert forall|offset: u64| #[trigger] self@.get(offset) == before@.remove(
                address.0,
            ).get(offset) by {
                if self@.contains_key(offset) {
                    let v = self@[offset];
                    lemma_value(new_runs, offset, v);
                    lemma_value(old_runs, offset, v);
                    assert(gives(new_runs, offset as int, v));
                    assert(gives(old_runs, offset as int, v));
                }
                if before@.contains_key(offset) && offset != address.0 {
                    let v = before@[offset];
                    lemma_value(old_runs, offset, v);
                    lemma_value(new_runs, offset, v);
                    assert(gives(new_runs, offset as int, v));
                }
            }
            assert forall|offset: u64| self@.contains_key(offset) <==> before@.remove(
                address.0,
            ).contains_key(offset) by {
                assert(self@.get(offset) == before@.remove(address.0).get(offset));
            }
            assert forall|offset: u64| #[trigger] self@.contains_key(offset) implies self@[offset]
                == before@[offset] by {
                assert(self@.get(offset) == before@.remove(address.0).get(offset));
            }
            assert(self@ =~= before@.remove(address.0));
        }
        previous
    }

    pub fn clear(&mut self)
        ensures
            final(self).wf(),
            final(self)@ == Map::<u64, u64>::empty(),
    {
        map_clear(&mut self.0);
        assert(self@ =~= Map::<u64, u64>::empty());
    }

    /// The greatest value in a range, if it has any.
    pub fn max_in_range(&self, range: RangeInclusive<RawAddress>) -> (max: Option<u64>)
        requires
            self.wf(),
            !range@.exhausted,
        ensures
            match max {
                Some(value) => {
                    &&& exists|offset: u64|
                        range@.start.0 <= offset <= range@.end.0 && #[trigger] self@.get(offset)
                            == Some(value)
                    &&& forall|offset: u64|
                        range@.start.0 <= offset <= range@.end.0 && #[trigger] self@.contains_key(
                            offset,
                        ) ==> self@[offset] <= value
                },
                None => forall|offset: u64|
                    range@.start.0 <= offset <= range@.end.0 ==> !#[trigger] self@.contains_key(
                        offset,
                    ),
            },
    {
        let start: u64 = range.start().offset();
        let end: u64 = range.end().offset();
        if start > end {
            return None;
        }
        let runs: Vec<(u64, u64, u64)> = map_overlapping(&self.0, start, end);
        let ghost all = map_runs(self.0);
        let mut max: Option<u64> = None;
        let mut i: usize = 0;
        while i < runs.len()
            invariant
                i <= runs@.len(),
                match max {
                    Some(value) => {
                        &&& exists|k: int| 0 <= k < i && (#[trigger] runs@[k]).2 == value
                        &&& forall|k: int| 0 <= k < i ==> (#[trigger] runs@[k]).2 <= value
                    },
                    None => i == 0,
                },
            decreases runs@.len() - i,
        {
            let value: u64 = runs[i].2;
            max = match max {
                Some(greatest) => {
                    if value > greatest {
                        Some(value)
                    } else {
                        Some(greatest)
                    }
                },
                None => Some(value),
            };
            proof {
                assert(runs@[i as int].2 == value);
            }
            i = i + 1;
        }
        proof {
            match max {
                Some(value) => {
                    let k = choose|k: int| 0 <= k < runs@.len() && (#[trigger] runs@[k]).2 == value;
                    let run = runs@[k];
                    assert(runs@.contains(run));
                    let j = all.index_of(run);
                    let offset = if run.0 < start {
                        start
                    } else {
                        run.0
                    };
                    assert(all[j].0 <= offset <= all[j].1);
                    assert(gives(all, offset as int, value));
                    lemma_value(all, offset, value);
                    assert(self@.get(offset) == Some(value));
                    assert forall|other: u64|
                        start <= other <= end && #[trigger] self@.contains_key(
                            other,
                        ) implies self@[other] <= value by {
                        lemma_value(all, other, self@[other]);
                        lemma_overlapping(all, runs@, start, end, other as int, self@[other]);
                        let m = choose|m: int|
                            0 <= m < runs@.len() && (#[trigger] runs@[m]).0 <= other <= runs@[m].1
                                && runs@[m].2 == self@[other];
                        assert(runs@[m].2 <= value);
                    }
                },
                None => {
                    assert forall|other: u64| start <= other <= end implies !#[trigger] self@.contains_key(
                        other,
                    ) by {
                        if self@.contains_key(other) {
                            lemma_value(all, other, self@[other]);
                            lemma_overlapping(all, runs@, start, end, other as int, self@[other]);
                        }
                    }
                },
            }
        }
        max
    }
}

/// Runs that share an offset with a span give the offsets of the span what all runs give them.
proof fn lemma_overlapping(
    all: Seq<(u64, u64, u64)>,
    some: Seq<(u64, u64, u64)>,
    start: u64,
    end: u64,
    offset: int,
    value: u64,
)
    requires
        forall|run: (u64, u64, u64)| #[trigger]
            some.contains(run) == reaches(all, run, start, end),
        start <= offset <= end,
    ensures
        gives(some, offset, value) <==> gives(all, offset, value),
{
    if gives(some, offset, value) {
        let i = choose|i: int|
            0 <= i < some.len() && (#[trigger] some[i]).0 <= offset <= some[i].1 && some[i].2
                == value;
        assert(some.contains(some[i]));
        let j = all.index_of(some[i]);
        assert(all[j] == some[i]);
    }
    if gives(all, offset, value) {
        let i = choose|i: int|
            0 <= i < all.len() && (#[trigger] all[i]).0 <= offset <= all[i].1 && all[i].2 == value;
        assert(all.contains(all[i]));
        assert(some.contains(all[i]));
        let j = some.index_of(all[i]);
        assert(some[j] == all[i]);
    }
}

/// What setting a range does to the values.
proof fn lemma_values_set(
    before: Seq<(u64, u64, u64)>,
    after: Seq<(u64, u64, u64)>,
    start: u64,
    end: u64,
    value: u64,
)
    requires
        parted(before),
        parted(after),
        forall|offset: int, v: u64| #[trigger]
            gives(after, offset, v) <==> if start <= offset <= end {
                v == value
            } else {
                gives(before, offset, v)
            },
    ensures
        forall|offset: u64| #[trigger]
            run_values(after).get(offset) == if start <= offset <= end {
                Some(value)
            } else {
                run_values(before).get(offset)
            },
{
    assert forall|offset: u64| #[trigger] run_values(after).get(offset) == if start <= offset
        <= end {
        Some(value)
    } else {
        run_values(before).get(offset)
    } by {
        if start <= offset <= end {
            assert(gives(after, offset as int, value));
            lemma_value(after, offset, value);
        } else {
            if run_values(before).contains_key(offset) {
                let v = run_values(before)[offset];
                lemma_value(before, offset, v);
                assert(gives(after, offset as int, v));
                lemma_value(after, offset, v);
            }
            if run_values(after).contains_key(offset) {
                let v = run_values(after)[offset];
                lemma_value(after, offset, v);
                assert(gives(after, offset as int, v));
                assert(gives(before, offset as int, v));
                lemma_value(before, offset, v);
            }
        }
    }
}

/// The offsets of runs between two offsets with their values, in order.
fn run_points(runs: &Vec<(u64, u64, u64)>, first: u64, last: u64) -> (points: Vec<
    (RawAddress, u64),
>)
    requires
        parted(runs@),
        first <= last,
    ensures
        forall|i: int, j: int|
            0 <= i < j < points@.len() ==> (#[trigger] points@[i]).0.0 < (#[trigger] points@[j]).0.0,
        forall|address: RawAddress, value: u64| #[trigger]
            points@.contains((address, value)) <==> first <= address.0 <= last && gives(
                runs@,
                address.0 as int,
                value,
            ),
{
    let mut points: Vec<(RawAddress, u64)> = Vec::new();
    let mut i: usize = 0;
    while i < runs.len()
        invariant
            i <= runs@.len(),
            parted(runs@),
            first <= last,
            forall|k: int, m: int|
                0 <= k < m < points@.len() ==> (#[trigger] points@[k]).0.0 < (
                #[trigger] points@[m]).0.0,
            forall|k: int, m: int|
                0 <= k < points@.len() && i <= m < runs@.len() ==> (#[trigger] points@[k]).0.0 < (
                #[trigger] runs@[m]).0,
            forall|address: RawAddress, value: u64| #[trigger]
                points@.contains((address, value)) <==> first <= address.0 <= last && gives(
                    runs@.take(i as int),
                    address.0 as int,
                    value,
                ),
        decreases runs@.len() - i,
    {
        let (start, end, value): (u64, u64, u64) = runs[i];
        let ghost before = points@;
        let low: u64 = if start < first {
            first
        } else {
            start
        };
        let high: u64 = if end > last {
            last
        } else {
            end
        };
        assert(runs@[i as int].0 <= runs@[i as int].1);
        if low <= high {
            let mut offset: u64 = low;
            let mut done: bool = false;
            while !done
                invariant
                    low <= offset <= high,
                    points@.len() == before.len() + (offset - low) + if done {
                        1int
                    } else {
                        0int
                    },
                    done ==> offset == high,
                    forall|k: int| 0 <= k < before.len() ==> points@[k] == before[k],
                    forall|k: int|
                        before.len() <= k < points@.len() ==> #[trigger] points@[k] == (
                            RawAddress((low + k - before.len()) as u64),
                            value,
                        ),
                decreases high - offset + if done { 0int } else { 1int },
            {
                points.push((RawAddress(offset), value));
                if offset == high {
                    done = true;
                } else {
                    offset = offset + 1;
                }
            }
        }
        proof {
            let seen = runs@.take(i as int);
            let more = runs@.take(i + 1);
            assert(more =~= seen.push(runs@[i as int]));
            assert forall|k: int, m: int|
                0 <= k < m < points@.len() implies (#[trigger] points@[k]).0.0 < (
            #[trigger] points@[m]).0.0 by {
                if m < before.len() {
                    assert(before[k].0.0 < before[m].0.0);
                } else if k < before.len() {
                    assert(before[k].0.0 < runs@[i as int].0);
                    assert(points@[k] == before[k]);
                    assert(points@[m].0.0 == low + m - before.len());
                } else {
                    assert(points@[m].0.0 == low + m - before.len());
                    assert(points@[k].0.0 == low + k - before.len());
                }
            }
            assert forall|k: int, m: int|
                0 <= k < points@.len() && i + 1 <= m < runs@.len() implies (
            #[trigger] points@[k]).0.0 < (#[trigger] runs@[m]).0 by {
                assert(runs@[i as int].1 + 1 <= runs@[m].0);
                if k < before.len() {
                    assert(before[k].0.0 < runs@[m].0);
                }
            }
            assert forall|address: RawAddress, v: u64| #[trigger]
                points@.contains((address, v)) <==> first <= address.0 <= last && gives(
                    more,
                    address.0 as int,
                    v,
                ) by {
                let point = (address, v);
                if before.contains(point) {
                    let k = before.index_of(point);
                    assert(points@[k] == point);
                    let m = choose|m: int|
                        0 <= m < seen.len() && (#[trigger] seen[m]).0 <= address.0 <= seen[m].1
                            && seen[m].2 == v;
                    assert(more[m] == seen[m]);
                }
                if points@.contains(point) && !before.contains(point) {
                    let k = points@.index_of(point);
                    if k < before.len() {
                        assert(before[k] == point);
                    }
                    assert(more[i as int] == runs@[i as int]);
                    assert(gives(more, address.0 as int, v));
                }
                if first <= address.0 <= last && gives(more, address.0 as int, v) {
                    let m = choose|m: int|
                        0 <= m < more.len() && (#[trigger] more[m]).0 <= address.0 <= more[m].1
                            && more[m].2 == v;
                    if m < i {
                        assert(seen[m] == more[m]);
                        assert(gives(seen, address.0 as int, v));
                        assert(before.contains(point));
                    } else {
                        let k = before.len() + (address.0 - low);
                        assert(points@[k] == point);
                    }
                }
            }
        }
        i = i + 1;
    }
    assert(runs@.take(i as int) =~= runs@);
    points
}

} // verus!
