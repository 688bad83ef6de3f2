//! Sets of addresses, kept as runs of neighbours.
use core::ops::RangeInclusive;

use rangemap::RangeInclusiveSet;
use vstd::prelude::*;

use crate::address::{Address, RawAddress};
use crate::order::{ascending, Ranked};
use crate::range_ext::{excludable, excludes, separated, some_range_holds, AddressRangeExt};
use crate::runs::{law_runs_determined, lemma_beside_run, runs_apart, runs_cover};

verus! {

/// The type of range sets of the `rangemap` crate.
#[verifier::external_type_specification]
#[verifier::external_body]
#[verifier::reject_recursive_types(T)]
#[verifier::reject_recursive_types(StepFnsT)]
pub struct ExRangeInclusiveSet<T, StepFnsT>(RangeInclusiveSet<T, StepFnsT>);

/// The stored ranges of a `RangeInclusiveSet`, as pairs of bounds in the order of iteration.
pub uninterp spec fn set_runs(set: RangeInclusiveSet<u64>) -> Seq<(u64, u64)>;

/// Whether one of the runs holds the offset.
pub open spec fn covers(runs: Seq<(u64, u64)>, offset: int) -> bool {
    exists|i: int| 0 <= i < runs.len() && (#[trigger] runs[i]).0 <= offset <= runs[i].1
}

/// Whether the runs hold something, ascend, and leave a gap between each two.
pub open spec fn coalesced(runs: Seq<(u64, u64)>) -> bool {
    &&& forall|i: int| 0 <= i < runs.len() ==> (#[trigger] runs[i]).0 <= runs[i].1
    &&& forall|i: int, j: int|
        0 <= i < j < runs.len() ==> (#[trigger] runs[i]).1 + 1 < (#[trigger] runs[j]).0
}

/// `RangeInclusiveSet::new` makes a set that stores nothing.
#[verifier::external_body]
fn set_new() -> (set: RangeInclusiveSet<u64>)
    ensures
        set_runs(set) == Seq::<(u64, u64)>::empty(),
{
    RangeInclusiveSet::new()
}

/// `RangeInclusiveSet::clone` makes a set that stores the same ranges.
#[verifier::external_body]
fn set_clone(set: &RangeInclusiveSet<u64>) -> (copy: RangeInclusiveSet<u64>)
    ensures
        set_runs(copy) == set_runs(*set),
{
    set.clone()
}

/// `RangeInclusiveSet::insert` adds the values of a range and coalesces what touches. It
/// panics where the range begins after its end.
#[verifier::external_body]
fn set_insert(set: &mut RangeInclusiveSet<u64>, start: u64, end: u64)
    requires
        start <= end,
    ensures
        coalesced(set_runs(*final(set))),
        forall|offset: int| #[trigger]
            covers(set_runs(*final(set)), offset) <==> covers(set_runs(*old(set)), offset) || start
                <= offset <= end,
{
    set.insert(start..=end)
}

/// `RangeInclusiveSet::remove` takes the values of a range out. It panics where the range
/// begins after its end.
#[verifier::external_body]
fn set_remove(set: &mut RangeInclusiveSet<u64>, start: u64, end: u64)
    requires
        start <= end,
    ensures
        coalesced(set_runs(*final(set))),
        forall|offset: int| #[trigger]
            covers(set_runs(*final(set)), offset) <==> (covers(set_runs(*old(set)), offset) && !(
            start <= offset <= end)),
{
    set.remove(start..=end)
}

/// `RangeInclusiveSet::contains` says whether a stored range holds the value.
#[verifier::external_body]
fn set_contains(set: &RangeInclusiveSet<u64>, offset: u64) -> (found: bool)
    ensures
        found == covers(set_runs(*set), offset as int),
{
    set.contains(&offset)
}

/// `RangeInclusiveSet::iter` gives the stored ranges in order; they hold something, ascend
/// and do not touch.
#[verifier::external_body]
fn set_iter(set: &RangeInclusiveSet<u64>) -> (runs: Vec<(u64, u64)>)
    ensures
        runs@ == set_runs(*set),
        coalesced(runs@),
{
    set.iter().map(|range| (*range.start(), *range.end())).collect()
}

/// `RangeInclusiveSet::overlapping` gives, in order, the stored ranges that share a value
/// with the given one.
#[verifier::external_body]
fn set_overlapping(set: &RangeInclusiveSet<u64>, start: u64, end: u64) -> (runs: Vec<(u64, u64)>)
    requires
        start <= end,
    ensures
        runs@ == set_runs(*set).filter(|run: (u64, u64)| run.0 <= end && start <= run.1),
{
    set.overlapping(start..=end).map(|range| (*range.start(), *range.end())).collect()
}

/// `RangeInclusiveSet::overlaps` says whether a stored range shares a value with the given
/// one.
#[verifier::external_body]
fn set_overlaps(set: &RangeInclusiveSet<u64>, start: u64, end: u64) -> (meet: bool)
    requires
        start <= end,
    ensures
        meet == (exists|offset: int| start <= offset <= end && covers(set_runs(*set), offset)),
{
    set.overlaps(&(start..=end))
}

/// `RangeInclusiveSet::len` counts the stored ranges.
#[verifier::external_body]
fn set_len(set: &RangeInclusiveSet<u64>) -> (len: usize)
    ensures
        len == set_runs(*set).len(),
{
    set.len()
}

/// `RangeInclusiveSet::is_empty` says whether nothing is stored.
#[verifier::external_body]
fn set_is_empty(set: &RangeInclusiveSet<u64>) -> (empty: bool)
    ensures
        empty == (set_runs(*set).len() == 0),
{
    set.is_empty()
}

/// `RangeInclusiveSet::first` gives the lowest stored range.
#[verifier::external_body]
fn set_first(set: &RangeInclusiveSet<u64>) -> (run: Option<(u64, u64)>)
    ensures
        run is Some == (set_runs(*set).len() > 0),
        run matches Some(r) ==> r == set_runs(*set).first(),
{
    set.first().map(|range| (*range.start(), *range.end()))
}

/// `RangeInclusiveSet::last` gives the highest stored range.
#[verifier::external_body]
fn set_last(set: &RangeInclusiveSet<u64>) -> (run: Option<(u64, u64)>)
    ensures
        run is Some == (set_runs(*set).len() > 0),
        run matches Some(r) ==> r == set_runs(*set).last(),
{
    set.last().map(|range| (*range.start(), *range.end()))
}

/// `RangeInclusiveSet::clear` takes everything out.
#[verifier::external_body]
fn set_clear(set: &mut RangeInclusiveSet<u64>)
    ensures
        set_runs(*final(set)) == Seq::<(u64, u64)>::empty(),
{
    set.clear()
}

/// The `|` of two `RangeInclusiveSet`s holds what either holds.
#[verifier::external_body]
fn set_union(a: &RangeInclusiveSet<u64>, b: &RangeInclusiveSet<u64>) -> (union:
    RangeInclusiveSet<u64>)
    ensures
        coalesced(set_runs(union)),
        forall|offset: int| #[trigger]
            covers(set_runs(union), offset) <==> covers(set_runs(*a), offset) || covers(
                set_runs(*b),
                offset,
            ),
{
    a | b
}

/// The `&` of two `RangeInclusiveSet`s holds what both hold.
#[verifier::external_body]
fn set_intersection(a: &RangeInclusiveSet<u64>, b: &RangeInclusiveSet<u64>) -> (intersection:
    RangeInclusiveSet<u64>)
    ensures
        coalesced(set_runs(intersection)),
        forall|offset: int| #[trigger]
            covers(set_runs(intersection), offset) <==> (covers(set_runs(*a), offset) && covers(
                set_runs(*b),
                offset,
            )),
{
    a & b
}

/// The runs as pairs of numbers.
pub open spec fn as_numbers(runs: Seq<(u64, u64)>) -> Seq<(int, int)> {
    runs.map_values(|run: (u64, u64)| (run.0 as int, run.1 as int))
}

proof fn lemma_as_numbers(runs: Seq<(u64, u64)>)
    requires
        coalesced(runs),
    ensures
        runs_apart(as_numbers(runs)),
        forall|offset: int| #[trigger]
            runs_cover(as_numbers(runs), offset) <==> covers(runs, offset),
{
    let numbers = as_numbers(runs);
    assert forall|i: int| 0 <= i < numbers.len() implies (#[trigger] numbers[i]).0
        <= numbers[i].1 by {
        assert(runs[i].0 <= runs[i].1);
    }
    assert forall|i: int, j: int| 0 <= i < j < numbers.len() implies (#[trigger] numbers[i]).1 + 1
        < (#[trigger] numbers[j]).0 by {
        assert(runs[i].1 + 1 < runs[j].0);
    }
    assert forall|offset: int| #[trigger]
        runs_cover(numbers, offset) <==> covers(runs, offset) by {
        if runs_cover(numbers, offset) {
            let i = choose|i: int|
                0 <= i < numbers.len() && (#[trigger] numbers[i]).0 <= offset <= numbers[i].1;
            assert(runs[i].0 <= offset <= runs[i].1);
        }
        if covers(runs, offset) {
            let i = choose|i: int|
                0 <= i < runs.len() && (#[trigger] runs[i]).0 <= offset <= runs[i].1;
            assert(numbers[i].0 <= offset <= numbers[i].1);
        }
    }
}

/// A set of offsets.
pub struct RawAddressRangeSet(RangeInclusiveSet<u64>);

impl View for RawAddressRangeSet {
    type V = Set<u64>;

    /// The offsets in the set.
    closed spec fn view(&self) -> Set<u64> {
        Set::new(|offset: u64| covers(set_runs(self.0), offset as int))
    }
}

/// The offsets from `start` to `end`.
pub open spec fn offsets_between(start: u64, end: u64) -> Set<u64> {
    Set::new(|offset: u64| start <= offset <= end)
}

/// Whether `ranges` are the runs of a set of offsets: fresh, in order, with gaps between
/// them, and holding just those offsets.
pub open spec fn are_runs_of(ranges: Seq<RangeInclusive<RawAddress>>, set: Set<u64>) -> bool {
    &&& separated(ranges)
    &&& forall|offset: u64| #[trigger]
        set.contains(offset) <==> some_range_holds(ranges, offset as int)
}

proof fn lemma_pairs_are_runs(pairs: Seq<(u64, u64)>, ranges: Seq<RangeInclusive<RawAddress>>)
    requires
        coalesced(pairs),
        ranges.len() == pairs.len(),
        forall|i: int|
            0 <= i < ranges.len() ==> !(#[trigger] ranges[i])@.exhausted && ranges[i]@.start.0
                == pairs[i].0 && ranges[i]@.end.0 == pairs[i].1,
    ensures
        separated(ranges),
        forall|offset: int| #[trigger]
            some_range_holds(ranges, offset) <==> covers(pairs, offset),
{
    assert forall|i: int| 0 <= i < ranges.len() implies !(#[trigger] ranges[i])@.exhausted
        && ranges[i]@.start.rank() <= ranges[i]@.end.rank() by {
        assert(pairs[i].0 <= pairs[i].1);
    }
    assert forall|i: int, j: int| 0 <= i < j < ranges.len() implies (#[trigger] ranges[
        i
    ])@.end.rank() + 1 < (#[trigger] ranges[j])@.start.rank() by {
        assert(pairs[i].1 + 1 < pairs[j].0);
    }
    assert forall|offset: int| #[trigger]
        some_range_holds(ranges, offset) <==> covers(pairs, offset) by {
        if some_range_holds(ranges, offset) {
            let i = choose|i: int|
                0 <= i < ranges.len() && (#[trigger] ranges[i])@.start.rank() <= offset
                    <= ranges[i]@.end.rank();
            assert(pairs[i].0 <= offset <= pairs[i].1);
        }
        if covers(pairs, offset) {
            let i = choose|i: int|
                0 <= i < pairs.len() && (#[trigger] pairs[i]).0 <= offset <= pairs[i].1;
            assert(ranges[i]@.start.rank() <= offset <= ranges[i]@.end.rank());
        }
    }
}

/// Pairs of bounds as ranges.
fn as_ranges(pairs: &Vec<(u64, u64)>) -> (ranges: Vec<RangeInclusive<RawAddress>>)
    ensures
        ranges@.len() == pairs@.len(),
        forall|i: int|
            0 <= i < ranges@.len() ==> !(#[trigger] ranges@[i])@.exhausted && ranges@[i]@.start.0
                == pairs@[i].0 && ranges@[i]@.end.0 == pairs@[i].1,
{
    let mut ranges: Vec<RangeInclusive<RawAddress>> = Vec::new();
    let mut i: usize = 0;
    while i < pairs.len()
        invariant
            i <= pairs@.len(),
            ranges@.len() == i,
            forall|j: int|
                0 <= j < i ==> !(#[trigger] ranges@[j])@.exhausted && ranges@[j]@.start.0
                    == pairs@[j].0 && ranges@[j]@.end.0 == pairs@[j].1,
        decreases pairs@.len() - i,
    {
        ranges.push(RangeInclusive::new(RawAddress(pairs[i].0), RawAddress(pairs[i].1)));
        i = i + 1;
    }
    ranges
}

proof fn lemma_filter_keeps_order(runs: Seq<(u64, u64)>, keep: spec_fn((u64, u64)) -> bool)
    requires
        coalesced(runs),
    ensures
        coalesced(runs.filter(keep)),
        forall|run: (u64, u64)| #[trigger]
            runs.filter(keep).contains(run) <==> runs.contains(run) && keep(run),
    decreases runs.len(),
{
    reveal(Seq::filter);
    if runs.len() > 0 {
        let front = runs.drop_last();
        lemma_filter_keeps_order(front, keep);
        let kept = runs.filter(keep);
        let kept_front = front.filter(keep);
        assert forall|i: int, j: int| 0 <= i < j < kept.len() implies (#[trigger] kept[i]).1 + 1 < (
        #[trigger] kept[j]).0 by {
            if j == kept_front.len() {
                assert(kept_front.contains(kept_front[i]));
                let k = front.index_of(kept_front[i]);
                assert(runs[k].1 + 1 < runs[runs.len() - 1].0);
            }
        }
        assert forall|i: int| 0 <= i < kept.len() implies (#[trigger] kept[i]).0 <= kept[i].1 by {
            if i == kept_front.len() {
                assert(runs[runs.len() - 1].0 <= runs[runs.len() - 1].1);
            }
        }
        assert forall|run: (u64, u64)| #[trigger]
            kept.contains(run) <==> runs.contains(run) && keep(run) by {
            if kept.contains(run) {
                let i = kept.index_of(run);
                if i < kept_front.len() {
                    assert(kept_front[i] == run);
                    assert(kept_front.contains(run));
                    assert(front.contains(run));
                    let k = front.index_of(run);
                    assert(runs[k] == run);
                } else {
                    assert(runs[runs.len() - 1] == run);
                }
            }
            if runs.contains(run) && keep(run) {
                let i = runs.index_of(run);
                if i < front.len() {
                    assert(front[i] == run);
                    assert(kept_front.contains(run));
                    let k = kept_front.index_of(run);
                    assert(kept[k] == run);
                } else {
                    assert(kept[kept_front.len() as int] == run);
                }
            }
        }
    }
}

impl RawAddressRangeSet {
    /// The stored runs.
    closed spec fn runs(&self) -> Seq<(u64, u64)> {
        set_runs(self.0)
    }

    /// The stored runs leave gaps.
    pub closed spec fn wf(&self) -> bool {
        coalesced(set_runs(self.0))
    }

    pub fn new() -> (set: Self)
        ensures
            set.wf(),
            set@ == Set::<u64>::empty(),
    {
        let set = RawAddressRangeSet(set_new());
        assert(set@ =~= Set::<u64>::empty());
        set
    }

    /// The set of the addresses in a vector.
    pub fn from_iter(addresses: Vec<RawAddress>) -> (set: Self)
        ensures
            set.wf(),
            forall|offset: u64| #[trigger]
                set@.contains(offset) <==> addresses@.contains(RawAddress(offset)),
    {
        let mut set: RawAddressRangeSet = RawAddressRangeSet::new();
        let mut i: usize = 0;
        while i < addresses.len()
            invariant
                i <= addresses@.len(),
                set.wf(),
                forall|offset: u64| #[trigger]
                    set@.contains(offset) <==> addresses@.take(i as int).contains(
                        RawAddress(offset),
                    ),
            decreases addresses@.len() - i,
        {
            let ghost before = set@;
            set.insert(addresses[i]);
            proof {
                let (done, more) = (addresses@.take(i as int), addresses@.take(i + 1));
                assert(more =~= done.push(addresses@[i as int]));
                assert forall|offset: u64| #[trigger] set@.contains(offset) <==> more.contains(
                    RawAddress(offset),
                ) by {
                    assert(before.contains(offset) <==> done.contains(RawAddress(offset)));
                    if done.contains(RawAddress(offset)) {
                        assert(more[done.index_of(RawAddress(offset))] == RawAddress(offset));
                    }
                    assert(more[i as int] == addresses@[i as int]);
                    if more.contains(RawAddress(offset)) {
                        let k = more.index_of(RawAddress(offset));
                        if k < i {
                            assert(done[k] == RawAddress(offset));
                        }
                    }
                }
            }
            i = i + 1;
        }
        assert(addresses@.take(i as int) =~= addresses@);
        set
    }

    /// What either set holds.
    pub fn union(&self, other: &Self) -> (union: Self)
        ensures
            union.wf(),
            union@ == self@.union(other@),
    {
        let union = RawAddressRangeSet(set_union(&self.0, &other.0));
        assert(union@ =~= self@.union(other@));
        union
    }

    /// What both sets hold.
    pub fn intersection(&self, other: &Self) -> (intersection: Self)
        ensures
            intersection.wf(),
            intersection@ == self@.intersect(other@),
    {
        let intersection = RawAddressRangeSet(set_intersection(&self.0, &other.0));
        assert(intersection@ =~= self@.intersect(other@));
        intersection
    }

    pub fn contains(&self, address: RawAddress) -> (found: bool)
        ensures
            found == self@.contains(address.0),
    {
        set_contains(&self.0, address.offset())
    }

    pub fn is_empty(&self) -> (empty: bool)
        requires
            self.wf(),
        ensures
            empty == (self@ == Set::<u64>::empty()),
    {
        let empty: bool = set_is_empty(&self.0);
        proof {
            if empty {
                assert(self@ =~= Set::<u64>::empty());
            } else {
                let run = self.runs()[0];
                assert(covers(self.runs(), run.0 as int));
                assert(self@.contains(run.0));
            }
        }
        empty
    }

    /// The offsets of the set in ascending order.
    pub fn iter(&self) -> (addresses: Vec<RawAddress>)
        requires
            self.wf(),
        ensures
            ascending(addresses@),
            forall|address: RawAddress| #[trigger]
                addresses@.contains(address) <==> self@.contains(address.0),
    {
        let runs: Vec<(u64, u64)> = set_iter(&self.0);
        let mut addresses: Vec<RawAddress> = Vec::new();
        let mut i: usize = 0;
        while i < runs.len()
            invariant
                i <= runs@.len(),
                coalesced(runs@),
                ascending(addresses@),
                forall|address: RawAddress| #[trigger]
                    addresses@.contains(address) <==> covers(runs@.take(i as int), address.0 as int),
            decreases runs@.len() - i,
        {
            let (start, end): (u64, u64) = runs[i];
            let ghost before = addresses@;
            let mut next: u64 = start;
            let mut more: bool = true;
            assert(start <= end);
            proof {
                assert forall|k: int| 0 <= k < before.len() implies (#[trigger] before[k]).rank()
                    < start by {
                    assert(before.contains(before[k]));
                    let offset = before[k].0 as int;
                    let front = runs@.take(i as int);
                    let j = choose|j: int|
                        0 <= j < front.len() && (#[trigger] front[j]).0 <= offset <= front[j].1;
                    assert(runs@[j].1 + 1 < runs@[i as int].0);
                }
            }
            while more
                invariant
                    start <= next <= end,
                    more || next == end,
                    ascending(addresses@),
                    before.len() <= addresses@.len(),
                    forall|k: int| 0 <= k < before.len() ==> addresses@[k] == before[k],
                    forall|k: int|
                        0 <= k < addresses@.len() ==> (#[trigger] addresses@[k]).rank() < next || (
                        !more && addresses@[k].rank() <= next),
                    addresses@.len() - before.len() == next - start + (if more {
                        0int
                    } else {
                        1int
                    }),
                    forall|k: int|
                        before.len() <= k < addresses@.len() ==> (#[trigger] addresses@[k]).0 == start
                            + (k - before.len()),
                decreases end - next + (if more {
                    1int
                } else {
                    0int
                }),
            {
                addresses.push(RawAddress(next));
                if next == end {
                    more = false;
                } else {
                    next = next + 1;
                }
            }
            proof {
                let front = runs@.take(i as int);
                let after = runs@.take(i + 1);
                assert forall|address: RawAddress| #[trigger]
                    addresses@.contains(address) <==> covers(after, address.0 as int) by {
                    if addresses@.contains(address) {
                        let k = addresses@.index_of(address);
                        if k < before.len() {
                            assert(before[k] == address);
                            assert(before.contains(address));
                            let j = choose|j: int|
                                0 <= j < front.len() && (#[trigger] front[j]).0 <= address.0
                                    <= front[j].1;
                            assert(after[j] == front[j]);
                        } else {
                            assert(after[i as int] == (start, end));
                        }
                    }
                    if covers(after, address.0 as int) {
                        let j = choose|j: int|
                            0 <= j < after.len() && (#[trigger] after[j]).0 <= address.0
                                <= after[j].1;
                        if j < i {
                            assert(front[j] == after[j]);
                            assert(covers(front, address.0 as int));
                            assert(before.contains(address));
                            let k = before.index_of(address);
                            assert(addresses@[k] == address);
                        } else {
                            let k = before.len() + (address.0 - start);
                            assert(addresses@[k].0 == address.0);
                            assert(addresses@[k] == address);
                        }
                    }
                }
            }
            i = i + 1;
        }
        assert(runs@.take(i as int) =~= runs@);
        addresses
    }

    /// The runs of the set in ascending order.
    pub fn ranges(&self) -> (ranges: Vec<RangeInclusive<RawAddress>>)
        requires
            self.wf(),
        ensures
            are_runs_of(ranges@, self@),
    {
        let pairs: Vec<(u64, u64)> = set_iter(&self.0);
        let ranges: Vec<RangeInclusive<RawAddress>> = as_ranges(&pairs);
        proof {
            lemma_pairs_are_runs(pairs@, ranges@);
        }
        ranges
    }

    /// The runs of the set that share an offset with `range`, in ascending order.
    pub fn overlapping_ranges(&self, range: RangeInclusive<RawAddress>) -> (ranges:
        Vec<RangeInclusive<RawAddress>>)
        requires
            self.wf(),
            !range@.exhausted,
        ensures
            separated(ranges@),
            forall|run: RangeInclusive<RawAddress>| #[trigger]
                ranges@.contains(run) ==> run@.start.0 <= range@.end.0 && range@.start.0
                    <= run@.end.0,
            forall|offset: u64|
                #![trigger self@.contains(offset)]
                some_range_holds(ranges@, offset as int) ==> self@.contains(offset),
            forall|offset: u64| #[trigger]
                self@.contains(offset) && range@.start.0 <= offset <= range@.end.0
                    ==> some_range_holds(ranges@, offset as int),
            forall|i: int|
                0 <= i < ranges@.len() ==> ((#[trigger] ranges@[i])@.start.0 > 0 ==> !self@.contains(
                    (ranges@[i]@.start.0 - 1) as u64,
                )) && (ranges@[i]@.end.0 < u64::MAX ==> !self@.contains(
                    (ranges@[i]@.end.0 + 1) as u64,
                )),
    {
        let start: u64 = range.start().offset();
        let end: u64 = range.end().offset();
        if start > end {
            let ranges: Vec<RangeInclusive<RawAddress>> = Vec::new();
            return ranges;
        }
        let pairs: Vec<(u64, u64)> = set_overlapping(&self.0, start, end);
        let ranges: Vec<RangeInclusive<RawAddress>> = as_ranges(&pairs);
        proof {
            let runs = self.runs();
            let keep = |run: (u64, u64)| run.0 <= end && start <= run.1;
            lemma_filter_keeps_order(runs, keep);
            lemma_pairs_are_runs(pairs@, ranges@);
            assert forall|run: RangeInclusive<RawAddress>| #[trigger]
                ranges@.contains(run) implies run@.start.0 <= end && start <= run@.end.0 by {
                let i = ranges@.index_of(run);
                assert(pairs@.contains(pairs@[i]));
            }
            assert forall|offset: u64| some_range_holds(ranges@, offset as int) implies #[trigger]
            self@.contains(offset) by {
                let i = choose|i: int|
                    0 <= i < pairs@.len() && (#[trigger] pairs@[i]).0 <= offset <= pairs@[i].1;
                assert(pairs@.contains(pairs@[i]));
                let k = runs.index_of(pairs@[i]);
                assert(runs[k].0 <= offset <= runs[k].1);
            }
            assert forall|offset: u64| #[trigger]
                self@.contains(offset) && start <= offset <= end implies some_range_holds(
                ranges@,
                offset as int,
            ) by {
                let k = choose|k: int|
                    0 <= k < runs.len() && (#[trigger] runs[k]).0 <= offset <= runs[k].1;
                assert(runs.contains(runs[k]));
                assert(pairs@.contains(runs[k]));
                let i = pairs@.index_of(runs[k]);
                assert(pairs@[i].0 <= offset <= pairs@[i].1);
            }
            assert forall|i: int| 0 <= i < ranges@.len() implies ((#[trigger] ranges@[i])@.start.0
                > 0 ==> !self@.contains((ranges@[i]@.start.0 - 1) as u64)) && (ranges@[i]@.end.0
                < u64::MAX ==> !self@.contains((ranges@[i]@.end.0 + 1) as u64)) by {
                assert(pairs@.contains(pairs@[i]));
                let k = runs.index_of(pairs@[i]);
                assert(runs[k] == pairs@[i]);
                lemma_as_numbers(runs);
                lemma_beside_run(as_numbers(runs), k);
            }
        }
        ranges
    }

    /// How many runs the set has.
    pub fn range_count(&self) -> (count: usize)
        requires
            self.wf(),
        ensures
            forall|ranges: Seq<RangeInclusive<RawAddress>>| #[trigger]
                are_runs_of(ranges, self@) ==> ranges.len() == count,
    {
        let count: usize = set_len(&self.0);
        proof {
            let runs = self.runs();
            assert forall|ranges: Seq<RangeInclusive<RawAddress>>| #[trigger]
                are_runs_of(ranges, self@) implies ranges.len() == runs.len() by {
                lemma_runs_count(ranges, self@, runs);
            }
        }
        count
    }

    /// The range from the lowest offset to the highest, if the set has any.
    pub fn span(&self) -> (span: Option<RangeInclusive<RawAddress>>)
        requires
            self.wf(),
        ensures
            span is None == (self@ == Set::<u64>::empty()),
            span matches Some(range) ==> {
                &&& !range@.exhausted
                &&& self@.contains(range@.start.0)
                &&& self@.contains(range@.end.0)
                &&& forall|offset: u64| #[trigger]
                    self@.contains(offset) ==> range@.start.0 <= offset <= range@.end.0
            },
    {
        let first: (u64, u64) = match set_first(&self.0) {
            Some(run) => run,
            None => {
                assert(self@ =~= Set::<u64>::empty());
                return None;
            },
        };
        let last: (u64, u64) = match set_last(&self.0) {
            Some(run) => run,
            None => {
                return None;
            },
        };
        proof {
            let runs = self.runs();
            assert(runs[0] == first);
            assert(runs[runs.len() - 1] == last);
            assert(covers(runs, first.0 as int));
            assert(covers(runs, last.1 as int));
            assert(self@.contains(first.0));
            assert forall|offset: u64| #[trigger] self@.contains(offset) implies first.0 <= offset
                <= last.1 by {
                let k = choose|k: int|
                    0 <= k < runs.len() && (#[trigger] runs[k]).0 <= offset <= runs[k].1;
                if k > 0 {
                    assert(runs[0].1 + 1 < runs[k].0);
                }
                if k < runs.len() - 1 {
                    assert(runs[k].1 + 1 < runs[runs.len() - 1].0);
                }
            }
        }
        Some(RangeInclusive::new(RawAddress(first.0), RawAddress(last.1)))
    }

    /// Adds an offset and says whether it was new.
    pub fn insert(&mut self, address: RawAddress) -> (inserted: bool)
        ensures
            final(self).wf(),
            final(self)@ == old(self)@.insert(address.0),
            inserted == !old(self)@.contains(address.0),
    {
        let ghost before = *self;
        let offset: u64 = address.offset();
        let inserted: bool = !set_contains(&self.0, offset);
        set_insert(&mut self.0, offset, offset);
        assert(self@ =~= before@.insert(offset));
        inserted
    }

    /// Adds the offsets of a range that holds something.
    pub fn insert_range(&mut self, range: RangeInclusive<RawAddress>)
        requires
            !range@.exhausted,
            range@.start.0 <= range@.end.0,
        ensures
            final(self).wf(),
            final(self)@ == old(self)@.union(offsets_between(range@.start.0, range@.end.0)),
    {
        let ghost before = *self;
        set_insert(&mut self.0, range.start().offset(), range.end().offset());
        assert(self@ =~= before@.union(offsets_between(range@.start.0, range@.end.0)));
    }

    /// Whether the set holds an offset of the range.
    pub fn intersects_range(&self, range: RangeInclusive<RawAddress>) -> (meet: bool)
        requires
            !range@.exhausted,
        ensures
            meet == exists|offset: u64| #[trigger]
                self@.contains(offset) && range@.start.0 <= offset <= range@.end.0,
    {
        let start: u64 = range.start().offset();
        let end: u64 = range.end().offset();
        if start > end {
            return false;
        }
        let meet: bool = set_overlaps(&self.0, start, end);
        proof {
            if meet {
                let offset = choose|offset: int|
                    start <= offset <= end && covers(self.runs(), offset);
                assert(self@.contains(offset as u64));
            }
            if exists|offset: u64| #[trigger] self@.contains(offset) && start <= offset <= end {
                let offset = choose|offset: u64| #[trigger]
                    self@.contains(offset) && start <= offset <= end;
                assert(covers(self.runs(), offset as int));
            }
        }
        meet
    }

    /// Adds the offsets of a range of addresses, whatever its space.
    pub fn insert_meta_range(&mut self, range: RangeInclusive<Address>)
        requires
            !range@.exhausted,
            range@.start.address.0 <= range@.end.address.0,
        ensures
            final(self).wf(),
            final(self)@ == old(self)@.union(
                offsets_between(range@.start.address.0, range@.end.address.0),
            ),
    {
        let ghost before = *self;
        set_insert(&mut self.0, range.start().offset(), range.end().offset());
        assert(self@ =~= before@.union(
            offsets_between(range@.start.address.0, range@.end.address.0),
        ));
    }

    /// What this set holds and the other does not.
    pub fn difference(&self, other: &Self) -> (difference: Self)
        requires
            self.wf(),
            other.wf(),
        ensures
            difference.wf(),
            difference@ == self@.difference(other@),
    {
        let mut difference: RawAddressRangeSet = RawAddressRangeSet::new();
        let runs: Vec<(u64, u64)> = set_iter(&self.0);
        let mut i: usize = 0;
        while i < runs.len()
            invariant
                i <= runs@.len(),
                coalesced(runs@),
                runs@ == self.runs(),
                self.wf(),
                other.wf(),
                difference.wf(),
                forall|offset: u64| #[trigger]
                    difference@.contains(offset) <==> covers(runs@.take(i as int), offset as int)
                        && !other@.contains(offset),
            decreases runs@.len() - i,
        {
            let (start, end): (u64, u64) = runs[i];
            let range: RangeInclusive<RawAddress> = RangeInclusive::new(
                RawAddress(start),
                RawAddress(end),
            );
            let excluded: Vec<RangeInclusive<RawAddress>> = other.overlapping_ranges(
                RangeInclusive::new(RawAddress(start), RawAddress(end)),
            );
            let ghost exclusions = excluded@;
            proof {
                assert(start <= end);
                lemma_separated_excludable(exclusions);
                assert(range.in_line(0));
            }
            let left: Vec<RangeInclusive<RawAddress>> = range.difference(excluded);
            let ghost before = difference@;
            let mut j: usize = 0;
            while j < left.len()
                invariant
                    j <= left@.len(),
                    separated(left@),
                    difference.wf(),
                    forall|offset: u64| #[trigger]
                        difference@.contains(offset) <==> before.contains(offset)
                            || some_range_holds(left@.take(j as int), offset as int),
                decreases left@.len() - j,
            {
                let start: u64 = left[j].start().offset();
                let end: u64 = left[j].end().offset();
                let ghost earlier = difference@;
                set_insert(&mut difference.0, start, end);
                proof {
                    let front = left@.take(j as int);
                    let after = left@.take(j + 1);
                    assert forall|offset: u64| #[trigger]
                        difference@.contains(offset) <==> before.contains(offset)
                            || some_range_holds(after, offset as int) by {
                        assert(difference@.contains(offset) <==> earlier.contains(offset) || start
                            <= offset <= end);
                        if some_range_holds(front, offset as int) {
                            let k = choose|k: int|
                                0 <= k < front.len() && (#[trigger] front[k])@.start.rank() <= offset
                                    <= front[k]@.end.rank();
                            assert(after[k] == front[k]);
                        }
                        if start <= offset <= end {
                            assert(after[j as int] == left@[j as int]);
                        }
                        if some_range_holds(after, offset as int) {
                            let k = choose|k: int|
                                0 <= k < after.len() && (#[trigger] after[k])@.start.rank() <= offset
                                    <= after[k]@.end.rank();
                            if k < j {
                                assert(front[k] == after[k]);
                            }
                        }
                    }
                }
                j = j + 1;
            }
            proof {
                assert(left@.take(j as int) =~= left@);
                let front = runs@.take(i as int);
                let after = runs@.take(i + 1);
                assert forall|offset: u64| #[trigger]
                    difference@.contains(offset) <==> covers(after, offset as int)
                        && !other@.contains(offset) by {
                    assert(before.contains(offset) || !before.contains(offset));
                    assert(other@.contains(offset) || !other@.contains(offset));
                    lemma_excludes_is_holds(exclusions, offset as int);
                    if covers(front, offset as int) {
                        let k = choose|k: int|
                            0 <= k < front.len() && (#[trigger] front[k]).0 <= offset <= front[k].1;
                        assert(after[k] == front[k]);
                    }
                    if start <= offset <= end {
                        assert(after[i as int] == (start, end));
                    }
                    if covers(after, offset as int) {
                        let k = choose|k: int|
                            0 <= k < after.len() && (#[trigger] after[k]).0 <= offset <= after[k].1;
                        if k < i {
                            assert(front[k] == after[k]);
                        }
                    }
                }
            }
            i = i + 1;
        }
        assert(runs@.take(i as int) =~= runs@);
        assert(difference@ =~= self@.difference(other@));
        difference
    }

    /// What one of the sets holds and the other does not.
    pub fn symmetric_difference(&self, other: &Self) -> (difference: Self)
        requires
            self.wf(),
            other.wf(),
        ensures
            difference.wf(),
            difference@ == self@.difference(other@).union(other@.difference(self@)),
    {
        self.difference(other).union(&other.difference(self))
    }

    pub fn remove(&mut self, address: RawAddress)
        ensures
            final(self).wf(),
            final(self)@ == old(self)@.remove(address.0),
    {
        let ghost before = *self;
        let offset: u64 = address.offset();
        set_remove(&mut self.0, offset, offset);
        assert(self@ =~= before@.remove(offset));
    }

    /// Takes the offsets of a range that holds something out.
    pub fn remove_range(&mut self, range: RangeInclusive<RawAddress>)
        requires
            !range@.exhausted,
            range@.start.0 <= range@.end.0,
        ensures
            final(self).wf(),
            final(self)@ == old(self)@.difference(offsets_between(range@.start.0, range@.end.0)),
    {
        let ghost before = *self;
        set_remove(&mut self.0, range.start().offset(), range.end().offset());
        assert(self@ =~= before@.difference(offsets_between(range@.start.0, range@.end.0)));
    }

    pub fn clear(&mut self)
        ensures
            final(self).wf(),
            final(self)@ == Set::<u64>::empty(),
    {
        set_clear(&mut self.0);
        assert(self@ =~= Set::<u64>::empty());
    }
}

impl Clone for RawAddressRangeSet {
    fn clone(&self) -> (copy: Self)
        ensures
            copy@ == self@,
            copy.wf() == self.wf(),
    {
        RawAddressRangeSet(set_clone(&self.0))
    }
}

proof fn lemma_separated_excludable(ranges: Seq<RangeInclusive<RawAddress>>)
    requires
        separated(ranges),
    ensures
        excludable(0, ranges),
{
    assert forall|i: int, j: int| 0 <= i < j < ranges.len() implies (#[trigger] ranges[
        i
    ])@.start.rank() <= (#[trigger] ranges[j])@.start.rank() by {
        assert(ranges[i]@.end.rank() + 1 < ranges[j]@.start.rank());
    }
}

proof fn lemma_excludes_is_holds(ranges: Seq<RangeInclusive<RawAddress>>, offset: int)
    ensures
        excludes(ranges, 0, offset) <==> some_range_holds(ranges, offset),
{
}

/// The number of runs of a set does not depend on how they are listed.
proof fn lemma_runs_count(
    ranges: Seq<RangeInclusive<RawAddress>>,
    set: Set<u64>,
    runs: Seq<(u64, u64)>,
)
    requires
        are_runs_of(ranges, set),
        coalesced(runs),
        forall|offset: u64| #[trigger] set.contains(offset) <==> covers(runs, offset as int),
    ensures
        ranges.len() == runs.len(),
{
    let pairs = ranges.map_values(|r: RangeInclusive<RawAddress>| (r@.start.0, r@.end.0));
    assert forall|i: int| 0 <= i < pairs.len() implies (#[trigger] pairs[i]).0 <= pairs[i].1 by {
        assert(ranges[i]@.start.rank() <= ranges[i]@.end.rank());
    }
    assert forall|i: int, j: int| 0 <= i < j < pairs.len() implies (#[trigger] pairs[i]).1 + 1 < (
    #[trigger] pairs[j]).0 by {
        assert(ranges[i]@.end.rank() + 1 < ranges[j]@.start.rank());
    }
    lemma_pairs_are_runs(pairs, ranges);
    assert forall|offset: int| #[trigger] covers(pairs, offset) <==> covers(runs, offset) by {
        if covers(pairs, offset) {
            assert(some_range_holds(ranges, offset));
            let i = choose|i: int|
                0 <= i < pairs.len() && (#[trigger] pairs[i]).0 <= offset <= pairs[i].1;
            assert(set.contains(offset as u64));
        }
        if covers(runs, offset) {
            let i = choose|i: int|
                0 <= i < runs.len() && (#[trigger] runs[i]).0 <= offset <= runs[i].1;
            assert(set.contains(offset as u64));
            assert(some_range_holds(ranges, offset));
        }
    }
    lemma_as_numbers(pairs);
    lemma_as_numbers(runs);
    law_runs_determined(as_numbers(pairs), as_numbers(runs));
}

} // verus!
