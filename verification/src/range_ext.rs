//! Ranges of addresses as values: bounds, sizes and what exclusions leave of them.
use core::ops::{Range, RangeInclusive};

use vstd::prelude::*;

use crate::address::{Address, RawAddress};
use crate::order::Ranked;

verus! {

/// `RangeInclusive::start` gives the lower bound of a range that has not been iterated.
pub assume_specification<Idx>[ RangeInclusive::<Idx>::start ](range: &RangeInclusive<Idx>) -> (start:
    &Idx)
    ensures
        !range@.exhausted ==> *start == range@.start,
;

/// `RangeInclusive::end` gives the upper bound of a range that has not been iterated.
pub assume_specification<Idx>[ RangeInclusive::<Idx>::end ](range: &RangeInclusive<Idx>) -> (end:
    &Idx)
    ensures
        !range@.exhausted ==> *end == range@.end,
;

/// Addresses that stand in lines, one after the other, so that distances make sense.
pub trait AddressDifference: Ranked + Copy {
    /// The line that the address stands in.
    spec fn line(self) -> int;

    /// How far the address is above `base`, if both stand in one line and it is not below.
    fn checked_offset_from(self, base: Self) -> (distance: Option<u64>)
        ensures
            distance is Some == (self.line() == base.line() && base.rank() <= self.rank()),
            distance matches Some(d) ==> d == self.rank() - base.rank(),
    ;

    /// The address after this one. There is one in its line, for `bound` is above.
    fn following(self, bound: Self) -> (next: Self)
        requires
            self.line() == bound.line(),
            self.rank() < bound.rank(),
        ensures
            next.line() == self.line(),
            next.rank() == self.rank() + 1,
    ;

    /// The address before this one. There is one in its line, for `bound` is below.
    fn preceding(self, bound: Self) -> (previous: Self)
        requires
            self.line() == bound.line(),
            bound.rank() < self.rank(),
        ensures
            previous.line() == self.line(),
            previous.rank() == self.rank() - 1,
    ;

    /// What stands one before the address when the line is taken as a ring.
    spec fn ring_predecessor(self) -> Self;

    fn one_before(self) -> (previous: Self)
        ensures
            previous == self.ring_predecessor(),
    ;

    /// Between two addresses of a line stand as many addresses as their ranks say.
    proof fn lemma_ring_predecessor(self, below: Self)
        requires
            self.line() == below.line(),
            below.rank() < self.rank(),
        ensures
            self.ring_predecessor().line() == self.line(),
            self.ring_predecessor().rank() == self.rank() - 1,
    ;
}

impl AddressDifference for RawAddress {
    open spec fn line(self) -> int {
        0
    }

    fn checked_offset_from(self, base: Self) -> (distance: Option<u64>) {
        RawAddress::checked_offset_from(&self, base)
    }

    fn following(self, bound: Self) -> (next: Self) {
        self + 1usize
    }

    fn preceding(self, bound: Self) -> (previous: Self) {
        self - 1usize
    }

    open spec fn ring_predecessor(self) -> Self {
        RawAddress(self.0.wrapping_sub(1))
    }

    fn one_before(self) -> (previous: Self) {
        self - 1usize
    }

    proof fn lemma_ring_predecessor(self, below: Self) {
    }
}

impl AddressDifference for Address {
    open spec fn line(self) -> int {
        self.space.0 as int
    }

    fn checked_offset_from(self, base: Self) -> (distance: Option<u64>) {
        Address::checked_offset_from(&self, base)
    }

    fn following(self, bound: Self) -> (next: Self) {
        self + 1usize
    }

    fn preceding(self, bound: Self) -> (previous: Self) {
        self - 1usize
    }

    open spec fn ring_predecessor(self) -> Self {
        Address { space: self.space, address: RawAddress(self.address.0.wrapping_sub(1)) }
    }

    fn one_before(self) -> (previous: Self) {
        self - 1usize
    }

    proof fn lemma_ring_predecessor(self, below: Self) {
    }
}

/// Whether one of the inclusive ranges holds the rank.
pub open spec fn some_range_holds<T: Ranked>(ranges: Seq<RangeInclusive<T>>, rank: int) -> bool {
    exists|i: int|
        0 <= i < ranges.len() && (#[trigger] ranges[i])@.start.rank() <= rank
            <= ranges[i]@.end.rank()
}

/// Whether the ranges are fresh, hold something, ascend, and leave a gap between each two.
pub open spec fn separated<T: Ranked>(ranges: Seq<RangeInclusive<T>>) -> bool {
    &&& forall|i: int|
        0 <= i < ranges.len() ==> !(#[trigger] ranges[i])@.exhausted
            && ranges[i]@.start.rank() <= ranges[i]@.end.rank()
    &&& forall|i: int, j: int|
        0 <= i < j < ranges.len() ==> (#[trigger] ranges[i])@.end.rank() + 1 < (#[trigger]
        ranges[j])@.start.rank()
}

/// Whether some of the ranges from `from` on holds the rank.
pub open spec fn excludes<T: AddressDifference>(
    excluded: Seq<RangeInclusive<T>>,
    from: int,
    rank: int,
) -> bool {
    exists|i: int|
        from <= i < excluded.len() && (#[trigger] excluded[i])@.start.rank() <= rank <= excluded[i]@.end.rank()
}

/// Whether ranges may be taken out of a range in one pass: they stand in its line, and those
/// that hold something begin in ascending order.
pub open spec fn excludable<T: AddressDifference>(
    line: int,
    excluded: Seq<RangeInclusive<T>>,
) -> bool {
    &&& forall|i: int| 0 <= i < excluded.len() ==> !(#[trigger] excluded[i])@.exhausted
    &&& forall|i: int|
        0 <= i < excluded.len() && (#[trigger] excluded[i])@.start.rank() <= excluded[i]@.end.rank()
            ==> excluded[i]@.start.line() == line && excluded[i]@.end.line() == line
    &&& forall|i: int, j: int|
        0 <= i < j < excluded.len() && (#[trigger] excluded[i])@.start.rank() <= excluded[i]@.end.rank() && (
        #[trigger] excluded[j])@.start.rank() <= excluded[j]@.end.rank() ==> excluded[i]@.start.rank()
            <= excluded[j]@.start.rank()
}

/// What is asked of a range of addresses, whether its end is included or not.
pub trait AddressRangeExt<T: AddressDifference>: Sized {
    /// The rank of the first address.
    spec fn low(&self) -> int;

    /// The rank of the last address, below `low` where there is none.
    spec fn high(&self) -> int;

    /// Whether both bounds stand in the line.
    spec fn in_line(&self, line: int) -> bool;

    /// Whether the range has not been iterated.
    spec fn fresh(&self) -> bool;

    /// The bound that `last` gives. It is no address of the range where that is empty.
    spec fn last_bound(&self) -> T;

    fn first(&self) -> (first: T)
        requires
            self.fresh(),
        ensures
            first.rank() == self.low(),
            forall|line: int| #[trigger] self.in_line(line) ==> first.line() == line,
    ;

    fn last(&self) -> (last: T)
        requires
            self.fresh(),
        ensures
            last == self.last_bound(),
            forall|line: int| #[trigger]
                self.in_line(line) && self.low() <= self.high() ==> last.line() == line
                    && last.rank() == self.high(),
    ;

    /// How many addresses the range has, if its bounds stand in one line and the number fits.
    fn size(&self) -> (size: Option<u64>)
        requires
            self.fresh(),
        ensures
            self.high() < self.low() ==> size == Some(0u64),
            self.low() <= self.high() && (exists|line: int| self.in_line(line)) ==> size is Some
                == (self.high() - self.low() < u64::MAX),
            self.low() <= self.high() && !(exists|line: int| self.in_line(line)) ==> size is None,
            self.low() <= self.high() && size is Some ==> size->0 == self.high() - self.low() + 1,
    ;

    fn contains_address(&self, address: T) -> (inside: bool)
        requires
            self.fresh(),
        ensures
            inside == (self.low() <= address.rank() <= self.high()),
    ;

    fn is_empty(&self) -> (empty: bool)
        requires
            self.fresh(),
        ensures
            empty == (self.high() < self.low()),
    ;

    /// The same range with its end included.
    fn inclusive(&self) -> (range: RangeInclusive<T>)
        requires
            self.fresh(),
        ensures
            !range@.exhausted,
            range@.start.rank() == self.low(),
            range@.end == self.last_bound(),
            forall|line: int| #[trigger]
                self.in_line(line) && self.low() <= self.high() ==> range@.start.line() == line
                    && range@.end.line() == line && range@.end.rank() == self.high(),
    ;

    /// What is left of the range when the ordered exclusions are taken out of it.
    fn difference(self, excluded: Vec<RangeInclusive<T>>) -> (left: Vec<RangeInclusive<T>>)
        requires
            self.fresh(),
            self.low() <= self.high() ==> exists|line: int|
                #[trigger] self.in_line(line) && excludable(line, excluded@),
        ensures
            separated(left@),
            forall|rank: int| #[trigger]
                some_range_holds(left@, rank) <==> self.low() <= rank <= self.high() && !excludes(
                    excluded@,
                    0,
                    rank,
                ),
    ;
}

/// Takes ordered exclusions out of the addresses from `first` to `last`.
fn subtract<T: AddressDifference>(
    first: T,
    last: T,
    excluded: &Vec<RangeInclusive<T>>,
) -> (left: Vec<RangeInclusive<T>>)
    requires
        first.rank() <= last.rank(),
        first.line() == last.line(),
        excludable(first.line(), excluded@),
    ensures
        separated(left@),
        forall|rank: int| #[trigger]
            some_range_holds(left@, rank) <==> first.rank() <= rank <= last.rank() && !excludes(
                excluded@,
                0,
                rank,
            ),
{
    let ghost line = first.line();
    let mut left: Vec<RangeInclusive<T>> = Vec::new();
    let mut start: T = first;
    let mut at: usize = 0;
    while at < excluded.len()
        invariant
            at <= excluded@.len(),
            line == first.line(),
            first.line() == last.line(),
            start.line() == line,
            first.rank() <= start.rank() <= last.rank(),
            excludable(line, excluded@),
            separated(left@),
            left@.len() > 0 ==> left@.last()@.end.rank() + 1 < start.rank(),
            forall|rank: int|
                rank < start.rank() ==> (#[trigger] some_range_holds(left@, rank) <==> first.rank()
                    <= rank && !excludes(excluded@, 0, rank)),
            forall|i: int|
                0 <= i < at ==> (#[trigger] excluded@[i])@.end.rank() < excluded@[i]@.start.rank()
                    || excluded@[i]@.end.rank() < start.rank(),
        decreases excluded@.len() - at,
    {
        let exclusion: &RangeInclusive<T> = &excluded[at];
        let ghost earlier = left@;
        if exclusion.end().precedes(exclusion.start()) {
            at = at + 1;
            continue;
        }
        let exclusion_end: T = *exclusion.end();
        let exclusion_start: T = *exclusion.start();
        assert(exclusion@.start.line() == line);
        if exclusion_end.precedes(&start) {
            at = at + 1;
            continue;
        }
        if last.precedes(&exclusion_start) {
            break_tail(&mut left, start, last, excluded, Ghost(first), Ghost(at as int));
            return left;
        }
        if start.precedes(&exclusion_start) {
            let end: T = exclusion_start.preceding(start);
            let piece: RangeInclusive<T> = RangeInclusive::new(start, end);
            left.push(piece);
            proof {
                lemma_push_range(earlier, piece);
                assert forall|rank: int| rank < exclusion_start.rank() implies (#[trigger]
                some_range_holds(left@, rank) <==> first.rank() <= rank && !excludes(
                    excluded@,
                    0,
                    rank,
                )) by {
                    lemma_no_exclusion_between::<T>(
                        line,
                        excluded@,
                        at as int,
                        start.rank(),
                        rank,
                    );
                }
            }
        }
        proof {
            assert forall|rank: int|
                rank <= exclusion_end.rank() && rank <= last.rank() implies (#[trigger]
            some_range_holds(left@, rank) <==> first.rank() <= rank && !excludes(
                excluded@,
                0,
                rank,
            )) by {
                if rank >= exclusion_start.rank() && rank >= start.rank() {
                    assert(excluded@[at as int]@.start.rank() <= rank <= excluded@[at as int]@.end.rank());
                    assert(excludes(excluded@, 0, rank));
                    if some_range_holds(left@, rank) {
                        let i = choose|i: int|
                            0 <= i < left@.len() && (#[trigger] left@[i])@.start.rank() <= rank
                                <= left@[i]@.end.rank();
                        assert(left@[i]@.end.rank() <= left@.last()@.end.rank());
                    }
                }
            }
        }
        if !exclusion_end.precedes(&last) {
            proof {
                assert forall|rank: int| #[trigger]
                    some_range_holds(left@, rank) <==> first.rank() <= rank <= last.rank()
                        && !excludes(excluded@, 0, rank) by {
                    if rank > last.rank() && some_range_holds(left@, rank) {
                        let i = choose|i: int|
                            0 <= i < left@.len() && (#[trigger] left@[i])@.start.rank() <= rank
                                <= left@[i]@.end.rank();
                        assert(left@[i]@.end.rank() <= left@.last()@.end.rank());
                    }
                }
            }
            return left;
        }
        start = exclusion_end.following(last);
        at = at + 1;
    }
    break_tail(&mut left, start, last, excluded, Ghost(first), Ghost(at as int));
    left
}

/// Adding a range above the others keeps them apart.
proof fn lemma_push_range<T: AddressDifference>(
    ranges: Seq<RangeInclusive<T>>,
    piece: RangeInclusive<T>,
)
    requires
        separated(ranges),
        !piece@.exhausted,
        piece@.start.rank() <= piece@.end.rank(),
        ranges.len() > 0 ==> ranges.last()@.end.rank() + 1 < piece@.start.rank(),
    ensures
        separated(ranges.push(piece)),
        forall|rank: int| #[trigger]
            some_range_holds(ranges.push(piece), rank) <==> some_range_holds(ranges, rank)
                || piece@.start.rank() <= rank <= piece@.end.rank(),
{
    let after = ranges.push(piece);
    assert forall|i: int, j: int| 0 <= i < j < after.len() implies (#[trigger] after[i])@.end.rank()
        + 1 < (#[trigger] after[j])@.start.rank() by {
        if j == ranges.len() {
            if i < ranges.len() - 1 {
                assert(ranges[i]@.end.rank() + 1 < ranges.last()@.start.rank());
            }
        }
    }
    assert forall|rank: int| #[trigger]
        some_range_holds(after, rank) <==> some_range_holds(ranges, rank) || piece@.start.rank()
            <= rank <= piece@.end.rank() by {
        if some_range_holds(ranges, rank) {
            let i = choose|i: int|
                0 <= i < ranges.len() && (#[trigger] ranges[i])@.start.rank() <= rank
                    <= ranges[i]@.end.rank();
            assert(after[i] == ranges[i]);
        }
        if piece@.start.rank() <= rank <= piece@.end.rank() {
            assert(after[ranges.len() as int] == piece);
        }
        if some_range_holds(after, rank) {
            let i = choose|i: int|
                0 <= i < after.len() && (#[trigger] after[i])@.start.rank() <= rank
                    <= after[i]@.end.rank();
            if i < ranges.len() {
                assert(ranges[i] == after[i]);
            }
        }
    }
}

/// Nothing excludes an address between the place reached and the next exclusion.
proof fn lemma_no_exclusion_between<T: AddressDifference>(
    line: int,
    excluded: Seq<RangeInclusive<T>>,
    at: int,
    start: int,
    rank: int,
)
    requires
        excludable(line, excluded),
        0 <= at < excluded.len(),
        excluded[at]@.start.rank() <= excluded[at]@.end.rank(),
        forall|i: int|
            0 <= i < at ==> (#[trigger] excluded[i])@.end.rank() < excluded[i]@.start.rank()
                || excluded[i]@.end.rank() < start,
    ensures
        start <= rank < excluded[at]@.start.rank() ==> !excludes(excluded, 0, rank),
{
    if start <= rank < excluded[at]@.start.rank() && excludes(excluded, 0, rank) {
        let i = choose|i: int|
            0 <= i < excluded.len() && (#[trigger] excluded[i])@.start.rank() <= rank
                <= excluded[i]@.end.rank();
        assert(excluded[i]@.start.rank() <= excluded[i]@.end.rank());
        if i > at {
            assert(excluded[at]@.start.rank() <= excluded[i]@.start.rank());
        }
    }
}

/// Adds the rest of the range when no exclusion reaches it.
fn break_tail<T: AddressDifference>(
    left: &mut Vec<RangeInclusive<T>>,
    start: T,
    last: T,
    excluded: &Vec<RangeInclusive<T>>,
    Ghost(first): Ghost<T>,
    Ghost(at): Ghost<int>,
)
    requires
        0 <= at <= excluded@.len(),
        first.rank() <= start.rank() <= last.rank(),
        excludable(first.line(), excluded@),
        separated(old(left)@),
        old(left)@.len() > 0 ==> old(left)@.last()@.end.rank() + 1 < start.rank(),
        forall|rank: int|
            rank < start.rank() ==> (#[trigger] some_range_holds(old(left)@, rank) <==> first.rank()
                <= rank && !excludes(excluded@, 0, rank)),
        forall|i: int|
            0 <= i < at ==> (#[trigger] excluded@[i])@.end.rank() < excluded@[i]@.start.rank()
                || excluded@[i]@.end.rank() < start.rank(),
        at < excluded@.len() ==> excluded@[at]@.start.rank() <= excluded@[at]@.end.rank()
            && last.rank() < excluded@[at]@.start.rank(),
    ensures
        separated(final(left)@),
        forall|rank: int| #[trigger]
            some_range_holds(final(left)@, rank) <==> first.rank() <= rank <= last.rank()
                && !excludes(excluded@, 0, rank),
{
    let ghost earlier = left@;
    let piece: RangeInclusive<T> = RangeInclusive::new(start, last);
    left.push(piece);
    proof {
        lemma_push_range(earlier, piece);
        assert forall|rank: int| #[trigger]
            some_range_holds(left@, rank) <==> first.rank() <= rank <= last.rank() && !excludes(
                excluded@,
                0,
                rank,
            ) by {
            if at < excluded@.len() {
                lemma_no_exclusion_between::<T>(
                    first.line(),
                    excluded@,
                    at,
                    start.rank(),
                    rank,
                );
            } else if start.rank() <= rank && excludes(excluded@, 0, rank) {
                let i = choose|i: int|
                    0 <= i < excluded@.len() && (#[trigger] excluded@[i])@.start.rank() <= rank
                        <= excluded@[i]@.end.rank();
                assert(excluded@[i]@.end.rank() < start.rank());
            }
            if rank >= start.rank() && some_range_holds(earlier, rank) {
                let i = choose|i: int|
                    0 <= i < earlier.len() && (#[trigger] earlier[i])@.start.rank() <= rank
                        <= earlier[i]@.end.rank();
                if i < earlier.len() - 1 {
                    assert(earlier[i]@.end.rank() + 1 < earlier.last()@.start.rank());
                }
            }
        }
    }
}

impl<T: AddressDifference> AddressRangeExt<T> for RangeInclusive<T> {
    open spec fn low(&self) -> int {
        self@.start.rank()
    }

    open spec fn high(&self) -> int {
        self@.end.rank()
    }

    open spec fn in_line(&self, line: int) -> bool {
        self@.start.line() == line && self@.end.line() == line
    }

    open spec fn fresh(&self) -> bool {
        !self@.exhausted
    }

    open spec fn last_bound(&self) -> T {
        self@.end
    }

    fn first(&self) -> (first: T) {
        *self.start()
    }

    fn last(&self) -> (last: T) {
        *self.end()
    }

    fn size(&self) -> (size: Option<u64>) {
        let start: T = *self.start();
        let end: T = *self.end();
        if end.precedes(&start) {
            return Some(0);
        }
        proof {
            assert(self.in_line(start.line()) || start.line() != end.line());
        }
        match end.checked_offset_from(start) {
            Some(span) => span.checked_add(1),
            None => None,
        }
    }

    fn contains_address(&self, address: T) -> (inside: bool) {
        !address.precedes(self.start()) && !self.end().precedes(&address)
    }

    fn is_empty(&self) -> (empty: bool) {
        self.end().precedes(self.start())
    }

    fn inclusive(&self) -> (range: RangeInclusive<T>) {
        RangeInclusive::new(*self.start(), *self.end())
    }

    fn difference(self, excluded: Vec<RangeInclusive<T>>) -> (left: Vec<RangeInclusive<T>>) {
        if AddressRangeExt::is_empty(&self) {
            let left: Vec<RangeInclusive<T>> = Vec::new();
            return left;
        }
        subtract(*self.start(), *self.end(), &excluded)
    }
}

impl<T: AddressDifference> AddressRangeExt<T> for Range<T> {
    open spec fn low(&self) -> int {
        self.start.rank()
    }

    open spec fn high(&self) -> int {
        self.end.rank() - 1
    }

    open spec fn in_line(&self, line: int) -> bool {
        self.start.line() == line && self.end.line() == line
    }

    open spec fn fresh(&self) -> bool {
        true
    }

    open spec fn last_bound(&self) -> T {
        self.end.ring_predecessor()
    }

    fn first(&self) -> (first: T) {
        self.start
    }

    fn last(&self) -> (last: T) {
        proof {
            if self.start.line() == self.end.line() && self.start.rank() < self.end.rank() {
                self.end.lemma_ring_predecessor(self.start);
            }
        }
        self.end.one_before()
    }

    fn size(&self) -> (size: Option<u64>) {
        if !self.start.precedes(&self.end) {
            return Some(0);
        }
        proof {
            assert(self.in_line(self.start.line()) || self.start.line() != self.end.line());
        }
        self.end.checked_offset_from(self.start)
    }

    fn contains_address(&self, address: T) -> (inside: bool) {
        !address.precedes(&self.start) && address.precedes(&self.end)
    }

    fn is_empty(&self) -> (empty: bool) {
        !self.start.precedes(&self.end)
    }

    fn inclusive(&self) -> (range: RangeInclusive<T>) {
        proof {
            if self.start.line() == self.end.line() && self.start.rank() < self.end.rank() {
                self.end.lemma_ring_predecessor(self.start);
            }
        }
        RangeInclusive::new(self.start, self.end.one_before())
    }

    fn difference(self, excluded: Vec<RangeInclusive<T>>) -> (left: Vec<RangeInclusive<T>>) {
        if AddressRangeExt::is_empty(&self) {
            let left: Vec<RangeInclusive<T>> = Vec::new();
            return left;
        }
        let range: RangeInclusive<T> = self.inclusive();
        subtract(*range.start(), *range.end(), &excluded)
    }
}

} // verus!
