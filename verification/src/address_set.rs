//! Sets of addresses over all spaces.
use core::ops::RangeInclusive;

use vstd::prelude::*;

use crate::address::{offsets, Address, AddressRange, RawAddress};
use crate::order::{ascending, Ranked, SortedMap};
use crate::range_ext::{separated, some_range_holds};
use crate::range_set::RawAddressRangeSet;
use crate::runs::{law_runs_determined, runs_apart, runs_cover};
use crate::types::AddressSpaceId;

verus! {

/// Whether one of the ranges holds the address.
pub open spec fn some_holds(ranges: Seq<AddressRange>, address: Address) -> bool {
    exists|i: int| 0 <= i < ranges.len() && (#[trigger] ranges[i]).holds(address)
}

/// Whether the ranges hold something, ascend by space and offset, and leave a gap between
/// each two of one space.
pub open spec fn ranges_apart(ranges: Seq<AddressRange>) -> bool {
    &&& forall|i: int| 0 <= i < ranges.len() ==> (#[trigger] ranges[i]).start.0 <= ranges[i].end.0
    &&& forall|i: int, j: int|
        0 <= i < j < ranges.len() ==> {
            ||| (#[trigger] ranges[i]).space.0 < (#[trigger] ranges[j]).space.0
            ||| ranges[i].space == ranges[j].space && ranges[i].end.0 + 1 < ranges[j].start.0
        }
}

/// Whether the ranges are the runs of a set of addresses.
pub open spec fn are_ranges_of(ranges: Seq<AddressRange>, set: Set<Address>) -> bool {
    &&& ranges_apart(ranges)
    &&& forall|address: Address| #[trigger]
        set.contains(address) <==> some_holds(ranges, address)
}

/// How far apart the spaces are laid when all addresses are laid on one line.
spec fn stride() -> int {
    0x2_0000_0000_0000_0000
}

spec fn spread(range: AddressRange) -> (int, int) {
    let base = range.space.0 * stride();
    (base + range.start.0, base + range.end.0)
}

/// A set of addresses has one list of runs.
pub proof fn law_ranges_determined(a: Seq<AddressRange>, b: Seq<AddressRange>, set: Set<Address>)
    requires
        are_ranges_of(a, set),
        are_ranges_of(b, set),
    ensures
        a == b,
{
    let x = a.map_values(|r: AddressRange| spread(r));
    let y = b.map_values(|r: AddressRange| spread(r));
    lemma_spread(a);
    lemma_spread(b);
    assert forall|number: int| #[trigger] runs_cover(x, number) <==> runs_cover(y, number) by {
        let address = address_of(number);
        lemma_spread_holds(a, number);
        lemma_spread_holds(b, number);
        assert(set.contains(address) <==> some_holds(a, address));
        assert(set.contains(address) <==> some_holds(b, address));
    }
    law_runs_determined(x, y);
    assert forall|i: int| 0 <= i < a.len() implies a[i] == b[i] by {
        assert(x[i] == y[i]);
        assert(x[i] == spread(a[i]));
        assert(y[i] == spread(b[i]));
    }
    assert(a =~= b);
}

spec fn address_of(number: int) -> Address {
    Address {
        space: AddressSpaceId((number / stride()) as u16),
        address: RawAddress((number % stride()) as u64),
    }
}

proof fn lemma_spread(ranges: Seq<AddressRange>)
    requires
        ranges_apart(ranges),
    ensures
        runs_apart(ranges.map_values(|r: AddressRange| spread(r))),
{
    let runs = ranges.map_values(|r: AddressRange| spread(r));
    assert forall|i: int| 0 <= i < runs.len() implies (#[trigger] runs[i]).0 <= runs[i].1 by {
        assert(ranges[i].start.0 <= ranges[i].end.0);
    }
    assert forall|i: int, j: int| 0 <= i < j < runs.len() implies (#[trigger] runs[i]).1 + 1 < (
    #[trigger] runs[j]).0 by {
        assert(ranges[i].space.0 < ranges[j].space.0 || ranges[i].space == ranges[j].space
            && ranges[i].end.0 + 1 < ranges[j].start.0);
    }
}

proof fn lemma_spread_holds(ranges: Seq<AddressRange>, number: int)
    ensures
        runs_cover(ranges.map_values(|r: AddressRange| spread(r)), number) <==> {
            &&& 0 <= number < 0x1_0000 * stride()
            &&& number % stride() < offsets()
            &&& some_holds(ranges, address_of(number))
        },
{
    let runs = ranges.map_values(|r: AddressRange| spread(r));
    if runs_cover(runs, number) {
        let i = choose|i: int| 0 <= i < runs.len() && (#[trigger] runs[i]).0 <= number <= runs[i].1;
        let range = ranges[i];
        assert(runs[i] == spread(range));
        assert(number / stride() == range.space.0);
        assert(range.holds(address_of(number)));
    }
    if 0 <= number < 0x1_0000 * stride() && number % stride() < offsets()
        && some_holds(ranges, address_of(number)) {
        let i = choose|i: int|
            0 <= i < ranges.len() && (#[trigger] ranges[i]).holds(address_of(number));
        assert(runs[i] == spread(ranges[i]));
        assert(runs[i].0 <= number <= runs[i].1);
    }
}

/// A set of addresses.
pub struct AddressRangeSet {
    spaces: SortedMap<AddressSpaceId, RawAddressRangeSet>,
}

impl View for AddressRangeSet {
    type V = Set<Address>;

    /// The addresses in the set.
    closed spec fn view(&self) -> Set<Address> {
        Set::new(
            |address: Address|
                self.spaces@.dom().contains(address.space)
                    && self.spaces@[address.space]@.contains(address.address.0),
        )
    }
}

impl AddressRangeSet {
    /// Each space in the set has an address.
    pub closed spec fn wf(&self) -> bool {
        &&& self.spaces.wf()
        &&& forall|space: AddressSpaceId| #[trigger]
            self.spaces@.dom().contains(space) ==> self.spaces@[space].wf() && self.spaces@[space]@
                != Set::<u64>::empty()
    }

    pub fn new() -> (set: Self)
        ensures
            set.wf(),
            set@ == Set::<Address>::empty(),
    {
        AddressRangeSet::without_spaces()
    }

    fn without_spaces() -> (set: Self)
        ensures
            set.wf(),
            set@ == Set::<Address>::empty(),
            set.spaces@ == Map::<AddressSpaceId, RawAddressRangeSet>::empty(),
    {
        let set = AddressRangeSet { spaces: SortedMap::new() };
        assert(set@ =~= Set::<Address>::empty());
        set
    }

    pub fn contains(&self, address: Address) -> (found: bool)
        requires
            self.wf(),
        ensures
            found == self@.contains(address),
    {
        match self.spaces.get(&address.space()) {
            Some(ranges) => ranges.contains(address.raw_address()),
            None => false,
        }
    }

    /// The spaces of the set in ascending order, each with its offsets.
    pub fn spaces(&self) -> (spaces: Vec<(AddressSpaceId, &RawAddressRangeSet)>)
        requires
            self.wf(),
        ensures
            forall|i: int, j: int|
                0 <= i < j < spaces@.len() ==> (#[trigger] spaces@[i]).0.0 < (#[trigger]
                spaces@[j]).0.0,
            forall|i: int|
                0 <= i < spaces@.len() ==> (#[trigger] spaces@[i]).1.wf() && spaces@[i].1@
                    != Set::<u64>::empty(),
            forall|address: Address| #[trigger]
                self@.contains(address) <==> exists|i: int|
                    0 <= i < spaces@.len() && (#[trigger] spaces@[i]).0 == address.space
                        && spaces@[i].1@.contains(address.address.0),
    {
        let mut spaces: Vec<(AddressSpaceId, &RawAddressRangeSet)> = Vec::new();
        let mut i: usize = 0;
        while i < self.spaces.keys.len()
            invariant
                self.wf(),
                i <= self.spaces.keys@.len(),
                spaces@.len() == i,
                forall|j: int|
                    0 <= j < i ==> (#[trigger] spaces@[j]).0 == self.spaces.keys@[j] && *spaces@[j].1
                        == self.spaces.values@[j],
            decreases self.spaces.keys@.len() - i,
        {
            spaces.push((self.spaces.keys[i], &self.spaces.values[i]));
            i = i + 1;
        }
        proof {
            assert forall|i: int, j: int| 0 <= i < j < spaces@.len() implies (#[trigger] spaces@[
                i
            ]).0.0 < (#[trigger] spaces@[j]).0.0 by {
                assert(self.spaces.keys@[i].rank() < self.spaces.keys@[j].rank());
            }
            assert forall|i: int| 0 <= i < spaces@.len() implies (#[trigger] spaces@[i]).1.wf()
                && spaces@[i].1@ != Set::<u64>::empty() by {
                self.spaces.lemma_entry(i);
            }
            assert forall|address: Address| #[trigger]
                self@.contains(address) <==> exists|i: int|
                    0 <= i < spaces@.len() && (#[trigger] spaces@[i]).0 == address.space
                        && spaces@[i].1@.contains(address.address.0) by {
                if self@.contains(address) {
                    let i = self.spaces.lemma_place(address.space);
                    assert(spaces@[i].0 == address.space);
                }
                if exists|i: int|
                    0 <= i < spaces@.len() && (#[trigger] spaces@[i]).0 == address.space
                        && spaces@[i].1@.contains(address.address.0) {
                    let i = choose|i: int|
                        0 <= i < spaces@.len() && (#[trigger] spaces@[i]).0 == address.space
                            && spaces@[i].1@.contains(address.address.0);
                    self.spaces.lemma_entry(i);
                }
            }
        }
        spaces
    }

    /// The runs of the set, by space and offset.
    pub fn ranges(&self) -> (ranges: Vec<AddressRange>)
        requires
            self.wf(),
        ensures
            are_ranges_of(ranges@, self@),
    {
        let mut ranges: Vec<AddressRange> = Vec::new();
        let mut i: usize = 0;
        while i < self.spaces.keys.len()
            invariant
                self.wf(),
                i <= self.spaces.keys@.len(),
                ranges_apart(ranges@),
                forall|k: int|
                    0 <= k < ranges@.len() ==> exists|j: int|
                        0 <= j < i && (#[trigger] ranges@[k]).space == #[trigger] self.spaces.keys@[
                            j
                        ],
                forall|address: Address| #[trigger]
                    some_holds(ranges@, address) <==> exists|j: int|
                        0 <= j < i && #[trigger] self.spaces.keys@[j] == address.space
                            && self.spaces.values@[j]@.contains(address.address.0),
            decreases self.spaces.keys@.len() - i,
        {
            let space: AddressSpaceId = self.spaces.keys[i];
            proof {
                self.spaces.lemma_entry(i as int);
            }
            let inner: Vec<RangeInclusive<RawAddress>> = self.spaces.values[i].ranges();
            let ghost before = ranges@;
            let ghost offsets = self.spaces.values@[i as int]@;
            proof {
                assert forall|k: int| 0 <= k < before.len() implies (#[trigger] before[k]).space.0
                    < space.0 by {
                    let j = choose|j: int|
                        0 <= j < i && before[k].space == #[trigger] self.spaces.keys@[j];
                    assert(self.spaces.keys@[j].rank() < self.spaces.keys@[i as int].rank());
                }
            }
            let mut j: usize = 0;
            while j < inner.len()
                invariant
                    j <= inner@.len(),
                    separated(inner@),
                    ranges@.len() == before.len() + j,
                    forall|k: int| 0 <= k < before.len() ==> #[trigger] ranges@[k] == before[k],
                    forall|k: int|
                        0 <= k < j ==> ranges@[before.len() + k] == (AddressRange {
                            space,
                            start: (#[trigger] inner@[k])@.start,
                            end: inner@[k]@.end,
                        }),
                decreases inner@.len() - j,
            {
                let range: AddressRange = AddressRange::new(
                    space,
                    *inner[j].start(),
                    *inner[j].end(),
                );
                ranges.push(range);
                j = j + 1;
            }
            proof {
                assert forall|k: int| before.len() <= k < ranges@.len() implies #[trigger] ranges@[k]
                    == (AddressRange {
                    space,
                    start: inner@[k - before.len()]@.start,
                    end: inner@[k - before.len()]@.end,
                }) by {
                    let m = k - before.len();
                    assert(inner@[m] == inner@[m]);
                }
                assert forall|a: int, b: int| 0 <= a < b < ranges@.len() implies {
                    ||| (#[trigger] ranges@[a]).space.0 < (#[trigger] ranges@[b]).space.0
                    ||| ranges@[a].space == ranges@[b].space && ranges@[a].end.0 + 1
                        < ranges@[b].start.0
                } by {
                    if b < before.len() {
                        assert(before[a] == ranges@[a] && before[b] == ranges@[b]);
                    } else if a < before.len() {
                        assert(before[a] == ranges@[a]);
                    } else {
                        assert(inner@[a - before.len()]@.end.rank() + 1 < inner@[b
                            - before.len()]@.start.rank());
                    }
                }
                assert forall|k: int| 0 <= k < ranges@.len() implies (#[trigger] ranges@[k]).start.0
                    <= ranges@[k].end.0 by {
                    if k < before.len() {
                        assert(before[k] == ranges@[k]);
                    } else {
                        assert(inner@[k - before.len()]@.start.rank() <= inner@[k
                            - before.len()]@.end.rank());
                    }
                }
                assert forall|k: int| 0 <= k < ranges@.len() implies exists|j: int|
                    0 <= j < i + 1 && (#[trigger] ranges@[k]).space == #[trigger] self.spaces.keys@[
                        j
                    ] by {
                    if k < before.len() {
                        assert(before[k] == ranges@[k]);
                        let j = choose|j: int|
                            0 <= j < i && before[k].space == #[trigger] self.spaces.keys@[j];
                        assert(ranges@[k].space == self.spaces.keys@[j]);
                    } else {
                        assert(ranges@[k].space == self.spaces.keys@[i as int]);
                    }
                }
                assert forall|address: Address| #[trigger]
                    some_holds(ranges@, address) <==> exists|j: int|
                        0 <= j < i + 1 && #[trigger] self.spaces.keys@[j] == address.space
                            && self.spaces.values@[j]@.contains(address.address.0) by {
                    assert(some_holds(before, address) || !some_holds(before, address));
                    if some_holds(ranges@, address) {
                        let k = choose|k: int|
                            0 <= k < ranges@.len() && (#[trigger] ranges@[k]).holds(address);
                        if k < before.len() {
                            assert(before[k].holds(address));
                            assert(some_holds(before, address));
                        } else {
                            let m = k - before.len();
                            assert(inner@[m]@.start.rank() <= address.address.0
                                <= inner@[m]@.end.rank());
                            assert(some_range_holds(inner@, address.address.0 as int));
                            assert(offsets.contains(address.address.0));
                            assert(self.spaces.keys@[i as int] == address.space);
                        }
                    }
                    if some_holds(before, address) {
                        let k = choose|k: int|
                            0 <= k < before.len() && (#[trigger] before[k]).holds(address);
                        assert(ranges@[k].holds(address));
                    }
                    if space == address.space && offsets.contains(address.address.0) {
                        assert(some_range_holds(inner@, address.address.0 as int));
                        let m = choose|m: int|
                            0 <= m < inner@.len() && (#[trigger] inner@[m])@.start.rank()
                                <= address.address.0 <= inner@[m]@.end.rank();
                        assert(ranges@[before.len() + m].holds(address));
                    }
                }
            }
            i = i + 1;
        }
        proof {
            assert forall|address: Address| #[trigger]
                self@.contains(address) <==> some_holds(ranges@, address) by {
                if self@.contains(address) {
                    let j = self.spaces.lemma_place(address.space);
                    assert(self.spaces.keys@[j] == address.space);
                }
                if some_holds(ranges@, address) {
                    let j = choose|j: int|
                        0 <= j < i && #[trigger] self.spaces.keys@[j] == address.space
                            && self.spaces.values@[j]@.contains(address.address.0);
                    self.spaces.lemma_entry(j);
                }
            }
        }
        ranges
    }

    /// Whether the set holds an address of the range.
    pub fn intersects_range(&self, range: &AddressRange) -> (meet: bool)
        requires
            self.wf(),
        ensures
            meet == exists|address: Address| #[trigger]
                self@.contains(address) && range.holds(address),
    {
        match self.spaces.get(&range.space()) {
            Some(ranges) => {
                let meet: bool = ranges.intersects_range(range.raw_range());
                proof {
                    if meet {
                        let offset = choose|offset: u64| #[trigger]
                            ranges@.contains(offset) && range.start.0 <= offset <= range.end.0;
                        let address = Address { space: range.space, address: RawAddress(offset) };
                        assert(self@.contains(address) && range.holds(address));
                    }
                    if exists|address: Address| #[trigger]
                        self@.contains(address) && range.holds(address) {
                        let address = choose|address: Address| #[trigger]
                            self@.contains(address) && range.holds(address);
                        assert(ranges@.contains(address.address.0));
                    }
                }
                meet
            },
            None => false,
        }
    }

    /// How many runs the set has.
    pub fn range_count(&self) -> (count: usize)
        requires
            self.wf(),
        ensures
            forall|ranges: Seq<AddressRange>| #[trigger]
                are_ranges_of(ranges, self@) ==> ranges.len() == count,
    {
        let ranges: Vec<AddressRange> = self.ranges();
        proof {
            assert forall|other: Seq<AddressRange>| #[trigger]
                are_ranges_of(other, self@) implies other.len() == ranges@.len() by {
                law_ranges_determined(other, ranges@, self@);
            }
        }
        ranges.len()
    }

    /// The addresses of the set in ascending order.
    pub fn addresses(&self) -> (addresses: Vec<Address>)
        requires
            self.wf(),
        ensures
            ascending(addresses@),
            forall|address: Address| #[trigger]
                addresses@.contains(address) <==> self@.contains(address),
    {
        let mut addresses: Vec<Address> = Vec::new();
        let mut i: usize = 0;
        while i < self.spaces.keys.len()
            invariant
                self.wf(),
                i <= self.spaces.keys@.len(),
                ascending(addresses@),
                forall|address: Address| #[trigger]
                    addresses@.contains(address) <==> exists|j: int|
                        0 <= j < i && #[trigger] self.spaces.keys@[j] == address.space
                            && self.spaces.values@[j]@.contains(address.address.0),
            decreases self.spaces.keys@.len() - i,
        {
            let space: AddressSpaceId = self.spaces.keys[i];
            proof {
                self.spaces.lemma_entry(i as int);
            }
            let inner: Vec<RawAddress> = self.spaces.values[i].iter();
            let ghost before = addresses@;
            proof {
                assert forall|k: int| 0 <= k < before.len() implies (#[trigger] before[k]).space.0
                    < space.0 by {
                    assert(before.contains(before[k]));
                    let j = choose|j: int|
                        0 <= j < i && #[trigger] self.spaces.keys@[j] == before[k].space
                            && self.spaces.values@[j]@.contains(before[k].address.0);
                    assert(self.spaces.keys@[j].rank() < self.spaces.keys@[i as int].rank());
                }
            }
            let mut j: usize = 0;
            while j < inner.len()
                invariant
                    j <= inner@.len(),
                    ascending(inner@),
                    addresses@.len() == before.len() + j,
                    forall|k: int| 0 <= k < before.len() ==> #[trigger] addresses@[k] == before[k],
                    forall|k: int|
                        before.len() <= k < addresses@.len() ==> #[trigger] addresses@[k] == (
                        Address { space, address: inner@[k - before.len()] }),
                decreases inner@.len() - j,
            {
                addresses.push(Address { space, address: inner[j] });
                j = j + 1;
            }
            proof {
                assert forall|a: int, b: int| 0 <= a < b < addresses@.len() implies (#[trigger]
                addresses@[a]).rank() < (#[trigger] addresses@[b]).rank() by {
                    if b < before.len() {
                        assert(before[a] == addresses@[a] && before[b] == addresses@[b]);
                        assert(before[a].rank() < before[b].rank());
                    } else if a < before.len() {
                        assert(before[a] == addresses@[a]);
                    } else {
                        assert(inner@[a - before.len()].rank() < inner@[b - before.len()].rank());
                    }
                }
                assert forall|address: Address| #[trigger]
                    addresses@.contains(address) <==> exists|j: int|
                        0 <= j < i + 1 && #[trigger] self.spaces.keys@[j] == address.space
                            && self.spaces.values@[j]@.contains(address.address.0) by {
                    assert(before.contains(address) || !before.contains(address));
                    if addresses@.contains(address) {
                        let k = addresses@.index_of(address);
                        if k < before.len() {
                            assert(before[k] == address);
                            assert(before.contains(address));
                        } else {
                            assert(inner@.contains(inner@[k - before.len()]));
                            assert(self.spaces.keys@[i as int] == address.space);
                        }
                    }
                    if before.contains(address) {
                        let k = before.index_of(address);
                        assert(addresses@[k] == address);
                    }
                    if space == address.space && self.spaces.values@[i as int]@.contains(
                        address.address.0,
                    ) {
                        assert(inner@.contains(address.address));
                        let m = inner@.index_of(address.address);
                        assert(addresses@[before.len() + m] == address);
                    }
                }
            }
            i = i + 1;
        }
        proof {
            assert forall|address: Address| #[trigger]
                addresses@.contains(address) <==> self@.contains(address) by {
                if self@.contains(address) {
                    let j = self.spaces.lemma_place(address.space);
                    assert(self.spaces.keys@[j] == address.space);
                }
                if addresses@.contains(address) {
                    let j = choose|j: int|
                        0 <= j < i && #[trigger] self.spaces.keys@[j] == address.space
                            && self.spaces.values@[j]@.contains(address.address.0);
                    self.spaces.lemma_entry(j);
                }
            }
        }
        addresses
    }

    pub fn is_empty(&self) -> (empty: bool)
        requires
            self.wf(),
        ensures
            empty == (self@ == Set::<Address>::empty()),
    {
        let empty: bool = self.spaces.is_empty();
        proof {
            if empty {
                assert(self@ =~= Set::<Address>::empty());
            } else {
                let space = self.spaces.keys@[0];
                self.spaces.lemma_entry(0);
                let offsets = self.spaces@[space]@;
                if forall|offset: u64| !offsets.contains(offset) {
                    assert(offsets =~= Set::<u64>::empty());
                }
                let offset = choose|offset: u64| offsets.contains(offset);
                assert(self@.contains(Address { space, address: RawAddress(offset) }));
            }
        }
        empty
    }

    /// The offsets of one space, taken out of the set.
    fn take_space(&mut self, space: AddressSpaceId) -> (offsets: RawAddressRangeSet)
        requires
            old(self).wf(),
        ensures
            final(self).wf(),
            final(self).spaces@ == old(self).spaces@.remove(space),
            offsets.wf(),
            forall|address: Address|
                address.space == space ==> (#[trigger] old(self)@.contains(address)
                    <==> offsets@.contains(address.address.0)),
            forall|address: Address| #[trigger]
                final(self)@.contains(address) <==> old(self)@.contains(address) && address.space
                    != space,
    {
        match self.spaces.remove(&space) {
            Some(offsets) => offsets,
            None => RawAddressRangeSet::new(),
        }
    }

    /// Puts offsets of a space that the set has none of in their place.
    fn put_space(&mut self, space: AddressSpaceId, offsets: RawAddressRangeSet)
        requires
            old(self).wf(),
            !old(self).spaces@.dom().contains(space),
            offsets.wf(),
        ensures
            final(self).wf(),
            forall|address: Address| #[trigger]
                final(self)@.contains(address) <==> old(self)@.contains(address) || (address.space
                    == space && offsets@.contains(address.address.0)),
            forall|other: AddressSpaceId| #[trigger]
                final(self).spaces@.dom().contains(other) ==> old(self).spaces@.dom().contains(
                    other,
                ) || other == space,
    {
        if !offsets.is_empty() {
            self.spaces.insert(space, offsets);
        }
    }

    /// Adds an address and says whether it was new.
    pub fn insert(&mut self, address: Address) -> (inserted: bool)
        requires
            old(self).wf(),
        ensures
            final(self).wf(),
            final(self)@ == old(self)@.insert(address),
            inserted == !old(self)@.contains(address),
    {
        let ghost before = self@;
        let mut offsets: RawAddressRangeSet = self.take_space(address.space());
        let inserted: bool = offsets.insert(address.raw_address());
        self.put_space(address.space(), offsets);
        assert(self@ =~= before.insert(address));
        inserted
    }

    /// Adds the addresses of the range.
    pub fn insert_range(&mut self, range: AddressRange)
        requires
            old(self).wf(),
        ensures
            final(self).wf(),
            final(self)@ == old(self)@.union(Set::new(|address: Address| range.holds(address))),
    {
        let ghost before = self@;
        if range.is_empty() {
            assert(self@ =~= before.union(Set::new(|address: Address| range.holds(address))));
            return ;
        }
        let mut offsets: RawAddressRangeSet = self.take_space(range.space());
        offsets.insert_range(range.raw_range());
        self.put_space(range.space(), offsets);
        assert(self@ =~= before.union(Set::new(|address: Address| range.holds(address))));
    }

    /// Adds offsets of a space, of which there is at least one.
    pub fn insert_raw_range(&mut self, space: AddressSpaceId, range: RangeInclusive<RawAddress>)
        requires
            old(self).wf(),
            !range@.exhausted,
            range@.start.0 <= range@.end.0,
        ensures
            final(self).wf(),
            final(self)@ == old(self)@.union(
                Set::new(
                    |address: Address|
                        address.space == space && range@.start.0 <= address.address.0
                            <= range@.end.0,
                ),
            ),
    {
        let ghost before = self@;
        let mut offsets: RawAddressRangeSet = self.take_space(space);
        offsets.insert_range(range);
        self.put_space(space, offsets);
        assert(self@ =~= before.union(
            Set::new(
                |address: Address|
                    address.space == space && range@.start.0 <= address.address.0 <= range@.end.0,
            ),
        ));
    }

    /// Adds the offsets of a range of addresses to the space that the range begins in. There
    /// is at least one.
    pub fn insert_meta_range(&mut self, range: RangeInclusive<Address>)
        requires
            old(self).wf(),
            !range@.exhausted,
            range@.start.address.0 <= range@.end.address.0,
        ensures
            final(self).wf(),
            final(self)@ == old(self)@.union(
                Set::new(
                    |address: Address|
                        address.space == range@.start.space && range@.start.address.0
                            <= address.address.0 <= range@.end.address.0,
                ),
            ),
    {
        let ghost before = self@;
        let space: AddressSpaceId = range.start().space();
        let ghost (start, end) = (range@.start, range@.end);
        let mut offsets: RawAddressRangeSet = self.take_space(space);
        offsets.insert_meta_range(range);
        self.put_space(space, offsets);
        assert(self@ =~= before.union(
            Set::new(
                |address: Address|
                    address.space == start.space && start.address.0 <= address.address.0
                        <= end.address.0,
            ),
        ));
    }

    /// Takes the addresses of the range out. A range that ends before it begins is only taken
    /// out of a set that has nothing in its space.
    pub fn remove_range(&mut self, range: AddressRange)
        requires
            old(self).wf(),
            range.start.0 <= range.end.0 || forall|address: Address| #[trigger]
                old(self)@.contains(address) ==> address.space != range.space,
        ensures
            final(self).wf(),
            final(self)@ == old(self)@.difference(
                Set::new(|address: Address| range.holds(address)),
            ),
    {
        let ghost before = *self;
        if !self.spaces.contains_key(&range.space()) {
            assert(self@ =~= before@.difference(Set::new(|address: Address| range.holds(address))));
            return ;
        }
        proof {
            let offsets = before.spaces@[range.space]@;
            if forall|offset: u64| !offsets.contains(offset) {
                assert(offsets =~= Set::<u64>::empty());
            }
            let offset = choose|offset: u64| offsets.contains(offset);
            assert(before@.contains(Address { space: range.space, address: RawAddress(offset) }));
        }
        let mut offsets: RawAddressRangeSet = self.take_space(range.space());
        offsets.remove_range(range.raw_range());
        self.put_space(range.space(), offsets);
        assert(self@ =~= before@.difference(Set::new(|address: Address| range.holds(address))));
    }

    /// What this set holds and the other does not.
    pub fn difference(&self, other: &Self) -> (difference: Self)
        requires
            self.wf(),
            other.wf(),
        ensures
            difference.wf(),
            difference@ == self@.difference(other@),
    {
        let mut difference: AddressRangeSet = AddressRangeSet::without_spaces();
        let mut i: usize = 0;
        while i < self.spaces.keys.len()
            invariant
                self.wf(),
                other.wf(),
                difference.wf(),
                i <= self.spaces.keys@.len(),
                forall|space: AddressSpaceId| #[trigger]
                    difference.spaces@.dom().contains(space) ==> self.spaces.keys@.take(
                        i as int,
                    ).contains(space),
                forall|address: Address| #[trigger]
                    difference@.contains(address) <==> self@.contains(address) && !other@.contains(
                        address,
                    ) && self.spaces.keys@.take(i as int).contains(address.space),
            decreases self.spaces.keys@.len() - i,
        {
            let space: AddressSpaceId = self.spaces.keys[i];
            let ghost front = self.spaces.keys@.take(i as int);
            proof {
                self.spaces.lemma_entry(i as int);
                lemma_take_next(self.spaces.keys@, i as int);
            }
            let offsets: RawAddressRangeSet = match other.spaces.get(&space) {
                Some(excluded) => self.spaces.values[i].difference(excluded),
                None => self.spaces.values[i].clone(),
            };
            difference.put_space(space, offsets);
            i = i + 1;
        }
        proof {
            assert(self.spaces.keys@.take(i as int) =~= self.spaces.keys@);
            assert(difference@ =~= self@.difference(other@));
        }
        difference
    }

    /// What either set holds.
    pub fn union(&self, other: &Self) -> (union: Self)
        requires
            self.wf(),
            other.wf(),
        ensures
            union.wf(),
            union@ == self@.union(other@),
    {
        let mut union: AddressRangeSet = self.clone();
        let mut i: usize = 0;
        while i < other.spaces.keys.len()
            invariant
                self.wf(),
                other.wf(),
                union.wf(),
                i <= other.spaces.keys@.len(),
                forall|address: Address| #[trigger]
                    union@.contains(address) <==> self@.contains(address) || (other@.contains(
                        address,
                    ) && other.spaces.keys@.take(i as int).contains(address.space)),
            decreases other.spaces.keys@.len() - i,
        {
            let space: AddressSpaceId = other.spaces.keys[i];
            proof {
                other.spaces.lemma_entry(i as int);
                lemma_take_next(other.spaces.keys@, i as int);
            }
            let ghost earlier = union@;
            let offsets: RawAddressRangeSet = union.take_space(space);
            let merged: RawAddressRangeSet = offsets.union(&other.spaces.values[i]);
            union.put_space(space, merged);
            proof {
                assert forall|address: Address| #[trigger]
                    union@.contains(address) <==> self@.contains(address) || (other@.contains(
                        address,
                    ) && other.spaces.keys@.take(i + 1).contains(address.space)) by {
                    assert(earlier.contains(address) <==> self@.contains(address) || (
                    other@.contains(address) && other.spaces.keys@.take(i as int).contains(
                        address.space,
                    )));
                    if address.space == space {
                        assert(other@.contains(address)
                            <==> other.spaces.values@[i as int]@.contains(address.address.0));
                    }
                }
            }
            i = i + 1;
        }
        proof {
            assert(other.spaces.keys@.take(i as int) =~= other.spaces.keys@);
            assert(union@ =~= self@.union(other@));
        }
        union
    }

    /// What both sets hold.
    pub fn intersection(&self, other: &Self) -> (intersection: Self)
        requires
            self.wf(),
            other.wf(),
        ensures
            intersection.wf(),
            intersection@ == self@.intersect(other@),
    {
        let mut intersection: AddressRangeSet = AddressRangeSet::without_spaces();
        let mut i: usize = 0;
        while i < self.spaces.keys.len()
            invariant
                self.wf(),
                other.wf(),
                intersection.wf(),
                i <= self.spaces.keys@.len(),
                forall|space: AddressSpaceId| #[trigger]
                    intersection.spaces@.dom().contains(space) ==> self.spaces.keys@.take(
                        i as int,
                    ).contains(space),
                forall|address: Address| #[trigger]
                    intersection@.contains(address) <==> self@.contains(address) && other@.contains(
                        address,
                    ) && self.spaces.keys@.take(i as int).contains(address.space),
            decreases self.spaces.keys@.len() - i,
        {
            let space: AddressSpaceId = self.spaces.keys[i];
            proof {
                self.spaces.lemma_entry(i as int);
                lemma_take_next(self.spaces.keys@, i as int);
            }
            match other.spaces.get(&space) {
                Some(other_ranges) => {
                    let ranges: RawAddressRangeSet = self.spaces.values[i].intersection(
                        other_ranges,
                    );
                    intersection.put_space(space, ranges);
                },
                None => {},
            }
            i = i + 1;
        }
        proof {
            assert(self.spaces.keys@.take(i as int) =~= self.spaces.keys@);
            assert(intersection@ =~= self@.intersect(other@));
        }
        intersection
    }

    /// Whether the sets share an address.
    pub fn intersects(&self, other: &Self) -> (meet: bool)
        requires
            self.wf(),
            other.wf(),
        ensures
            meet == exists|address: Address| #[trigger]
                self@.contains(address) && other@.contains(address),
    {
        let ranges: Vec<AddressRange> = other.ranges();
        let mut i: usize = 0;
        while i < ranges.len()
            invariant
                self.wf(),
                i <= ranges@.len(),
                are_ranges_of(ranges@, other@),
                forall|address: Address, j: int|
                    0 <= j < i && #[trigger] self@.contains(address) ==> !(#[trigger]
                    ranges@[j]).holds(address),
            decreases ranges@.len() - i,
        {
            if self.intersects_range(&ranges[i]) {
                proof {
                    let address = choose|address: Address| #[trigger]
                        self@.contains(address) && ranges@[i as int].holds(address);
                    assert(some_holds(ranges@, address));
                    assert(other@.contains(address));
                }
                return true;
            }
            i = i + 1;
        }
        proof {
            if exists|address: Address| #[trigger]
                self@.contains(address) && other@.contains(address) {
                let address = choose|address: Address| #[trigger]
                    self@.contains(address) && other@.contains(address);
                assert(some_holds(ranges@, address));
            }
        }
        false
    }

    /// For each space of the set, all addresses from its lowest to its highest.
    pub fn spanning_ranges(&self) -> (spanning: Self)
        requires
            self.wf(),
        ensures
            spanning.wf(),
            forall|address: Address| #[trigger]
                spanning@.contains(address) <==> exists|low: Address, high: Address|
                    {
                        &&& #[trigger] self@.contains(low)
                        &&& #[trigger] self@.contains(high)
                        &&& low.space == address.space
                        &&& high.space == address.space
                        &&& low.address.0 <= address.address.0 <= high.address.0
                    },
    {
        let mut spanning: AddressRangeSet = AddressRangeSet::new();
        let mut i: usize = 0;
        while i < self.spaces.keys.len()
            invariant
                self.wf(),
                spanning.wf(),
                i <= self.spaces.keys@.len(),
                forall|address: Address| #[trigger]
                    spanning@.contains(address) <==> self.spans(address)
                        && self.spaces.keys@.take(i as int).contains(address.space),
            decreases self.spaces.keys@.len() - i,
        {
            let space: AddressSpaceId = self.spaces.keys[i];
            proof {
                self.spaces.lemma_entry(i as int);
                lemma_take_next(self.spaces.keys@, i as int);
            }
            let ghost earlier = spanning@;
            let ghost offsets = self.spaces.values@[i as int]@;
            match self.spaces.values[i].span() {
                Some(span) => {
                    let ghost (start, end) = (span@.start, span@.end);
                    spanning.insert_raw_range(space, span);
                    proof {
                        assert forall|address: Address| #[trigger]
                            spanning@.contains(address) <==> self.spans(address)
                                && self.spaces.keys@.take(i + 1).contains(address.space) by {
                            assert(earlier.contains(address) || !earlier.contains(address));
                            if address.space == space {
                                let low = Address { space, address: start };
                                let high = Address { space, address: end };
                                assert(self@.contains(low));
                                assert(self@.contains(high));
                                if self.spans(address) {
                                    let (a, b) = choose|a: Address, b: Address|
                                        {
                                            &&& #[trigger] self@.contains(a)
                                            &&& #[trigger] self@.contains(b)
                                            &&& a.space == address.space
                                            &&& b.space == address.space
                                            &&& a.address.0 <= address.address.0 <= b.address.0
                                        };
                                    assert(offsets.contains(a.address.0));
                                    assert(offsets.contains(b.address.0));
                                }
                            }
                        }
                    }
                },
                None => {},
            }
            i = i + 1;
        }
        proof {
            assert(self.spaces.keys@.take(i as int) =~= self.spaces.keys@);
            assert forall|address: Address| #[trigger]
                spanning@.contains(address) <==> self.spans(address) by {
                if self.spans(address) {
                    let (a, b) = choose|a: Address, b: Address|
                        {
                            &&& #[trigger] self@.contains(a)
                            &&& #[trigger] self@.contains(b)
                            &&& a.space == address.space
                            &&& b.space == address.space
                            &&& a.address.0 <= address.address.0 <= b.address.0
                        };
                    assert(self.spaces@.dom().contains(address.space));
                }
            }
        }
        spanning
    }

    /// Whether the address lies between two addresses of the set in its space.
    spec fn spans(&self, address: Address) -> bool {
        exists|low: Address, high: Address|
            {
                &&& #[trigger] self@.contains(low)
                &&& #[trigger] self@.contains(high)
                &&& low.space == address.space
                &&& high.space == address.space
                &&& low.address.0 <= address.address.0 <= high.address.0
            }
    }
}

proof fn lemma_take_next<T>(s: Seq<T>, i: int)
    requires
        0 <= i < s.len(),
    ensures
        forall|x: T| #[trigger] s.take(i + 1).contains(x) <==> s.take(i).contains(x) || x == s[i],
{
    assert forall|x: T| #[trigger]
        s.take(i + 1).contains(x) <==> s.take(i).contains(x) || x == s[i] by {
        if s.take(i + 1).contains(x) {
            let k = s.take(i + 1).index_of(x);
            if k < i {
                assert(s.take(i)[k] == x);
            }
        }
        if s.take(i).contains(x) {
            let k = s.take(i).index_of(x);
            assert(s.take(i + 1)[k] == x);
        }
        assert(s.take(i + 1)[i] == s[i]);
    }
}

impl Clone for AddressRangeSet {
    fn clone(&self) -> (copy: Self)
        ensures
            self.wf() ==> copy.wf() && copy@ == self@,
    {
        let mut keys: Vec<AddressSpaceId> = Vec::new();
        let mut values: Vec<RawAddressRangeSet> = Vec::new();
        let mut i: usize = 0;
        while i < self.spaces.keys.len() && i < self.spaces.values.len()
            invariant
                i <= self.spaces.keys@.len(),
                i <= self.spaces.values@.len(),
                keys@ == self.spaces.keys@.take(i as int),
                values@.len() == i,
                forall|j: int|
                    0 <= j < i ==> (#[trigger] values@[j])@ == self.spaces.values@[j]@
                        && values@[j].wf() == self.spaces.values@[j].wf(),
            decreases self.spaces.keys@.len() - i,
        {
            keys.push(self.spaces.keys[i]);
            values.push(self.spaces.values[i].clone());
            i = i + 1;
            assert(keys@ =~= self.spaces.keys@.take(i as int));
        }
        let copy = AddressRangeSet { spaces: SortedMap { keys, values } };
        proof {
            if self.wf() {
                assert(copy.spaces.keys@ =~= self.spaces.keys@);
                assert forall|space: AddressSpaceId| #[trigger]
                    copy.spaces@.dom().contains(space) implies copy.spaces@[space]@
                    == self.spaces@[space]@ && copy.spaces@[space].wf()
                    == self.spaces@[space].wf() by {
                    let j = copy.spaces.lemma_place(space);
                    self.spaces.lemma_entry(j);
                }
                assert forall|space: AddressSpaceId|
                    copy.spaces@.dom().contains(space) == self.spaces@.dom().contains(space) by {}
                assert(copy@ =~= self@);
            }
        }
        copy
    }
}

} // verus!
