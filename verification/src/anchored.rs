//! Keys that are ordered first by an end that they share with others.
use vstd::prelude::*;

use crate::address::{Address, AddressRange};
use crate::address_set::{are_ranges_of, some_holds, AddressRangeSet};
use crate::order::{
    ascending, cursor_bound_or_minimum, lower_bound, not_below, same_key, span_start, KeyBound,
    Ranked,
};

verus! {

/// A key that is ordered first by its anchor.
pub trait Anchored<A: Ranked + Copy>: Ranked + Copy {
    /// What the key is ordered by first.
    spec fn anchor(self) -> A;

    /// Keys come in the order of their anchors.
    proof fn lemma_anchor_order(a: Self, b: Self)
        requires
            a.rank() <= b.rank(),
        ensures
            a.anchor().rank() <= b.anchor().rank(),
    ;

    fn anchor_of(&self) -> (anchor: A)
        ensures
            anchor == self.anchor(),
    ;

    /// The first of all keys with an anchor.
    fn first_of(anchor: A) -> (key: Self)
        ensures
            key.anchor() == anchor,
            forall|other: Self| other.anchor() == anchor ==> key.rank() <= #[trigger] other.rank(),
    ;
}

/// Whether a key is met on the way from the start of a span on, as long as only keys with the
/// anchor come.
pub open spec fn is_met<A: Ranked + Copy, K: Anchored<A>>(
    keys: Set<K>,
    anchor: A,
    start: KeyBound<K>,
    key: K,
) -> bool {
    &&& keys.contains(key)
    &&& not_below(start, key)
    &&& key.anchor() == anchor
    &&& forall|other: K| #[trigger]
        keys.contains(other) && not_below(start, other) && other.rank() < key.rank()
            ==> other.anchor() == anchor
}

/// Whether a sequence gives the keys that are met, in order.
pub open spec fn lists_met<A: Ranked + Copy, K: Anchored<A>>(
    listed: Seq<K>,
    keys: Set<K>,
    anchor: A,
    start: KeyBound<K>,
) -> bool {
    &&& ascending(listed)
    &&& forall|key: K| #[trigger] listed.contains(key) <==> is_met(keys, anchor, start, key)
}

/// The first key behind a cursor, of all with an anchor where there is no cursor.
pub open spec fn is_start<A: Ranked + Copy, K: Anchored<A>>(
    start: KeyBound<K>,
    anchor: A,
    after: Option<K>,
) -> bool {
    match after {
        Some(key) => start == KeyBound::Excluded(key),
        None => start matches KeyBound::Included(first) && first.anchor() == anchor && forall|
            other: K,
        |
            other.anchor() == anchor ==> first.rank() <= #[trigger] other.rank(),
    }
}

/// Whether a sequence gives what is met behind a cursor.
pub open spec fn pages<A: Ranked + Copy, K: Anchored<A>>(
    listed: Seq<K>,
    keys: Set<K>,
    anchor: A,
    after: Option<K>,
) -> bool {
    exists|start: KeyBound<K>| #[trigger]
        is_start(start, anchor, after) && lists_met(listed, keys, anchor, start)
}

/// With no cursor, and behind a key with the anchor, all keys with the anchor are listed that
/// come later.
pub proof fn law_pages_hold_all<A: Ranked + Copy, K: Anchored<A>>(
    listed: Seq<K>,
    keys: Set<K>,
    anchor: A,
    after: Option<K>,
    key: K,
)
    requires
        pages(listed, keys, anchor, after),
        after matches Some(last) ==> last.anchor() == anchor,
    ensures
        listed.contains(key) <==> keys.contains(key) && key.anchor() == anchor && (
        after matches Some(last) ==> last.rank() < key.rank()),
{
    let start = choose|start: KeyBound<K>| #[trigger]
        is_start(start, anchor, after) && lists_met(listed, keys, anchor, start);
    assert(listed.contains(key) <==> is_met(keys, anchor, start, key));
    if keys.contains(key) && key.anchor() == anchor && not_below(start, key) {
        assert forall|other: K| #[trigger]
            keys.contains(other) && not_below(start, other) && other.rank()
                < key.rank() implies other.anchor() == anchor by {
            K::lemma_anchor_order(other, key);
            match start {
                KeyBound::Included(first) => {
                    K::lemma_anchor_order(first, other);
                },
                KeyBound::Excluded(last) => {
                    K::lemma_anchor_order(last, other);
                },
                KeyBound::Unbounded => {},
            }
            A::lemma_rank_injective(other.anchor(), anchor);
        }
    }
}

/// Two pages behind one cursor are the same.
pub proof fn law_pages_determined<A: Ranked + Copy, K: Anchored<A>>(
    a: Seq<K>,
    b: Seq<K>,
    keys: Set<K>,
    anchor: A,
    after: Option<K>,
)
    requires
        pages(a, keys, anchor, after),
        pages(b, keys, anchor, after),
    ensures
        a == b,
{
    let first = choose|start: KeyBound<K>| #[trigger]
        is_start(start, anchor, after) && lists_met(a, keys, anchor, start);
    let second = choose|start: KeyBound<K>| #[trigger]
        is_start(start, anchor, after) && lists_met(b, keys, anchor, start);
    if after is None {
        let one = first->Included_0;
        let two = second->Included_0;
        assert(one.rank() <= two.rank());
        assert(two.rank() <= one.rank());
        K::lemma_rank_injective(one, two);
    }
    assert(first == second);
    assert forall|key: K| a.contains(key) <==> b.contains(key) by {
        assert(a.contains(key) <==> is_met(keys, anchor, first, key));
        assert(b.contains(key) <==> is_met(keys, anchor, first, key));
    }
    crate::order::lemma_ascending_determined(a, b);
}

/// The keys behind a cursor as long as they have the anchor.
pub fn anchored_keys<A: Ranked + Copy, K: Anchored<A>>(
    keys: &Vec<K>,
    anchor: A,
    after: Option<K>,
) -> (listed: Vec<K>)
    requires
        ascending(keys@),
    ensures
        pages(listed@, keys@.to_set(), anchor, after),
{
    let first: K = K::first_of(anchor);
    let start: KeyBound<K> = cursor_bound_or_minimum(after, first);
    let mut at: usize = span_start(keys.as_slice(), start);
    let ghost from = at as int;
    let mut listed: Vec<K> = Vec::new();
    while at < keys.len() && same_key(&keys[at].anchor_of(), &anchor)
        invariant
            0 <= from <= at <= keys@.len(),
            listed@ == keys@.subrange(from, at as int),
            forall|i: int| from <= i < at ==> (#[trigger] keys@[i]).anchor() == anchor,
        decreases keys@.len() - at,
    {
        listed.push(keys[at]);
        at = at + 1;
        assert(listed@ =~= keys@.subrange(from, at as int));
    }
    proof {
        assert forall|key: K| #[trigger]
            listed@.contains(key) <==> is_met(keys@.to_set(), anchor, start, key) by {
            if listed@.contains(key) {
                let i = listed@.index_of(key);
                assert(keys@[from + i] == key);
                assert(keys@.contains(key));
                assert forall|other: K| #[trigger]
                    keys@.to_set().contains(other) && not_below(start, other) && other.rank()
                        < key.rank() implies other.anchor() == anchor by {
                    let j = keys@.index_of(other);
                    assert(keys@[j] == other);
                    assert(j < from + i);
                }
            }
            if is_met(keys@.to_set(), anchor, start, key) {
                let i = keys@.index_of(key);
                assert(keys@[i] == key);
                if i >= at {
                    let stop = keys@[at as int];
                    assert(keys@.contains(stop));
                    assert(keys@.to_set().contains(stop));
                    assert(not_below(start, stop));
                    assert(false);
                }
                assert(listed@[i - from] == key);
            }
        }
        assert(is_start(start, anchor, after));
    }
    listed
}

/// Whether a sequence gives the keys whose anchor is covered, in order.
pub open spec fn lists_covered<K: Anchored<Address>>(
    listed: Seq<K>,
    keys: Set<K>,
    coverage: Set<Address>,
) -> bool {
    &&& ascending(listed)
    &&& forall|key: K| #[trigger]
        listed.contains(key) <==> keys.contains(key) && coverage.contains(key.anchor())
}

/// The keys whose anchor is covered.
pub fn covered_keys<K: Anchored<Address>>(keys: &Vec<K>, coverage: &AddressRangeSet) -> (listed:
    Vec<K>)
    requires
        ascending(keys@),
        coverage.wf(),
    ensures
        lists_covered(listed@, keys@.to_set(), coverage@),
{
    let ranges: Vec<AddressRange> = coverage.ranges();
    let mut listed: Vec<K> = Vec::new();
    let mut i: usize = 0;
    assert(ranges@.take(0).len() == 0);
    while i < ranges.len()
        invariant
            i <= ranges@.len(),
            ascending(keys@),
            are_ranges_of(ranges@, coverage@),
            ascending(listed@),
            forall|key: K| #[trigger]
                listed@.contains(key) <==> keys@.contains(key) && some_holds(
                    ranges@.take(i as int),
                    key.anchor(),
                ),
        decreases ranges@.len() - i,
    {
        let range: AddressRange = ranges[i];
        let first: K = K::first_of(range.start_address());
        let end: Address = range.end_address();
        let mut at: usize = lower_bound(keys.as_slice(), &first);
        let ghost from = at as int;
        let ghost before = listed@;
        while at < keys.len() && !end.precedes(&keys[at].anchor_of())
            invariant
                0 <= from <= at <= keys@.len(),
                listed@ == before + keys@.subrange(from, at as int),
                forall|k: int| from <= k < at ==> (#[trigger] keys@[k]).anchor().rank() <= end.rank(),
            decreases keys@.len() - at,
        {
            listed.push(keys[at]);
            at = at + 1;
            assert(listed@ =~= before + keys@.subrange(from, at as int));
        }
        proof {
            let fresh = keys@.subrange(from, at as int);
            assert forall|key: K| #[trigger] fresh.contains(key) <==> keys@.contains(key)
                && range.holds(key.anchor()) by {
                lemma_between(range, key.anchor());
                if fresh.contains(key) {
                    let k = fresh.index_of(key);
                    assert(keys@[from + k] == key);
                    K::lemma_anchor_order(first, key);
                }
                if keys@.contains(key) && range.holds(key.anchor()) {
                    let k = keys@.index_of(key);
                    assert(keys@[k] == key);
                    if k < from {
                        K::lemma_anchor_order(key, first);
                        Address::lemma_rank_injective(key.anchor(), first.anchor());
                        assert(false);
                    }
                    if k >= at {
                        K::lemma_anchor_order(keys@[at as int], key);
                        assert(false);
                    }
                    assert(fresh[k - from] == key);
                }
            }
            assert forall|k: int, m: int|
                0 <= k < m < listed@.len() implies (#[trigger] listed@[k]).rank() < (#[trigger]
            listed@[m]).rank() by {
                if m >= before.len() && k < before.len() {
                    let a = listed@[k];
                    let b = listed@[m];
                    assert(before.contains(a)) by {
                        assert(before[k] == a);
                    }
                    assert(fresh.contains(b)) by {
                        assert(fresh[m - before.len()] == b);
                    }
                    let seen = ranges@.take(i as int);
                    let j = choose|j: int|
                        0 <= j < seen.len() && (#[trigger] seen[j]).holds(a.anchor());
                    assert(seen[j] == ranges@[j]);
                    lemma_apart(ranges@[j], range, a.anchor(), b.anchor());
                    if b.rank() <= a.rank() {
                        K::lemma_anchor_order(b, a);
                    }
                } else if m >= before.len() {
                    assert(listed@[k] == keys@[from + k - before.len()]);
                    assert(listed@[m] == keys@[from + m - before.len()]);
                }
            }
            let seen = ranges@.take(i as int);
            let more = ranges@.take(i + 1);
            assert forall|key: K| #[trigger] listed@.contains(key) <==> keys@.contains(key)
                && some_holds(more, key.anchor()) by {
                let a = key.anchor();
                if before.contains(key) {
                    assert(listed@[before.index_of(key)] == key);
                    let j = choose|j: int| 0 <= j < seen.len() && (#[trigger] seen[j]).holds(a);
                    assert(more[j] == seen[j]);
                }
                if fresh.contains(key) {
                    assert(listed@[before.len() + fresh.index_of(key)] == key);
                    assert(more[i as int] == range);
                }
                if listed@.contains(key) {
                    let k = listed@.index_of(key);
                    if k < before.len() {
                        assert(before[k] == key);
                    } else {
                        assert(fresh[k - before.len()] == key);
                    }
                }
                if keys@.contains(key) && some_holds(more, a) {
                    let j = choose|j: int| 0 <= j < more.len() && (#[trigger] more[j]).holds(a);
                    if j < i {
                        assert(seen[j] == more[j]);
                        assert(some_holds(seen, a));
                    } else {
                        assert(fresh.contains(key));
                    }
                }
            }
        }
        i = i + 1;
    }
    assert(ranges@.take(i as int) =~= ranges@);
    listed
}

/// A range holds the addresses between its ends.
proof fn lemma_between(range: AddressRange, address: Address)
    ensures
        range.start.0 <= range.end.0 ==> (range.holds(address) <==> (Address {
            space: range.space,
            address: range.start,
        }).rank() <= address.rank() && address.rank() <= (Address {
            space: range.space,
            address: range.end,
        }).rank()),
{
}

/// Addresses of an earlier run come before those of a later one.
proof fn lemma_apart(earlier: AddressRange, later: AddressRange, a: Address, b: Address)
    requires
        earlier.holds(a),
        later.holds(b),
        earlier.space.0 < later.space.0 || (earlier.space == later.space && earlier.end.0 + 1
            < later.start.0),
    ensures
        a.rank() < b.rank(),
{
}

} // verus!
