//! Ordered collections over keys whose order is an integer rank.
use vstd::prelude::*;

verus! {

/// A key type with a total order. The order is the order of the keys' ranks, and a rank
/// belongs to one key only.
pub trait Ranked: Sized {
    /// The place of the key in the order.
    spec fn rank(self) -> int;

    /// Keys of the same rank are the same key.
    proof fn lemma_rank_injective(a: Self, b: Self)
        requires
            a.rank() == b.rank(),
        ensures
            a == b,
    ;

    /// Whether this key comes strictly before `other`.
    fn precedes(&self, other: &Self) -> (before: bool)
        ensures
            before == (self.rank() < other.rank()),
    ;
}

/// Whether the keys stand in strictly ascending order.
pub open spec fn ascending<K: Ranked + Copy>(keys: Seq<K>) -> bool {
    forall|i: int, j: int|
        0 <= i < j < keys.len() ==> (#[trigger] keys[i]).rank() < (#[trigger] keys[j]).rank()
}

/// An ascending sequence holds each of its keys once.
pub proof fn lemma_ascending_unique<K: Ranked + Copy>(keys: Seq<K>, i: int, j: int)
    requires
        ascending(keys),
        0 <= i < keys.len(),
        0 <= j < keys.len(),
        keys[i].rank() == keys[j].rank(),
    ensures
        i == j,
{
}

/// Two ascending sequences that hold the same keys are the same sequence.
pub proof fn lemma_ascending_determined<K: Ranked + Copy>(a: Seq<K>, b: Seq<K>)
    requires
        ascending(a),
        ascending(b),
        forall|k: K| a.contains(k) <==> b.contains(k),
    ensures
        a == b,
    decreases a.len(),
{
    if a.len() == 0 {
        if b.len() > 0 {
            assert(b.contains(b[0]));
            assert(a.contains(b[0]));
        }
        assert(a =~= b);
    } else {
        assert(a.contains(a.last()));
        assert(b.contains(a.last()));
        let i = b.index_of(a.last());
        assert(b.contains(b.last()));
        assert(a.contains(b.last()));
        let j = a.index_of(b.last());
        assert(a[j].rank() <= a.last().rank());
        assert(b[i].rank() <= b.last().rank());
        K::lemma_rank_injective(a.last(), b.last());
        let a1 = a.drop_last();
        let b1 = b.drop_last();
        assert forall|k: K| a1.contains(k) <==> b1.contains(k) by {
            if a1.contains(k) {
                let x = a1.index_of(k);
                assert(a[x] == k);
                assert(a.contains(k));
                let y = b.index_of(k);
                assert(b[y] == k);
                assert(a[x].rank() < a.last().rank());
                assert(y < b.len() - 1);
                assert(b1[y] == k);
            }
            if b1.contains(k) {
                let x = b1.index_of(k);
                assert(b[x] == k);
                assert(b.contains(k));
                let y = a.index_of(k);
                assert(a[y] == k);
                assert(b[x].rank() < b.last().rank());
                assert(y < a.len() - 1);
                assert(a1[y] == k);
            }
        }
        lemma_ascending_determined(a1, b1);
        assert(a =~= a1.push(a.last()));
        assert(b =~= b1.push(b.last()));
    }
}

/// The first place in `keys` that holds no key before `key`: everything ahead of it comes
/// before `key`, nothing from it on does.
pub open spec fn is_lower_bound<K: Ranked + Copy>(keys: Seq<K>, key: K, at: int) -> bool {
    &&& 0 <= at <= keys.len()
    &&& forall|i: int| 0 <= i < at ==> (#[trigger] keys[i]).rank() < key.rank()
    &&& forall|i: int| at <= i < keys.len() ==> key.rank() <= (#[trigger] keys[i]).rank()
}

/// The first place in `keys` that holds a key after `key`.
pub open spec fn is_upper_bound<K: Ranked + Copy>(keys: Seq<K>, key: K, at: int) -> bool {
    &&& 0 <= at <= keys.len()
    &&& forall|i: int| 0 <= i < at ==> (#[trigger] keys[i]).rank() <= key.rank()
    &&& forall|i: int| at <= i < keys.len() ==> key.rank() < (#[trigger] keys[i]).rank()
}

/// Finds the lower bound of `key` in keys in non-descending order.
pub fn lower_bound<K: Ranked + Copy>(keys: &[K], key: &K) -> (at: usize)
    requires
        forall|i: int, j: int|
            0 <= i < j < keys@.len() ==> (#[trigger] keys@[i]).rank() <= (#[trigger]
            keys@[j]).rank(),
    ensures
        is_lower_bound(keys@, *key, at as int),
{
    let mut low: usize = 0;
    let mut high: usize = keys.len();
    while low < high
        invariant
            low <= high <= keys@.len(),
            forall|i: int, j: int|
                0 <= i < j < keys@.len() ==> (#[trigger] keys@[i]).rank() <= (#[trigger]
                keys@[j]).rank(),
            forall|i: int| 0 <= i < low ==> (#[trigger] keys@[i]).rank() < key.rank(),
            forall|i: int| high <= i < keys@.len() ==> key.rank() <= (#[trigger] keys@[i]).rank(),
        decreases high - low,
    {
        let middle: usize = low + (high - low) / 2;
        if keys[middle].precedes(key) {
            low = middle + 1;
        } else {
            high = middle;
        }
    }
    low
}

/// Finds the upper bound of `key` in keys in non-descending order.
pub fn upper_bound<K: Ranked + Copy>(keys: &[K], key: &K) -> (at: usize)
    requires
        forall|i: int, j: int|
            0 <= i < j < keys@.len() ==> (#[trigger] keys@[i]).rank() <= (#[trigger]
            keys@[j]).rank(),
    ensures
        is_upper_bound(keys@, *key, at as int),
{
    let mut low: usize = 0;
    let mut high: usize = keys.len();
    while low < high
        invariant
            low <= high <= keys@.len(),
            forall|i: int, j: int|
                0 <= i < j < keys@.len() ==> (#[trigger] keys@[i]).rank() <= (#[trigger]
                keys@[j]).rank(),
            forall|i: int| 0 <= i < low ==> (#[trigger] keys@[i]).rank() <= key.rank(),
            forall|i: int| high <= i < keys@.len() ==> key.rank() < (#[trigger] keys@[i]).rank(),
        decreases high - low,
    {
        let middle: usize = low + (high - low) / 2;
        if key.precedes(&keys[middle]) {
            high = middle;
        } else {
            low = middle + 1;
        }
    }
    low
}

/// Whether two keys are the same key.
pub fn same_key<K: Ranked + Copy>(a: &K, b: &K) -> (same: bool)
    ensures
        same == (*a == *b),
{
    let same: bool = !a.precedes(b) && !b.precedes(a);
    proof {
        if same {
            K::lemma_rank_injective(*a, *b);
        }
    }
    same
}

/// Whether ascending keys hold `key`.
pub fn holds_key<K: Ranked + Copy>(keys: &[K], key: &K) -> (found: bool)
    requires
        ascending(keys@),
    ensures
        found == keys@.contains(*key),
{
    let at: usize = lower_bound(keys, key);
    let found: bool = at < keys.len() && !key.precedes(&keys[at]);
    proof {
        if found {
            K::lemma_rank_injective(*key, keys@[at as int]);
        } else if keys@.contains(*key) {
            let j = keys@.index_of(*key);
            if at < keys@.len() {
                assert(keys@[at as int].rank() <= keys@[j].rank());
            }
        }
    }
    found
}

/// Whether two lists of keys are the same.
pub fn same_keys<K: Ranked + Copy>(a: &Vec<K>, b: &Vec<K>) -> (same: bool)
    ensures
        same == (a@ == b@),
{
    if a.len() != b.len() {
        return false;
    }
    let mut i: usize = 0;
    while i < a.len()
        invariant
            i <= a@.len(),
            a@.len() == b@.len(),
            forall|j: int| 0 <= j < i ==> a@[j] == b@[j],
        decreases a@.len() - i,
    {
        if !same_key(&a[i], &b[i]) {
            return false;
        }
        i = i + 1;
    }
    assert(a@ =~= b@);
    true
}

/// Whether `sorted` lists the keys of `keys` in ascending order, each once.
pub open spec fn sorts<K: Ranked + Copy>(sorted: Seq<K>, keys: Seq<K>) -> bool {
    &&& ascending(sorted)
    &&& forall|k: K| #[trigger] sorted.contains(k) <==> keys.contains(k)
}

/// There is one way to list keys in ascending order.
pub proof fn law_sorting_determined<K: Ranked + Copy>(a: Seq<K>, b: Seq<K>, keys: Seq<K>)
    requires
        sorts(a, keys),
        sorts(b, keys),
    ensures
        a == b,
{
    lemma_ascending_determined(a, b);
}

/// Puts keys in ascending order and leaves out repetitions.
pub fn sort_keys<K: Ranked + Copy>(keys: &Vec<K>) -> (sorted: Vec<K>)
    ensures
        sorts(sorted@, keys@),
{
    let mut set: SortedSet<K> = SortedSet::new();
    let mut i: usize = 0;
    while i < keys.len()
        invariant
            i <= keys@.len(),
            set.wf(),
            forall|k: K| #[trigger] set@.contains(k) <==> keys@.take(i as int).contains(k),
        decreases keys@.len() - i,
    {
        let ghost before = set@;
        set.insert(keys[i]);
        proof {
            assert forall|k: K| #[trigger] set@.contains(k) <==> keys@.take(i + 1).contains(k) by {
                if before.contains(k) {
                    let j = keys@.take(i as int).index_of(k);
                    assert(keys@.take(i + 1)[j] == k);
                }
                if k == keys@[i as int] {
                    assert(keys@.take(i + 1)[i as int] == k);
                }
                if keys@.take(i + 1).contains(k) {
                    let j = keys@.take(i + 1).index_of(k);
                    if j < i {
                        assert(keys@.take(i as int)[j] == k);
                    }
                }
            }
        }
        i = i + 1;
    }
    proof {
        assert(keys@.take(i as int) =~= keys@);
        assert forall|k: K| #[trigger] set.items@.contains(k) <==> keys@.contains(k) by {
            assert(set@.contains(k) <==> keys@.contains(k));
        }
    }
    set.items
}

/// An end of a span of keys.
#[derive(Debug, Clone, Copy)]
pub enum KeyBound<K> {
    Included(K),
    Excluded(K),
    Unbounded,
}

/// Whether a key lies behind the lower end of a span.
pub open spec fn not_below<K: Ranked + Copy>(start: KeyBound<K>, key: K) -> bool {
    match start {
        KeyBound::Included(first) => first.rank() <= key.rank(),
        KeyBound::Excluded(last) => last.rank() < key.rank(),
        KeyBound::Unbounded => true,
    }
}

/// Whether a key lies before the upper end of a span.
pub open spec fn not_above<K: Ranked + Copy>(end: KeyBound<K>, key: K) -> bool {
    match end {
        KeyBound::Included(last) => key.rank() <= last.rank(),
        KeyBound::Excluded(first) => key.rank() < first.rank(),
        KeyBound::Unbounded => true,
    }
}

/// Whether a key lies in a span.
pub open spec fn lies_between<K: Ranked + Copy>(
    start: KeyBound<K>,
    end: KeyBound<K>,
    key: K,
) -> bool {
    not_below(start, key) && not_above(end, key)
}

/// Whether the ends of a span stand in their order. Ends that meet must not both be left out.
pub open spec fn bounds_ordered<K: Ranked + Copy>(start: KeyBound<K>, end: KeyBound<K>) -> bool {
    match (start, end) {
        (KeyBound::Included(a), KeyBound::Included(b)) => a.rank() <= b.rank(),
        (KeyBound::Included(a), KeyBound::Excluded(b)) => a.rank() <= b.rank(),
        (KeyBound::Excluded(a), KeyBound::Included(b)) => a.rank() <= b.rank(),
        (KeyBound::Excluded(a), KeyBound::Excluded(b)) => a.rank() < b.rank(),
        _ => true,
    }
}

/// Whether a sequence gives the keys of a set that lie in a span, in ascending order.
pub open spec fn spans_keys<K: Ranked + Copy>(
    listed: Seq<K>,
    keys: Set<K>,
    start: KeyBound<K>,
    end: KeyBound<K>,
) -> bool {
    &&& ascending(listed)
    &&& forall|key: K| #[trigger]
        listed.contains(key) <==> keys.contains(key) && lies_between(start, end, key)
}

/// The lower end of what comes after a cursor: of everything where there is none.
pub fn cursor_bound<K: Ranked + Copy>(after: Option<K>) -> (start: KeyBound<K>)
    ensures
        start == match after {
            Some(key) => KeyBound::Excluded(key),
            None => KeyBound::Unbounded,
        },
{
    match after {
        Some(key) => KeyBound::Excluded(key),
        None => KeyBound::Unbounded,
    }
}

/// The lower end of what comes after a cursor: of everything from `minimum` on where there is
/// none.
pub fn cursor_bound_or_minimum<K: Ranked + Copy>(after: Option<K>, minimum: K) -> (start: KeyBound<K>)
    ensures
        start == match after {
            Some(key) => KeyBound::Excluded(key),
            None => KeyBound::Included(minimum),
        },
{
    match after {
        Some(key) => KeyBound::Excluded(key),
        None => KeyBound::Included(minimum),
    }
}

/// Taken in pages behind a cursor, keys come as they come all at once: the keys behind a key
/// that was listed are those that follow it in the list.
pub proof fn law_cursor_resumes<K: Ranked + Copy>(
    all: Seq<K>,
    rest: Seq<K>,
    keys: Set<K>,
    start: KeyBound<K>,
    end: KeyBound<K>,
    seen: int,
)
    requires
        spans_keys(all, keys, start, end),
        0 <= seen < all.len(),
        spans_keys(rest, keys, KeyBound::Excluded(all[seen]), end),
    ensures
        rest == all.skip(seen + 1),
{
    let tail = all.skip(seen + 1);
    assert forall|i: int, j: int| 0 <= i < j < tail.len() implies (#[trigger] tail[i]).rank()
        < (#[trigger] tail[j]).rank() by {
        assert(tail[i] == all[i + seen + 1]);
        assert(tail[j] == all[j + seen + 1]);
    }
    assert forall|key: K| rest.contains(key) <==> tail.contains(key) by {
        assert(all.contains(all[seen]));
        if rest.contains(key) {
            assert(keys.contains(key));
            assert(all.contains(key));
            let i = all.index_of(key);
            assert(seen < i) by {
                if i < seen {
                    assert(all[i].rank() < all[seen].rank());
                }
            }
            assert(tail[i - seen - 1] == key);
        }
        if tail.contains(key) {
            let i = tail.index_of(key);
            assert(tail[i] == all[i + seen + 1]);
            assert(all.contains(key));
            assert(all[seen].rank() < all[i + seen + 1].rank());
        }
    }
    lemma_ascending_determined(rest, tail);
}

/// The first of ascending keys that lies behind the lower end of a span.
pub fn span_start<K: Ranked + Copy>(keys: &[K], start: KeyBound<K>) -> (at: usize)
    requires
        ascending(keys@),
    ensures
        at <= keys@.len(),
        forall|i: int| 0 <= i < at ==> !not_below(start, #[trigger] keys@[i]),
        forall|i: int| at <= i < keys@.len() ==> not_below(start, #[trigger] keys@[i]),
{
    match start {
        KeyBound::Included(first) => lower_bound(keys, &first),
        KeyBound::Excluded(last) => upper_bound(keys, &last),
        KeyBound::Unbounded => 0,
    }
}

/// The first of ascending keys that does not lie before the upper end of a span.
pub fn span_end<K: Ranked + Copy>(keys: &[K], end: KeyBound<K>) -> (at: usize)
    requires
        ascending(keys@),
    ensures
        at <= keys@.len(),
        forall|i: int| 0 <= i < at ==> not_above(end, #[trigger] keys@[i]),
        forall|i: int| at <= i < keys@.len() ==> !not_above(end, #[trigger] keys@[i]),
{
    match end {
        KeyBound::Included(last) => upper_bound(keys, &last),
        KeyBound::Excluded(first) => lower_bound(keys, &first),
        KeyBound::Unbounded => keys.len(),
    }
}

/// The keys of an ascending sequence that lie in a span.
pub fn keys_between<K: Ranked + Copy>(keys: &Vec<K>, start: KeyBound<K>, end: KeyBound<K>) -> (listed: Vec<K>)
    requires
        ascending(keys@),
    ensures
        spans_keys(listed@, keys@.to_set(), start, end),
{
    let mut at: usize = span_start(keys.as_slice(), start);
    let stop: usize = span_end(keys.as_slice(), end);
    let ghost from = at as int;
    let mut listed: Vec<K> = Vec::new();
    while at < stop
        invariant
            stop <= keys@.len(),
            0 <= from <= at,
            at <= stop || at == from,
            listed@ == keys@.subrange(from, at as int),
            at <= keys@.len(),
        decreases stop - at,
    {
        listed.push(keys[at]);
        at = at + 1;
        assert(listed@ =~= keys@.subrange(from, at as int));
    }
    proof {
        assert forall|key: K| #[trigger]
            listed@.contains(key) <==> keys@.to_set().contains(key) && lies_between(
                start,
                end,
                key,
            ) by {
            if listed@.contains(key) {
                let i = listed@.index_of(key);
                assert(listed@[i] == keys@[from + i]);
                assert(keys@.contains(key));
            }
            if keys@.contains(key) && lies_between(start, end, key) {
                let i = keys@.index_of(key);
                assert(listed@[i - from] == key);
            }
        }
    }
    listed
}

/// The keys of an ascending sequence that another one does not hold.
pub fn keys_missing<K: Ranked + Copy>(keys: &Vec<K>, other: &Vec<K>) -> (missing: Vec<K>)
    requires
        ascending(keys@),
        ascending(other@),
    ensures
        ascending(missing@),
        forall|key: K| #[trigger]
            missing@.contains(key) <==> keys@.contains(key) && !other@.contains(key),
{
    let mut missing: Vec<K> = Vec::new();
    let mut i: usize = 0;
    while i < keys.len()
        invariant
            i <= keys@.len(),
            ascending(keys@),
            ascending(other@),
            ascending(missing@),
            forall|j: int, k: int|
                0 <= j < missing@.len() && i <= k < keys@.len() ==> (#[trigger] missing@[j]).rank()
                    < (#[trigger] keys@[k]).rank(),
            forall|key: K| #[trigger]
                missing@.contains(key) <==> keys@.take(i as int).contains(key) && !other@.contains(
                    key,
                ),
        decreases keys@.len() - i,
    {
        let ghost before = missing@;
        let ghost seen = keys@.take(i as int);
        let key: K = keys[i];
        if !holds_key(other.as_slice(), &key) {
            missing.push(key);
        }
        proof {
            assert(keys@.take(i + 1) =~= seen.push(key));
            assert forall|k: K| #[trigger]
                missing@.contains(k) <==> keys@.take(i + 1).contains(k) && !other@.contains(k) by {
                assert(seen.push(key).contains(k) <==> seen.contains(k) || k == key) by {
                    if seen.contains(k) {
                        assert(seen.push(key)[seen.index_of(k)] == k);
                    }
                    assert(seen.push(key)[seen.len() as int] == key);
                }
                if before.contains(k) {
                    assert(missing@[before.index_of(k)] == k);
                }
                if missing@ == before.push(key) {
                    assert(missing@[before.len() as int] == key);
                    if missing@.contains(k) && k != key {
                        assert(before[missing@.index_of(k)] == k);
                    }
                }
            }
        }
        i = i + 1;
    }
    assert(keys@.take(i as int) =~= keys@);
    missing
}

/// A map whose keys are kept in ascending order.
pub struct SortedMap<K, V> {
    pub keys: Vec<K>,
    pub values: Vec<V>,
}

impl<K: Ranked + Copy, V> View for SortedMap<K, V> {
    type V = Map<K, V>;

    open spec fn view(&self) -> Map<K, V> {
        Map::new(
            |k: K| self.keys@.contains(k),
            |k: K| self.values@[self.keys@.index_of(k)],
        )
    }
}

impl<K: Ranked + Copy, V> SortedMap<K, V> {
    /// Every key has one value, and the keys ascend.
    pub open spec fn wf(&self) -> bool {
        &&& self.keys@.len() == self.values@.len()
        &&& ascending(self.keys@)
    }

    /// The entry at each place is the map's entry for the key there.
    pub proof fn lemma_entry(&self, i: int)
        requires
            self.wf(),
            0 <= i < self.keys@.len(),
        ensures
            self@.dom().contains(self.keys@[i]),
            self@[self.keys@[i]] == self.values@[i],
    {
        let k = self.keys@[i];
        assert(self.keys@.contains(k));
        let j = self.keys@.index_of(k);
        assert(self.keys@[j] == k);
        lemma_ascending_unique(self.keys@, i, j);
    }

    /// Every key of the map stands at some place.
    pub proof fn lemma_place(&self, k: K) -> (i: int)
        requires
            self.wf(),
            self@.dom().contains(k),
        ensures
            0 <= i < self.keys@.len(),
            self.keys@[i] == k,
            self.values@[i] == self@[k],
    {
        let i = self.keys@.index_of(k);
        assert(self.keys@.contains(k));
        i
    }

    /// The map has as many keys as it has places.
    pub proof fn lemma_len(&self)
        requires
            self.wf(),
        ensures
            self@.dom().finite(),
            self@.dom().len() == self.keys@.len(),
    {
        assert(self.keys@.no_duplicates()) by {
            assert forall|i: int, j: int|
                0 <= i < self.keys@.len() && 0 <= j < self.keys@.len() && i != j implies self.keys@[i]
                != self.keys@[j] by {
                if i < j {
                    assert(self.keys@[i].rank() < self.keys@[j].rank());
                } else {
                    assert(self.keys@[j].rank() < self.keys@[i].rank());
                }
            }
        }
        self.keys@.unique_seq_to_set();
        assert(self@.dom() =~= self.keys@.to_set());
    }

    pub fn new() -> (map: Self)
        ensures
            map.wf(),
            map@ == Map::<K, V>::empty(),
    {
        let map = SortedMap { keys: Vec::new(), values: Vec::new() };
        assert(map@ =~= Map::<K, V>::empty());
        map
    }

    pub fn len(&self) -> (len: usize)
        requires
            self.wf(),
        ensures
            self@.dom().finite(),
            len == self@.dom().len(),
            len == self.keys@.len(),
    {
        proof {
            self.lemma_len();
        }
        self.keys.len()
    }

    pub fn is_empty(&self) -> (empty: bool)
        requires
            self.wf(),
        ensures
            empty == (self@ == Map::<K, V>::empty()),
            empty == (self.keys@.len() == 0),
    {
        let empty: bool = self.keys.len() == 0;
        proof {
            if empty {
                assert(self@ =~= Map::<K, V>::empty());
            } else {
                assert(self.keys@.contains(self.keys@[0]));
                assert(self@.dom().contains(self.keys@[0]));
            }
        }
        empty
    }

    /// The place of `key`, if the map has it.
    pub fn place(&self, key: &K) -> (found: Option<usize>)
        requires
            self.wf(),
        ensures
            found is Some == self@.dom().contains(*key),
            found matches Some(i) ==> i < self.keys@.len() && self.keys@[i as int] == *key
                && self.values@[i as int] == self@[*key],
    {
        let i: usize = lower_bound(self.keys.as_slice(), key);
        if i < self.keys.len() && !key.precedes(&self.keys[i]) {
            proof {
                K::lemma_rank_injective(*key, self.keys@[i as int]);
                self.lemma_entry(i as int);
            }
            return Some(i);
        }
        proof {
            if self@.dom().contains(*key) {
                let j = self.lemma_place(*key);
                assert(j < i || j >= i);
                if j > i {
                    assert(self.keys@[i as int].rank() < self.keys@[j].rank());
                }
                assert(false);
            }
        }
        None
    }

    pub fn contains_key(&self, key: &K) -> (found: bool)
        requires
            self.wf(),
        ensures
            found == self@.dom().contains(*key),
    {
        self.place(key).is_some()
    }

    pub fn get(&self, key: &K) -> (value: Option<&V>)
        requires
            self.wf(),
        ensures
            value is Some == self@.dom().contains(*key),
            value matches Some(v) ==> *v == self@[*key],
    {
        match self.place(key) {
            Some(i) => Some(&self.values[i]),
            None => None,
        }
    }

    /// Binds `key` to `value` and gives back the value that it was bound to before.
    pub fn insert(&mut self, key: K, value: V) -> (previous: Option<V>)
        requires
            old(self).wf(),
        ensures
            final(self).wf(),
            final(self)@ == old(self)@.insert(key, value),
            previous is Some == old(self)@.dom().contains(key),
            previous matches Some(v) ==> v == old(self)@[key],
    {
        let ghost before = *self;
        match self.place(&key) {
            Some(i) => {
                let previous: V = self.values.remove(i);
                self.values.insert(i, value);
                proof {
                    assert(self.values@ =~= before.values@.update(i as int, value));
                    assert(self.keys@ == before.keys@);
                    assert(self@ =~= before@.insert(key, value)) by {
                        assert forall|k: K| self@.dom().contains(k) implies self@[k] == before@.insert(
                            key,
                            value,
                        )[k] by {
                            let j = self.lemma_place(k);
                            before.lemma_entry(j);
                            if j == i {
                            } else {
                                if k == key {
                                    lemma_ascending_unique(before.keys@, i as int, j);
                                }
                            }
                        }
                    }
                }
                Some(previous)
            },
            None => {
                let i: usize = lower_bound(self.keys.as_slice(), &key);
                self.keys.insert(i, key);
                self.values.insert(i, value);
                proof {
                    assert(ascending(self.keys@)) by {
                        assert forall|a: int, b: int| 0 <= a < b < self.keys@.len() implies (
                        #[trigger] self.keys@[a]).rank() < (#[trigger] self.keys@[b]).rank() by {
                            if i < before.keys@.len() && before.keys@[i as int].rank()
                                == key.rank() {
                                K::lemma_rank_injective(before.keys@[i as int], key);
                                before.lemma_entry(i as int);
                            }
                            if a == i && b > i {
                                if b - 1 > i {
                                    assert(before.keys@[i as int].rank() < before.keys@[b
                                        - 1].rank());
                                }
                            }
                        }
                    }
                    assert(self@ =~= before@.insert(key, value)) by {
                        self.lemma_entry(i as int);
                        assert forall|k: K| self@.dom().contains(k) <==> before@.insert(
                            key,
                            value,
                        ).dom().contains(k) by {
                            if self@.dom().contains(k) {
                                let j = self.lemma_place(k);
                                if j < i {
                                    before.lemma_entry(j);
                                } else if j > i {
                                    before.lemma_entry(j - 1);
                                }
                            }
                            if before@.dom().contains(k) {
                                let j = before.lemma_place(k);
                                if j < i {
                                    self.lemma_entry(j);
                                } else {
                                    self.lemma_entry(j + 1);
                                }
                            }
                        }
                        assert forall|k: K| self@.dom().contains(k) implies self@[k] == before@.insert(
                            key,
                            value,
                        )[k] by {
                            let j = self.lemma_place(k);
                            if j < i {
                                before.lemma_entry(j);
                            } else if j > i {
                                before.lemma_entry(j - 1);
                            }
                            if k == key {
                                lemma_ascending_unique(self.keys@, i as int, j);
                            }
                        }
                    }
                }
                None
            },
        }
    }

    /// Unbinds `key` and gives back the value that it was bound to.
    pub fn remove(&mut self, key: &K) -> (previous: Option<V>)
        requires
            old(self).wf(),
        ensures
            final(self).wf(),
            final(self)@ == old(self)@.remove(*key),
            previous is Some == old(self)@.dom().contains(*key),
            previous matches Some(v) ==> v == old(self)@[*key],
    {
        let ghost before = *self;
        match self.place(key) {
            Some(i) => {
                let removed: K = self.keys.remove(i);
                let previous: V = self.values.remove(i);
                proof {
                    assert(self@ =~= before@.remove(*key)) by {
                        assert forall|k: K| self@.dom().contains(k) <==> before@.remove(
                            *key,
                        ).dom().contains(k) by {
                            if self@.dom().contains(k) {
                                let j = self.lemma_place(k);
                                if j < i {
                                    before.lemma_entry(j);
                                    if k == *key {
                                        lemma_ascending_unique(before.keys@, i as int, j);
                                    }
                                } else {
                                    before.lemma_entry(j + 1);
                                    if k == *key {
                                        lemma_ascending_unique(before.keys@, i as int, j + 1);
                                    }
                                }
                            }
                            if before@.remove(*key).dom().contains(k) {
                                let j = before.lemma_place(k);
                                if j < i {
                                    self.lemma_entry(j);
                                } else {
                                    assert(j != i);
                                    self.lemma_entry(j - 1);
                                }
                            }
                        }
                        assert forall|k: K| self@.dom().contains(k) implies self@[k]
                            == before@.remove(*key)[k] by {
                            let j = self.lemma_place(k);
                            if j < i {
                                before.lemma_entry(j);
                            } else {
                                before.lemma_entry(j + 1);
                            }
                        }
                    }
                }
                Some(previous)
            },
            None => {
                proof {
                    assert(self@ =~= before@.remove(*key));
                }
                None
            },
        }
    }

    pub fn clear(&mut self)
        ensures
            final(self).wf(),
            final(self)@ == Map::<K, V>::empty(),
    {
        self.keys.clear();
        self.values.clear();
        assert(self@ =~= Map::<K, V>::empty());
    }
}

/// A set whose elements are kept in ascending order.
pub struct SortedSet<K> {
    pub items: Vec<K>,
}

impl<K: Ranked + Copy> View for SortedSet<K> {
    type V = Set<K>;

    open spec fn view(&self) -> Set<K> {
        Set::new(|k: K| self.items@.contains(k))
    }
}

impl<K: Ranked + Copy> SortedSet<K> {
    /// The elements ascend.
    pub open spec fn wf(&self) -> bool {
        ascending(self.items@)
    }

    /// The set has as many elements as it has places.
    pub proof fn lemma_len(&self)
        requires
            self.wf(),
        ensures
            self@.finite(),
            self@.len() == self.items@.len(),
    {
        assert(self.items@.no_duplicates()) by {
            assert forall|i: int, j: int|
                0 <= i < self.items@.len() && 0 <= j < self.items@.len() && i
                    != j implies self.items@[i] != self.items@[j] by {
                if i < j {
                    assert(self.items@[i].rank() < self.items@[j].rank());
                } else {
                    assert(self.items@[j].rank() < self.items@[i].rank());
                }
            }
        }
        self.items@.unique_seq_to_set();
        assert(self@ =~= self.items@.to_set());
    }

    pub fn new() -> (set: Self)
        ensures
            set.wf(),
            set@ == Set::<K>::empty(),
    {
        let set = SortedSet { items: Vec::new() };
        assert(set@ =~= Set::<K>::empty());
        set
    }

    pub fn len(&self) -> (len: usize)
        requires
            self.wf(),
        ensures
            self@.finite(),
            len == self@.len(),
            len == self.items@.len(),
    {
        proof {
            self.lemma_len();
        }
        self.items.len()
    }

    pub fn is_empty(&self) -> (empty: bool)
        requires
            self.wf(),
        ensures
            empty == (self@ == Set::<K>::empty()),
            empty == (self.items@.len() == 0),
    {
        let empty: bool = self.items.len() == 0;
        proof {
            if empty {
                assert(self@ =~= Set::<K>::empty());
            } else {
                assert(self.items@.contains(self.items@[0]));
                assert(self@.contains(self.items@[0]));
            }
        }
        empty
    }

    /// The place of `key`, if the set has it.
    pub fn place(&self, key: &K) -> (found: Option<usize>)
        requires
            self.wf(),
        ensures
            found is Some == self@.contains(*key),
            found matches Some(i) ==> i < self.items@.len() && self.items@[i as int] == *key,
    {
        let i: usize = lower_bound(self.items.as_slice(), key);
        if i < self.items.len() && !key.precedes(&self.items[i]) {
            proof {
                K::lemma_rank_injective(*key, self.items@[i as int]);
                assert(self.items@.contains(*key));
            }
            return Some(i);
        }
        proof {
            if self@.contains(*key) {
                let j = self.items@.index_of(*key);
                assert(self.items@[j] == *key);
                if j > i {
                    assert(self.items@[i as int].rank() < self.items@[j].rank());
                }
                assert(false);
            }
        }
        None
    }

    pub fn contains(&self, key: &K) -> (found: bool)
        requires
            self.wf(),
        ensures
            found == self@.contains(*key),
    {
        self.place(key).is_some()
    }

    /// Adds `key` and says whether it was new.
    pub fn insert(&mut self, key: K) -> (added: bool)
        requires
            old(self).wf(),
        ensures
            final(self).wf(),
            final(self)@ == old(self)@.insert(key),
            added == !old(self)@.contains(key),
    {
        let ghost before = *self;
        if self.contains(&key) {
            assert(self@ =~= before@.insert(key));
            return false;
        }
        let i: usize = lower_bound(self.items.as_slice(), &key);
        self.items.insert(i, key);
        proof {
            if i < before.items@.len() && before.items@[i as int].rank() == key.rank() {
                K::lemma_rank_injective(before.items@[i as int], key);
                assert(before.items@.contains(key));
            }
            assert(ascending(self.items@)) by {
                assert forall|a: int, b: int| 0 <= a < b < self.items@.len() implies (#[trigger]
                self.items@[a]).rank() < (#[trigger] self.items@[b]).rank() by {
                    if a == i && b - 1 > i {
                        assert(before.items@[i as int].rank() < before.items@[b - 1].rank());
                    }
                }
            }
            assert forall|k: K| self@.contains(k) <==> before@.insert(key).contains(k) by {
                if self.items@.contains(k) {
                    let j = self.items@.index_of(k);
                    if j < i {
                        assert(before.items@[j] == k);
                    } else if j > i {
                        assert(before.items@[j - 1] == k);
                    }
                }
                if before.items@.contains(k) {
                    let j = before.items@.index_of(k);
                    if j < i {
                        assert(self.items@[j] == k);
                    } else {
                        assert(self.items@[j + 1] == k);
                    }
                }
                assert(self.items@[i as int] == key);
            }
            assert(self@ =~= before@.insert(key));
        }
        true
    }

    /// Takes `key` out and says whether it was there.
    pub fn remove(&mut self, key: &K) -> (removed: bool)
        requires
            old(self).wf(),
        ensures
            final(self).wf(),
            final(self)@ == old(self)@.remove(*key),
            removed == old(self)@.contains(*key),
    {
        let ghost before = *self;
        match self.place(key) {
            Some(i) => {
                let taken: K = self.items.remove(i);
                proof {
                    assert forall|k: K| self@.contains(k) <==> before@.remove(*key).contains(k) by {
                        if self.items@.contains(k) {
                            let j = self.items@.index_of(k);
                            if j < i {
                                assert(before.items@[j] == k);
                                assert(before.items@[j].rank() < before.items@[i as int].rank());
                            } else {
                                assert(before.items@[j + 1] == k);
                                assert(before.items@[i as int].rank() < before.items@[j
                                    + 1].rank());
                            }
                        }
                        if before.items@.contains(k) && k != *key {
                            let j = before.items@.index_of(k);
                            if j < i {
                                assert(self.items@[j] == k);
                            } else {
                                assert(self.items@[j - 1] == k);
                            }
                        }
                    }
                    assert(self@ =~= before@.remove(*key));
                }
                true
            },
            None => {
                assert(self@ =~= before@.remove(*key));
                false
            },
        }
    }

    pub fn clear(&mut self)
        ensures
            final(self).wf(),
            final(self)@ == Set::<K>::empty(),
    {
        self.items.clear();
        assert(self@ =~= Set::<K>::empty());
    }

    pub fn duplicate(&self) -> (copy: Self)
        requires
            self.wf(),
        ensures
            copy.wf(),
            copy.items@ == self.items@,
            copy@ == self@,
    {
        let mut items: Vec<K> = Vec::new();
        let mut i: usize = 0;
        while i < self.items.len()
            invariant
                i <= self.items@.len(),
                items@ == self.items@.take(i as int),
            decreases self.items@.len() - i,
        {
            items.push(self.items[i]);
            i = i + 1;
            assert(items@ =~= self.items@.take(i as int));
        }
        assert(items@ =~= self.items@);
        let copy = SortedSet { items };
        assert(copy@ =~= self@);
        copy
    }
}

} // verus!
