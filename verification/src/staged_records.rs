//! Records that wait under the identities of the entries they are for.
use vstd::prelude::*;

use crate::fx::{
    map_get, map_insert, map_into_entries, map_keys, map_len, map_new, map_remove, FxMap,
};
use crate::id::{id_of_rank, slots, Id};
use crate::order::Ranked;

verus! {

/// Records by identity. As long as the identities follow one another the records stand in a
/// list.
pub enum StagedEntityRecords<T, V> {
    Empty,
    Ordered { first: Id<T>, entries: Vec<(Id<T>, V)> },
    Sparse(FxMap<V>),
}

/// The place of an identity in a list that begins with another.
pub open spec fn offset_in<T>(first: Id<T>, id: Id<T>) -> Option<int> {
    if first.generation == id.generation && id.id >= first.id {
        Some(id.id - first.id)
    } else {
        None
    }
}

/// Whether identities follow one another.
pub open spec fn contiguous<T, V>(first: Id<T>, entries: Seq<(Id<T>, V)>) -> bool {
    &&& entries.len() > 0
    &&& first.id + entries.len() <= slots()
    &&& forall|i: int|
        0 <= i < entries.len() ==> (#[trigger] entries[i]).0.id == first.id + i
            && entries[i].0.generation == first.generation
}

/// Whether a list gives every record once.
pub open spec fn lists_records<T, V>(entries: Seq<(Id<T>, V)>, records: Map<Id<T>, V>) -> bool {
    &&& forall|i: int|
        0 <= i < entries.len() ==> records.contains_key((#[trigger] entries[i]).0)
            && records[entries[i].0] == entries[i].1
    &&& forall|i: int, j: int|
        0 <= i < j < entries.len() ==> (#[trigger] entries[i]).0 != (#[trigger] entries[j]).0
    &&& forall|id: Id<T>| #[trigger]
        records.contains_key(id) ==> exists|i: int|
            0 <= i < entries.len() && (#[trigger] entries[i]).0 == id
}

/// Whether an identity comes directly after one that there is a record for.
pub open spec fn follows_one<T, V>(records: Map<Id<T>, V>, id: Id<T>) -> bool {
    exists|other: Id<T>| #[trigger]
        records.contains_key(other) && other.generation == id.generation && other.id + 1 == id.id
}

impl<T, V> View for StagedEntityRecords<T, V> {
    type V = Map<Id<T>, V>;

    closed spec fn view(&self) -> Map<Id<T>, V> {
        match *self {
            StagedEntityRecords::Empty => Map::empty(),
            StagedEntityRecords::Ordered { first, entries } => Map::new(
                |id: Id<T>| offset_in(first, id) matches Some(at) && at < entries@.len(),
                |id: Id<T>| entries@[offset_in(first, id)->0].1,
            ),
            StagedEntityRecords::Sparse(map) => Map::new(
                |id: Id<T>| map@.contains_key(id.rank() as u128),
                |id: Id<T>| map@[id.rank() as u128],
            ),
        }
    }
}

/// The key of an identity.
fn id_key<T>(id: Id<T>) -> (key: u128)
    ensures
        key == id.rank(),
{
    id.key() as u128
}

impl<T, V> StagedEntityRecords<T, V> {
    /// A list holds identities that follow one another, and a key is that of an identity.
    pub closed spec fn wf(&self) -> bool {
        match *self {
            StagedEntityRecords::Empty => true,
            StagedEntityRecords::Ordered { first, entries } => contiguous(first, entries@),
            StagedEntityRecords::Sparse(map) => forall|key: u128| #[trigger]
                map@.contains_key(key) ==> key <= u64::MAX,
        }
    }

    /// Whether the records stand in a list.
    pub open spec fn is_ordered(&self) -> bool {
        !(*self is Sparse)
    }

    /// A record in the list stands at the offset of its identity.
    proof fn lemma_ordered(first: Id<T>, entries: Seq<(Id<T>, V)>, i: int)
        requires
            contiguous(first, entries),
            0 <= i < entries.len(),
        ensures
            offset_in(first, entries[i].0) == Some(i),
            forall|id: Id<T>|
                #![trigger offset_in(first, id)]
                offset_in(first, id) == Some(i) ==> id == entries[i].0,
    {
        assert forall|id: Id<T>|
            #![trigger offset_in(first, id)]
            offset_in(first, id) == Some(i) implies id == entries[i].0 by {
            Id::lemma_parts(id, entries[i].0);
        }
    }

    pub fn new() -> (records: Self)
        ensures
            records.wf(),
            records.is_ordered(),
            records@ == Map::<Id<T>, V>::empty(),
    {
        StagedEntityRecords::Empty
    }

    pub fn get(&self, id: &Id<T>) -> (record: Option<&V>)
        requires
            self.wf(),
        ensures
            record is Some == self@.contains_key(*id),
            record matches Some(r) ==> *r == self@[*id],
    {
        match self {
            StagedEntityRecords::Empty => None,
            StagedEntityRecords::Ordered { first, entries } => {
                if first.generation() != id.generation() || id.id < first.id {
                    return None;
                }
                let offset: usize = (id.id - first.id) as usize;
                if offset < entries.len() {
                    Some(&entries[offset].1)
                } else {
                    None
                }
            },
            StagedEntityRecords::Sparse(map) => map_get(map, id_key(*id)),
        }
    }

    /// Puts the records into a map.
    fn into_sparse(entries: Vec<(Id<T>, V)>, first: Id<T>) -> (map: FxMap<V>)
        requires
            contiguous(first, entries@),
        ensures
            forall|id: Id<T>| #[trigger]
                map@.contains_key(id.rank() as u128) <==> (offset_in(first, id) matches Some(at)
                    && at < entries@.len()),
            forall|id: Id<T>|
                #![trigger map@[id.rank() as u128]]
                map@.contains_key(id.rank() as u128) ==> map@[id.rank() as u128]
                    == entries@[offset_in(first, id)->0].1,
            forall|key: u128| #[trigger] map@.contains_key(key) ==> key <= u64::MAX,
    {
        let ghost all = entries@;
        let mut entries: Vec<(Id<T>, V)> = entries;
        let mut map: FxMap<V> = map_new();
        while entries.len() > 0
            invariant
                contiguous(first, all),
                entries@.len() <= all.len(),
                entries@ == all.take(entries@.len() as int),
                forall|id: Id<T>| #[trigger]
                    map@.contains_key(id.rank() as u128) <==> (offset_in(first, id) matches Some(at)
                        && entries@.len() <= at < all.len()),
                forall|id: Id<T>|
                    #![trigger map@[id.rank() as u128]]
                    map@.contains_key(id.rank() as u128) ==> map@[id.rank() as u128]
                        == all[offset_in(first, id)->0].1,
                forall|key: u128| #[trigger] map@.contains_key(key) ==> key <= u64::MAX,
            decreases entries@.len(),
        {
            let ghost earlier = map@;
            let ghost last = entries@.len() - 1;
            match entries.pop() {
                Some((id, value)) => {
                    proof {
                        Self::lemma_ordered(first, all, last);
                        assert(all[last] == (id, value));
                    }
                    map_insert(&mut map, id_key(id), value);
                    proof {
                        assert forall|other: Id<T>| #[trigger]
                            map@.contains_key(other.rank() as u128) <==> (offset_in(
                                first,
                                other,
                            ) matches Some(at) && last <= at < all.len()) by {
                            assert(earlier.contains_key(other.rank() as u128) <==> (offset_in(
                                first,
                                other,
                            ) matches Some(at) && last + 1 <= at < all.len()));
                            if other.rank() == id.rank() {
                                Id::lemma_rank_injective(other, id);
                            }
                        }
                        assert forall|other: Id<T>|
                            #![trigger map@[other.rank() as u128]]
                            map@.contains_key(other.rank() as u128) implies map@[other.rank() as u128]
                            == all[offset_in(first, other)->0].1 by {
                            if other.rank() == id.rank() {
                                Id::lemma_rank_injective(other, id);
                            } else {
                                assert(earlier.contains_key(other.rank() as u128));
                            }
                        }
                    }
                },
                None => {},
            }
            assert(entries@ =~= all.take(entries@.len() as int));
        }
        map
    }

    /// Gives up the list, if the records stand in one.
    fn promote_to_sparse(&mut self)
        requires
            old(self).wf(),
        ensures
            final(self).wf(),
            final(self)@ == old(self)@,
            *old(self) is Ordered ==> *final(self) is Sparse,
            !(*old(self) is Ordered) ==> *final(self) == *old(self),
    {
        let ghost before = *self;
        let mut current: Self = StagedEntityRecords::Empty;
        core::mem::swap(self, &mut current);
        match current {
            StagedEntityRecords::Ordered { first, entries } => {
                let map: FxMap<V> = Self::into_sparse(entries, first);
                *self = StagedEntityRecords::Sparse(map);
                proof {
                    assert forall|id: Id<T>| #[trigger]
                        self@.contains_key(id) <==> before@.contains_key(id) by {
                        assert(map@.contains_key(id.rank() as u128) == self@.contains_key(id));
                    }
                    assert forall|id: Id<T>| self@.contains_key(id) implies #[trigger] self@[id]
                        == before@[id] by {
                        assert(map@.contains_key(id.rank() as u128));
                        assert(self@[id] == map@[id.rank() as u128]);
                    }
                    assert(self@ =~= before@);
                }
            },
            other => {
                *self = other;
            },
        }
    }

    /// Puts a record under an identity and gives back the one that was there.
    pub fn insert(&mut self, id: Id<T>, value: V) -> (previous: Option<V>)
        requires
            old(self).wf(),
        ensures
            final(self).wf(),
            final(self)@ == old(self)@.insert(id, value),
            previous is Some == old(self)@.contains_key(id),
            previous matches Some(v) ==> v == old(self)@[id],
            final(self).is_ordered() == (old(self).is_ordered() && (old(self)@ == Map::<
                Id<T>,
                V,
            >::empty() || old(self)@.contains_key(id) || follows_one(old(self)@, id))),
    {
        let ghost before = *self;
        proof {
            if let StagedEntityRecords::Ordered { first, entries } = before {
                Self::lemma_ordered(first, entries@, 0);
                assert(before@.contains_key(first));
                if first.generation == id.generation && id.id == first.id + entries@.len() {
                    let last = entries@.len() - 1;
                    Self::lemma_ordered(first, entries@, last);
                    assert(before@.contains_key(entries@[last].0));
                }
            }
        }
        let keeps: bool = match self {
            StagedEntityRecords::Ordered { first, entries } => first.generation()
                == id.generation() && id.id >= first.id && (id.id - first.id) as usize
                <= entries.len(),
            _ => true,
        };
        if !keeps {
            self.promote_to_sparse();
        }
        let mut current: Self = StagedEntityRecords::Empty;
        core::mem::swap(self, &mut current);
        match current {
            StagedEntityRecords::Empty => {
                let mut entries: Vec<(Id<T>, V)> = Vec::new();
                entries.push((id, value));
                *self = StagedEntityRecords::Ordered { first: id, entries };
                proof {
                    Self::lemma_ordered(id, entries@, 0);
                    assert(self@ =~= before@.insert(id, value));
                }
                None
            },
            StagedEntityRecords::Ordered { first, entries } => {
                let ghost all = entries@;
                let mut entries: Vec<(Id<T>, V)> = entries;
                let offset: usize = (id.id - first.id) as usize;
                let previous: Option<V> = if offset < entries.len() {
                    proof {
                        Self::lemma_ordered(first, all, offset as int);
                    }
                    let mut entry: (Id<T>, V) = (id, value);
                    core::mem::swap(&mut entries[offset], &mut entry);
                    assert(entries@ =~= all.update(offset as int, (id, value)));
                    Some(entry.1)
                } else {
                    entries.push((id, value));
                    None
                };
                *self = StagedEntityRecords::Ordered { first, entries };
                proof {
                    assert(contiguous(first, entries@));
                    Self::lemma_ordered(first, entries@, offset as int);
                    assert(self@ =~= before@.insert(id, value));
                }
                previous
            },
            StagedEntityRecords::Sparse(map) => {
                let mut map: FxMap<V> = map;
                let previous: Option<V> = map_insert(&mut map, id_key(id), value);
                *self = StagedEntityRecords::Sparse(map);
                proof {
                    assert forall|other: Id<T>| other.rank() == id.rank() implies other == id by {
                        Id::lemma_rank_injective(other, id);
                    }
                    assert(self@ =~= before@.insert(id, value));
                }
                previous
            },
        }
    }

    /// Takes out the record under an identity. The list is given up.
    pub fn remove(&mut self, id: &Id<T>) -> (previous: Option<V>)
        requires
            old(self).wf(),
        ensures
            final(self).wf(),
            final(self)@ == old(self)@.remove(*id),
            previous is Some == old(self)@.contains_key(*id),
            previous matches Some(v) ==> v == old(self)@[*id],
            final(self).is_ordered() ==> final(self)@ == Map::<Id<T>, V>::empty(),
    {
        let ghost before = *self;
        self.promote_to_sparse();
        let mut current: Self = StagedEntityRecords::Empty;
        core::mem::swap(self, &mut current);
        match current {
            StagedEntityRecords::Sparse(map) => {
                let mut map: FxMap<V> = map;
                let previous: Option<V> = map_remove(&mut map, id_key(*id));
                *self = StagedEntityRecords::Sparse(map);
                proof {
                    assert forall|other: Id<T>| other.rank() == id.rank() implies other == *id by {
                        Id::lemma_rank_injective(other, *id);
                    }
                    assert(self@ =~= before@.remove(*id));
                }
                previous
            },
            other => {
                assert(before@ =~= Map::<Id<T>, V>::empty());
                assert(before@.remove(*id) =~= Map::<Id<T>, V>::empty());
                *self = other;
                None
            },
        }
    }

    /// The list of a record that stands in one.
    proof fn lemma_listed(first: Id<T>, entries: Seq<(Id<T>, V)>, records: Map<Id<T>, V>)
        requires
            contiguous(first, entries),
            forall|id: Id<T>| #[trigger]
                records.contains_key(id) <==> (offset_in(first, id) matches Some(at) && at
                    < entries.len()),
            forall|id: Id<T>| #[trigger]
                records.contains_key(id) ==> records[id] == entries[offset_in(first, id)->0].1,
        ensures
            lists_records(entries, records),
    {
        assert forall|i: int| 0 <= i < entries.len() implies records.contains_key(
            (#[trigger] entries[i]).0,
        ) && records[entries[i].0] == entries[i].1 by {
            Self::lemma_ordered(first, entries, i);
        }
        assert forall|id: Id<T>| #[trigger] records.contains_key(id) implies exists|i: int|
            0 <= i < entries.len() && (#[trigger] entries[i]).0 == id by {
            let i = offset_in(first, id)->0;
            Self::lemma_ordered(first, entries, i);
            assert(entries[i].0 == id);
        }
    }

    pub fn len(&self) -> (len: usize)
        requires
            self.wf(),
        ensures
            self@.dom().finite(),
            len == self@.dom().len(),
    {
        match self {
            StagedEntityRecords::Empty => {
                assert(self@.dom() =~= Set::<Id<T>>::empty());
                0
            },
            StagedEntityRecords::Ordered { first, entries } => {
                proof {
                    Self::lemma_listed(*first, entries@, self@);
                    lemma_listed_len(entries@, self@);
                }
                entries.len()
            },
            StagedEntityRecords::Sparse(map) => {
                let len: usize = map_len(map);
                proof {
                    let f = |key: u128| id_of_rank::<T>(key as int);
                    map@.dom().lemma_map_finite(f);
                    assert(map@.dom().map(f) =~= self@.dom()) by {
                        assert forall|id: Id<T>| #[trigger]
                            self@.dom().contains(id) <==> map@.dom().map(f).contains(id) by {
                            if self@.dom().contains(id) {
                                let key = id.rank() as u128;
                                Id::lemma_rank_injective(f(key), id);
                                assert(map@.dom().contains(key) && f(key) == id);
                            }
                            if map@.dom().map(f).contains(id) {
                                let key = choose|key: u128| #[trigger]
                                    map@.dom().contains(key) && f(key) == id;
                                assert(map@.contains_key(key));
                                assert(id.rank() == key);
                            }
                        }
                    }
                    assert(vstd::relations::injective_on(f, map@.dom())) by {
                        assert forall|a: u128, b: u128|
                            map@.dom().contains(a) && map@.dom().contains(b) && #[trigger] f(a)
                                == #[trigger] f(b) implies a == b by {
                            assert(map@.contains_key(a) && map@.contains_key(b));
                            assert(f(a).rank() == a && f(b).rank() == b);
                        }
                    }
                    vstd::set_lib::lemma_map_size(map@.dom(), self@.dom(), f);
                }
                len
            },
        }
    }

    /// Every record once. Where the identities do not follow one another, the order is open.
    pub fn iter(&self) -> (entries: Vec<(Id<T>, &V)>)
        requires
            self.wf(),
        ensures
            entries@.len() == self@.dom().len(),
            forall|i: int|
                0 <= i < entries@.len() ==> self@.contains_key((#[trigger] entries@[i]).0)
                    && *entries@[i].1 == self@[entries@[i].0],
            forall|i: int, j: int|
                0 <= i < j < entries@.len() ==> (#[trigger] entries@[i]).0 != (#[trigger]
                entries@[j]).0,
            forall|id: Id<T>| #[trigger]
                self@.contains_key(id) ==> exists|i: int|
                    0 <= i < entries@.len() && (#[trigger] entries@[i]).0 == id,
    {
        let mut listed: Vec<(Id<T>, &V)> = Vec::new();
        match self {
            StagedEntityRecords::Empty => {
                assert(self@.dom() =~= Set::<Id<T>>::empty());
            },
            StagedEntityRecords::Ordered { first, entries } => {
                let mut i: usize = 0;
                while i < entries.len()
                    invariant
                        i <= entries@.len(),
                        listed@.len() == i,
                        forall|k: int|
                            0 <= k < i ==> (#[trigger] listed@[k]).0 == entries@[k].0
                                && *listed@[k].1 == entries@[k].1,
                    decreases entries@.len() - i,
                {
                    listed.push((entries[i].0, &entries[i].1));
                    i = i + 1;
                }
                proof {
                    Self::lemma_listed(*first, entries@, self@);
                    lemma_listed_len(entries@, self@);
                    assert forall|id: Id<T>| #[trigger]
                        self@.contains_key(id) implies exists|k: int|
                        0 <= k < listed@.len() && (#[trigger] listed@[k]).0 == id by {
                        let k = choose|k: int|
                            0 <= k < entries@.len() && (#[trigger] entries@[k]).0 == id;
                        assert(listed@[k].0 == id);
                    }
                }
            },
            StagedEntityRecords::Sparse(map) => {
                let keys: Vec<u128> = map_keys(map);
                let mut i: usize = 0;
                while i < keys.len()
                    invariant
                        self.wf(),
                        *self == StagedEntityRecords::<T, V>::Sparse(*map),
                        forall|key: u128| #[trigger] map@.contains_key(key) ==> key <= u64::MAX,
                        i <= keys@.len(),
                        forall|key: u128| #[trigger]
                            keys@.contains(key) <==> map@.contains_key(key),
                        listed@.len() == i,
                        forall|k: int|
                            0 <= k < i ==> (#[trigger] listed@[k]).0.rank() == keys@[k]
                                && self@.contains_key(listed@[k].0) && *listed@[k].1
                                == self@[listed@[k].0],
                    decreases keys@.len() - i,
                {
                    let key: u128 = keys[i];
                    assert(keys@.contains(key));
                    assert(map@.contains_key(key));
                    assert(key <= u64::MAX);
                    match map_get(map, key) {
                        Some(value) => {
                            let id: Id<T> = Id::from_key(key as u64);
                            assert(self@.contains_key(id));
                            listed.push((id, value));
                        },
                        None => {},
                    }
                    i = i + 1;
                }
                proof {
                    assert forall|a: int, b: int| 0 <= a < b < listed@.len() implies (#[trigger]
                    listed@[a]).0 != (#[trigger] listed@[b]).0 by {
                        assert(keys@[a] != keys@[b]);
                    }
                    assert forall|id: Id<T>| #[trigger]
                        self@.contains_key(id) implies exists|k: int|
                        0 <= k < listed@.len() && (#[trigger] listed@[k]).0 == id by {
                        let key = id.rank() as u128;
                        assert(keys@.contains(key));
                        let k = keys@.index_of(key);
                        Id::lemma_rank_injective(listed@[k].0, id);
                    }
                    let plain = Seq::new(listed@.len(), |k: int| (listed@[k].0, *listed@[k].1));
                    assert forall|id: Id<T>| #[trigger]
                        self@.contains_key(id) implies exists|k: int|
                        0 <= k < plain.len() && (#[trigger] plain[k]).0 == id by {
                        let k = choose|k: int|
                            0 <= k < listed@.len() && (#[trigger] listed@[k]).0 == id;
                        assert(plain[k].0 == id);
                    }
                    lemma_listed_len(plain, self@);
                }
            },
        }
        listed
    }

    /// Every record once, and whether the identities follow one another. Where they do not, the
    /// order is open.
    pub fn into_entries(self) -> (r: (Vec<(Id<T>, V)>, bool))
        requires
            self.wf(),
        ensures
            lists_records(r.0@, self@),
            r.1 == self.is_ordered(),
            r.1 ==> forall|i: int, j: int|
                0 <= i < j < r.0@.len() ==> (#[trigger] r.0@[i]).0.rank() < (#[trigger]
                r.0@[j]).0.rank(),
    {
        match self {
            StagedEntityRecords::Empty => (Vec::new(), true),
            StagedEntityRecords::Ordered { first, entries } => {
                proof {
                    assert forall|i: int| 0 <= i < entries@.len() implies self@.contains_key(
                        (#[trigger] entries@[i]).0,
                    ) && self@[entries@[i].0] == entries@[i].1 by {
                        Self::lemma_ordered(first, entries@, i);
                    }
                    assert forall|id: Id<T>| #[trigger]
                        self@.contains_key(id) implies exists|i: int|
                        0 <= i < entries@.len() && (#[trigger] entries@[i]).0 == id by {
                        let i = offset_in(first, id)->0;
                        Self::lemma_ordered(first, entries@, i);
                        assert(entries@[i].0 == id);
                    }
                }
                (entries, true)
            },
            StagedEntityRecords::Sparse(map) => {
                let listed: Vec<(u128, V)> = map_into_entries(map);
                let entries: Vec<(Id<T>, V)> = identified(listed);
                proof {
                    assert forall|i: int| 0 <= i < entries@.len() implies self@.contains_key(
                        (#[trigger] entries@[i]).0,
                    ) && self@[entries@[i].0] == entries@[i].1 by {
                        assert(map@.contains_key(listed@[i].0));
                    }
                    assert forall|i: int, j: int| 0 <= i < j < entries@.len() implies (#[trigger]
                    entries@[i]).0 != (#[trigger] entries@[j]).0 by {
                        assert(listed@[i].0 != listed@[j].0);
                    }
                    assert forall|id: Id<T>| #[trigger]
                        self@.contains_key(id) implies exists|i: int|
                        0 <= i < entries@.len() && (#[trigger] entries@[i]).0 == id by {
                        let key = id.rank() as u128;
                        assert(map@.contains_key(key));
                        let i = choose|i: int|
                            0 <= i < listed@.len() && (#[trigger] listed@[i]).0 == key;
                        Id::lemma_rank_injective(entries@[i].0, id);
                    }
                }
                (entries, false)
            },
        }
    }
}

/// There are as many records as are listed.
proof fn lemma_listed_len<T, V>(entries: Seq<(Id<T>, V)>, records: Map<Id<T>, V>)
    requires
        lists_records(entries, records),
    ensures
        records.dom().finite(),
        records.dom().len() == entries.len(),
{
    let ids = Seq::new(entries.len(), |i: int| entries[i].0);
    assert(ids.no_duplicates()) by {
        assert forall|i: int, j: int| 0 <= i < ids.len() && 0 <= j < ids.len() && i != j implies ids[i]
            != ids[j] by {
            if i < j {
                assert(entries[i].0 != entries[j].0);
            } else {
                assert(entries[j].0 != entries[i].0);
            }
        }
    }
    ids.unique_seq_to_set();
    assert(records.dom() =~= ids.to_set()) by {
        assert forall|id: Id<T>| #[trigger]
            records.dom().contains(id) <==> ids.to_set().contains(id) by {
            if records.contains_key(id) {
                let i = choose|i: int| 0 <= i < entries.len() && (#[trigger] entries[i]).0 == id;
                assert(ids[i] == id);
            }
            if ids.contains(id) {
                let i = ids.index_of(id);
                assert(entries[i].0 == id);
            }
        }
    }
}

/// Gives listed records the identities that their keys stand for.
fn identified<T, V>(listed: Vec<(u128, V)>) -> (entries: Vec<(Id<T>, V)>)
    requires
        forall|i: int| 0 <= i < listed@.len() ==> (#[trigger] listed@[i]).0 <= u64::MAX,
    ensures
        entries@.len() == listed@.len(),
        forall|i: int|
            0 <= i < listed@.len() ==> (#[trigger] entries@[i]).0.rank() == listed@[i].0
                && entries@[i].1 == listed@[i].1,
{
    let ghost all = listed@;
    let mut listed: Vec<(u128, V)> = listed;
    let mut backwards: Vec<(Id<T>, V)> = Vec::new();
    while listed.len() > 0
        invariant
            forall|i: int| 0 <= i < all.len() ==> (#[trigger] all[i]).0 <= u64::MAX,
            listed@.len() + backwards@.len() == all.len(),
            listed@ == all.take(listed@.len() as int),
            forall|i: int|
                0 <= i < backwards@.len() ==> (#[trigger] backwards@[i]).0.rank() == all[all.len()
                    - 1 - i].0 && backwards@[i].1 == all[all.len() - 1 - i].1,
        decreases listed@.len(),
    {
        match listed.pop() {
            Some((key, value)) => {
                assert(all[all.len() - 1 - backwards@.len()] == (key, value));
                backwards.push((Id::from_key(key as u64), value));
            },
            None => {},
        }
        assert(listed@ =~= all.take(listed@.len() as int));
    }
    let mut entries: Vec<(Id<T>, V)> = Vec::new();
    while backwards.len() > 0
        invariant
            backwards@.len() + entries@.len() == all.len(),
            forall|i: int|
                0 <= i < backwards@.len() ==> (#[trigger] backwards@[i]).0.rank() == all[all.len()
                    - 1 - i].0 && backwards@[i].1 == all[all.len() - 1 - i].1,
            forall|i: int|
                0 <= i < entries@.len() ==> (#[trigger] entries@[i]).0.rank() == all[i].0
                    && entries@[i].1 == all[i].1,
        decreases backwards@.len(),
    {
        let ghost last = backwards@.last();
        assert(backwards@[backwards@.len() - 1] == last);
        match backwards.pop() {
            Some(entry) => {
                entries.push(entry);
            },
            None => {},
        }
    }
    entries
}

} // verus!
