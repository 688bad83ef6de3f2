//! Tables of entries that stand under an identity and are found by a key of their own.
use vstd::prelude::*;

use crate::id::{hands_out, lemma_given_back, Id, IdAllocator};
use crate::order::{
    ascending, keys_between, spans_keys, KeyBound, Ranked, SortedMap,
};
use crate::types::copy_values;

verus! {

/// What can stand in a table: something with an identity and a key.
pub trait TableEntry<T, K>: Sized {
    spec fn ident(&self) -> Id<T>;

    spec fn own_key(&self) -> K;

    fn entry_id(&self) -> (id: Id<T>)
        ensures
            id == self.ident(),
    ;

    fn entry_key(&self) -> (key: K)
        ensures
            key == self.own_key(),
    ;
}

/// The entries of the slots, by identity.
pub open spec fn slotted<T, K, E: TableEntry<T, K>>(entries: Seq<Option<E>>) -> Map<Id<T>, E> {
    Map::new(
        |id: Id<T>|
            id.id < entries.len() && entries[id.id as int] is Some
                && entries[id.id as int]->0.ident() == id,
        |id: Id<T>| entries[id.id as int]->0,
    )
}

/// Whether each entry stands in the slot that its identity says.
pub open spec fn in_place<T, K, E: TableEntry<T, K>>(entries: Seq<Option<E>>) -> bool {
    forall|i: int|
        0 <= i < entries.len() && (#[trigger] entries[i]) is Some ==> entries[i]->0.ident().id == i
            && i < u32::MAX
}

/// Whether keys lead to the entries that have them, and to nothing else.
pub open spec fn keyed<T, K, E: TableEntry<T, K>>(
    places: Map<K, Id<T>>,
    entries: Map<Id<T>, E>,
) -> bool {
    &&& forall|id: Id<T>| #[trigger]
        entries.contains_key(id) ==> entries[id].ident() == id && places.contains_key(
            entries[id].own_key(),
        ) && places[entries[id].own_key()] == id
    &&& forall|key: K| #[trigger]
        places.contains_key(key) ==> entries.contains_key(places[key])
            && entries[places[key]].own_key() == key
}

/// What a table shows once the entry with an identity was changed in its slot. Nothing is shown
/// under an identity that its entry has no more, and an entry whose identity names another slot
/// is not shown at all.
pub open spec fn changed_in_place<T, K, E: TableEntry<T, K>>(
    entries: Map<Id<T>, E>,
    id: Id<T>,
    entry: E,
) -> Map<Id<T>, E> {
    if entry.ident() == id {
        entries.insert(id, entry)
    } else if entry.ident().id == id.id {
        entries.remove(id).insert(entry.ident(), entry)
    } else {
        entries.remove(id)
    }
}

/// Entries under identities, with an index by key.
pub struct KeyedTable<T, K, E> {
    allocator: IdAllocator<T>,
    places: SortedMap<K, Id<T>>,
    entries: Vec<Option<E>>,
}

impl<T, K: Ranked + Copy, E: TableEntry<T, K>> View for KeyedTable<T, K, E> {
    type V = Map<Id<T>, E>;

    closed spec fn view(&self) -> Map<Id<T>, E> {
        slotted::<T, K, E>(self.entries@)
    }
}

impl<T, K: Ranked + Copy, E: TableEntry<T, K>> KeyedTable<T, K, E> {
    /// The entries stand under their identities, and the allocator knows which identities are
    /// in use.
    pub closed spec fn sound(&self) -> bool {
        &&& self.allocator.wf()
        &&& self.places.wf()
        &&& in_place::<T, K, E>(self.entries@)
        &&& forall|id: Id<T>| #[trigger]
            self@.contains_key(id) ==> self.allocator.in_use(id.id as int)
    }

    /// What is found by each key.
    pub closed spec fn index(&self) -> Map<K, Id<T>> {
        self.places@
    }

    /// The entries are found by their keys.
    pub open spec fn wf(&self) -> bool {
        self.sound() && keyed(self.index(), self@)
    }

    /// What hands out the identities.
    pub closed spec fn ids(&self) -> IdAllocator<T> {
        self.allocator
    }

    /// Whether a slot is handed out and nothing stands in it.
    pub open spec fn reserved(&self, slot: int) -> bool {
        &&& self.ids().in_use(slot)
        &&& forall|id: Id<T>| #[trigger] self@.contains_key(id) ==> id.id != slot
    }

    /// What holds of every table.
    pub proof fn lemma_sound(&self)
        requires
            self.sound(),
        ensures
            self.ids().wf(),
            self.index().dom().finite(),
            forall|id: Id<T>| #[trigger]
                self@.contains_key(id) ==> self@[id].ident() == id && id.id < u32::MAX
                    && self.ids().in_use(id.id as int),
            forall|a: Id<T>, b: Id<T>|
                #![trigger self@.contains_key(a), self@.contains_key(b)]
                self@.contains_key(a) && self@.contains_key(b) && a.id == b.id ==> a == b,
    {
        self.places.lemma_len();
        assert forall|id: Id<T>| #[trigger] self@.contains_key(id) implies id.id < u32::MAX by {
            assert(self.entries@[id.id as int] is Some);
        }
    }

    /// Where entries are found by their keys, no two have the same.
    pub proof fn law_keys_differ(&self, a: Id<T>, b: Id<T>)
        requires
            self.wf(),
            self@.contains_key(a),
            self@.contains_key(b),
            self@[a].own_key() == self@[b].own_key(),
        ensures
            a == b,
    {
    }

    /// There are as many entries as there are keys.
    pub proof fn lemma_len(&self)
        requires
            self.wf(),
        ensures
            self@.dom().finite(),
            self@.dom().len() == self.index().dom().len(),
    {
        let index = self.index();
        let f = |key: K| index[key];
        self.lemma_sound();
        index.dom().lemma_map_finite(f);
        assert(index.dom().map(f) =~= self@.dom()) by {
            assert forall|id: Id<T>| #[trigger]
                index.dom().map(f).contains(id) <==> self@.dom().contains(id) by {
                if index.dom().map(f).contains(id) {
                    let key = choose|key: K| #[trigger] index.dom().contains(key) && f(key) == id;
                    assert(index.contains_key(key));
                }
                if self@.dom().contains(id) {
                    assert(self@.contains_key(id));
                    let key = self@[id].own_key();
                    assert(index.dom().contains(key) && f(key) == id);
                }
            }
        }
        assert(vstd::relations::injective_on(f, index.dom())) by {
            assert forall|a: K, b: K|
                index.dom().contains(a) && index.dom().contains(b) && #[trigger] f(a)
                    == #[trigger] f(b) implies a == b by {
                assert(index.contains_key(a) && index.contains_key(b));
            }
        }
        vstd::set_lib::lemma_map_size(index.dom(), self@.dom(), f);
    }

    pub fn new() -> (table: Self)
        ensures
            table.wf(),
            table@ == Map::<Id<T>, E>::empty(),
            table.index() == Map::<K, Id<T>>::empty(),
            table.ids().free_ids@ == Seq::<Id<T>>::empty(),
            table.ids().next_index == 0,
    {
        let table = KeyedTable {
            allocator: IdAllocator::new(),
            places: SortedMap::new(),
            entries: Vec::new(),
        };
        assert(table@ =~= Map::<Id<T>, E>::empty());
        table
    }

    /// The identity that the reservation after `offset` others gives.
    pub fn pending_id(&self, offset: usize) -> (id: Id<T>)
        requires
            self.sound(),
            offset < self.ids().room(),
        ensures
            id == self.ids().pending(offset as int),
    {
        self.allocator.pending_id(offset)
    }

    pub fn get_by_id(&self, id: Id<T>) -> (entry: Option<&E>)
        requires
            self.sound(),
        ensures
            entry is Some == self@.contains_key(id),
            entry matches Some(e) ==> *e == self@[id] && e.ident() == id,
    {
        if id.is_invalid() {
            proof {
                self.lemma_sound();
            }
            return None;
        }
        let index: usize = id.index();
        if index >= self.entries.len() {
            return None;
        }
        match self.entries[index].as_ref() {
            Some(entry) => {
                if entry.entry_id() == id {
                    Some(entry)
                } else {
                    None
                }
            },
            None => None,
        }
    }

    /// The entry with an identity, to be changed. The table is as it was but for the entry.
    pub fn get_mut(&mut self, id: Id<T>) -> (entry: Option<&mut E>)
        requires
            old(self).sound(),
        ensures
            entry is Some == old(self)@.contains_key(id),
            match entry {
                Some(e) => {
                    &&& *e == old(self)@[id]
                    &&& final(self).ids() == old(self).ids()
                    &&& final(self).index() == old(self).index()
                    &&& final(e).ident().id == id.id ==> final(self).sound()
                    &&& final(self)@ == changed_in_place(old(self)@, id, *final(e))
                },
                None => *final(self) == *old(self),
            },
    {
        let ghost before = *self;
        proof {
            before.lemma_sound();
        }
        if id.is_invalid() {
            return None;
        }
        let index: usize = id.index();
        if index >= self.entries.len() {
            return None;
        }
        let found: bool = match self.entries[index].as_ref() {
            Some(entry) => entry.entry_id() == id,
            None => false,
        };
        if !found {
            return None;
        }
        proof {
            assert forall|after: Self, e: E|
                #![trigger after.sound(), before.entries@.update(index as int, Some(e))]
                after.allocator == before.allocator && after.places == before.places
                    && after.entries@ == before.entries@.update(index as int, Some(e))
                    implies (e.ident().id == id.id ==> after.sound()) && after@
                == changed_in_place(before@, id, e) by {
                lemma_slot_changed::<T, K, E>(before.entries@, id, e);
                if e.ident().id == id.id {
                    assert forall|other: Id<T>| #[trigger]
                        after@.contains_key(other) implies after.allocator.in_use(
                        other.id as int,
                    ) by {
                        assert(before@.contains_key(id));
                        if other.id != id.id {
                            assert(before@.contains_key(other));
                        }
                    }
                }
            }
        }
        self.entries[index].as_mut()
    }

    /// The identity that a key leads to.
    pub fn id_by_key(&self, key: K) -> (id: Option<Id<T>>)
        requires
            self.sound(),
        ensures
            id is Some == self.index().contains_key(key),
            id matches Some(i) ==> i == self.index()[key],
    {
        match self.places.get(&key) {
            Some(id) => Some(*id),
            None => None,
        }
    }

    /// The entry that a key leads to.
    pub fn get_by_key(&self, key: K) -> (entry: Option<&E>)
        requires
            self.sound(),
        ensures
            entry is Some == (self.index().contains_key(key) && self@.contains_key(
                self.index()[key],
            )),
            entry matches Some(e) ==> *e == self@[self.index()[key]],
    {
        match self.id_by_key(key) {
            Some(id) => self.get_by_id(id),
            None => None,
        }
    }

    pub fn contains_key(&self, key: K) -> (found: bool)
        requires
            self.sound(),
        ensures
            found == self.index().contains_key(key),
    {
        self.id_by_key(key).is_some()
    }

    pub fn is_empty(&self) -> (empty: bool)
        requires
            self.sound(),
        ensures
            empty == (self.index() == Map::<K, Id<T>>::empty()),
    {
        self.places.is_empty()
    }

    pub fn len(&self) -> (len: usize)
        requires
            self.sound(),
        ensures
            self.index().dom().finite(),
            len == self.index().dom().len(),
    {
        self.places.len()
    }

    /// The keys in their order.
    pub fn keys(&self) -> (keys: Vec<K>)
        requires
            self.sound(),
        ensures
            ascending(keys@),
            keys@.to_set() == self.index().dom(),
    {
        let keys: Vec<K> = copy_values(&self.places.keys);
        assert(keys@.to_set() =~= self.index().dom());
        keys
    }

    /// The keys of a span in their order.
    pub fn keys_between(&self, start: KeyBound<K>, end: KeyBound<K>) -> (keys: Vec<K>)
        requires
            self.sound(),
        ensures
            spans_keys(keys@, self.index().dom(), start, end),
    {
        assert(self.places.keys@.to_set() =~= self.index().dom());
        keys_between(&self.places.keys, start, end)
    }
}

/// Putting an entry into a slot changes what stands under its identity and nothing else.
proof fn lemma_slot_update<T, K, E: TableEntry<T, K>>(entries: Seq<Option<E>>, at: int, entry: E)
    requires
        in_place::<T, K, E>(entries),
        0 <= at < entries.len(),
        at < u32::MAX,
        entry.ident().id == at,
        entries[at] is Some ==> entries[at]->0.ident() == entry.ident(),
    ensures
        in_place::<T, K, E>(entries.update(at, Some(entry))),
        slotted::<T, K, E>(entries.update(at, Some(entry))) == slotted::<T, K, E>(entries).insert(
            entry.ident(),
            entry,
        ),
{
    let after = entries.update(at, Some(entry));
    assert(slotted::<T, K, E>(after) =~= slotted::<T, K, E>(entries).insert(entry.ident(), entry));
}

/// Changing the entry of a slot changes what the slot shows and nothing else.
proof fn lemma_slot_changed<T, K, E: TableEntry<T, K>>(
    entries: Seq<Option<E>>,
    id: Id<T>,
    entry: E,
)
    requires
        in_place::<T, K, E>(entries),
        id.id < entries.len(),
        entries[id.id as int] is Some,
        entries[id.id as int]->0.ident() == id,
    ensures
        entry.ident().id == id.id ==> in_place::<T, K, E>(
            entries.update(id.id as int, Some(entry)),
        ),
        slotted::<T, K, E>(entries.update(id.id as int, Some(entry))) == changed_in_place(
            slotted::<T, K, E>(entries),
            id,
            entry,
        ),
{
    let after = entries.update(id.id as int, Some(entry));
    assert(slotted::<T, K, E>(after) =~= changed_in_place(
        slotted::<T, K, E>(entries),
        id,
        entry,
    ));
}

/// Emptying a slot takes away what stood there and nothing else.
proof fn lemma_slot_empty<T, K, E: TableEntry<T, K>>(entries: Seq<Option<E>>, at: int)
    requires
        in_place::<T, K, E>(entries),
        0 <= at < entries.len(),
        entries[at] is Some,
    ensures
        in_place::<T, K, E>(entries.update(at, None)),
        slotted::<T, K, E>(entries.update(at, None)) == slotted::<T, K, E>(entries).remove(
            entries[at]->0.ident(),
        ),
{
    let after = entries.update(at, None);
    assert(slotted::<T, K, E>(after) =~= slotted::<T, K, E>(entries).remove(
        entries[at]->0.ident(),
    ));
}

/// Makes room for a slot.
fn widen<T, K, E: TableEntry<T, K>>(entries: &mut Vec<Option<E>>, index: usize)
    requires
        in_place::<T, K, E>(old(entries)@),
        index < u32::MAX,
    ensures
        in_place::<T, K, E>(final(entries)@),
        slotted::<T, K, E>(final(entries)@) == slotted::<T, K, E>(old(entries)@),
        index < final(entries)@.len(),
        index < old(entries)@.len() ==> final(entries)@[index as int] == old(
            entries,
        )@[index as int],
        index >= old(entries)@.len() ==> final(entries)@[index as int] is None,
{
    let ghost before = entries@;
    while entries.len() <= index
        invariant
            in_place::<T, K, E>(entries@),
            slotted::<T, K, E>(entries@) == slotted::<T, K, E>(before),
            before.len() <= entries@.len(),
            forall|i: int| 0 <= i < before.len() ==> entries@[i] == before[i],
            forall|i: int| before.len() <= i < entries@.len() ==> entries@[i] is None,
        decreases index + 1 - entries@.len(),
    {
        let ghost earlier = entries@;
        entries.push(None);
        proof {
            assert(in_place::<T, K, E>(entries@)) by {
                assert forall|i: int|
                    0 <= i < entries@.len() && (#[trigger] entries@[i]) is Some implies entries@[i]->0.ident().id
                    == i && i < u32::MAX by {
                    assert(entries@[i] == earlier[i]);
                }
            }
            assert(slotted::<T, K, E>(entries@) =~= slotted::<T, K, E>(earlier));
        }
    }
}

/// Whether a list gives the entries of a table once each, in the order of their slots.
pub open spec fn lists_entries<T, K, E: TableEntry<T, K>>(
    listed: Seq<&E>,
    entries: Map<Id<T>, E>,
) -> bool {
    &&& forall|i: int|
        0 <= i < listed.len() ==> entries.contains_key((#[trigger] listed[i]).ident())
            && *listed[i] == entries[listed[i].ident()]
    &&& forall|i: int, j: int|
        0 <= i < j < listed.len() ==> (#[trigger] listed[i]).ident().id < (#[trigger]
        listed[j]).ident().id
    &&& forall|id: Id<T>| #[trigger] entries.contains_key(id) ==> has_listed(listed, id)
}

/// Whether one of the listed entries has an identity.
pub open spec fn has_listed<T, K, E: TableEntry<T, K>>(listed: Seq<&E>, id: Id<T>) -> bool {
    exists|i: int| 0 <= i < listed.len() && (#[trigger] listed[i]).ident() == id
}

/// Whether no other entry than the one with this identity has a key.
pub open spec fn key_is_free<T, K, E: TableEntry<T, K>>(
    entries: Map<Id<T>, E>,
    id: Id<T>,
    key: K,
) -> bool {
    forall|other: Id<T>| #[trigger]
        entries.contains_key(other) && other != id ==> entries[other].own_key() != key
}

/// What keys lead to once an entry has been put in place of one with another key or of none.
pub open spec fn reindexed<T, K>(
    index: Map<K, Id<T>>,
    previous: Option<K>,
    key: K,
    id: Id<T>,
) -> Map<K, Id<T>> {
    match previous {
        Some(old_key) => index.remove(old_key).insert(key, id),
        None => index.insert(key, id),
    }
}

impl<T, K: Ranked + Copy, E: TableEntry<T, K>> KeyedTable<T, K, E> {
    /// Hands out the next identities, which must be the given ones.
    pub fn publish_reservations(&mut self, reservations: &Vec<Id<T>>)
        requires
            old(self).sound(),
            reservations@.len() <= old(self).ids().room(),
            forall|i: int|
                0 <= i < reservations@.len() ==> #[trigger] reservations@[i] == old(
                    self).ids().pending(i),
        ensures
            final(self).sound(),
            final(self)@ == old(self)@,
            final(self).index() == old(self).index(),
            final(self).ids().room() == old(self).ids().room() - reservations@.len(),
            forall|slot: int| #[trigger]
                final(self).ids().in_use(slot) <==> old(self).ids().in_use(slot) || exists|i: int|
                    0 <= i < reservations@.len() && (#[trigger] reservations@[i]).id == slot,
            forall|offset: int|
                0 <= offset ==> #[trigger] final(self).ids().pending(offset) == old(
                    self).ids().pending(offset + reservations@.len()),
            forall|i: int|
                0 <= i < reservations@.len() ==> final(self).reserved(
                    (#[trigger] reservations@[i]).id as int,
                ),
    {
        let ghost before = *self;
        let mut i: usize = 0;
        while i < reservations.len()
            invariant
                i <= reservations@.len(),
                before.sound(),
                self.sound(),
                self@ == before@,
                self.entries == before.entries,
                self.places == before.places,
                reservations@.len() <= before.allocator.room(),
                self.allocator.room() == before.allocator.room() - i,
                forall|j: int|
                    0 <= j < reservations@.len() ==> #[trigger] reservations@[j]
                        == before.allocator.pending(j),
                forall|slot: int| #[trigger]
                    self.allocator.in_use(slot) <==> before.allocator.in_use(slot) || exists|j: int|
                        0 <= j < i && (#[trigger] reservations@[j]).id == slot,
                forall|offset: int|
                    0 <= offset ==> #[trigger] self.allocator.pending(offset)
                        == before.allocator.pending(offset + i),
                forall|j: int|
                    0 <= j < i ==> self.reserved((#[trigger] reservations@[j]).id as int),
            decreases reservations@.len() - i,
        {
            let ghost earlier = *self;
            let id: Id<T> = self.allocator.allocate();
            proof {
                assert(earlier.allocator.pending(0) == before.allocator.pending(i as int));
                assert(id == reservations@[i as int]);
                assert(self@ == before@);
                assert forall|slot: int| #[trigger]
                    self.allocator.in_use(slot) <==> before.allocator.in_use(slot) || exists|j: int|
                        0 <= j < i + 1 && (#[trigger] reservations@[j]).id == slot by {
                    assert(earlier.allocator.in_use(slot) <==> before.allocator.in_use(slot)
                        || exists|j: int|
                        0 <= j < i && (#[trigger] reservations@[j]).id == slot);
                    if slot == id.id {
                        assert(reservations@[i as int].id == slot);
                    }
                }
                assert forall|other: Id<T>| #[trigger]
                    self@.contains_key(other) implies self.allocator.in_use(other.id as int)
                    && other.id != id.id by {
                    assert(earlier@.contains_key(other));
                    assert(earlier.allocator.in_use(other.id as int));
                }
                assert forall|j: int| 0 <= j < i + 1 implies self.reserved(
                    (#[trigger] reservations@[j]).id as int,
                ) by {
                    if j < i {
                        assert(earlier.reserved(reservations@[j].id as int));
                    }
                }
                assert forall|offset: int| 0 <= offset implies #[trigger] self.allocator.pending(
                    offset,
                ) == before.allocator.pending(offset + i + 1) by {
                    assert(self.allocator.pending(offset) == earlier.allocator.pending(offset + 1));
                }
            }
            i = i + 1;
        }
    }

    /// Takes back an identity that nothing took.
    pub fn publish_release(&mut self, id: Id<T>)
        requires
            old(self).sound(),
            old(self).reserved(id.id as int),
            id.generation < u32::MAX - 1,
        ensures
            final(self).sound(),
            final(self)@ == old(self)@,
            final(self).index() == old(self).index(),
            final(self).ids().free_ids@ == old(self).ids().free_ids@.push(id.successor()),
            final(self).ids().next_index == old(self).ids().next_index,
            forall|slot: int| #[trigger]
                final(self).ids().in_use(slot) <==> old(self).ids().in_use(slot) && slot != id.id,
    {
        let ghost before = *self;
        self.allocator.release(id);
        proof {
            assert(self@ == before@);
            assert forall|other: Id<T>| #[trigger]
                self@.contains_key(other) implies self.allocator.in_use(other.id as int) by {
                assert(before@.contains_key(other));
            }
        }
    }

    /// A slot that nothing stands in is empty.
    proof fn lemma_slot_free(&self, slot: int)
        requires
            self.sound(),
            self.reserved(slot),
            0 <= slot < u32::MAX,
        ensures
            slot < self.entries@.len() ==> self.entries@[slot] is None,
    {
        if slot < self.entries@.len() && self.entries@[slot] is Some {
            let id = self.entries@[slot]->0.ident();
            assert(self@.contains_key(id));
        }
    }

    /// Puts an entry under its identity, which was handed out, and lets its key lead to it.
    /// `previous` is the key by which the entry that stood there was found.
    pub fn publish_upsert(&mut self, entry: E, previous: Option<K>)
        requires
            old(self).sound(),
            entry.ident().id < u32::MAX,
            old(self).reserved(entry.ident().id as int) || old(self)@.contains_key(entry.ident()),
        ensures
            final(self).sound(),
            final(self)@ == old(self)@.insert(entry.ident(), entry),
            final(self).index() == reindexed(
                old(self).index(),
                previous,
                entry.own_key(),
                entry.ident(),
            ),
            final(self).ids() == old(self).ids(),
            old(self).wf() && key_is_free(old(self)@, entry.ident(), entry.own_key()) && (if old(
                self,
            )@.contains_key(entry.ident()) {
                previous == Some(old(self)@[entry.ident()].own_key())
            } else {
                previous is None
            }) ==> final(self).wf(),
    {
        let ghost before = *self;
        let ghost id = entry.ident();
        let ghost own = entry;
        proof {
            before.lemma_sound();
            if before.reserved(id.id as int) {
                before.lemma_slot_free(id.id as int);
            }
        }
        match previous {
            Some(key) => {
                self.places.remove(&key);
            },
            None => {},
        }
        self.places.insert(entry.entry_key(), entry.entry_id());
        let index: usize = entry.entry_id().index();
        widen::<T, K, E>(&mut self.entries, index);
        proof {
            if before@.contains_key(id) {
                assert(self.entries@[index as int] == before.entries@[index as int]);
            }
            lemma_slot_update::<T, K, E>(self.entries@, index as int, entry);
        }
        self.entries.set(index, Some(entry));
        proof {
            assert(self@ == before@.insert(id, own));
            assert forall|other: Id<T>| #[trigger]
                self@.contains_key(other) implies self.allocator.in_use(other.id as int) by {
                if other != id {
                    assert(before@.contains_key(other));
                }
            }
            if before.wf() && key_is_free(before@, id, own.own_key()) && (if before@.contains_key(
                id,
            ) {
                previous == Some(before@[id].own_key())
            } else {
                previous is None
            }) {
                assert forall|other: Id<T>| #[trigger]
                    self@.contains_key(other) implies self@[other].ident() == other
                    && self.index().contains_key(self@[other].own_key())
                    && self.index()[self@[other].own_key()] == other by {
                    if other != id {
                        assert(before@.contains_key(other));
                    }
                }
            }
        }
    }

    /// Hands out the next identity to an entry that has it already.
    pub fn add_entry(&mut self, entry: E)
        requires
            old(self).sound(),
            old(self).ids().room() > 0,
            entry.ident() == old(self).ids().pending(0),
        ensures
            final(self).sound(),
            !old(self)@.contains_key(entry.ident()),
            entry.ident().id < u32::MAX,
            final(self)@ == old(self)@.insert(entry.ident(), entry),
            final(self).index() == old(self).index().insert(entry.own_key(), entry.ident()),
            final(self).ids().room() == old(self).ids().room() - 1,
            forall|offset: int|
                0 <= offset ==> #[trigger] final(self).ids().pending(offset) == old(
                    self).ids().pending(offset + 1),
            old(self).wf() && key_is_free(old(self)@, entry.ident(), entry.own_key()) ==> final(
                self).wf(),
    {
        let ghost before = *self;
        let id: Id<T> = self.allocator.allocate();
        proof {
            assert(self@ == before@);
            assert forall|other: Id<T>| #[trigger]
                self@.contains_key(other) implies self.allocator.in_use(other.id as int)
                && other.id != id.id by {
                assert(before@.contains_key(other));
            }
        }
        self.publish_upsert(entry, None);
    }

    /// Puts an entry in place of the one with its identity, which comes back. The key must be
    /// the same.
    pub fn replace_entry(&mut self, entry: E) -> (previous: E)
        requires
            old(self).sound(),
            old(self)@.contains_key(entry.ident()),
            old(self)@[entry.ident()].own_key() == entry.own_key(),
        ensures
            previous == old(self)@[entry.ident()],
            final(self).sound(),
            final(self)@ == old(self)@.insert(entry.ident(), entry),
            final(self).index() == old(self).index(),
            final(self).ids() == old(self).ids(),
            old(self).wf() ==> final(self).wf(),
    {
        let ghost before = *self;
        let ghost id = entry.ident();
        proof {
            before.lemma_sound();
        }
        let index: usize = entry.entry_id().index();
        let mut slot: Option<E> = Some(entry);
        proof {
            lemma_slot_update::<T, K, E>(before.entries@, index as int, entry);
        }
        core::mem::swap(&mut self.entries[index], &mut slot);
        proof {
            assert(self.entries@ =~= before.entries@.update(index as int, Some(entry)));
            assert forall|other: Id<T>| #[trigger]
                self@.contains_key(other) implies self.allocator.in_use(other.id as int) by {
                assert(before@.contains_key(other));
            }
        }
        slot.unwrap()
    }

    /// Takes out the entry with an identity, of which `key` no longer leads to anything.
    pub fn publish_remove(&mut self, id: Id<T>, key: K)
        requires
            old(self).sound(),
            old(self)@.contains_key(id),
            id.generation < u32::MAX - 1,
        ensures
            final(self).sound(),
            final(self)@ == old(self)@.remove(id),
            final(self).index() == old(self).index().remove(key),
            final(self).ids().free_ids@ == old(self).ids().free_ids@.push(id.successor()),
            final(self).ids().next_index == old(self).ids().next_index,
            hands_out(final(self).ids(), old(self).ids(), 0, seq![id]),
            forall|slot: int| #[trigger]
                final(self).ids().in_use(slot) <==> old(self).ids().in_use(slot) && slot != id.id,
            old(self).wf() && key == old(self)@[id].own_key() ==> final(self).wf(),
    {
        let taken: E = self.take_out(id, key);
    }

    /// Takes out the entry with an identity and the key.
    fn take_out(&mut self, id: Id<T>, key: K) -> (taken: E)
        requires
            old(self).sound(),
            old(self)@.contains_key(id),
            id.generation < u32::MAX - 1,
        ensures
            taken == old(self)@[id],
            final(self).sound(),
            final(self)@ == old(self)@.remove(id),
            final(self).index() == old(self).index().remove(key),
            final(self).ids().free_ids@ == old(self).ids().free_ids@.push(id.successor()),
            final(self).ids().next_index == old(self).ids().next_index,
            forall|slot: int| #[trigger]
                final(self).ids().in_use(slot) <==> old(self).ids().in_use(slot) && slot != id.id,
            old(self).wf() && key == old(self)@[id].own_key() ==> final(self).wf(),
    {
        let ghost before = *self;
        proof {
            before.lemma_sound();
        }
        let index: usize = id.index();
        proof {
            lemma_slot_empty::<T, K, E>(before.entries@, index as int);
        }
        let mut slot: Option<E> = None;
        core::mem::swap(&mut self.entries[index], &mut slot);
        self.places.remove(&key);
        self.allocator.release(id);
        proof {
            lemma_given_back(
                self.allocator,
                before.allocator,
                before.allocator,
                0,
                Seq::empty(),
                id,
            );
            assert(self.entries@ =~= before.entries@.update(index as int, None));
            assert forall|other: Id<T>| #[trigger]
                self@.contains_key(other) implies self.allocator.in_use(other.id as int) by {
                assert(before@.contains_key(other));
            }
            if before.wf() && key == before@[id].own_key() {
                assert forall|other: Id<T>| #[trigger]
                    self@.contains_key(other) implies self@[other].ident() == other
                    && self.index().contains_key(self@[other].own_key())
                    && self.index()[self@[other].own_key()] == other by {
                    assert(before@.contains_key(other));
                }
            }
        }
        slot.unwrap()
    }

    /// Takes out the entry with an identity, if it is there. Its key then leads to nothing.
    pub fn remove_by_id(&mut self, id: Id<T>) -> (taken: Option<E>)
        requires
            old(self).sound(),
            old(self)@.contains_key(id) ==> id.generation < u32::MAX - 1,
        ensures
            final(self).sound(),
            taken is Some == old(self)@.contains_key(id),
            taken matches Some(entry) ==> {
                &&& entry == old(self)@[id]
                &&& final(self).index() == old(self).index().remove(entry.own_key())
                &&& hands_out(final(self).ids(), old(self).ids(), 0, seq![id])
            },
            taken is None ==> *final(self) == *old(self),
            final(self)@ == old(self)@.remove(id),
            old(self).wf() ==> final(self).wf(),
    {
        let key: K = match self.get_by_id(id) {
            Some(entry) => entry.entry_key(),
            None => {
                assert(self@ =~= self@.remove(id));
                return None;
            },
        };
        Some(self.take_out(id, key))
    }

    /// Lets `f` change the entry with an identity, if it is there.
    pub fn modify_by_id<R, F: FnOnce(&mut E) -> R>(&mut self, id: Id<T>, f: F) -> (r: Option<R>)
        requires
            old(self).sound(),
            forall|e: &mut E|
                old(self)@.contains_key(id) && *e == old(self)@[id] ==> #[trigger] call_requires(
                    f,
                    (e,),
                ),
        ensures
            r is Some == old(self)@.contains_key(id),
            r is None ==> *final(self) == *old(self),
            final(self).ids() == old(self).ids(),
            final(self).index() == old(self).index(),
            r matches Some(value) ==> exists|e: &mut E|
                {
                    &&& #[trigger] call_ensures(f, (e,), value)
                    &&& *e == old(self)@[id]
                    &&& final(e).ident().id == id.id ==> final(self).sound()
                    &&& final(self)@ == changed_in_place(old(self)@, id, *final(e))
                },
    {
        let ghost before = *self;
        let ghost mut last: E = arbitrary();
        let r: Option<R> = match self.get_mut(id) {
            Some(entry) => {
                let value: R = f(entry);
                proof {
                    last = *entry;
                }
                assert(exists|e: &mut E|
                    #[trigger] call_ensures(f, (e,), value) && *e == before@[id] && *final(e)
                        == last);
                Some(value)
            },
            None => None,
        };
        proof {
            if r is Some {
                let value = r->0;
                let e = choose|e: &mut E|
                    #[trigger] call_ensures(f, (e,), value) && *e == before@[id] && *final(e)
                        == last;
                assert(call_ensures(f, (e,), value));
                assert(*e == before@[id]);
                assert(last.ident().id == id.id ==> self.sound());
                assert(self@ == changed_in_place(before@, id, last));
                assert(*final(e) == last);
            }
        }
        r
    }

    /// The entries in the order of their slots.
    pub fn iter(&self) -> (listed: Vec<&E>)
        requires
            self.sound(),
        ensures
            lists_entries(listed@, self@),
    {
        let mut listed: Vec<&E> = Vec::new();
        let mut at: usize = 0;
        while at < self.entries.len()
            invariant
                at <= self.entries@.len(),
                self.sound(),
                forall|i: int|
                    0 <= i < listed@.len() ==> self@.contains_key((#[trigger] listed@[i]).ident())
                        && *listed@[i] == self@[listed@[i].ident()] && listed@[i].ident().id < at,
                forall|i: int, j: int|
                    0 <= i < j < listed@.len() ==> (#[trigger] listed@[i]).ident().id < (#[trigger]
                    listed@[j]).ident().id,
                forall|id: Id<T>| #[trigger]
                    self@.contains_key(id) && id.id < at ==> has_listed(listed@, id),
            decreases self.entries@.len() - at,
        {
            let ghost before = listed@;
            match self.entries[at].as_ref() {
                Some(entry) => {
                    listed.push(entry);
                    assert(self@.contains_key(entry.ident()));
                },
                None => {},
            }
            proof {
                assert forall|id: Id<T>| #[trigger]
                    self@.contains_key(id) && id.id < at + 1 implies has_listed(listed@, id) by {
                    if id.id < at {
                        let n = choose|n: int|
                            0 <= n < before.len() && (#[trigger] before[n]).ident() == id;
                        assert(listed@[n].ident() == id);
                    } else {
                        assert(listed@[before.len() as int].ident() == id);
                    }
                }
            }
            at = at + 1;
        }
        listed
    }
}

} // verus!
