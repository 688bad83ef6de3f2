//! Lists of identities found by address.
use vstd::prelude::*;

use crate::address::{offsets, Address, RawAddress};
use crate::fx::{
    map_clear, map_contains, map_get, map_insert, map_is_empty, map_keys, map_new, map_remove,
    FxMap,
};
use crate::id::{id_of_rank, Id};
use crate::order::Ranked;
use crate::reference::addresses;
use crate::small::{small_at, small_len, small_new, small_push, small_remove, SmallKeys};
use crate::types::{lemma_filter_none, lemma_filter_step, AddressSpaceId};

verus! {

/// The number that stands for an address: its place among all addresses.
pub fn address_key(address: Address) -> (key: u128)
    ensures
        key == address.rank(),
        key < addresses(),
{
    address.space.0 as u128 * 0x1_0000_0000_0000_0000 + address.address.0 as u128
}

/// The address that a number stands for.
pub open spec fn address_of_key(key: u128) -> Address {
    Address {
        space: AddressSpaceId((key as int / offsets()) as u16),
        address: RawAddress((key as int % offsets()) as u64),
    }
}

/// The address that a number stands for.
pub fn key_address(key: u128) -> (address: Address)
    requires
        key < addresses(),
    ensures
        address == address_of_key(key),
        address.rank() == key,
{
    Address {
        space: AddressSpaceId((key / 0x1_0000_0000_0000_0000) as u16),
        address: RawAddress((key % 0x1_0000_0000_0000_0000) as u64),
    }
}

/// The identities that numbers stand for.
pub open spec fn ids_of_keys<T>(keys: Seq<u64>) -> Seq<Id<T>> {
    keys.map_values(|key: u64| id_of_rank::<T>(key as int))
}

/// Tells every other identity from one.
pub open spec fn differs<T>(id: Id<T>) -> spec_fn(Id<T>) -> bool {
    |other: Id<T>| other != id
}

/// What is left of a list when an identity is taken out: of one that begins with it the
/// rest, of another everything but the identity.
pub open spec fn taken_out<T>(ids: Seq<Id<T>>, id: Id<T>) -> Seq<Id<T>> {
    if ids.len() == 0 {
        ids
    } else if ids.first() == id {
        ids.drop_first()
    } else {
        seq![ids.first()] + ids.drop_first().filter(differs(id))
    }
}

/// For each of some addresses a list of identities.
pub struct IdsByAddress<T> {
    first: FxMap<Id<T>>,
    additional: FxMap<SmallKeys>,
}

impl<T> View for IdsByAddress<T> {
    type V = Map<Address, Seq<Id<T>>>;

    closed spec fn view(&self) -> Map<Address, Seq<Id<T>>> {
        Map::new(
            |a: Address| self.first@.contains_key(a.rank() as u128),
            |a: Address| self.list(a.rank() as u128),
        )
    }
}

impl<T> IdsByAddress<T> {
    spec fn list(&self, key: u128) -> Seq<Id<T>> {
        seq![self.first@[key]] + (if self.additional@.contains_key(key) {
            ids_of_keys(self.additional@[key]@)
        } else {
            Seq::empty()
        })
    }

    /// The keys stand for addresses, and behind each list's first identity there are others or
    /// no list at all.
    pub closed spec fn wf(&self) -> bool {
        &&& forall|key: u128| #[trigger] self.first@.contains_key(key) ==> key < addresses()
        &&& forall|key: u128| #[trigger]
            self.additional@.contains_key(key) ==> self.first@.contains_key(key)
                && self.additional@[key]@.len() > 0
    }

    /// No list is empty.
    pub proof fn lemma_nonempty(&self, address: Address)
        requires
            self@.contains_key(address),
        ensures
            self@[address].len() > 0,
    {
    }

    proof fn lemma_keys(a: Address, b: Address)
        ensures
            (a.rank() as u128 == b.rank() as u128) == (a == b),
            a.rank() as u128 == a.rank(),
    {
        if a.rank() as u128 == b.rank() as u128 {
            assert(0 <= a.rank() < addresses());
            assert(0 <= b.rank() < addresses());
            Address::lemma_rank_injective(a, b);
        }
    }

    pub fn new() -> (r: Self)
        ensures
            r.wf(),
            r@ == Map::<Address, Seq<Id<T>>>::empty(),
    {
        let r = IdsByAddress { first: map_new(), additional: map_new() };
        assert(r@ =~= Map::<Address, Seq<Id<T>>>::empty());
        r
    }

    pub fn contains(&self, address: Address) -> (found: bool)
        ensures
            found == self@.contains_key(address),
    {
        map_contains(&self.first, address_key(address))
    }

    pub fn first(&self, address: Address) -> (id: Option<Id<T>>)
        ensures
            id is Some == self@.contains_key(address),
            id matches Some(i) ==> i == self@[address].first(),
    {
        match map_get(&self.first, address_key(address)) {
            Some(id) => Some(*id),
            None => None,
        }
    }

    pub fn is_empty(&self) -> (empty: bool)
        requires
            self.wf(),
        ensures
            empty == (self@ == Map::<Address, Seq<Id<T>>>::empty()),
    {
        let empty: bool = map_is_empty(&self.first);
        proof {
            if empty {
                assert(self@ =~= Map::<Address, Seq<Id<T>>>::empty());
            } else {
                let key = choose|key: u128| #[trigger] self.first@.contains_key(key);
                let address = address_of_key(key);
                assert(address.rank() == key);
                assert(self@.contains_key(address));
            }
        }
        empty
    }

    /// The identities of an address, in the order in which they were added.
    pub fn ids(&self, address: Address) -> (ids: Vec<Id<T>>)
        ensures
            ids@ == if self@.contains_key(address) {
                self@[address]
            } else {
                Seq::empty()
            },
            self.wf() && !self@.contains_key(address) ==> ids@.len() == 0,
    {
        let key: u128 = address_key(address);
        let mut ids: Vec<Id<T>> = Vec::new();
        match map_get(&self.first, key) {
            Some(id) => ids.push(*id),
            None => {
                return ids;
            },
        }
        match map_get(&self.additional, key) {
            Some(list) => {
                let mut i: usize = 0;
                assert(ids@ =~= seq![self.first@[key]] + ids_of_keys::<T>(list@.take(0)));
                while i < small_len(list)
                    invariant
                        i <= list@.len(),
                        ids@ == seq![self.first@[key]] + ids_of_keys::<T>(list@.take(i as int)),
                    decreases list@.len() - i,
                {
                    let id: Id<T> = Id::from_key(small_at(list, i));
                    proof {
                        Id::lemma_rank_injective(id, id_of_rank::<T>(list@[i as int] as int));
                    }
                    ids.push(id);
                    i = i + 1;
                    assert(ids@ =~= seq![self.first@[key]] + ids_of_keys::<T>(list@.take(i as int)));
                }
                assert(list@.take(i as int) =~= list@);
            },
            None => {
                assert(ids@ =~= self.list(key));
            },
        }
        ids
    }

    pub fn clear(&mut self)
        ensures
            final(self).wf(),
            final(self)@ == Map::<Address, Seq<Id<T>>>::empty(),
    {
        map_clear(&mut self.additional);
        map_clear(&mut self.first);
        assert(self@ =~= Map::<Address, Seq<Id<T>>>::empty());
    }

    /// Adds an identity to the list of an address.
    pub fn insert(&mut self, address: Address, id: Id<T>)
        requires
            old(self).wf(),
        ensures
            final(self).wf(),
            final(self)@ == old(self)@.insert(
                address,
                if old(self)@.contains_key(address) {
                    old(self)@[address].push(id)
                } else {
                    seq![id]
                },
            ),
    {
        let ghost before = *self;
        let key: u128 = address_key(address);
        if !map_contains(&self.first, key) {
            map_insert(&mut self.first, key, id);
        } else {
            let mut list: SmallKeys = match map_remove(&mut self.additional, key) {
                Some(list) => list,
                None => small_new(),
            };
            let ghost earlier = list@;
            small_push(&mut list, id.key());
            proof {
                Id::lemma_rank_injective(id, id_of_rank::<T>(id.rank()));
                assert(ids_of_keys::<T>(list@) =~= ids_of_keys::<T>(earlier).push(id));
            }
            map_insert(&mut self.additional, key, list);
        }
        proof {
            let after = before@.insert(
                address,
                if before@.contains_key(address) {
                    before@[address].push(id)
                } else {
                    seq![id]
                },
            );
            assert forall|a: Address| #[trigger]
                self@.contains_key(a) <==> after.contains_key(a) by {
                Self::lemma_keys(a, address);
            }
            assert forall|a: Address| #[trigger] self@.contains_key(a) implies self@[a]
                == after[a] by {
                Self::lemma_keys(a, address);
                if a == address {
                    if before@.contains_key(a) {
                        assert(self.list(key) =~= before.list(key).push(id));
                    } else {
                        assert(self.list(key) =~= seq![id]);
                    }
                } else {
                    assert(self.list(a.rank() as u128) == before.list(a.rank() as u128));
                }
            }
            assert(self@ =~= after);
        }
    }

    /// Adds identities to the list of an address.
    pub fn push(&mut self, address: Address, ids: &Vec<Id<T>>)
        requires
            old(self).wf(),
        ensures
            final(self).wf(),
            final(self)@ == if ids@.len() == 0 {
                old(self)@
            } else {
                old(self)@.insert(
                    address,
                    (if old(self)@.contains_key(address) {
                        old(self)@[address]
                    } else {
                        Seq::empty()
                    }) + ids@,
                )
            },
    {
        let ghost before = self@;
        let ghost start = if before.contains_key(address) {
            before[address]
        } else {
            Seq::empty()
        };
        let mut i: usize = 0;
        while i < ids.len()
            invariant
                i <= ids@.len(),
                self.wf(),
                start == if before.contains_key(address) {
                    before[address]
                } else {
                    Seq::empty()
                },
                self@ == if i == 0 {
                    before
                } else {
                    before.insert(address, start + ids@.take(i as int))
                },
            decreases ids@.len() - i,
        {
            self.insert(address, ids[i]);
            proof {
                assert(start + ids@.take(i + 1) =~= (start + ids@.take(i as int)).push(
                    ids@[i as int],
                ));
                if i == 0 {
                    assert(start + ids@.take(0) =~= start);
                    if !before.contains_key(address) {
                        assert(start.push(ids@[0]) =~= seq![ids@[0]]);
                    }
                }
                assert(self@ =~= before.insert(address, start + ids@.take(i + 1)));
            }
            i = i + 1;
        }
        assert(ids@.take(i as int) =~= ids@);
    }

    /// Adds all lists of another collection to the lists here.
    pub fn append(&mut self, locations: &Self)
        requires
            old(self).wf(),
            locations.wf(),
        ensures
            final(self).wf(),
            final(self)@.dom() == old(self)@.dom().union(locations@.dom()),
            forall|a: Address| #[trigger]
                final(self)@.contains_key(a) ==> final(self)@[a] == (if old(self)@.contains_key(
                    a,
                ) {
                    old(self)@[a]
                } else {
                    Seq::empty()
                }) + (if locations@.contains_key(a) {
                    locations@[a]
                } else {
                    Seq::empty()
                }),
    {
        let keys: Vec<u128> = map_keys(&locations.first);
        let ghost before = self@;
        let mut i: usize = 0;
        while i < keys.len()
            invariant
                i <= keys@.len(),
                self.wf(),
                locations.wf(),
                keys@.no_duplicates(),
                forall|key: u128| #[trigger]
                    keys@.contains(key) <==> locations.first@.contains_key(key),
                forall|a: Address| #[trigger]
                    self@.contains_key(a) <==> before.contains_key(a) || keys@.take(
                        i as int,
                    ).contains(a.rank() as u128),
                forall|a: Address| #[trigger]
                    self@.contains_key(a) ==> self@[a] == (if before.contains_key(a) {
                        before[a]
                    } else {
                        Seq::empty()
                    }) + (if keys@.take(i as int).contains(a.rank() as u128) {
                        locations@[a]
                    } else {
                        Seq::empty()
                    }),
            decreases keys@.len() - i,
        {
            let key: u128 = keys[i];
            let ghost earlier = self@;
            assert(keys@.contains(key));
            let address: Address = key_address(key);
            let ids: Vec<Id<T>> = locations.ids(address);
            self.push(address, &ids);
            proof {
                assert(locations@.contains_key(address));
                locations.lemma_nonempty(address);
                let (done, more) = (keys@.take(i as int), keys@.take(i + 1));
                assert(!done.contains(key)) by {
                    if done.contains(key) {
                        let j = done.index_of(key);
                        assert(keys@[j] == keys@[i as int]);
                    }
                }
                assert forall|k: u128| #[trigger]
                    more.contains(k) <==> done.contains(k) || k == key by {
                    if more.contains(k) {
                        let j = more.index_of(k);
                        if j < i {
                            assert(done[j] == k);
                        }
                    }
                    if done.contains(k) {
                        let j = done.index_of(k);
                        assert(more[j] == k);
                    }
                    assert(more[i as int] == key);
                }
                assert forall|a: Address| #[trigger]
                    self@.contains_key(a) <==> before.contains_key(a) || more.contains(
                        a.rank() as u128,
                    ) by {
                    Self::lemma_keys(a, address);
                    assert(earlier.contains_key(a) <==> before.contains_key(a) || done.contains(
                        a.rank() as u128,
                    ));
                }
                assert forall|a: Address| #[trigger]
                    self@.contains_key(a) implies self@[a] == (if before.contains_key(a) {
                    before[a]
                } else {
                    Seq::empty()
                }) + (if more.contains(a.rank() as u128) {
                    locations@[a]
                } else {
                    Seq::empty()
                }) by {
                    Self::lemma_keys(a, address);
                    if a == address {
                        if earlier.contains_key(a) {
                            assert(earlier[a] =~= before[a]);
                        }
                    } else {
                        assert(earlier.contains_key(a));
                    }
                }
            }
            i = i + 1;
        }
        proof {
            assert(keys@.take(i as int) =~= keys@);
            assert forall|a: Address| #[trigger]
                self@.dom().contains(a) <==> before.dom().union(locations@.dom()).contains(a) by {
                assert(keys@.contains(a.rank() as u128) <==> locations.first@.contains_key(
                    a.rank() as u128,
                ));
            }
            assert(self@.dom() =~= before.dom().union(locations@.dom()));
            assert forall|a: Address| #[trigger] self@.contains_key(a) implies self@[a] == (
            if before.contains_key(a) {
                before[a]
            } else {
                Seq::empty()
            }) + (if locations@.contains_key(a) {
                locations@[a]
            } else {
                Seq::empty()
            }) by {
                assert(keys@.contains(a.rank() as u128) <==> locations.first@.contains_key(
                    a.rank() as u128,
                ));
            }
        }
    }

    /// Takes an identity out of the list of an address.
    pub fn remove(&mut self, address: Address, id: Id<T>)
        requires
            old(self).wf(),
        ensures
            final(self).wf(),
            final(self)@ == if !old(self)@.contains_key(address) {
                old(self)@
            } else if taken_out(old(self)@[address], id).len() == 0 {
                old(self)@.remove(address)
            } else {
                old(self)@.insert(address, taken_out(old(self)@[address], id))
            },
    {
        let ghost before = *self;
        let key: u128 = address_key(address);
        let first: Id<T> = match map_get(&self.first, key) {
            Some(id) => *id,
            None => {
                return ;
            },
        };
        let rest: Option<SmallKeys> = map_remove(&mut self.additional, key);
        let ghost tail = if before.additional@.contains_key(key) {
            before.additional@[key]@
        } else {
            Seq::empty()
        };
        assert(before.list(key) =~= seq![first] + ids_of_keys(tail));
        if first == id {
            match rest {
                Some(mut list) => {
                    let next: u64 = small_remove(&mut list, 0);
                    let replacement: Id<T> = Id::from_key(next);
                    proof {
                        Id::lemma_rank_injective(replacement, id_of_rank::<T>(tail[0] as int));
                        assert(seq![replacement] + ids_of_keys::<T>(list@) =~= ids_of_keys::<T>(
                            tail,
                        ));
                    }
                    map_insert(&mut self.first, key, replacement);
                    if small_len(&list) > 0 {
                        map_insert(&mut self.additional, key, list);
                    }
                    assert(self.list(key) =~= ids_of_keys::<T>(tail));
                },
                None => {
                    map_remove(&mut self.first, key);
                },
            }
            assert(taken_out(before.list(key), id) =~= ids_of_keys::<T>(tail));
        } else {
            let ghost keep = differs(id);
            match rest {
                Some(list) => {
                    let mut left: SmallKeys = small_new();
                    let mut i: usize = 0;
                    let ghost all = ids_of_keys::<T>(tail);
                    proof {
                        lemma_filter_none(all, keep);
                        assert(ids_of_keys::<T>(left@) =~= all.take(0).filter(keep));
                    }
                    while i < small_len(&list)
                        invariant
                            i <= list@.len(),
                            list@ == tail,
                            all == ids_of_keys::<T>(tail),
                            keep == differs(id),
                            ids_of_keys::<T>(left@) == all.take(i as int).filter(keep),
                        decreases list@.len() - i,
                    {
                        let candidate: u64 = small_at(&list, i);
                        proof {
                            lemma_filter_step(all, i as int, keep);
                            if candidate == id.rank() {
                                Id::lemma_rank_injective(id, all[i as int]);
                            }
                        }
                        if candidate != id.key() {
                            let ghost earlier = left@;
                            small_push(&mut left, candidate);
                            assert(ids_of_keys::<T>(left@) =~= ids_of_keys::<T>(earlier).push(
                                all[i as int],
                            ));
                        }
                        i = i + 1;
                    }
                    assert(all.take(i as int) =~= all);
                    if small_len(&left) > 0 {
                        map_insert(&mut self.additional, key, left);
                    }
                    assert(self.list(key) =~= seq![first] + all.filter(keep));
                },
                None => {
                    proof {
                        lemma_filter_none(Seq::<Id<T>>::empty(), keep);
                        assert(Seq::<Id<T>>::empty().take(0) =~= Seq::<Id<T>>::empty());
                        assert(ids_of_keys::<T>(tail) =~= Seq::<Id<T>>::empty());
                    }
                    assert(self.list(key) =~= seq![first]);
                },
            }
            assert(before.list(key).drop_first() =~= ids_of_keys::<T>(tail));
            assert(taken_out(before.list(key), id) =~= seq![first] + ids_of_keys::<T>(tail).filter(
                keep,
            ));
        }
        proof {
            let left = taken_out(before.list(key), id);
            let after = if left.len() == 0 {
                before@.remove(address)
            } else {
                before@.insert(address, left)
            };
            assert forall|a: Address| #[trigger]
                self@.contains_key(a) <==> after.contains_key(a) by {
                Self::lemma_keys(a, address);
            }
            assert forall|a: Address| #[trigger] self@.contains_key(a) implies self@[a]
                == after[a] by {
                Self::lemma_keys(a, address);
                if a != address {
                    assert(self.list(a.rank() as u128) == before.list(a.rank() as u128));
                }
            }
            assert(self@ =~= after);
        }
    }
}

} // verus!
