//! Hash sets of identities.
use core::marker::PhantomData;

use vstd::prelude::*;

use crate::fx::{set_contains, set_insert, set_new, FxSet};
use crate::id::Id;
use crate::order::Ranked;

verus! {

/// A hash set of identities.
pub struct FxIdSet<T> {
    keys: FxSet,
    marker: PhantomData<T>,
}

impl<T> View for FxIdSet<T> {
    type V = Set<Id<T>>;

    closed spec fn view(&self) -> Set<Id<T>> {
        Set::new(|id: Id<T>| self.keys@.contains(id.rank() as u64))
    }
}

impl<T> FxIdSet<T> {
    pub fn new() -> (set: Self)
        ensures
            set@ == Set::<Id<T>>::empty(),
    {
        let set = FxIdSet { keys: set_new(), marker: PhantomData };
        assert(set@ =~= Set::<Id<T>>::empty());
        set
    }

    /// Adds an identity and says whether it was new.
    pub fn insert(&mut self, id: Id<T>) -> (added: bool)
        ensures
            final(self)@ == old(self)@.insert(id),
            added == !old(self)@.contains(id),
    {
        let ghost before = *self;
        let added: bool = set_insert(&mut self.keys, id.key());
        proof {
            assert forall|other: Id<T>| #[trigger]
                self@.contains(other) <==> before@.insert(id).contains(other) by {
                if other.rank() == id.rank() {
                    Id::lemma_rank_injective(other, id);
                }
            }
            assert(self@ =~= before@.insert(id));
        }
        added
    }

    pub fn contains(&self, id: Id<T>) -> (found: bool)
        ensures
            found == self@.contains(id),
    {
        set_contains(&self.keys, id.key())
    }
}

} // verus!
