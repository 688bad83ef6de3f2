//! Identities of table entries, and how they are handed out and taken back.
use core::marker::PhantomData;

use tinyset::SetU64;
use vstd::prelude::*;

use crate::codec::{be, capacity, lemma_value_be, put_be, take_be, KeyCodec};
use crate::order::Ranked;
use crate::types::{lemma_filter_none, lemma_filter_step};

verus! {

/// The identity of a table entry of kind `T`: the slot that the entry has, and how often the
/// slot was taken back before.
#[derive(Debug)]
pub struct Id<T> {
    pub id: u32,
    pub generation: u32,
    pub marker: PhantomData<T>,
}

impl<T> Copy for Id<T> {

}

impl<T> Clone for Id<T> {
    fn clone(&self) -> (copy: Self)
        ensures
            copy == *self,
    {
        *self
    }
}

impl<T> PartialEq for Id<T> {
    fn eq(&self, other: &Self) -> (same: bool) {
        self.id == other.id && self.generation == other.generation
    }
}

impl<T> vstd::std_specs::cmp::PartialEqSpecImpl for Id<T> {
    open spec fn obeys_eq_spec() -> bool {
        true
    }

    open spec fn eq_spec(&self, other: &Self) -> bool {
        self.id == other.id && self.generation == other.generation
    }
}

impl<T> Eq for Id<T> {

}

/// How many slots there can be.
pub open spec fn slots() -> int {
    0x1_0000_0000
}

impl<T> Ranked for Id<T> {
    open spec fn rank(self) -> int {
        self.generation * slots() + self.id
    }

    proof fn lemma_rank_injective(a: Self, b: Self) {
    }

    fn precedes(&self, other: &Self) -> (before: bool) {
        self.generation < other.generation || (self.generation == other.generation && self.id
            < other.id)
    }
}

impl<T> KeyCodec for Id<T> {
    open spec fn width() -> nat {
        8
    }

    proof fn lemma_rank_fits(key: Self) {
        reveal_with_fuel(capacity, 9);
    }

    fn encode(&self, output: &mut Vec<u8>) {
        put_be(output, 8, self.key());
    }

    fn decode(input: &mut &[u8]) -> (key: Option<Self>) {
        let ghost before = input@;
        match take_be(input, 8) {
            Some(value) => {
                proof {
                    lemma_value_be(before.take(8));
                }
                Some(Id::from_key(value))
            },
            None => None,
        }
    }
}

impl<T> Default for Id<T> {
    fn default() -> (id: Self)
        ensures
            id == Self::none(),
    {
        Id::invalid()
    }
}

impl<T> Id<T> {
    /// Whether two identities are equal is whether their parts are.
    pub proof fn lemma_parts(a: Self, b: Self)
        ensures
            a == b <==> a.id == b.id && a.generation == b.generation,
    {
    }

    /// The identity of no entry.
    pub open spec fn none() -> Self {
        Id { id: u32::MAX, generation: u32::MAX, marker: PhantomData }
    }

    /// The identity of no entry.
    pub fn invalid() -> (id: Self)
        ensures
            id == Self::none(),
            id.id == u32::MAX,
            id.generation == u32::MAX,
    {
        Id::with_generation(u32::MAX, u32::MAX)
    }

    pub fn new(id: u32) -> (r: Self)
        ensures
            r.id == id,
            r.generation == 0,
    {
        Id::with_generation(id, 0)
    }

    pub fn with_generation(id: u32, generation: u32) -> (r: Self)
        ensures
            r.id == id,
            r.generation == generation,
    {
        Id { id, generation, marker: PhantomData }
    }

    /// The first identity of a slot.
    pub fn from_index(index: usize) -> (id: Self)
        requires
            index < u32::MAX,
        ensures
            id.id == index,
            id.generation == 0,
    {
        Id::new(index as u32)
    }

    /// The slot of a valid identity.
    pub fn index(&self) -> (index: usize)
        requires
            self.id < u32::MAX,
        ensures
            index == self.id,
    {
        self.id as usize
    }

    pub fn generation(&self) -> (generation: u32)
        ensures
            generation == self.generation,
    {
        self.generation
    }

    /// The identity that the slot gets when it is taken again.
    pub open spec fn successor(self) -> Self {
        Id { id: self.id, generation: (self.generation + 1) as u32, marker: PhantomData }
    }

    pub fn next_generation(&self) -> (next: Self)
        requires
            self.generation < u32::MAX - 1,
        ensures
            next == self.successor(),
            next.id == self.id,
            next.generation == self.generation + 1,
    {
        Id::with_generation(self.id, self.generation + 1)
    }

    pub fn is_valid(&self) -> (valid: bool)
        ensures
            valid == (self.id != u32::MAX),
    {
        !self.is_invalid()
    }

    pub fn is_invalid(&self) -> (invalid: bool)
        ensures
            invalid == (self.id == u32::MAX),
    {
        self.id == u32::MAX
    }

    /// The identity that eight bytes stand for.
    pub fn decode_as_key(buf: &[u8]) -> (id: Option<Self>)
        ensures
            id is Some == (buf@.len() == 8),
            id matches Some(i) ==> be(8, i.rank()) == buf@,
    {
        if buf.len() != 8 {
            return None;
        }
        let mut input: &[u8] = buf;
        let id: Option<Self> = Id::decode(&mut input);
        proof {
            assert(buf@.take(8) =~= buf@);
            if id is None {
                lemma_value_be(buf@);
                reveal_with_fuel(capacity, 9);
                let key = crate::codec::be_value(buf@);
                let k = Id::<T> {
                    id: (key % slots()) as u32,
                    generation: (key / slots()) as u32,
                    marker: PhantomData,
                };
                assert(k.rank() == key);
                assert(be(8, k.rank()) != buf@.take(8));
            }
        }
        id
    }

    /// Appends the eight bytes of the identity.
    pub fn encode_as_key(&self, buf: &mut Vec<u8>)
        ensures
            final(buf)@ == old(buf)@ + be(8, self.rank()),
    {
        put_be(buf, 8, self.key());
    }

    /// The identity as one number.
    pub fn key(&self) -> (key: u64)
        ensures
            key == self.rank(),
    {
        self.generation as u64 * 0x1_0000_0000 + self.id as u64
    }

    /// The identity that a number stands for.
    pub fn from_key(key: u64) -> (id: Self)
        ensures
            id.rank() == key,
    {
        Id::with_generation((key % 0x1_0000_0000) as u32, (key / 0x1_0000_0000) as u32)
    }
}

/// What an allocator was at some point, as far as it is needed to go back there.
pub struct IdAllocation<T> {
    pub free_ids_len: usize,
    pub free_ids_tail: Vec<Id<T>>,
    pub next_index: usize,
}

/// Hands out identities. Slots that were given back are handed out again first, the last
/// given back before the others.
pub struct IdAllocator<T> {
    pub free_ids: Vec<Id<T>>,
    pub next_index: usize,
}

impl<T> IdAllocator<T> {
    /// The free slots are distinct slots that were in use before.
    pub open spec fn wf(&self) -> bool {
        &&& self.next_index <= u32::MAX
        &&& forall|i: int|
            0 <= i < self.free_ids@.len() ==> (#[trigger] self.free_ids@[i]).id < self.next_index
                && self.free_ids@[i].generation < u32::MAX
        &&& forall|i: int, j: int|
            0 <= i < j < self.free_ids@.len() ==> (#[trigger] self.free_ids@[i]).id != (#[trigger]
            self.free_ids@[j]).id
    }

    /// Whether the slot is waiting to be handed out again.
    pub open spec fn is_free(&self, slot: int) -> bool {
        exists|i: int| 0 <= i < self.free_ids@.len() && (#[trigger] self.free_ids@[i]).id == slot
    }

    /// Whether the slot is in use.
    pub open spec fn in_use(&self, slot: int) -> bool {
        0 <= slot < self.next_index && !self.is_free(slot)
    }

    /// How many identities can be handed out before the slots are used up.
    pub open spec fn room(&self) -> int {
        self.free_ids@.len() + u32::MAX - self.next_index
    }

    /// The identity that the allocation after `offset` others gives.
    pub open spec fn pending(&self, offset: int) -> Id<T> {
        if offset < self.free_ids@.len() {
            self.free_ids@[self.free_ids@.len() - 1 - offset]
        } else {
            Id {
                id: (self.next_index + offset - self.free_ids@.len()) as u32,
                generation: 0,
                marker: PhantomData,
            }
        }
    }

    pub fn new() -> (allocator: Self)
        ensures
            allocator.wf(),
            allocator.free_ids@.len() == 0,
            allocator.next_index == 0,
    {
        IdAllocator { free_ids: Vec::new(), next_index: 0 }
    }

    /// The identity that the next allocation gives.
    pub fn next_id(&self) -> (id: Id<T>)
        requires
            self.wf(),
            self.room() > 0,
        ensures
            id == self.pending(0),
    {
        self.pending_id(0)
    }

    /// The identity that the allocation after `offset` others gives.
    pub fn pending_id(&self, offset: usize) -> (id: Id<T>)
        requires
            self.wf(),
            offset < self.room(),
        ensures
            id == self.pending(offset as int),
    {
        let free: usize = self.free_ids.len();
        if offset < free {
            self.free_ids[free - 1 - offset]
        } else {
            Id::from_index(self.next_index + (offset - free))
        }
    }

    /// The next identity is one whose slot is not in use.
    pub proof fn lemma_pending_free(&self)
        requires
            self.wf(),
            self.room() > 0,
        ensures
            self.pending(0).id < u32::MAX,
            !self.in_use(self.pending(0).id as int),
    {
        if self.free_ids@.len() > 0 {
            assert(self.free_ids@[self.free_ids@.len() - 1] == self.pending(0));
        }
    }

    /// Hands out an identity.
    pub fn allocate(&mut self) -> (id: Id<T>)
        requires
            old(self).wf(),
            old(self).room() > 0,
        ensures
            final(self).wf(),
            id == old(self).pending(0),
            id.id < u32::MAX,
            final(self).room() == old(self).room() - 1,
            is_step(*old(self), *final(self), IdEvent::Allocated(id)),
            old(self).free_ids@.len() > 0 ==> final(self).next_index == old(self).next_index
                && final(self).free_ids@ == old(self).free_ids@.drop_last(),
            old(self).free_ids@.len() == 0 ==> final(self).next_index == old(self).next_index + 1
                && final(self).free_ids@ == old(self).free_ids@,
            !old(self).in_use(id.id as int),
            forall|slot: int| #[trigger]
                final(self).in_use(slot) <==> old(self).in_use(slot) || slot == id.id,
            forall|offset: int|
                0 <= offset ==> #[trigger] final(self).pending(offset) == old(self).pending(
                    offset + 1,
                ),
    {
        let ghost before = *self;
        let id: Id<T> = match self.free_ids.pop() {
            Some(id) => id,
            None => {
                let id: Id<T> = Id::from_index(self.next_index);
                self.next_index = self.next_index + 1;
                id
            },
        };
        proof {
            if before.free_ids@.len() > 0 {
                let last = before.free_ids@.len() - 1;
                assert(before.free_ids@[last] == id);
                assert forall|slot: int| #[trigger]
                    self.in_use(slot) <==> before.in_use(slot) || slot == id.id by {
                    if before.is_free(slot) && slot != id.id {
                        let i = choose|i: int|
                            0 <= i < before.free_ids@.len() && (#[trigger] before.free_ids@[i]).id
                                == slot;
                        assert(self.free_ids@[i].id == slot);
                    }
                    if self.is_free(slot) {
                        let i = choose|i: int|
                            0 <= i < self.free_ids@.len() && (#[trigger] self.free_ids@[i]).id
                                == slot;
                        assert(before.free_ids@[i].id == slot);
                    }
                }
            } else {
                assert forall|slot: int| #[trigger]
                    self.in_use(slot) <==> before.in_use(slot) || slot == id.id by {
                    assert(!self.is_free(slot));
                    assert(!before.is_free(slot));
                }
            }
        }
        id
    }

    /// Hands out the next identity to `f` and keeps it handed out if `f` succeeds.
    pub fn try_allocate<R, E, F: FnOnce(Id<T>) -> Result<R, E>>(&mut self, f: F) -> (r: Result<
        (Id<T>, R),
        E,
    >)
        requires
            old(self).wf(),
            old(self).room() > 0,
            call_requires(f, (old(self).pending(0),)),
        ensures
            final(self).wf(),
            match r {
                Ok((id, value)) => {
                    &&& id == old(self).pending(0)
                    &&& call_ensures(f, (id,), Ok::<R, E>(value))
                    &&& !old(self).in_use(id.id as int)
                    &&& final(self).room() == old(self).room() - 1
                    &&& is_step(*old(self), *final(self), IdEvent::Allocated(id))
                    &&& forall|slot: int| #[trigger]
                        final(self).in_use(slot) <==> old(self).in_use(slot) || slot == id.id
                    &&& forall|offset: int|
                        0 <= offset ==> #[trigger] final(self).pending(offset) == old(self).pending(
                            offset + 1,
                        )
                },
                Err(error) => {
                    &&& call_ensures(f, (old(self).pending(0),), Err::<R, E>(error))
                    &&& *final(self) == *old(self)
                },
            },
    {
        let id: Id<T> = self.next_id();
        match f(id) {
            Ok(value) => {
                let allocated: Id<T> = self.allocate();
                Ok((allocated, value))
            },
            Err(error) => Err(error),
        }
    }

    /// Takes back the identity of an entry that is no more. Its slot will be handed out under
    /// another generation. Only an identity that is out should come back.
    pub fn release(&mut self, id: Id<T>)
        requires
            id.generation < u32::MAX - 1,
        ensures
            old(self).wf() && old(self).in_use(id.id as int) ==> final(self).wf(),
            is_step(*old(self), *final(self), IdEvent::Released(id)),
            final(self).free_ids@ == old(self).free_ids@.push(id.successor()),
            final(self).next_index == old(self).next_index,
            final(self).pending(0) == id.successor(),
            final(self).room() == old(self).room() + 1,
            forall|slot: int| #[trigger]
                final(self).in_use(slot) <==> old(self).in_use(slot) && slot != id.id,
    {
        let ghost before = *self;
        self.free_ids.push(id.next_generation());
        proof {
            if before.wf() && before.in_use(id.id as int) {
                assert forall|i: int, j: int| 0 <= i < j < self.free_ids@.len() implies (#[trigger]
                self.free_ids@[i]).id != (#[trigger] self.free_ids@[j]).id by {
                    if j == before.free_ids@.len() {
                        assert(before.free_ids@[i].id != id.id);
                    } else {
                        assert(before.free_ids@[i].id != before.free_ids@[j].id);
                    }
                }
            }
            assert forall|slot: int| #[trigger]
                self.in_use(slot) <==> before.in_use(slot) && slot != id.id by {
                if before.is_free(slot) {
                    let i = choose|i: int|
                        0 <= i < before.free_ids@.len() && (#[trigger] before.free_ids@[i]).id
                            == slot;
                    assert(self.free_ids@[i].id == slot);
                }
                if self.is_free(slot) && slot != id.id {
                    let i = choose|i: int|
                        0 <= i < self.free_ids@.len() && (#[trigger] self.free_ids@[i]).id == slot;
                    assert(before.free_ids@[i].id == slot);
                }
                assert(self.free_ids@[before.free_ids@.len() as int].id == id.id);
            }
        }
    }

    /// Takes the slot of a known entry into use.
    pub fn mark_allocated(&mut self, id: Id<T>)
        requires
            old(self).wf(),
            id.id < u32::MAX,
        ensures
            final(self).wf(),
            final(self).next_index == if old(self).next_index > id.id {
                old(self).next_index as int
            } else {
                id.id + 1
            },
            final(self).free_ids@ == old(self).free_ids@.filter(|free: Id<T>| free.id != id.id),
            final(self).in_use(id.id as int),
    {
        let ghost before = *self;
        let index: usize = id.index();
        if self.next_index < index + 1 {
            self.next_index = index + 1;
        }
        let mut kept: Vec<Id<T>> = Vec::new();
        let mut i: usize = 0;
        let ghost keep = |free: Id<T>| free.id != id.id;
        proof {
            lemma_filter_none(before.free_ids@, keep);
        }
        while i < self.free_ids.len()
            invariant
                before.wf(),
                self.free_ids@ == before.free_ids@,
                index == id.id,
                self.next_index >= before.next_index,
                self.next_index > id.id,
                i <= self.free_ids@.len(),
                keep == (|free: Id<T>| free.id != id.id),
                kept@ == before.free_ids@.take(i as int).filter(keep),
                forall|k: int|
                    0 <= k < kept@.len() ==> (#[trigger] kept@[k]).id != id.id && kept@[k].id
                        < before.next_index && kept@[k].generation < u32::MAX,
                forall|k: int, m: int|
                    0 <= k < kept@.len() && i <= m < before.free_ids@.len() ==> (#[trigger]
                    kept@[k]).id != (#[trigger] before.free_ids@[m]).id,
                forall|k: int, l: int|
                    0 <= k < l < kept@.len() ==> (#[trigger] kept@[k]).id != (#[trigger]
                    kept@[l]).id,
            decreases self.free_ids@.len() - i,
        {
            let free: Id<T> = self.free_ids[i];
            if free.id as usize != index {
                kept.push(free);
            }
            proof {
                lemma_filter_step(before.free_ids@, i as int, keep);
            }
            i = i + 1;
        }
        proof {
            assert(before.free_ids@.take(i as int) =~= before.free_ids@);
        }
        self.free_ids = kept;
    }

    /// Remembers the allocator as it is, for going back after at most `max_pops` of its free
    /// slots were handed out.
    pub fn checkpoint(&self, max_pops: usize) -> (allocation: IdAllocation<T>)
        ensures
            allocation.of(self, max_pops as int),
    {
        let len: usize = self.free_ids.len();
        let tail_start: usize = len.saturating_sub(max_pops);
        let mut tail: Vec<Id<T>> = Vec::new();
        let mut i: usize = tail_start;
        while i < len
            invariant
                tail_start <= i <= len,
                len == self.free_ids@.len(),
                tail@ == self.free_ids@.subrange(tail_start as int, i as int),
            decreases len - i,
        {
            tail.push(self.free_ids[i]);
            i = i + 1;
            assert(tail@ =~= self.free_ids@.subrange(tail_start as int, i as int));
        }
        IdAllocation { free_ids_len: len, free_ids_tail: tail, next_index: self.next_index }
    }

    /// Goes back to where the checkpoint was made. The free slots below those that it
    /// remembers must still be there.
    pub fn restore(&mut self, allocation: IdAllocation<T>)
        requires
            allocation.free_ids_tail@.len() <= allocation.free_ids_len,
            allocation.free_ids_len - allocation.free_ids_tail@.len() <= old(self).free_ids@.len(),
        ensures
            final(self).next_index == allocation.next_index,
            final(self).free_ids@ == old(self).free_ids@.take(
                allocation.free_ids_len - allocation.free_ids_tail@.len(),
            ) + allocation.free_ids_tail@,
    {
        let ghost before = *self;
        let tail_start: usize = allocation.free_ids_len - allocation.free_ids_tail.len();
        self.free_ids.truncate(tail_start);
        let mut i: usize = 0;
        while i < allocation.free_ids_tail.len()
            invariant
                i <= allocation.free_ids_tail@.len(),
                self.free_ids@ == before.free_ids@.take(tail_start as int)
                    + allocation.free_ids_tail@.take(i as int),
            decreases allocation.free_ids_tail@.len() - i,
        {
            self.free_ids.push(allocation.free_ids_tail[i]);
            i = i + 1;
            assert(self.free_ids@ =~= before.free_ids@.take(tail_start as int)
                + allocation.free_ids_tail@.take(i as int));
        }
        assert(allocation.free_ids_tail@.take(i as int) =~= allocation.free_ids_tail@);
        self.next_index = allocation.next_index;
    }

    /// How many slots wait to be handed out again.
    pub fn free_len(&self) -> (len: usize)
        ensures
            len == self.free_ids@.len(),
    {
        self.free_ids.len()
    }
}

impl<T> IdAllocation<T> {
    /// Whether this is what was remembered of an allocator.
    pub open spec fn of(&self, allocator: &IdAllocator<T>, max_pops: int) -> bool {
        let kept = if allocator.free_ids@.len() <= max_pops {
            0
        } else {
            allocator.free_ids@.len() - max_pops
        };
        &&& self.free_ids_len == allocator.free_ids@.len()
        &&& self.free_ids_tail@ == allocator.free_ids@.skip(kept)
        &&& self.next_index == allocator.next_index
    }
}

/// Going back to a checkpoint undoes everything that left the free slots below the remembered
/// ones alone.
pub proof fn law_restore_undoes<T>(
    start: IdAllocator<T>,
    max_pops: int,
    allocation: IdAllocation<T>,
    later: IdAllocator<T>,
    back: IdAllocator<T>,
)
    requires
        0 <= max_pops,
        allocation.of(&start, max_pops),
        ({
            let kept = if start.free_ids@.len() <= max_pops {
                0
            } else {
                start.free_ids@.len() - max_pops
            };
            kept <= later.free_ids@.len() && later.free_ids@.take(kept) == start.free_ids@.take(
                kept,
            )
        }),
        back.next_index == allocation.next_index,
        back.free_ids@ == later.free_ids@.take(
            allocation.free_ids_len - allocation.free_ids_tail@.len(),
        ) + allocation.free_ids_tail@,
    ensures
        back.free_ids@ == start.free_ids@,
        back.next_index == start.next_index,
{
    assert(back.free_ids@ =~= start.free_ids@);
}

/// The identity that a slot gets when it is taken again is neither the one that was given
/// back nor any that the slot had before.
pub proof fn law_reused_slot_has_new_identity<T>(released: Id<T>, earlier: Id<T>)
    requires
        released.generation < u32::MAX - 1,
        earlier.id == released.id,
        earlier.generation <= released.generation,
    ensures
        released.successor() != earlier,
        released.successor().id == released.id,
        earlier.rank() < released.successor().rank(),
{
}

/// What happens to an allocator.
pub enum IdEvent<T> {
    Allocated(Id<T>),
    Released(Id<T>),
}

/// Whether something turns one state of an allocator into another.
pub open spec fn is_step<T>(
    before: IdAllocator<T>,
    after: IdAllocator<T>,
    event: IdEvent<T>,
) -> bool {
    match event {
        IdEvent::Allocated(id) => {
            &&& before.room() > 0
            &&& id == before.pending(0)
            &&& if before.free_ids@.len() > 0 {
                after.next_index == before.next_index && after.free_ids@
                    == before.free_ids@.drop_last()
            } else {
                after.next_index == before.next_index + 1 && after.free_ids@ == before.free_ids@
            }
        },
        IdEvent::Released(id) => {
            &&& id.generation < u32::MAX - 1
            &&& after.next_index == before.next_index
            &&& after.free_ids@ == before.free_ids@.push(id.successor())
        },
    }
}

/// The identities that have been handed out.
pub open spec fn handed_out<T>(events: Seq<IdEvent<T>>) -> Set<Id<T>>
    decreases events.len(),
{
    if events.len() == 0 {
        Set::empty()
    } else {
        let before = handed_out(events.drop_last());
        match events.last() {
            IdEvent::Allocated(id) => before.insert(id),
            IdEvent::Released(_) => before,
        }
    }
}

/// The identities that have been handed out and not been given back since.
pub open spec fn still_out<T>(events: Seq<IdEvent<T>>) -> Set<Id<T>>
    decreases events.len(),
{
    if events.len() == 0 {
        Set::empty()
    } else {
        let before = still_out(events.drop_last());
        match events.last() {
            IdEvent::Allocated(id) => before.insert(id),
            IdEvent::Released(id) => before.remove(id),
        }
    }
}

/// Whether an identity with a slot has been handed out.
pub open spec fn was_used<T>(events: Seq<IdEvent<T>>, slot: int) -> bool {
    exists|id: Id<T>| #[trigger] handed_out(events).contains(id) && id.id == slot
}

/// Whether an identity with a slot is still out.
pub open spec fn is_out<T>(events: Seq<IdEvent<T>>, slot: int) -> bool {
    exists|id: Id<T>| #[trigger] still_out(events).contains(id) && id.id == slot
}

/// Whether an allocator that was new has gone through states, and what happened between them:
/// only what is out is given back.
pub open spec fn is_history<T>(states: Seq<IdAllocator<T>>, events: Seq<IdEvent<T>>) -> bool
    decreases events.len(),
{
    &&& states.len() == events.len() + 1
    &&& if events.len() == 0 {
        states[0].next_index == 0 && states[0].free_ids@.len() == 0
    } else {
        &&& is_history(states.drop_last(), events.drop_last())
        &&& is_step(states[states.len() - 2], states.last(), events.last())
        &&& events.last() matches IdEvent::Released(id) ==> still_out(
            events.drop_last(),
        ).contains(id)
    }
}

/// How far an allocator has come: slots that were used are in use under one identity or wait to
/// be handed out, and every earlier identity of a slot has an earlier generation.
spec fn accounts<T>(state: IdAllocator<T>, events: Seq<IdEvent<T>>) -> bool {
    &&& state.wf()
    &&& forall|id: Id<T>| #[trigger] still_out(events).contains(id) ==> handed_out(events).contains(
        id,
    ) && state.in_use(id.id as int)
    &&& forall|a: Id<T>, b: Id<T>|
        #![trigger still_out(events).contains(a), handed_out(events).contains(b)]
        still_out(events).contains(a) && handed_out(events).contains(b) && a.id == b.id ==> a == b
            || b.generation < a.generation
    &&& forall|id: Id<T>| #[trigger] handed_out(events).contains(id) ==> id.id < state.next_index
    &&& forall|i: int, id: Id<T>|
        #![trigger state.free_ids@[i], handed_out(events).contains(id)]
        0 <= i < state.free_ids@.len() && handed_out(events).contains(id) && id.id
            == state.free_ids@[i].id ==> id.generation < state.free_ids@[i].generation
    &&& forall|i: int|
        0 <= i < state.free_ids@.len() ==> was_used(events, (#[trigger] state.free_ids@[i]).id as int)
    &&& forall|slot: int| #[trigger] state.in_use(slot) ==> is_out(events, slot)
}

/// Allocators keep account of what they handed out.
proof fn lemma_accounts<T>(states: Seq<IdAllocator<T>>, events: Seq<IdEvent<T>>)
    requires
        is_history(states, events),
    ensures
        accounts(states.last(), events),
    decreases events.len(),
{
    let state = states.last();
    if events.len() == 0 {
        assert(states.last() == states[0]);
        assert forall|slot: int| !(#[trigger] state.in_use(slot)) by {}
    } else {
        let front = events.drop_last();
        lemma_accounts(states.drop_last(), front);
        let before = states[states.len() - 2];
        assert(states.drop_last().last() == before);
        match events.last() {
            IdEvent::Allocated(id) => lemma_allocation_accounted(before, state, events, id),
            IdEvent::Released(id) => lemma_release_accounted(before, state, events, id),
        }
    }
}

proof fn lemma_allocation_accounted<T>(
    before: IdAllocator<T>,
    state: IdAllocator<T>,
    events: Seq<IdEvent<T>>,
    id: Id<T>,
)
    requires
        events.len() > 0,
        events.last() == IdEvent::Allocated(id),
        accounts(before, events.drop_last()),
        is_step(before, state, events.last()),
    ensures
        accounts(state, events),
        !handed_out(events.drop_last()).contains(id),
        forall|other: Id<T>| #[trigger]
            still_out(events.drop_last()).contains(other) ==> other.id != id.id,
{
    let front = events.drop_last();
    let free = before.free_ids@;
    before.lemma_pending_free();
    if free.len() > 0 {
        assert(free[free.len() - 1] == id);
    }
    assert(!handed_out(front).contains(id));
    assert(state.wf());
    assert forall|slot: int| #[trigger]
        state.in_use(slot) <==> before.in_use(slot) || slot == id.id by {
        if before.is_free(slot) && slot != id.id {
            let i = choose|i: int| 0 <= i < free.len() && (#[trigger] free[i]).id == slot;
            assert(state.free_ids@[i].id == slot);
        }
        if state.is_free(slot) {
            let i = choose|i: int|
                0 <= i < state.free_ids@.len() && (#[trigger] state.free_ids@[i]).id == slot;
            assert(free[i].id == slot);
        }
        if free.len() == 0 {
            assert(!state.is_free(slot));
            assert(!before.is_free(slot));
        }
    }
    assert forall|other: Id<T>| #[trigger] still_out(events).contains(other) implies handed_out(
        events,
    ).contains(other) && state.in_use(other.id as int) by {
        if other != id {
            assert(still_out(front).contains(other));
        }
    }
    assert forall|other: Id<T>| #[trigger]
        still_out(front).contains(other) implies other.id != id.id by {
        assert(before.in_use(other.id as int));
    }
    assert forall|a: Id<T>, b: Id<T>|
        #![trigger still_out(events).contains(a), handed_out(events).contains(b)]
        still_out(events).contains(a) && handed_out(events).contains(b) && a.id == b.id implies a
        == b || b.generation < a.generation by {
        if a != id {
            assert(still_out(front).contains(a));
            if b != id {
                assert(handed_out(front).contains(b));
            }
        } else if b != id {
            assert(handed_out(front).contains(b));
            if free.len() > 0 {
                assert(b.id == free[free.len() - 1].id);
            }
        }
    }
    assert forall|other: Id<T>| #[trigger] handed_out(events).contains(other) implies other.id
        < state.next_index by {
        if other != id {
            assert(handed_out(front).contains(other));
        }
    }
    assert forall|i: int, other: Id<T>|
        #![trigger state.free_ids@[i], handed_out(events).contains(other)]
        0 <= i < state.free_ids@.len() && handed_out(events).contains(other) && other.id
            == state.free_ids@[i].id implies other.generation < state.free_ids@[i].generation by {
        assert(state.free_ids@[i] == free[i]);
        if other == id {
            assert(free[i].id != free[free.len() - 1].id);
        } else {
            assert(handed_out(front).contains(other));
        }
    }
    assert forall|i: int| 0 <= i < state.free_ids@.len() implies was_used(
        events,
        (#[trigger] state.free_ids@[i]).id as int,
    ) by {
        assert(state.free_ids@[i] == free[i]);
        let other = choose|other: Id<T>| #[trigger]
            handed_out(front).contains(other) && other.id == free[i].id;
        assert(handed_out(events).contains(other));
    }
    assert forall|slot: int| #[trigger] state.in_use(slot) implies is_out(events, slot) by {
        if slot == id.id {
            assert(still_out(events).contains(id));
        } else {
            assert(before.in_use(slot));
            let other = choose|other: Id<T>| #[trigger]
                still_out(front).contains(other) && other.id == slot;
            assert(still_out(events).contains(other));
        }
    }
}

proof fn lemma_release_accounted<T>(
    before: IdAllocator<T>,
    state: IdAllocator<T>,
    events: Seq<IdEvent<T>>,
    id: Id<T>,
)
    requires
        events.len() > 0,
        events.last() == IdEvent::Released(id),
        accounts(before, events.drop_last()),
        still_out(events.drop_last()).contains(id),
        is_step(before, state, events.last()),
    ensures
        accounts(state, events),
{
    let front = events.drop_last();
    let free = before.free_ids@;
    let last = free.len() as int;
    assert(before.in_use(id.id as int));
    assert(state.free_ids@[last] == id.successor());
    assert forall|i: int| 0 <= i < last implies (#[trigger] free[i]).id != id.id by {}
    assert forall|i: int, j: int| 0 <= i < j < state.free_ids@.len() implies (#[trigger]
    state.free_ids@[i]).id != (#[trigger] state.free_ids@[j]).id by {
        assert(state.free_ids@[i] == free[i]);
        if j < last {
            assert(state.free_ids@[j] == free[j]);
        }
    }
    assert forall|i: int| 0 <= i < state.free_ids@.len() implies (#[trigger] state.free_ids@[i]).id
        < state.next_index && state.free_ids@[i].generation < u32::MAX by {
        if i < last {
            assert(state.free_ids@[i] == free[i]);
        }
    }
    assert(state.wf());
    assert forall|slot: int| #[trigger]
        state.in_use(slot) <==> before.in_use(slot) && slot != id.id by {
        if before.is_free(slot) {
            let i = choose|i: int| 0 <= i < free.len() && (#[trigger] free[i]).id == slot;
            assert(state.free_ids@[i].id == slot);
        }
        if state.is_free(slot) && slot != id.id {
            let i = choose|i: int|
                0 <= i < state.free_ids@.len() && (#[trigger] state.free_ids@[i]).id == slot;
            assert(free[i].id == slot);
        }
        assert(state.free_ids@[last].id == id.id);
    }
    assert forall|other: Id<T>| #[trigger] still_out(events).contains(other) implies handed_out(
        events,
    ).contains(other) && state.in_use(other.id as int) by {
        assert(still_out(front).contains(other));
        assert(handed_out(front).contains(id));
    }
    assert forall|a: Id<T>, b: Id<T>|
        #![trigger still_out(events).contains(a), handed_out(events).contains(b)]
        still_out(events).contains(a) && handed_out(events).contains(b) && a.id == b.id implies a
        == b || b.generation < a.generation by {
        assert(still_out(front).contains(a));
        assert(handed_out(front).contains(b));
    }
    assert forall|other: Id<T>| #[trigger] handed_out(events).contains(other) implies other.id
        < state.next_index by {
        assert(handed_out(front).contains(other));
    }
    assert forall|i: int, other: Id<T>|
        #![trigger state.free_ids@[i], handed_out(events).contains(other)]
        0 <= i < state.free_ids@.len() && handed_out(events).contains(other) && other.id
            == state.free_ids@[i].id implies other.generation < state.free_ids@[i].generation by {
        assert(handed_out(front).contains(other));
        if i < last {
            assert(state.free_ids@[i] == free[i]);
        } else {
            assert(still_out(front).contains(id));
        }
    }
    assert forall|i: int| 0 <= i < state.free_ids@.len() implies was_used(
        events,
        (#[trigger] state.free_ids@[i]).id as int,
    ) by {
        if i < last {
            assert(state.free_ids@[i] == free[i]);
            let other = choose|other: Id<T>| #[trigger]
                handed_out(front).contains(other) && other.id == free[i].id;
            assert(handed_out(events).contains(other));
        } else {
            assert(handed_out(events).contains(id));
        }
    }
    assert forall|slot: int| #[trigger] state.in_use(slot) implies is_out(events, slot) by {
        assert(before.in_use(slot));
        let other = choose|other: Id<T>| #[trigger]
            still_out(front).contains(other) && other.id == slot;
        assert(still_out(events).contains(other));
    }
}

/// Whatever has been handed out and given back, the next identity is one that was never handed
/// out, and its slot is not that of any that is still out. What was given back last comes first,
/// and a slot that was never used is taken only where every used one is still out.
pub proof fn law_identities_are_never_handed_out_twice<T>(
    states: Seq<IdAllocator<T>>,
    events: Seq<IdEvent<T>>,
    after: IdAllocator<T>,
    id: Id<T>,
)
    requires
        is_history(states, events),
        is_step(states.last(), after, IdEvent::Allocated(id)),
    ensures
        id == states.last().pending(0),
        !handed_out(events).contains(id),
        forall|other: Id<T>| #[trigger] still_out(events).contains(other) ==> other.id != id.id,
        events.len() > 0 && events.last() is Released ==> id == events.last()->Released_0.successor(),
        !was_used(events, id.id as int) ==> forall|slot: int| #[trigger]
            was_used(events, slot) ==> is_out(events, slot),
{
    let before = states.last();
    lemma_accounts(states, events);
    let more = events.push(IdEvent::Allocated(id));
    assert(more.drop_last() =~= events);
    lemma_allocation_accounted(before, after, more, id);
    if events.len() > 0 && events.last() is Released {
        let released = events.last()->Released_0;
        let earlier = states[states.len() - 2];
        assert(before.free_ids@ == earlier.free_ids@.push(released.successor()));
    }
    if !was_used(events, id.id as int) {
        if before.free_ids@.len() > 0 {
            let last = before.free_ids@.len() - 1;
            assert(before.free_ids@[last] == id);
            assert(was_used(events, before.free_ids@[last].id as int));
        }
        assert forall|slot: int| #[trigger] was_used(events, slot) implies is_out(events, slot) by {
            let used = choose|used: Id<T>| #[trigger]
                handed_out(events).contains(used) && used.id == slot;
            assert(!before.is_free(slot));
            assert(before.in_use(slot));
        }
    }
}

/// Whether one allocator hands out what another would after it had handed out as many as are
/// `taken` and had then been given back some identities: the last one given back comes first.
pub open spec fn hands_out<T>(
    after: IdAllocator<T>,
    before: IdAllocator<T>,
    taken: int,
    back: Seq<Id<T>>,
) -> bool {
    &&& after.room() == before.room() - taken + back.len()
    &&& forall|offset: int|
        0 <= offset ==> #[trigger] after.pending(offset) == if offset < back.len() {
            back[back.len() - 1 - offset].successor()
        } else {
            before.pending(offset - back.len() + taken)
        }
}

/// One more identity is given back.
pub proof fn lemma_given_back<T>(
    after: IdAllocator<T>,
    middle: IdAllocator<T>,
    before: IdAllocator<T>,
    taken: int,
    back: Seq<Id<T>>,
    id: Id<T>,
)
    requires
        hands_out(middle, before, taken, back),
        after.free_ids@ == middle.free_ids@.push(id.successor()),
        after.next_index == middle.next_index,
    ensures
        hands_out(after, before, taken, back.push(id)),
{
    let more = back.push(id);
    assert forall|offset: int| 0 <= offset implies #[trigger] after.pending(offset) == if offset
        < more.len() {
        more[more.len() - 1 - offset].successor()
    } else {
        before.pending(offset - more.len() + taken)
    } by {
        if offset > 0 {
            assert(after.pending(offset) == middle.pending(offset - 1));
        }
    }
}

/// What is given back later comes first.
pub proof fn lemma_given_back_in_parts<T>(
    after: IdAllocator<T>,
    middle: IdAllocator<T>,
    before: IdAllocator<T>,
    taken: int,
    first: Seq<Id<T>>,
    later: Seq<Id<T>>,
)
    requires
        hands_out(middle, before, taken, first),
        hands_out(after, middle, 0, later),
    ensures
        hands_out(after, before, taken, first + later),
{
    let back = first + later;
    assert forall|offset: int| 0 <= offset implies #[trigger] after.pending(offset) == if offset
        < back.len() {
        back[back.len() - 1 - offset].successor()
    } else {
        before.pending(offset - back.len() + taken)
    } by {
        if offset >= later.len() {
            assert(after.pending(offset) == middle.pending(offset - later.len()));
        }
    }
}

/// The type of sets of `u64` of the `tinyset` crate.
#[verifier::external_type_specification]
#[verifier::external_body]
pub struct ExSetU64(SetU64);

/// The numbers in a `SetU64`.
pub uninterp spec fn set_keys(set: SetU64) -> Set<u64>;

/// `SetU64::new` makes an empty set.
#[verifier::external_body]
fn keys_new() -> (set: SetU64)
    ensures
        set_keys(set) == Set::<u64>::empty(),
{
    SetU64::new()
}

/// `SetU64::clone` makes a set of the same numbers.
#[verifier::external_body]
fn keys_clone(set: &SetU64) -> (copy: SetU64)
    ensures
        set_keys(copy) == set_keys(*set),
{
    set.clone()
}

/// `SetU64::insert` adds a number and says whether it was new.
#[verifier::external_body]
fn keys_insert(set: &mut SetU64, key: u64) -> (added: bool)
    ensures
        set_keys(*final(set)) == set_keys(*old(set)).insert(key),
        added == !set_keys(*old(set)).contains(key),
{
    set.insert(key)
}

/// `SetU64::contains` says whether a number is in the set.
#[verifier::external_body]
fn keys_contains(set: &SetU64, key: u64) -> (found: bool)
    ensures
        found == set_keys(*set).contains(key),
{
    set.contains(key)
}

/// `SetU64::remove` takes a number out and says whether it was there.
#[verifier::external_body]
fn keys_remove(set: &mut SetU64, key: u64) -> (removed: bool)
    ensures
        set_keys(*final(set)) == set_keys(*old(set)).remove(key),
        removed == set_keys(*old(set)).contains(key),
{
    set.remove(key)
}

/// `SetU64::iter` gives every number of the set once. In what order it does is open.
#[verifier::external_body]
fn keys_iter(set: &SetU64) -> (keys: Vec<u64>)
    ensures
        keys@.no_duplicates(),
        keys@.to_set() == set_keys(*set),
{
    set.iter().collect()
}

/// Whether `len` is how many numbers the set has.
pub open spec fn counts(set: Set<u64>, len: usize) -> bool {
    set.finite() && len == set.len()
}

/// `SetU64::len` counts the numbers of the set, of which there are finitely many.
#[verifier::external_body]
fn keys_len(set: &SetU64) -> (len: usize)
    ensures
        counts(set_keys(*set), len),
{
    set.len()
}

/// `SetU64::is_empty` says whether the set has no number.
#[verifier::external_body]
fn keys_is_empty(set: &SetU64) -> (empty: bool)
    ensures
        empty == (set_keys(*set) == Set::<u64>::empty()),
{
    set.is_empty()
}

/// A set of identities.
pub struct IdSet<T> {
    set: SetU64,
    marker: PhantomData<T>,
}

impl<T> View for IdSet<T> {
    type V = Set<Id<T>>;

    /// The identities in the set.
    closed spec fn view(&self) -> Set<Id<T>> {
        Set::new(|id: Id<T>| set_keys(self.set).contains(id.rank() as u64))
    }
}

/// The identity with a given rank.
pub open spec fn id_of_rank<T>(rank: int) -> Id<T> {
    Id {
        id: (rank % slots()) as u32,
        generation: (rank / slots()) as u32,
        marker: PhantomData,
    }
}

impl<T> IdSet<T> {
    proof fn lemma_keys(&self)
        ensures
            self@.map(|id: Id<T>| id.rank() as u64) == set_keys(self.set),
            vstd::relations::injective_on(|id: Id<T>| id.rank() as u64, self@),
    {
        let f = |id: Id<T>| id.rank() as u64;
        assert forall|key: u64| #[trigger]
            set_keys(self.set).contains(key) implies self@.map(f).contains(key) by {
            let id = id_of_rank::<T>(key as int);
            assert(id.rank() == key);
            assert(self@.contains(id));
            assert(f(id) == key);
        }
        assert(self@.map(f) =~= set_keys(self.set));
    }

    pub fn new() -> (set: Self)
        ensures
            set@ == Set::<Id<T>>::empty(),
    {
        let set = IdSet { set: keys_new(), marker: PhantomData };
        assert(set@ =~= Set::<Id<T>>::empty());
        set
    }

    /// Adds an identity and says whether it was new.
    pub fn insert(&mut self, id: Id<T>) -> (added: bool)
        ensures
            final(self)@ == old(self)@.insert(id),
            added == !old(self)@.contains(id),
    {
        let ghost before = *self;
        let added: bool = keys_insert(&mut self.set, id.key());
        proof {
            assert forall|other: Id<T>| #[trigger]
                self@.contains(other) <==> before@.insert(id).contains(other) by {
                if other.rank() == id.rank() {
                    Id::lemma_rank_injective(other, id);
                }
            }
            assert(self@ =~= before@.insert(id));
        }
        added
    }

    pub fn contains(&self, id: Id<T>) -> (found: bool)
        ensures
            found == self@.contains(id),
    {
        keys_contains(&self.set, id.key())
    }

    /// Takes an identity out and says whether it was there.
    pub fn remove(&mut self, id: Id<T>) -> (removed: bool)
        ensures
            final(self)@ == old(self)@.remove(id),
            removed == old(self)@.contains(id),
    {
        let ghost before = *self;
        let removed: bool = keys_remove(&mut self.set, id.key());
        proof {
            assert forall|other: Id<T>| #[trigger]
                self@.contains(other) <==> before@.remove(id).contains(other) by {
                if other.rank() == id.rank() {
                    Id::lemma_rank_injective(other, id);
                }
            }
            assert(self@ =~= before@.remove(id));
        }
        removed
    }

    /// Every identity of the set once, in some order.
    pub fn iter(&self) -> (ids: Vec<Id<T>>)
        ensures
            ids@.no_duplicates(),
            forall|id: Id<T>| #[trigger] ids@.contains(id) <==> self@.contains(id),
    {
        let keys: Vec<u64> = keys_iter(&self.set);
        let mut ids: Vec<Id<T>> = Vec::new();
        let mut i: usize = 0;
        while i < keys.len()
            invariant
                i <= keys@.len(),
                ids@.len() == i,
                forall|j: int| 0 <= j < i ==> (#[trigger] ids@[j]).rank() == keys@[j],
            decreases keys@.len() - i,
        {
            ids.push(Id::from_key(keys[i]));
            i = i + 1;
        }
        proof {
            assert forall|a: int, b: int|
                0 <= a < ids@.len() && 0 <= b < ids@.len() && a != b implies ids@[a]
                != ids@[b] by {
                assert(ids@[a].rank() == keys@[a]);
                assert(ids@[b].rank() == keys@[b]);
                assert(keys@[a] != keys@[b]);
            }
            assert forall|id: Id<T>| #[trigger] ids@.contains(id) <==> self@.contains(id) by {
                if ids@.contains(id) {
                    let j = ids@.index_of(id);
                    assert(keys@.to_set().contains(keys@[j]));
                }
                if self@.contains(id) {
                    assert(keys@.to_set().contains(id.rank() as u64));
                    let j = keys@.index_of(id.rank() as u64);
                    assert(ids@[j].rank() == id.rank());
                    Id::lemma_rank_injective(ids@[j], id);
                }
            }
        }
        ids
    }

    pub fn len(&self) -> (len: usize)
        ensures
            self@.finite(),
            len == self@.len(),
    {
        let len: usize = keys_len(&self.set);
        proof {
            self.lemma_keys();
            let f = |id: Id<T>| id.rank() as u64;
            let g = |key: u64| id_of_rank::<T>(key as int);
            let back = set_keys(self.set).map(g);
            set_keys(self.set).lemma_map_finite(g);
            assert(back =~= self@) by {
                assert forall|id: Id<T>| #[trigger] self@.contains(id) <==> back.contains(id) by {
                    if self@.contains(id) {
                        let key = id.rank() as u64;
                        Id::lemma_rank_injective(g(key), id);
                        assert(set_keys(self.set).contains(key));
                        assert(g(key) == id);
                    }
                    if back.contains(id) {
                        let key = choose|key: u64| #[trigger]
                            set_keys(self.set).contains(key) && g(key) == id;
                        assert(id.rank() == key);
                    }
                }
            }
            vstd::set_lib::lemma_map_size(self@, set_keys(self.set), f);
        }
        len
    }

    pub fn is_empty(&self) -> (empty: bool)
        ensures
            empty == (self@ == Set::<Id<T>>::empty()),
    {
        let empty: bool = keys_is_empty(&self.set);
        proof {
            if empty {
                assert(self@ =~= Set::<Id<T>>::empty());
            } else {
                if self@ == Set::<Id<T>>::empty() {
                    assert forall|key: u64| !(#[trigger] set_keys(self.set).contains(key)) by {
                        let id = id_of_rank::<T>(key as int);
                        assert(id.rank() == key);
                        assert(!self@.contains(id));
                    }
                    assert(set_keys(self.set) =~= Set::<u64>::empty());
                }
            }
        }
        empty
    }
}

impl<T> Clone for IdSet<T> {
    fn clone(&self) -> (copy: Self)
        ensures
            copy@ == self@,
    {
        IdSet { set: keys_clone(&self.set), marker: PhantomData }
    }
}

/// An allocator that has handed out an identity, or has been given one back, hands out what it
/// would have handed out next; what was given back comes first, under its next generation.
pub proof fn law_steps_move_what_is_pending<T>(
    before: IdAllocator<T>,
    after: IdAllocator<T>,
    id: Id<T>,
    offset: int,
)
    requires
        0 <= offset,
    ensures
        is_step(before, after, IdEvent::Allocated(id)) ==> id == before.pending(0)
            && after.pending(offset) == before.pending(offset + 1) && after.room() == before.room()
            - 1,
        is_step(before, after, IdEvent::Released(id)) ==> after.pending(0) == id.successor()
            && after.pending(offset + 1) == before.pending(offset) && after.room() == before.room()
            + 1,
        hands_out(after, before, 1, Seq::empty()) ==> after.pending(offset) == before.pending(
            offset + 1,
        ) && after.room() == before.room() - 1,
        hands_out(after, before, 0, seq![id]) ==> after.pending(0).id == id.id && (id.generation
            < u32::MAX ==> after.pending(0).generation == id.generation + 1) && after.pending(
            offset + 1,
        ) == before.pending(offset) && after.room() == before.room() + 1,
{
}

} // verus!
