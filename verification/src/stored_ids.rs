//! Identities of tables that are kept in a store: what the store holds of them and how a
//! transition changes it.
use core::marker::PhantomData;
use vstd::prelude::*;

use crate::codec::{
    be, capacity, lemma_be_pair, lemma_take_parts, lemma_value_be, put_be, take_be, KeyCodec,
};
use crate::id::{slots, Id};
use crate::order::{ascending, lemma_ascending_determined, Ranked, SortedMap};
use crate::reference::lemma_pair_parts;

verus! {

/// A table that is kept in a store.
#[derive(Debug, Clone, Copy, PartialEq, Eq, Hash, Structural)]
pub enum PersistentTable {
    CodeBlocks,
    Functions,
    Problems,
    Switches,
    Symbols,
}

impl Ranked for PersistentTable {
    open spec fn rank(self) -> int {
        match self {
            PersistentTable::Functions => 0,
            PersistentTable::CodeBlocks => 1,
            PersistentTable::Symbols => 2,
            PersistentTable::Switches => 3,
            PersistentTable::Problems => 4,
        }
    }

    proof fn lemma_rank_injective(a: Self, b: Self) {
    }

    fn precedes(&self, other: &Self) -> (before: bool) {
        self.to_byte() < other.to_byte()
    }
}

impl PersistentTable {
    /// The byte that stands for the table in keys.
    pub fn to_byte(self) -> (value: u8)
        ensures
            value == self.rank(),
    {
        match self {
            PersistentTable::Functions => 0,
            PersistentTable::CodeBlocks => 1,
            PersistentTable::Symbols => 2,
            PersistentTable::Switches => 3,
            PersistentTable::Problems => 4,
        }
    }

    /// The table that a byte stands for.
    pub fn from_byte(value: u8) -> (table: Option<Self>)
        ensures
            table is Some == (value <= 4),
            table matches Some(t) ==> t.rank() == value,
    {
        match value {
            0 => Some(PersistentTable::Functions),
            1 => Some(PersistentTable::CodeBlocks),
            2 => Some(PersistentTable::Symbols),
            3 => Some(PersistentTable::Switches),
            4 => Some(PersistentTable::Problems),
            _ => None,
        }
    }
}

impl KeyCodec for PersistentTable {
    open spec fn width() -> nat {
        1
    }

    proof fn lemma_rank_fits(key: Self) {
        reveal_with_fuel(capacity, 2);
    }

    fn encode(&self, output: &mut Vec<u8>) {
        let value: u64 = self.to_byte() as u64;
        assert(value == self.rank());
        put_be(output, 1, value);
        assert(Self::width() == 1);
    }

    fn decode(input: &mut &[u8]) -> (key: Option<Self>) {
        let ghost before = input@;
        match take_be(input, 1) {
            Some(value) => {
                proof {
                    lemma_value_be(before.take(1));
                    reveal_with_fuel(capacity, 2);
                }
                let table: Option<PersistentTable> = PersistentTable::from_byte(value as u8);
                proof {
                    if table is None {
                        assert forall|k: PersistentTable|
                            before.len() < 1 || #[trigger] be(1, k.rank()) != before.take(1) by {
                            if be(1, k.rank()) == before.take(1) {
                                crate::codec::lemma_be_value(1, k.rank());
                            }
                        }
                    }
                }
                table
            },
            None => None,
        }
    }
}

/// What a free identity of a table is stored under: the table and the slot.
#[derive(Debug, Clone, Copy, PartialEq, Eq, Hash, Structural)]
pub struct FreeIdKey {
    pub table: PersistentTable,
    pub index: u32,
}

impl Ranked for FreeIdKey {
    open spec fn rank(self) -> int {
        self.table.rank() * slots() + self.index
    }

    proof fn lemma_rank_injective(a: Self, b: Self) {
        PersistentTable::lemma_rank_injective(a.table, b.table);
    }

    fn precedes(&self, other: &Self) -> (before: bool) {
        let a: u8 = self.table.to_byte();
        let b: u8 = other.table.to_byte();
        a < b || (a == b && self.index < other.index)
    }
}

/// The bytes of a key are those of the table and of the slot.
proof fn lemma_free_key_bytes(key: FreeIdKey)
    ensures
        be(5, key.rank()) == be(1, key.table.rank()) + be(4, key.index as int),
{
    reveal_with_fuel(capacity, 5);
    lemma_be_pair(1, 4, key.table.rank(), key.index as int);
}

impl KeyCodec for FreeIdKey {
    open spec fn width() -> nat {
        5
    }

    proof fn lemma_rank_fits(key: Self) {
        reveal_with_fuel(capacity, 6);
    }

    fn encode(&self, output: &mut Vec<u8>) {
        let ghost before = output@;
        self.table.encode(output);
        put_be(output, 4, self.index as u64);
        proof {
            assert(Self::width() == 5);
            lemma_free_key_bytes(*self);
            assert(output@ =~= before + (be(1, self.table.rank()) + be(4, self.index as int)));
        }
    }

    fn decode(input: &mut &[u8]) -> (key: Option<Self>) {
        let ghost before = input@;
        let table: PersistentTable = match PersistentTable::decode(input) {
            Some(table) => table,
            None => {
                proof {
                    assert forall|k: FreeIdKey|
                        before.len() < 5 || #[trigger] be(5, k.rank()) != before.take(5) by {
                        lemma_free_key_bytes(k);
                        if before.len() >= 5 && be(5, k.rank()) == before.take(5) {
                            lemma_pair_parts(1, 4, k.table.rank(), k.index as int, before);
                        }
                    }
                }
                return None;
            },
        };
        let ghost rest = input@;
        match take_be(input, 4) {
            Some(value) => {
                proof {
                    lemma_value_be(rest.take(4));
                    reveal_with_fuel(capacity, 5);
                }
                let key = FreeIdKey { table, index: value as u32 };
                proof {
                    lemma_free_key_bytes(key);
                    lemma_take_parts(before, 1, 4);
                }
                Some(key)
            },
            None => None,
        }
    }
}

impl FreeIdKey {
    /// The first key of a table.
    pub fn first(table: PersistentTable) -> (key: Self)
        ensures
            key == (FreeIdKey { table, index: 0 }),
            forall|other: FreeIdKey| other.table == table ==> key.rank() <= #[trigger] other.rank(),
    {
        FreeIdKey { table, index: 0 }
    }
}

/// What is stored of a table: the layout of its indexes, the slot after all that were used, and
/// how many entries there are.
#[derive(Debug, Clone, Copy, PartialEq, Eq, Structural)]
pub struct TableIndexState {
    pub schema: u32,
    pub next_index: u64,
    pub live: u64,
}

impl TableIndexState {
    pub const SCHEMA: u32 = 1;

    pub fn new(next_index: usize, live: usize) -> (state: Self)
        ensures
            state == (TableIndexState {
                schema: TableIndexState::SCHEMA,
                next_index: next_index as u64,
                live: live as u64,
            }),
    {
        TableIndexState {
            schema: TableIndexState::SCHEMA,
            next_index: next_index as u64,
            live: live as u64,
        }
    }

    /// Whether the indexes have the layout that this library keeps.
    pub fn is_current(self) -> (current: bool)
        ensures
            current == (self.schema == TableIndexState::SCHEMA),
    {
        self.schema == TableIndexState::SCHEMA
    }

    pub fn next_index(self) -> (next_index: usize)
        requires
            self.next_index <= usize::MAX,
        ensures
            next_index == self.next_index,
    {
        self.next_index as usize
    }

    pub fn live(self) -> (live: usize)
        requires
            self.live <= usize::MAX,
        ensures
            live == self.live,
    {
        self.live as usize
    }
}

/// What a transition writes about identities.
#[derive(Debug, Clone, Copy, PartialEq, Eq, Structural)]
pub enum IdWrite {
    /// The slot is free, and its next identity has the generation.
    Free { key: FreeIdKey, generation: u32 },
    /// The slot is free no more.
    Taken { key: FreeIdKey },
    State { table: PersistentTable, state: TableIndexState },
}

/// For each slot that a transition touches the generation from which on it is free, or that it
/// is free no more.
pub type FreeChanges = Map<u32, Option<u32>>;

/// The slots below `next_index` that are taken.
pub open spec fn slots_taken<T>(reservations: Seq<Id<T>>, next_index: int) -> FreeChanges
    decreases reservations.len(),
{
    if reservations.len() == 0 {
        Map::empty()
    } else {
        let before = slots_taken(reservations.drop_last(), next_index);
        let last = reservations.last();
        if last.id < next_index {
            before.insert(last.id, None)
        } else {
            before
        }
    }
}

/// The slots that are touched once identities are handed back.
pub open spec fn slots_released<T>(changes: FreeChanges, releases: Seq<Id<T>>) -> FreeChanges
    decreases releases.len(),
{
    if releases.len() == 0 {
        changes
    } else {
        slots_released(changes, releases.drop_last()).insert(
            releases.last().id,
            Some((releases.last().generation + 1) as u32),
        )
    }
}

/// The slot after all that are used once identities are taken.
pub open spec fn next_after<T>(reservations: Seq<Id<T>>, next_index: int) -> int
    decreases reservations.len(),
{
    if reservations.len() == 0 {
        next_index
    } else {
        let before = next_after(reservations.drop_last(), next_index);
        if before < reservations.last().id + 1 {
            reservations.last().id + 1
        } else {
            before
        }
    }
}

/// The write for a slot.
pub open spec fn slot_write(table: PersistentTable, index: u32, change: Option<u32>) -> IdWrite {
    let key = FreeIdKey { table, index };
    match change {
        Some(generation) => IdWrite::Free { key, generation },
        None => IdWrite::Taken { key },
    }
}

/// Whether writes are those for changed slots, in the order of the slots.
pub open spec fn writes_slots(
    writes: Seq<IdWrite>,
    table: PersistentTable,
    changes: FreeChanges,
) -> bool {
    exists|keys: Seq<u32>|
        {
            &&& #[trigger] ascending(keys)
            &&& keys.to_set() == changes.dom()
            &&& writes == Seq::new(
                keys.len(),
                |i: int| slot_write(table, keys[i], changes[keys[i]]),
            )
        }
}

/// The free slots in their order.
pub open spec fn free_listing(free: Map<u32, u32>) -> Seq<u32> {
    choose|keys: Seq<u32>| #[trigger] ascending(keys) && keys.to_set() == free.dom()
}

/// The identities of a table in a store.
pub struct PersistentIdAllocator<T> {
    pub table: PersistentTable,
    pub state: TableIndexState,
    pub free: SortedMap<u32, u32>,
    pub marker: PhantomData<T>,
}

/// The free slots with changes made.
pub open spec fn slots_changed(free: Map<u32, u32>, changes: FreeChanges) -> Map<u32, u32> {
    Map::new(
        |index: u32|
            if changes.contains_key(index) {
                changes[index] is Some
            } else {
                free.contains_key(index)
            },
        |index: u32|
            if changes.contains_key(index) {
                changes[index]->0
            } else {
                free[index]
            },
    )
}

impl<T> PersistentIdAllocator<T> {
    /// The state can be counted with, and free slots are slots that were used.
    pub open spec fn wf(&self) -> bool {
        &&& self.free.wf()
        &&& self.state.schema == TableIndexState::SCHEMA
        &&& self.state.next_index <= u32::MAX
        &&& self.state.next_index <= usize::MAX
        &&& self.state.live <= usize::MAX
        &&& forall|index: u32| #[trigger]
            self.free@.contains_key(index) ==> index < self.state.next_index
    }

    /// How many identities can still be handed out.
    pub open spec fn room(&self) -> int {
        self.free.keys@.len() + u32::MAX - self.state.next_index
    }

    /// The identity that the allocation after `offset` others gives: free slots come first, in
    /// their order.
    pub open spec fn pending(&self, offset: int) -> Id<T> {
        let listing = free_listing(self.free@);
        if offset < listing.len() {
            Id {
                id: listing[offset],
                generation: self.free@[listing[offset]],
                marker: PhantomData,
            }
        } else {
            Id {
                id: (self.state.next_index + offset - listing.len()) as u32,
                generation: 0,
                marker: PhantomData,
            }
        }
    }

    /// The slots that are kept are the free slots in their order.
    pub proof fn lemma_listing(&self)
        requires
            self.free.wf(),
        ensures
            free_listing(self.free@) == self.free.keys@,
    {
        let keys = self.free.keys@;
        assert(keys.to_set() =~= self.free@.dom());
        assert(ascending(keys) && keys.to_set() == self.free@.dom());
        let listing = free_listing(self.free@);
        assert(ascending(listing) && listing.to_set() == self.free@.dom());
        assert forall|k: u32| keys.contains(k) <==> listing.contains(k) by {
            assert(keys.to_set().contains(k) <==> listing.to_set().contains(k));
        }
        lemma_ascending_determined(keys, listing);
    }

    /// Takes up what a store holds of a table, unless it holds nothing or holds it in another
    /// layout.
    pub fn load(table: PersistentTable, state: Option<TableIndexState>, free: SortedMap<u32, u32>) -> (
    allocator: Option<Self>)
        requires
            free.wf(),
            state matches Some(state) ==> {
                &&& state.next_index <= u32::MAX
                &&& state.next_index <= usize::MAX
                &&& state.live <= usize::MAX
                &&& forall|index: u32| #[trigger]
                    free@.contains_key(index) ==> index < state.next_index
            },
        ensures
            allocator is Some == (state matches Some(state) && state.schema
                == TableIndexState::SCHEMA),
            allocator matches Some(a) ==> a.wf() && a.table == table && Some(a.state) == state
                && a.free@ == free@,
    {
        match state {
            Some(state) => {
                if state.is_current() {
                    Some(PersistentIdAllocator { table, state, free, marker: PhantomData })
                } else {
                    None
                }
            },
            None => None,
        }
    }

    /// Starts over for a table with entries in slots below `next_index`.
    pub fn initialise(table: PersistentTable, next_index: usize, live: usize) -> (allocator: Self)
        requires
            next_index <= u32::MAX,
        ensures
            allocator.wf(),
            allocator.table == table,
            allocator.state == (TableIndexState {
                schema: TableIndexState::SCHEMA,
                next_index: next_index as u64,
                live: live as u64,
            }),
            allocator.free@ == Map::<u32, u32>::empty(),
    {
        PersistentIdAllocator {
            table,
            state: TableIndexState::new(next_index, live),
            free: SortedMap::new(),
            marker: PhantomData,
        }
    }

    /// The next identity is one.
    pub proof fn lemma_pending_fits(&self)
        requires
            self.wf(),
            self.room() > 0,
        ensures
            self.pending(0).id < u32::MAX,
    {
        self.lemma_listing();
        if self.free.keys@.len() > 0 {
            self.free.lemma_entry(0);
        }
    }

    pub fn pending_id(&self, offset: usize) -> (id: Id<T>)
        requires
            self.wf(),
            offset < self.room(),
        ensures
            id == self.pending(offset as int),
    {
        proof {
            self.lemma_listing();
        }
        if offset < self.free.keys.len() {
            proof {
                self.free.lemma_entry(offset as int);
            }
            return Id::with_generation(self.free.keys[offset], self.free.values[offset]);
        }
        Id::from_index(self.state.next_index() + (offset - self.free.keys.len()))
    }

    /// Whether these are the writes of a transition: which slots are free from now on and which
    /// no more, and the new state. Nothing is written where nothing changes.
    pub open spec fn writes_transition(
        &self,
        reservations: Seq<Id<T>>,
        releases: Seq<Id<T>>,
        added: int,
        removed: int,
        writes: Seq<IdWrite>,
    ) -> bool {
        if reservations.len() == 0 && releases.len() == 0 && added == 0 && removed == 0 {
            writes == Seq::<IdWrite>::empty()
        } else {
            &&& writes.len() > 0
            &&& writes_slots(
                writes.drop_last(),
                self.table,
                slots_released(
                    slots_taken(reservations, self.state.next_index as int),
                    releases,
                ),
            )
            &&& writes.last() == (IdWrite::State {
                table: self.table,
                state: self.state_after(reservations, added, removed),
            })
        }
    }

    /// What a transition writes.
    pub fn append_transition(
        &self,
        reservations: &Vec<Id<T>>,
        releases: &Vec<Id<T>>,
        added: usize,
        removed: usize,
    ) -> (writes: Vec<IdWrite>)
        requires
            self.wf(),
            forall|i: int| 0 <= i < reservations@.len() ==> (#[trigger] reservations@[i]).id < u32::MAX,
            forall|i: int|
                0 <= i < releases@.len() ==> (#[trigger] releases@[i]).id < u32::MAX
                    && releases@[i].generation < u32::MAX - 1,
            self.state.live + added <= usize::MAX,
            removed <= self.state.live + added,
        ensures
            self.writes_transition(
                reservations@,
                releases@,
                added as int,
                removed as int,
                writes@,
            ),
    {
        let mut writes: Vec<IdWrite> = Vec::new();
        if reservations.len() == 0 && releases.len() == 0 && added == 0 && removed == 0 {
            return writes;
        }
        let mut changes: SortedMap<u32, Option<u32>> = SortedMap::new();
        let mut i: usize = 0;
        assert(reservations@.take(0) =~= Seq::empty());
        while i < reservations.len()
            invariant
                i <= reservations@.len(),
                self.wf(),
                forall|k: int|
                    0 <= k < reservations@.len() ==> (#[trigger] reservations@[k]).id < u32::MAX,
                changes.wf(),
                changes@ == slots_taken(
                    reservations@.take(i as int),
                    self.state.next_index as int,
                ),
            decreases reservations@.len() - i,
        {
            let id: Id<T> = reservations[i];
            if id.index() < self.state.next_index() {
                changes.insert(id.id, None);
            }
            assert(reservations@.take(i + 1).drop_last() =~= reservations@.take(i as int));
            i = i + 1;
        }
        assert(reservations@.take(i as int) =~= reservations@);
        let ghost taken = changes@;
        let mut k: usize = 0;
        assert(releases@.take(0) =~= Seq::empty());
        while k < releases.len()
            invariant
                k <= releases@.len(),
                forall|m: int|
                    0 <= m < releases@.len() ==> (#[trigger] releases@[m]).id < u32::MAX
                        && releases@[m].generation < u32::MAX - 1,
                changes.wf(),
                changes@ == slots_released(taken, releases@.take(k as int)),
            decreases releases@.len() - k,
        {
            let id: Id<T> = releases[k];
            changes.insert(id.id, Some(id.next_generation().generation()));
            assert(releases@.take(k + 1).drop_last() =~= releases@.take(k as int));
            k = k + 1;
        }
        assert(releases@.take(k as int) =~= releases@);
        let mut m: usize = 0;
        while m < changes.keys.len()
            invariant
                m <= changes.keys@.len(),
                changes.wf(),
                writes@.len() == m,
                forall|n: int|
                    0 <= n < m ==> #[trigger] writes@[n] == slot_write(
                        self.table,
                        changes.keys@[n],
                        changes@[changes.keys@[n]],
                    ),
            decreases changes.keys@.len() - m,
        {
            proof {
                changes.lemma_entry(m as int);
            }
            let key = FreeIdKey { table: self.table, index: changes.keys[m] };
            match changes.values[m] {
                Some(generation) => writes.push(IdWrite::Free { key, generation }),
                None => writes.push(IdWrite::Taken { key }),
            }
            m = m + 1;
        }
        let ghost slot_writes = writes@;
        proof {
            let keys = changes.keys@;
            assert(keys.to_set() =~= changes@.dom());
            assert(slot_writes =~= Seq::new(
                keys.len(),
                |i: int| slot_write(self.table, keys[i], changes@[keys[i]]),
            ));
            assert(writes_slots(slot_writes, self.table, changes@));
        }
        let state: TableIndexState = self.next_state(reservations, added, removed);
        writes.push(IdWrite::State { table: self.table, state });
        assert(writes@.drop_last() =~= slot_writes);
        writes
    }

    /// The state after a transition.
    pub open spec fn state_after(
        &self,
        reservations: Seq<Id<T>>,
        added: int,
        removed: int,
    ) -> TableIndexState {
        TableIndexState {
            schema: TableIndexState::SCHEMA,
            next_index: next_after(reservations, self.state.next_index as int) as u64,
            live: (self.state.live + added - removed) as u64,
        }
    }

    fn next_state(&self, reservations: &Vec<Id<T>>, added: usize, removed: usize) -> (state:
        TableIndexState)
        requires
            self.wf(),
            forall|i: int| 0 <= i < reservations@.len() ==> (#[trigger] reservations@[i]).id < u32::MAX,
            self.state.live + added <= usize::MAX,
            removed <= self.state.live + added,
        ensures
            state == self.state_after(reservations@, added as int, removed as int),
            state.next_index == next_after(reservations@, self.state.next_index as int),
            state.next_index <= u32::MAX,
            state.next_index <= usize::MAX,
            state.live <= usize::MAX,
            state.next_index >= self.state.next_index,
    {
        let mut next_index: usize = self.state.next_index();
        let mut i: usize = 0;
        assert(reservations@.take(0) =~= Seq::empty());
        while i < reservations.len()
            invariant
                i <= reservations@.len(),
                forall|k: int|
                    0 <= k < reservations@.len() ==> (#[trigger] reservations@[k]).id < u32::MAX,
                next_index == next_after(
                    reservations@.take(i as int),
                    self.state.next_index as int,
                ),
                self.state.next_index <= next_index <= u32::MAX,
            decreases reservations@.len() - i,
        {
            let index: usize = reservations[i].index();
            if next_index < index + 1 {
                next_index = index + 1;
            }
            assert(reservations@.take(i + 1).drop_last() =~= reservations@.take(i as int));
            i = i + 1;
        }
        assert(reservations@.take(i as int) =~= reservations@);
        let live: usize = self.state.live() + added - removed;
        TableIndexState::new(next_index, live)
    }

    /// Makes a transition: identities are taken and handed back, entries added and removed.
    pub fn publish_transition(
        &mut self,
        reservations: &Vec<Id<T>>,
        releases: &Vec<Id<T>>,
        added: usize,
        removed: usize,
    )
        requires
            old(self).wf(),
            forall|i: int| 0 <= i < reservations@.len() ==> (#[trigger] reservations@[i]).id < u32::MAX,
            forall|i: int|
                0 <= i < releases@.len() ==> (#[trigger] releases@[i]).id < next_after(
                    reservations@,
                    old(self).state.next_index as int,
                ) && releases@[i].generation < u32::MAX - 1,
            old(self).state.live + added <= usize::MAX,
            removed <= old(self).state.live + added,
        ensures
            final(self).wf(),
            final(self).table == old(self).table,
            final(self).state == old(self).state_after(
                reservations@,
                added as int,
                removed as int,
            ),
            final(self).free@ == slots_changed(
                old(self).free@,
                slots_released(
                    slots_taken(reservations@, old(self).state.next_index as int),
                    releases@,
                ),
            ),
    {
        let ghost before = *self;
        let ghost next_index = self.state.next_index as int;
        let state: TableIndexState = self.next_state(reservations, added, removed);
        let mut i: usize = 0;
        proof {
            assert(reservations@.take(0) =~= Seq::empty());
            assert(self.free@ =~= slots_changed(before.free@, slots_taken(reservations@.take(0), next_index)));
        }
        while i < reservations.len()
            invariant
                i <= reservations@.len(),
                self.free.wf(),
                self.state == before.state,
                self.table == before.table,
                next_index == before.state.next_index,
                next_index <= usize::MAX,
                next_index <= u32::MAX,
                forall|k: int|
                    0 <= k < reservations@.len() ==> (#[trigger] reservations@[k]).id < u32::MAX,
                forall|index: u32| #[trigger]
                    self.free@.contains_key(index) ==> before.free@.contains_key(index),
                self.free@ == slots_changed(
                    before.free@,
                    slots_taken(reservations@.take(i as int), next_index),
                ),
            decreases reservations@.len() - i,
        {
            let id: Id<T> = reservations[i];
            if id.index() < self.state.next_index() {
                self.free.remove(&id.id);
            }
            proof {
                assert(reservations@.take(i + 1).drop_last() =~= reservations@.take(i as int));
                assert(self.free@ =~= slots_changed(
                    before.free@,
                    slots_taken(reservations@.take(i + 1), next_index),
                ));
            }
            i = i + 1;
        }
        assert(reservations@.take(i as int) =~= reservations@);
        let ghost taken = slots_taken(reservations@, next_index);
        let mut k: usize = 0;
        assert(releases@.take(0) =~= Seq::empty());
        while k < releases.len()
            invariant
                k <= releases@.len(),
                self.free.wf(),
                self.table == before.table,
                forall|m: int|
                    0 <= m < releases@.len() ==> (#[trigger] releases@[m]).id < state.next_index
                        && releases@[m].generation < u32::MAX - 1,
                forall|index: u32| #[trigger]
                    self.free@.contains_key(index) ==> index < state.next_index,
                self.free@ == slots_changed(
                    before.free@,
                    slots_released(taken, releases@.take(k as int)),
                ),
            decreases releases@.len() - k,
        {
            let id: Id<T> = releases[k];
            self.free.insert(id.id, id.next_generation().generation());
            proof {
                assert(releases@.take(k + 1).drop_last() =~= releases@.take(k as int));
                assert(self.free@ =~= slots_changed(
                    before.free@,
                    slots_released(taken, releases@.take(k + 1)),
                ));
            }
            k = k + 1;
        }
        assert(releases@.take(k as int) =~= releases@);
        self.state = state;
    }

    /// How many entries the table has.
    pub fn len(&self) -> (len: usize)
        requires
            self.wf(),
        ensures
            len == self.state.live,
    {
        self.state.live()
    }
}

/// What a store holds of a table: the free slots and the state.
#[verifier::ext_equal]
pub struct StoredTable {
    pub free: Map<u32, u32>,
    pub state: Option<TableIndexState>,
}

/// What a store holds of a table after a write.
pub open spec fn written(
    stored: StoredTable,
    table: PersistentTable,
    write: IdWrite,
) -> StoredTable {
    match write {
        IdWrite::Free { key, generation } => if key.table == table {
            StoredTable { free: stored.free.insert(key.index, generation), ..stored }
        } else {
            stored
        },
        IdWrite::Taken { key } => if key.table == table {
            StoredTable { free: stored.free.remove(key.index), ..stored }
        } else {
            stored
        },
        IdWrite::State { table: other, state } => if other == table {
            StoredTable { state: Some(state), ..stored }
        } else {
            stored
        },
    }
}

/// What a store holds of a table after writes, one after another.
pub open spec fn all_written(
    stored: StoredTable,
    table: PersistentTable,
    writes: Seq<IdWrite>,
) -> StoredTable
    decreases writes.len(),
{
    if writes.len() == 0 {
        stored
    } else {
        written(all_written(stored, table, writes.drop_last()), table, writes.last())
    }
}

/// What a store holds after writes for slots.
proof fn lemma_slots_written(
    stored: StoredTable,
    table: PersistentTable,
    keys: Seq<u32>,
    changes: FreeChanges,
)
    requires
        forall|i: int| 0 <= i < keys.len() ==> changes.contains_key(#[trigger] keys[i]),
    ensures
        all_written(
            stored,
            table,
            Seq::new(keys.len(), |i: int| slot_write(table, keys[i], changes[keys[i]])),
        ) == (StoredTable {
            free: slots_changed(stored.free, changes.restrict(keys.to_set())),
            state: stored.state,
        }),
    decreases keys.len(),
{
    let writes = Seq::new(keys.len(), |i: int| slot_write(table, keys[i], changes[keys[i]]));
    let wanted = StoredTable {
        free: slots_changed(stored.free, changes.restrict(keys.to_set())),
        state: stored.state,
    };
    if keys.len() == 0 {
        assert(all_written(stored, table, writes) =~= wanted);
    } else {
        let front = keys.drop_last();
        lemma_slots_written(stored, table, front, changes);
        let earlier = Seq::new(front.len(), |i: int| slot_write(table, front[i], changes[front[i]]));
        assert(writes.drop_last() =~= earlier);
        let before = StoredTable {
            free: slots_changed(stored.free, changes.restrict(front.to_set())),
            state: stored.state,
        };
        assert(all_written(stored, table, earlier) == before);
        let last = keys.last();
        assert forall|k: u32| #[trigger] keys.to_set().contains(k) <==> front.to_set().contains(k)
            || k == last by {
            if front.contains(k) {
                assert(keys[front.index_of(k)] == k);
            }
            assert(keys[keys.len() - 1] == last);
            if keys.contains(k) && k != last {
                assert(front[keys.index_of(k)] == k);
            }
        }
        assert(writes.last() == slot_write(table, last, changes[last]));
        assert(changes.contains_key(keys[keys.len() - 1]));
        assert(written(before, table, writes.last()).free =~= wanted.free);
        assert(all_written(stored, table, writes) =~= wanted);
    }
}

/// Writing a transition to a store and making it in memory come to the same.
pub proof fn law_transition_written_as_made<T>(
    before: PersistentIdAllocator<T>,
    after: PersistentIdAllocator<T>,
    writes: Seq<IdWrite>,
    changes: FreeChanges,
)
    requires
        writes.len() > 0,
        writes_slots(writes.drop_last(), before.table, changes),
        writes.last() == (IdWrite::State { table: before.table, state: after.state }),
        after.free@ == slots_changed(before.free@, changes),
    ensures
        all_written(
            StoredTable { free: before.free@, state: Some(before.state) },
            before.table,
            writes,
        ) == (StoredTable { free: after.free@, state: Some(after.state) }),
{
    let table = before.table;
    let stored = StoredTable { free: before.free@, state: Some(before.state) };
    let front = writes.drop_last();
    let keys = choose|keys: Seq<u32>|
        {
            &&& #[trigger] ascending(keys)
            &&& keys.to_set() == changes.dom()
            &&& front == Seq::new(
                keys.len(),
                |i: int| slot_write(table, keys[i], changes[keys[i]]),
            )
        };
    assert forall|i: int| 0 <= i < keys.len() implies changes.contains_key(#[trigger] keys[i]) by {
        assert(keys.to_set().contains(keys[i]));
    }
    lemma_slots_written(stored, table, keys, changes);
    assert(changes.restrict(keys.to_set()) =~= changes);
}

/// Which slots are touched when the first pending identities are taken.
proof fn lemma_first_taken<T>(allocator: PersistentIdAllocator<T>, reservations: Seq<Id<T>>)
    requires
        allocator.wf(),
        reservations.len() <= allocator.room(),
        forall|i: int|
            0 <= i < reservations.len() ==> #[trigger] reservations[i] == allocator.pending(i),
    ensures
        ({
            let keys = allocator.free.keys@;
            let next_index = allocator.state.next_index as int;
            let taken = slots_taken(reservations, next_index);
            let count = reservations.len();
            &&& forall|index: u32| #[trigger]
                taken.contains_key(index) <==> (exists|i: int|
                    0 <= i < keys.len() && i < count && #[trigger] keys[i] == index)
            &&& forall|index: u32| #[trigger] taken.contains_key(index) ==> taken[index] is None
            &&& next_after(reservations, next_index) == if count <= keys.len() {
                next_index
            } else {
                next_index + count - keys.len()
            }
        }),
    decreases reservations.len(),
{
    allocator.lemma_listing();
    let keys = allocator.free.keys@;
    let next_index = allocator.state.next_index as int;
    if reservations.len() > 0 {
        let front = reservations.drop_last();
        assert forall|i: int| 0 <= i < front.len() implies #[trigger] front[i]
            == allocator.pending(i) by {
            assert(reservations[i] == allocator.pending(i));
        }
        lemma_first_taken(allocator, front);
        let last = reservations.last();
        let at = reservations.len() - 1;
        assert(last == allocator.pending(at));
        let before = slots_taken(front, next_index);
        let taken = slots_taken(reservations, next_index);
        if at < keys.len() {
            allocator.free.lemma_entry(at);
            assert(allocator.free@.contains_key(keys[at]));
            assert(last.id == keys[at]);
        }
        assert forall|index: u32| #[trigger] taken.contains_key(index) <==> (exists|i: int|
            0 <= i < keys.len() && i < reservations.len() && #[trigger] keys[i] == index) by {
            assert(before.contains_key(index) <==> (exists|i: int|
                0 <= i < keys.len() && i < at && #[trigger] keys[i] == index));
            if exists|i: int| 0 <= i < keys.len() && i < reservations.len() && #[trigger] keys[i] == index {
                let i = choose|i: int| 0 <= i < keys.len() && i < reservations.len() && #[trigger] keys[i] == index;
                if i < at {
                    assert(keys[i] == index);
                }
            }
            if before.contains_key(index) {
                let i = choose|i: int| 0 <= i < keys.len() && i < at && #[trigger] keys[i] == index;
                assert(keys[i] == index);
            }
        }
    }
}

/// When the first pending identities are taken, those that were pending behind them come next.
pub proof fn law_reservations_advance<T>(
    before: PersistentIdAllocator<T>,
    after: PersistentIdAllocator<T>,
    reservations: Seq<Id<T>>,
    offset: int,
)
    requires
        before.wf(),
        after.free.wf(),
        reservations.len() <= before.room(),
        forall|i: int| 0 <= i < reservations.len() ==> #[trigger] reservations[i] == before.pending(i),
        after.state.next_index == next_after(reservations, before.state.next_index as int),
        after.free@ == slots_changed(
            before.free@,
            slots_taken(reservations, before.state.next_index as int),
        ),
        0 <= offset,
        reservations.len() + offset < before.room(),
    ensures
        after.pending(offset) == before.pending(reservations.len() + offset),
{
    lemma_first_taken(before, reservations);
    before.lemma_listing();
    after.lemma_listing();
    let keys = before.free.keys@;
    let count = reservations.len() as int;
    let cut = if count <= keys.len() {
        count
    } else {
        keys.len() as int
    };
    let rest = keys.skip(cut);
    let taken = slots_taken(reservations, before.state.next_index as int);
    assert forall|k: u32| rest.contains(k) <==> after.free.keys@.contains(k) by {
        assert(after.free.keys@.contains(k) <==> after.free@.contains_key(k));
        if rest.contains(k) {
            let i = rest.index_of(k);
            assert(keys[i + cut] == k);
            assert(keys.contains(k));
            if taken.contains_key(k) {
                let j = choose|j: int| 0 <= j < keys.len() && j < count && #[trigger] keys[j] == k;
                assert(keys[j].rank() < keys[i + cut].rank());
            }
        }
        if after.free@.contains_key(k) {
            assert(keys.contains(k));
            let i = keys.index_of(k);
            assert(keys[i] == k);
            if i < cut {
                assert(taken.contains_key(k));
                assert(false);
            }
            assert(rest[i - cut] == k);
        }
    }
    lemma_ascending_determined(rest, after.free.keys@);
    if offset < rest.len() {
        assert(rest[offset] == keys[offset + cut]);
        after.free.lemma_entry(offset);
        before.free.lemma_entry(offset + cut);
        if taken.contains_key(keys[offset + cut]) {
            let j = choose|j: int|
                0 <= j < keys.len() && j < count && #[trigger] keys[j] == keys[offset + cut];
            assert(keys[j].rank() < keys[offset + cut].rank());
        }
    }
}

} // verus!
