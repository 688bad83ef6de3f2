//! For each code block the functions that are made of it.
use vstd::prelude::*;

use crate::block::{CodeBlockEntity, CodeBlockId};
use crate::function::{FunctionEntity, FunctionId};
use crate::fx::{map_contains, map_get, map_insert, map_is_empty, map_keys, map_new, map_remove, FxMap};
use crate::id::{id_of_rank, Id, IdSet};
use crate::order::Ranked;

verus! {

/// Sets of functions, by block.
pub struct BlockHolders {
    sets: FxMap<IdSet<FunctionEntity>>,
}

/// The key of a block.
fn block_key(block: CodeBlockId) -> (key: u128)
    ensures
        key == block.rank(),
{
    block.key() as u128
}

impl View for BlockHolders {
    type V = Map<CodeBlockId, Set<FunctionId>>;

    closed spec fn view(&self) -> Map<CodeBlockId, Set<FunctionId>> {
        Map::new(
            |block: CodeBlockId| self.sets@.contains_key(block.rank() as u128),
            |block: CodeBlockId| self.sets@[block.rank() as u128]@,
        )
    }
}

/// The functions listed for a block: none where nothing is listed.
pub open spec fn held(
    holders: Map<CodeBlockId, Set<FunctionId>>,
    block: CodeBlockId,
) -> Set<FunctionId> {
    if holders.contains_key(block) {
        holders[block]
    } else {
        Set::empty()
    }
}

/// Whether a block is listed only where there is a function.
pub open spec fn none_empty(holders: Map<CodeBlockId, Set<FunctionId>>) -> bool {
    forall|block: CodeBlockId| #[trigger]
        holders.contains_key(block) ==> holders[block] != Set::<FunctionId>::empty()
}

impl BlockHolders {
    /// Every key is the key of a block.
    pub closed spec fn wf(&self) -> bool {
        forall|key: u128| #[trigger] self.sets@.contains_key(key) ==> key <= u64::MAX
    }

    pub fn new() -> (holders: Self)
        ensures
            holders.wf(),
            holders@ == Map::<CodeBlockId, Set<FunctionId>>::empty(),
    {
        let holders = BlockHolders { sets: map_new() };
        assert(holders@ =~= Map::<CodeBlockId, Set<FunctionId>>::empty());
        holders
    }

    pub fn contains(&self, block: CodeBlockId) -> (found: bool)
        ensures
            found == self@.contains_key(block),
    {
        map_contains(&self.sets, block_key(block))
    }

    pub fn is_empty(&self) -> (empty: bool)
        requires
            self.wf(),
        ensures
            empty == (self@ == Map::<CodeBlockId, Set<FunctionId>>::empty()),
    {
        let empty: bool = map_is_empty(&self.sets);
        proof {
            if empty {
                assert(self@ =~= Map::<CodeBlockId, Set<FunctionId>>::empty());
            } else {
                let key = choose|key: u128| #[trigger] self.sets@.contains_key(key);
                let block = id_of_rank::<CodeBlockEntity>(key as int);
                assert(block.rank() == key);
                assert(self@.contains_key(block));
            }
        }
        empty
    }

    /// The functions listed for a block, if any are.
    pub fn get(&self, block: CodeBlockId) -> (set: Option<&IdSet<FunctionEntity>>)
        ensures
            set is Some == self@.contains_key(block),
            set matches Some(s) ==> s@ == self@[block],
    {
        map_get(&self.sets, block_key(block))
    }

    /// The functions listed for a block: none where nothing is listed.
    pub fn get_or_empty(&self, block: CodeBlockId) -> (set: IdSet<FunctionEntity>)
        ensures
            set@ == held(self@, block),
    {
        match self.get(block) {
            Some(set) => set.clone(),
            None => IdSet::new(),
        }
    }

    /// Lists functions for a block.
    pub fn set(&mut self, block: CodeBlockId, set: IdSet<FunctionEntity>)
        requires
            old(self).wf(),
        ensures
            final(self).wf(),
            final(self)@ == old(self)@.insert(block, set@),
    {
        let ghost before = *self;
        map_insert(&mut self.sets, block_key(block), set);
        proof {
            assert forall|other: CodeBlockId| other.rank() == block.rank() implies other
                == block by {
                Id::lemma_rank_injective(other, block);
            }
            assert(self@ =~= before@.insert(block, set@));
        }
    }

    /// Takes out what is listed for a block.
    pub fn remove(&mut self, block: CodeBlockId) -> (set: Option<IdSet<FunctionEntity>>)
        requires
            old(self).wf(),
        ensures
            final(self).wf(),
            final(self)@ == old(self)@.remove(block),
            set is Some == old(self)@.contains_key(block),
            set matches Some(s) ==> s@ == old(self)@[block],
    {
        let ghost before = *self;
        let set: Option<IdSet<FunctionEntity>> = map_remove(&mut self.sets, block_key(block));
        proof {
            assert forall|other: CodeBlockId| other.rank() == block.rank() implies other
                == block by {
                Id::lemma_rank_injective(other, block);
            }
            assert(self@ =~= before@.remove(block));
        }
        set
    }

    /// The blocks that something is listed for, in some order.
    pub fn blocks(&self) -> (blocks: Vec<CodeBlockId>)
        requires
            self.wf(),
        ensures
            blocks@.no_duplicates(),
            forall|block: CodeBlockId| #[trigger]
                blocks@.contains(block) <==> self@.contains_key(block),
    {
        let keys: Vec<u128> = map_keys(&self.sets);
        let mut blocks: Vec<CodeBlockId> = Vec::new();
        let mut i: usize = 0;
        while i < keys.len()
            invariant
                self.wf(),
                i <= keys@.len(),
                forall|key: u128| #[trigger] keys@.contains(key) <==> self.sets@.contains_key(key),
                blocks@.len() == i,
                forall|j: int| 0 <= j < i ==> (#[trigger] blocks@[j]).rank() == keys@[j],
            decreases keys@.len() - i,
        {
            assert(keys@.contains(keys@[i as int]));
            blocks.push(Id::from_key(keys[i] as u64));
            i = i + 1;
        }
        proof {
            assert forall|a: int, b: int|
                0 <= a < blocks@.len() && 0 <= b < blocks@.len() && a != b implies blocks@[a]
                != blocks@[b] by {
                assert(blocks@[a].rank() == keys@[a]);
                assert(blocks@[b].rank() == keys@[b]);
            }
            assert forall|block: CodeBlockId| #[trigger]
                blocks@.contains(block) <==> self@.contains_key(block) by {
                if blocks@.contains(block) {
                    let j = blocks@.index_of(block);
                    assert(keys@.contains(keys@[j]));
                }
                if self@.contains_key(block) {
                    let key = block.rank() as u128;
                    assert(keys@.contains(key));
                    let j = keys@.index_of(key);
                    assert(blocks@[j].rank() == block.rank());
                    Id::lemma_rank_injective(blocks@[j], block);
                }
            }
        }
        blocks
    }

    /// Adds a function to those of a block.
    pub fn add_holder(&mut self, block: CodeBlockId, function: FunctionId)
        requires
            old(self).wf(),
        ensures
            final(self).wf(),
            final(self)@ == old(self)@.insert(block, held(old(self)@, block).insert(function)),
    {
        let ghost before = self@;
        let mut set: IdSet<FunctionEntity> = match self.remove(block) {
            Some(set) => set,
            None => IdSet::new(),
        };
        set.insert(function);
        self.set(block, set);
        proof {
            assert(self@ =~= before.insert(block, held(before, block).insert(function)));
        }
    }

    /// Takes a function away from those of a block. A block is not listed without one.
    pub fn drop_holder(&mut self, block: CodeBlockId, function: FunctionId)
        requires
            old(self).wf(),
        ensures
            final(self).wf(),
            final(self)@ == without_holder(old(self)@, block, function),
    {
        let ghost before = self@;
        match self.remove(block) {
            Some(mut set) => {
                set.remove(function);
                if !set.is_empty() {
                    self.set(block, set);
                }
            },
            None => {},
        }
        proof {
            assert(Set::<FunctionId>::empty().remove(function) =~= Set::empty());
            assert(self@ =~= without_holder(before, block, function));
        }
    }
}

/// What is left where a function is taken away from those of a block.
pub open spec fn without_holder(
    holders: Map<CodeBlockId, Set<FunctionId>>,
    block: CodeBlockId,
    function: FunctionId,
) -> Map<CodeBlockId, Set<FunctionId>> {
    let left = held(holders, block).remove(function);
    if left == Set::<FunctionId>::empty() {
        holders.remove(block)
    } else {
        holders.insert(block, left)
    }
}

} // verus!
