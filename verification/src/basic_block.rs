//! Straight runs of instructions and where they lead.
use vstd::prelude::*;

use crate::address::Address;
use crate::flags::BasicBlockProperties;
use crate::id::{Id, IdSet};
use crate::insn::InsnId;
use crate::types::ContextSet;

verus! {

pub struct BasicBlockEntity;

pub type BasicBlockId = Id<BasicBlockEntity>;

/// A straight run of instructions.
pub struct BasicBlock {
    pub id: BasicBlockId,
    pub start: Address,
    pub len: u16,
    pub instructions: Vec<InsnId>,
    pub successors: IdSet<BasicBlockEntity>,
    pub predecessors: IdSet<BasicBlockEntity>,
    pub properties: BasicBlockProperties,
    pub context: ContextSet,
}

impl BasicBlock {
    /// Makes a block without flags, neighbours or context.
    pub fn new(id: BasicBlockId, start: Address, len: usize, instructions: Vec<InsnId>) -> (block:
        Self)
        requires
            len <= u16::MAX,
        ensures
            block.id == id,
            block.start == start,
            block.len == len,
            block.instructions == instructions,
            block.properties.bits == BasicBlockProperties::NONE,
            block.successors@ == Set::<BasicBlockId>::empty(),
            block.predecessors@ == Set::<BasicBlockId>::empty(),
            block.context@ == Seq::<(u32, u64)>::empty(),
    {
        BasicBlock::new_with(id, start, len, instructions, ContextSet::new())
    }

    /// Makes a block without flags and neighbours.
    pub fn new_with(
        id: BasicBlockId,
        start: Address,
        len: usize,
        instructions: Vec<InsnId>,
        context: ContextSet,
    ) -> (block: Self)
        requires
            len <= u16::MAX,
        ensures
            block.id == id,
            block.start == start,
            block.len == len,
            block.instructions == instructions,
            block.properties.bits == BasicBlockProperties::NONE,
            block.successors@ == Set::<BasicBlockId>::empty(),
            block.predecessors@ == Set::<BasicBlockId>::empty(),
            block.context == context,
    {
        BasicBlock {
            id,
            start,
            len: len as u16,
            instructions,
            successors: IdSet::new(),
            predecessors: IdSet::new(),
            properties: BasicBlockProperties::empty(),
            context,
        }
    }

    pub fn start(&self) -> (start: Address)
        ensures
            start == self.start,
    {
        self.start
    }

    pub fn len(&self) -> (len: usize)
        ensures
            len == self.len,
    {
        self.len as usize
    }

    pub fn instructions(&self) -> (instructions: &Vec<InsnId>)
        ensures
            *instructions == self.instructions,
    {
        &self.instructions
    }

    /// Whether all but the flags is as it was.
    pub open spec fn flagged(&self, before: &BasicBlock, bits: u32) -> bool {
        &&& self.properties.bits == before.properties.bits | bits
        &&& self.id == before.id
        &&& self.start == before.start
        &&& self.len == before.len
        &&& self.instructions == before.instructions
        &&& self.successors == before.successors
        &&& self.predecessors == before.predecessors
        &&& self.context == before.context
    }

    pub fn mark_entry(&mut self)
        ensures
            final(self).flagged(old(self), BasicBlockProperties::ENTRY),
    {
        self.properties.insert(BasicBlockProperties::ENTRY);
    }

    pub fn mark_exit(&mut self)
        ensures
            final(self).flagged(old(self), BasicBlockProperties::EXIT),
    {
        self.properties.insert(BasicBlockProperties::EXIT);
    }

    pub fn mark_non_returning(&mut self)
        ensures
            final(self).flagged(old(self), BasicBlockProperties::NON_RETURNING),
    {
        self.properties.insert(BasicBlockProperties::NON_RETURNING);
    }

    pub fn mark_call(&mut self)
        ensures
            final(self).flagged(old(self), BasicBlockProperties::CALL),
    {
        self.properties.insert(BasicBlockProperties::CALL);
    }

    /// Marks a tail call, which is a call too.
    pub fn mark_tail_call(&mut self)
        ensures
            final(self).flagged(old(self), BasicBlockProperties::TAIL_CALL | BasicBlockProperties::CALL),
    {
        self.properties.insert(BasicBlockProperties::TAIL_CALL | BasicBlockProperties::CALL);
    }

    pub fn mark_unresolved(&mut self)
        ensures
            final(self).flagged(old(self), BasicBlockProperties::UNRESOLVED),
    {
        self.properties.insert(BasicBlockProperties::UNRESOLVED);
    }

    pub fn is_entry(&self) -> (marked: bool)
        ensures
            marked == (self.properties.bits & BasicBlockProperties::ENTRY
                == BasicBlockProperties::ENTRY),
    {
        self.properties.contains(BasicBlockProperties::ENTRY)
    }

    pub fn is_exit(&self) -> (marked: bool)
        ensures
            marked == (self.properties.bits & BasicBlockProperties::EXIT
                == BasicBlockProperties::EXIT),
    {
        self.properties.contains(BasicBlockProperties::EXIT)
    }

    pub fn is_non_returning(&self) -> (marked: bool)
        ensures
            marked == (self.properties.bits & BasicBlockProperties::NON_RETURNING
                == BasicBlockProperties::NON_RETURNING),
    {
        self.properties.contains(BasicBlockProperties::NON_RETURNING)
    }

    pub fn is_call(&self) -> (marked: bool)
        ensures
            marked == (self.properties.bits & BasicBlockProperties::CALL
                == BasicBlockProperties::CALL),
    {
        self.properties.contains(BasicBlockProperties::CALL)
    }

    pub fn is_tail_call(&self) -> (marked: bool)
        ensures
            marked == (self.properties.bits & BasicBlockProperties::TAIL_CALL
                == BasicBlockProperties::TAIL_CALL),
    {
        self.properties.contains(BasicBlockProperties::TAIL_CALL)
    }

    pub fn has_unresolved(&self) -> (marked: bool)
        ensures
            marked == (self.properties.bits & BasicBlockProperties::UNRESOLVED
                == BasicBlockProperties::UNRESOLVED),
    {
        self.properties.contains(BasicBlockProperties::UNRESOLVED)
    }

    pub fn context(&self) -> (context: &ContextSet)
        ensures
            *context == self.context,
    {
        &self.context
    }

    pub fn add_successor(&mut self, target: BasicBlockId)
        ensures
            final(self).successors@ == old(self).successors@.insert(target),
            final(self).predecessors == old(self).predecessors,
            final(self).properties == old(self).properties,
            final(self).id == old(self).id,
            final(self).start == old(self).start,
            final(self).len == old(self).len,
            final(self).instructions == old(self).instructions,
            final(self).context == old(self).context,
    {
        let _ = self.successors.insert(target);
    }

    pub fn add_predecessor(&mut self, source: BasicBlockId)
        ensures
            final(self).predecessors@ == old(self).predecessors@.insert(source),
            final(self).successors == old(self).successors,
            final(self).properties == old(self).properties,
            final(self).id == old(self).id,
            final(self).start == old(self).start,
            final(self).len == old(self).len,
            final(self).instructions == old(self).instructions,
            final(self).context == old(self).context,
    {
        let _ = self.predecessors.insert(source);
    }

    pub fn successors(&self) -> (successors: &IdSet<BasicBlockEntity>)
        ensures
            *successors == self.successors,
    {
        &self.successors
    }

    pub fn predecessors(&self) -> (predecessors: &IdSet<BasicBlockEntity>)
        ensures
            *predecessors == self.predecessors,
    {
        &self.predecessors
    }
}

/// A tail call counts as a call, and marking one thing takes no other mark away.
pub proof fn law_marks_accumulate(before: BasicBlock, after: BasicBlock, bits: u32, other: u32)
    requires
        after.flagged(&before, bits),
    ensures
        after.properties.bits & bits == bits,
        before.properties.bits & other == other ==> after.properties.bits & other == other,
        bits == BasicBlockProperties::TAIL_CALL | BasicBlockProperties::CALL
            ==> after.properties.bits & BasicBlockProperties::CALL == BasicBlockProperties::CALL,
{
    let old_bits = before.properties.bits;
    assert((old_bits | bits) & bits == bits) by (bit_vector);
    assert(old_bits & other == other ==> (old_bits | bits) & other == other) by (bit_vector);
    assert(bits == 0x10u32 | 0x8u32 ==> (old_bits | bits) & 0x8u32 == 0x8u32) by (bit_vector);
}

} // verus!
