//! Functions under construction.
use ustr::Ustr;
use vstd::prelude::*;

use crate::address::{Address, AddressRange, AddressWithContext, RawAddress};
use crate::address_set::AddressRangeSet;
use crate::block::{
    insn_views, kept, leaving_flows, recorded, span_range, spans, CodeBlockId, CodeBlockRecord,
    IncompleteCodeBlock, IncompleteCodeBlockId, IncompleteCodeBlockEntity, IncompleteCodeBlockView,
    flows_inside,
};
use crate::coalesce::{all_classified, classify, coalesce_flows, coalesces};
use crate::flags::{FunctionProperties, InsnProperties};
use crate::flow::FlowTarget;
use crate::function::{blank_function, by_address, lists_block, Function, FunctionId, FunctionView};
use crate::id::Id;
use crate::ids_by_address::IdsByAddress;
use crate::insn::{address_after, Insn, InsnEntity, InsnId, InsnView};
use crate::order::{ascending, sort_keys, sorts, Ranked, SortedSet};
use crate::reference::{Reference, ReferenceOrigin};
use crate::switch::Switch;
use crate::types::{Confidence, Revision};

verus! {

/// Where the instructions of a function under construction are, by address.
pub type FunctionInsnIndex = IdsByAddress<InsnEntity>;

/// Why a function could not be built.
#[derive(Debug)]
pub enum IncompleteFunctionError {
    BlockCreation(String),
    FunctionCreation(String),
    InvalidBlockId(IncompleteCodeBlockId),
    InvalidBlockSize { address: Address },
    InvalidInsnId(InsnId),
    MissingCodeBlock(CodeBlockId),
}

impl IncompleteFunctionError {
    pub fn block_creation(message: String) -> (error: Self)
        ensures
            error == IncompleteFunctionError::BlockCreation(message),
    {
        IncompleteFunctionError::BlockCreation(message)
    }

    pub fn function_creation(message: String) -> (error: Self)
        ensures
            error == IncompleteFunctionError::FunctionCreation(message),
    {
        IncompleteFunctionError::FunctionCreation(message)
    }

    pub fn invalid_block_id(id: IncompleteCodeBlockId) -> (error: Self)
        ensures
            error == IncompleteFunctionError::InvalidBlockId(id),
    {
        IncompleteFunctionError::InvalidBlockId(id)
    }

    pub fn invalid_block_size(address: Address) -> (error: Self)
        ensures
            error == (IncompleteFunctionError::InvalidBlockSize { address }),
    {
        IncompleteFunctionError::InvalidBlockSize { address }
    }

    pub fn invalid_insn_id(id: InsnId) -> (error: Self)
        ensures
            error == IncompleteFunctionError::InvalidInsnId(id),
    {
        IncompleteFunctionError::InvalidInsnId(id)
    }

    pub fn missing_code_block(id: CodeBlockId) -> (error: Self)
        ensures
            error == IncompleteFunctionError::MissingCodeBlock(id),
    {
        IncompleteFunctionError::MissingCodeBlock(id)
    }
}

/// A function under construction: its instructions, and the blocks they form.
pub struct IncompleteFunction {
    pub name: Option<Ustr>,
    pub entry: Address,
    pub entry_block: IncompleteCodeBlockId,
    pub blocks: Vec<IncompleteCodeBlock>,
    pub block_generation: u32,
    pub insns: Vec<Insn>,
    pub insn_generation: u32,
    pub insn_index: FunctionInsnIndex,
    pub insns_unsorted: bool,
    pub properties: FunctionProperties,
    pub origin: ReferenceOrigin,
    pub confidence: Confidence,
    pub input_revision: Revision,
    pub pending_switches: Vec<Switch>,
    pub tail_call_sites: Vec<Address>,
}

/// Whether the instructions stand in ascending order of their addresses.
pub open spec fn insns_ascend(insns: Seq<Insn>) -> bool {
    forall|i: int, j: int|
        0 <= i < j < insns.len() ==> (#[trigger] insns[i]).address.rank() < (#[trigger]
        insns[j]).address.rank()
}

/// Whether no two instructions have one address.
pub open spec fn insns_distinct(insns: Seq<Insn>) -> bool {
    forall|i: int, j: int|
        0 <= i < j < insns.len() ==> (#[trigger] insns[i]).address != (#[trigger] insns[j]).address
}

/// Whether one of the instructions has the address.
pub open spec fn some_insn_at(insns: Seq<Insn>, address: Address) -> bool {
    exists|i: int| 0 <= i < insns.len() && (#[trigger] insns[i]).address == address
}

/// Whether an index leads from the address of each instruction to its place, and from nowhere
/// else.
pub open spec fn indexes(
    index: Map<Address, Seq<InsnId>>,
    insns: Seq<Insn>,
    generation: u32,
) -> bool {
    &&& forall|i: int|
        0 <= i < insns.len() ==> index.contains_key((#[trigger] insns[i]).address)
            && index[insns[i].address] == seq![place_id::<InsnEntity>(i, generation)]
    &&& forall|a: Address| #[trigger] index.contains_key(a) ==> some_insn_at(insns, a)
}

/// The identity of the entry at a place.
pub open spec fn place_id<T>(place: int, generation: u32) -> Id<T> {
    Id { id: place as u32, generation, marker: core::marker::PhantomData }
}

impl IncompleteFunction {
    /// The instructions have different addresses and are found by them, the blocks stand in
    /// the order of their addresses, and the entry block is one of them.
    pub open spec fn wf(&self) -> bool {
        &&& self.insns@.len() < u32::MAX
        &&& self.blocks@.len() < u32::MAX
        &&& self.insn_generation < u32::MAX
        &&& self.block_generation < u32::MAX
        &&& insns_distinct(self.insns@)
        &&& !self.insns_unsorted ==> insns_ascend(self.insns@)
        &&& self.insn_index.wf()
        &&& self.insn_index@ == Map::<Address, Seq<InsnId>>::empty() || indexes(
            self.insn_index@,
            self.insns@,
            self.insn_generation,
        )
        &&& forall|i: int, j: int|
            0 <= i < j < self.blocks@.len() ==> (#[trigger] self.blocks@[i]).start.rank() <= (
            #[trigger] self.blocks@[j]).start.rank()
        &&& self.entry_block.id != u32::MAX ==> self.block_place(self.entry_block) is Some
        &&& ascending(self.tail_call_sites@)
    }

    /// The place of the instruction with an identity.
    pub open spec fn insn_place(&self, id: InsnId) -> Option<int> {
        if id.id != u32::MAX && id.generation == self.insn_generation && id.id < self.insns@.len() {
            Some(id.id as int)
        } else {
            None
        }
    }

    /// The place of the block with an identity.
    pub open spec fn block_place(&self, id: IncompleteCodeBlockId) -> Option<int> {
        if id.id != u32::MAX && id.generation == self.block_generation && id.id
            < self.blocks@.len() {
            Some(id.id as int)
        } else {
            None
        }
    }

    pub open spec fn has_insn_at(&self, address: Address) -> bool {
        some_insn_at(self.insns@, address)
    }

    pub fn new(entry: Address) -> (function: Self)
        ensures
            function.wf(),
            function.is_blank(None, entry),
    {
        IncompleteFunction::new_with(None, entry)
    }

    /// Whether this is a function that nothing but the entry and the name is known of.
    pub open spec fn is_blank(&self, name: Option<Ustr>, entry: Address) -> bool {
        &&& self.name == name
        &&& self.entry == entry
        &&& self.entry_block == IncompleteCodeBlockId::none()
        &&& self.blocks@ == Seq::<IncompleteCodeBlock>::empty()
        &&& self.block_generation == 0
        &&& self.insns@ == Seq::<Insn>::empty()
        &&& self.insn_generation == 0
        &&& self.insn_index@ == Map::<Address, Seq<InsnId>>::empty()
        &&& !self.insns_unsorted
        &&& self.properties.bits == 0
        &&& self.origin is Derived
        &&& self.confidence is Certain
        &&& self.input_revision.0 == 0
        &&& self.pending_switches@ == Seq::<Switch>::empty()
        &&& self.tail_call_sites@ == Seq::<Address>::empty()
    }

    pub fn new_with(name: Option<Ustr>, entry: Address) -> (function: Self)
        ensures
            function.wf(),
            function.is_blank(name, entry),
    {
        IncompleteFunction {
            name,
            entry,
            entry_block: Id::invalid(),
            blocks: Vec::new(),
            block_generation: 0,
            insns: Vec::new(),
            insn_generation: 0,
            insn_index: IdsByAddress::new(),
            insns_unsorted: false,
            properties: FunctionProperties::empty(),
            origin: ReferenceOrigin::Derived,
            confidence: Confidence::certain(),
            input_revision: Revision::default(),
            pending_switches: Vec::new(),
            tail_call_sites: Vec::new(),
        }
    }

    /// A blank function with an index to fill, which must be empty.
    pub fn with_recycled_insn_index(entry: Address, insn_index: FunctionInsnIndex) -> (function:
        Self)
        requires
            insn_index.wf(),
            insn_index@ == Map::<Address, Seq<InsnId>>::empty(),
        ensures
            function.wf(),
            function.is_blank(None, entry),
    {
        let mut function: IncompleteFunction = IncompleteFunction::new(entry);
        function.insn_index = insn_index;
        function
    }

    /// Whether an instruction has the address.
    pub fn contains_insn(&self, address: Address) -> (found: bool)
        requires
            self.wf(),
        ensures
            found == self.has_insn_at(address),
    {
        if !self.insn_index.is_empty() {
            let found: bool = self.insn_index.contains(address);
            proof {
                if self.has_insn_at(address) {
                    let i = choose|i: int|
                        0 <= i < self.insns@.len() && (#[trigger] self.insns@[i]).address == address;
                    assert(self.insn_index@.contains_key(self.insns@[i].address));
                }
            }
            return found;
        }
        if self.insns_unsorted {
            let mut i: usize = 0;
            while i < self.insns.len()
                invariant
                    i <= self.insns@.len(),
                    forall|j: int| 0 <= j < i ==> (#[trigger] self.insns@[j]).address != address,
                decreases self.insns@.len() - i,
            {
                if self.insns[i].address() == address {
                    return true;
                }
                i = i + 1;
            }
            return false;
        }
        let at: usize = lower_insn(&self.insns, address);
        let found: bool = at < self.insns.len() && self.insns[at].address() == address;
        proof {
            if self.has_insn_at(address) {
                let i = choose|i: int|
                    0 <= i < self.insns@.len() && (#[trigger] self.insns@[i]).address == address;
                if i > at {
                    assert(self.insns@[at as int].address.rank() < self.insns@[i].address.rank());
                }
            }
        }
        found
    }

    pub fn insn(&self, id: InsnId) -> (insn: Option<&Insn>)
        ensures
            insn is Some == self.insn_place(id) is Some,
            insn matches Some(i) ==> *i == self.insns@[self.insn_place(id)->0],
    {
        if id.is_invalid() || id.generation() != self.insn_generation {
            return None;
        }
        let index: usize = id.index();
        if index < self.insns.len() {
            Some(&self.insns[index])
        } else {
            None
        }
    }

    /// Access to an instruction. What is known of the function stays true if the instruction
    /// keeps its address.
    pub fn insn_mut(&mut self, id: InsnId) -> (insn: Option<&mut Insn>)
        requires
            old(self).wf(),
        ensures
            insn is Some == old(self).insn_place(id) is Some,
            match insn {
                Some(i) => {
                    let place = old(self).insn_place(id)->0;
                    &&& *i == old(self).insns@[place]
                    &&& final(self).insns@ == old(self).insns@.update(place, *final(i))
                    &&& *final(self) == (IncompleteFunction {
                        insns: final(self).insns,
                        ..*old(self)
                    })
                    &&& final(i).address == i.address ==> final(self).wf()
                },
                None => *final(self) == *old(self),
            },
    {
        if id.is_invalid() || id.generation() != self.insn_generation {
            return None;
        }
        let index: usize = id.index();
        if index < self.insns.len() {
            let ghost before = *self;
            proof {
                assert forall|after: IncompleteFunction, insn: Insn|
                    #![trigger after.wf(), before.insns@.update(index as int, insn)]
                    after == (IncompleteFunction { insns: after.insns, ..before })
                        && after.insns@ == before.insns@.update(index as int, insn)
                        && insn.address == before.insns@[index as int].address implies
                    after.wf() by {
                    lemma_same_addresses(before, after);
                }
            }
            Some(&mut self.insns[index])
        } else {
            None
        }
    }

    pub fn has_insns(&self) -> (r: bool)
        ensures
            r == (self.insns@.len() > 0),
    {
        self.insns.len() > 0
    }

    pub fn insns(&self) -> (insns: &[Insn])
        ensures
            insns@ == self.insns@,
    {
        self.insns.as_slice()
    }
}

/// The first place whose instruction does not come before an address.
pub fn lower_insn(insns: &Vec<Insn>, address: Address) -> (at: usize)
    requires
        insns_ascend(insns@),
    ensures
        at <= insns@.len(),
        forall|i: int| 0 <= i < at ==> (#[trigger] insns@[i]).address.rank() < address.rank(),
        forall|i: int|
            at <= i < insns@.len() ==> address.rank() <= (#[trigger] insns@[i]).address.rank(),
{
    let mut low: usize = 0;
    let mut high: usize = insns.len();
    while low < high
        invariant
            low <= high <= insns@.len(),
            insns_ascend(insns@),
            forall|i: int| 0 <= i < low ==> (#[trigger] insns@[i]).address.rank() < address.rank(),
            forall|i: int|
                high <= i < insns@.len() ==> address.rank() <= (#[trigger]
                insns@[i]).address.rank(),
        decreases high - low,
    {
        let middle: usize = low + (high - low) / 2;
        if insns[middle].address().precedes(&address) {
            low = middle + 1;
        } else {
            high = middle;
        }
    }
    low
}

/// Whether the invariant holds depends on the addresses of the instructions only.
proof fn lemma_same_addresses(before: IncompleteFunction, after: IncompleteFunction)
    requires
        before.wf(),
        after == (IncompleteFunction { insns: after.insns, ..before }),
        after.insns@.len() == before.insns@.len(),
        forall|i: int|
            0 <= i < before.insns@.len() ==> (#[trigger] after.insns@[i]).address
                == before.insns@[i].address,
    ensures
        after.wf(),
{
    if after.insn_index@ != Map::<Address, Seq<InsnId>>::empty() {
        assert forall|a: Address| #[trigger] after.insn_index@.contains_key(a) implies some_insn_at(
            after.insns@,
            a,
        ) by {
            let i = choose|i: int|
                0 <= i < before.insns@.len() && (#[trigger] before.insns@[i]).address == a;
            assert(after.insns@[i].address == a);
        }
        assert forall|i: int| 0 <= i < after.insns@.len() implies after.insn_index@.contains_key(
            (#[trigger] after.insns@[i]).address,
        ) && after.insn_index@[after.insns@[i].address] == seq![
            place_id::<InsnEntity>(i, after.insn_generation),
        ] by {
            assert(after.insns@[i].address == before.insns@[i].address);
            assert(before.insns@[i] == before.insns@[i]);
        }
    }
    assert forall|i: int, j: int| 0 <= i < j < after.insns@.len() implies (#[trigger]
    after.insns@[i]).address != (#[trigger] after.insns@[j]).address by {
        assert(before.insns@[i].address != before.insns@[j].address);
    }
    if !after.insns_unsorted {
        assert forall|i: int, j: int| 0 <= i < j < after.insns@.len() implies (#[trigger]
        after.insns@[i]).address.rank() < (#[trigger] after.insns@[j]).address.rank() by {
            assert(before.insns@[i].address.rank() < before.insns@[j].address.rank());
        }
    }
}

/// An index from the addresses of instructions to their places.
fn index_insns(index: &mut FunctionInsnIndex, insns: &Vec<Insn>, generation: u32)
    requires
        old(index).wf(),
        old(index)@ == Map::<Address, Seq<InsnId>>::empty(),
        insns@.len() < u32::MAX,
        insns_distinct(insns@),
    ensures
        final(index).wf(),
        indexes(final(index)@, insns@, generation),
{
    let mut i: usize = 0;
    while i < insns.len()
        invariant
            i <= insns@.len(),
            insns@.len() < u32::MAX,
            insns_distinct(insns@),
            index.wf(),
            indexes(index@, insns@.take(i as int), generation),
        decreases insns@.len() - i,
    {
        let address: Address = insns[i].address();
        let ghost before = index@;
        let ghost (done, more) = (insns@.take(i as int), insns@.take(i + 1));
        assert(!before.contains_key(address)) by {
            if before.contains_key(address) {
                let j = choose|j: int|
                    0 <= j < done.len() && (#[trigger] done[j]).address == address;
                assert(insns@[j].address == insns@[i as int].address);
            }
        }
        let id: InsnId = Id::with_generation(i as u32, generation);
        index.insert(address, id);
        proof {
            Id::lemma_parts(id, place_id::<InsnEntity>(i as int, generation));
            assert forall|j: int| 0 <= j < more.len() implies index@.contains_key(
                (#[trigger] more[j]).address,
            ) && index@[more[j].address] == seq![place_id::<InsnEntity>(j, generation)] by {
                if j < i {
                    assert(done[j] == more[j]);
                    assert(insns@[j].address != insns@[i as int].address);
                }
            }
            assert forall|a: Address| #[trigger] index@.contains_key(a) implies some_insn_at(
                more,
                a,
            ) by {
                if a == address {
                    assert(more[i as int].address == a);
                } else {
                    let j = choose|j: int|
                        0 <= j < done.len() && (#[trigger] done[j]).address == a;
                    assert(more[j].address == a);
                }
            }
        }
        i = i + 1;
    }
    assert(insns@.take(i as int) =~= insns@);
}

/// Whether two functions differ at most in how their instructions are found.
pub open spec fn same_but_index(a: IncompleteFunction, b: IncompleteFunction) -> bool {
    a == (IncompleteFunction { insn_index: a.insn_index, ..b })
}

/// Whether `id` is what is to be said of the instruction at an address.
pub open spec fn first_at(function: IncompleteFunction, address: Address, id: Option<InsnId>) -> bool {
    match id {
        Some(id) => {
            let i = id.id as int;
            &&& 0 <= i < function.insns@.len()
            &&& function.insns@[i].address == address
            &&& id == place_id::<InsnEntity>(i, function.insn_generation)
        },
        None => !function.has_insn_at(address),
    }
}

impl IncompleteFunction {
    /// Makes sure that the instructions are found by an index, if there are any.
    fn ensure_insn_index(&mut self)
        requires
            old(self).wf(),
        ensures
            final(self).wf(),
            same_but_index(*final(self), *old(self)),
            final(self).insns@.len() > 0 ==> indexes(
                final(self).insn_index@,
                final(self).insns@,
                final(self).insn_generation,
            ),
            final(self).insns@.len() == 0 ==> final(self).insn_index@ == Map::<
                Address,
                Seq<InsnId>,
            >::empty(),
    {
        proof {
            if self.insns@.len() == 0 && self.insn_index@ != Map::<Address, Seq<InsnId>>::empty() {
                assert(self.insn_index@ =~= Map::<Address, Seq<InsnId>>::empty());
            }
        }
        if !self.insn_index.is_empty() || self.insns.len() == 0 {
            return ;
        }
        let generation: u32 = self.insn_generation;
        index_insns(&mut self.insn_index, &self.insns, generation);
    }

    /// The identity that an index gives for an address.
    proof fn lemma_indexed_first(&self, address: Address, id: Option<InsnId>)
        requires
            self.wf(),
            indexes(self.insn_index@, self.insns@, self.insn_generation) || (self.insns@.len() == 0
                && self.insn_index@ == Map::<Address, Seq<InsnId>>::empty()),
            id is Some == self.insn_index@.contains_key(address),
            id matches Some(i) ==> i == self.insn_index@[address].first(),
        ensures
            first_at(*self, address, id),
    {
        match id {
            Some(_) => {
                let j = choose|j: int|
                    0 <= j < self.insns@.len() && (#[trigger] self.insns@[j]).address == address;
                assert(self.insn_index@[self.insns@[j].address] == seq![
                    place_id::<InsnEntity>(j, self.insn_generation),
                ]);
            },
            None => {
                if self.has_insn_at(address) {
                    let j = choose|j: int|
                        0 <= j < self.insns@.len() && (#[trigger] self.insns@[j]).address == address;
                    assert(self.insn_index@.contains_key(self.insns@[j].address));
                }
            },
        }
    }

    /// The identity of the instruction at an address.
    pub fn first_insn_id_at(&mut self, address: Address) -> (id: Option<InsnId>)
        requires
            old(self).wf(),
        ensures
            final(self).wf(),
            same_but_index(*final(self), *old(self)),
            first_at(*final(self), address, id),
            !old(self).insns_unsorted && old(self).insn_index@ == Map::<
                Address,
                Seq<InsnId>,
            >::empty() ==> *final(self) == *old(self),
    {
        if self.insn_index.is_empty() && !self.insns_unsorted {
            let at: usize = lower_insn(&self.insns, address);
            if at < self.insns.len() && self.insns[at].address() == address {
                let id: InsnId = Id::with_generation(at as u32, self.insn_generation);
                proof {
                    Id::lemma_parts(id, place_id::<InsnEntity>(at as int, self.insn_generation));
                }
                return Some(id);
            }
            proof {
                if self.has_insn_at(address) {
                    let i = choose|i: int|
                        0 <= i < self.insns@.len() && (#[trigger] self.insns@[i]).address == address;
                    if i > at {
                        assert(self.insns@[at as int].address.rank()
                            < self.insns@[i].address.rank());
                    }
                }
            }
            return None;
        }
        self.ensure_insn_index();
        let id: Option<InsnId> = self.insn_index.first(address);
        proof {
            self.lemma_indexed_first(address, id);
        }
        id
    }

    /// The instructions at an address, of which there is at most one.
    pub fn insns_at(&self, address: Address) -> (found: Vec<&Insn>)
        requires
            self.wf(),
        ensures
            found@.len() == if self.has_insn_at(address) {
                1nat
            } else {
                0nat
            },
            forall|i: int|
                0 <= i < found@.len() ==> (#[trigger] found@[i]).address == address
                    && self.insns@.contains(*found@[i]),
    {
        let mut found: Vec<&Insn> = Vec::new();
        if !self.insn_index.is_empty() {
            match self.insn_index.first(address) {
                Some(id) => {
                    proof {
                        self.lemma_indexed_first(address, Some(id));
                        assert(self.insns@[id.id as int].address == address);
                    }
                    match self.insn(id) {
                        Some(insn) => {
                            found.push(insn);
                            assert(self.insns@.contains(*insn));
                        },
                        None => {},
                    }
                },
                None => {
                    proof {
                        self.lemma_indexed_first(address, None);
                    }
                },
            }
            return found;
        }
        if self.insns_unsorted {
            let mut i: usize = 0;
            while i < self.insns.len()
                invariant
                    i <= self.insns@.len(),
                    insns_distinct(self.insns@),
                    found@.len() == 0 ==> forall|j: int|
                        0 <= j < i ==> (#[trigger] self.insns@[j]).address != address,
                    found@.len() > 0 ==> found@.len() == 1 && found@[0].address == address
                        && self.insns@.contains(*found@[0]) && self.has_insn_at(address) && exists|
                        j: int,
                    |
                        0 <= j < i && (#[trigger] self.insns@[j]).address == address,
                decreases self.insns@.len() - i,
            {
                let insn: &Insn = &self.insns[i];
                if insn.address() == address {
                    proof {
                        if found@.len() > 0 {
                            let j = choose|j: int|
                                0 <= j < i && (#[trigger] self.insns@[j]).address == address;
                            assert(self.insns@[j].address != self.insns@[i as int].address);
                        }
                    }
                    found.push(insn);
                    assert(self.insns@[i as int] == *insn);
                    assert(self.insns@.contains(*insn));
                }
                i = i + 1;
            }
            return found;
        }
        let at: usize = lower_insn(&self.insns, address);
        if at < self.insns.len() && self.insns[at].address() == address {
            found.push(&self.insns[at]);
            assert(self.insns@.contains(self.insns@[at as int]));
        } else {
            proof {
                if self.has_insn_at(address) {
                    let i = choose|i: int|
                        0 <= i < self.insns@.len() && (#[trigger] self.insns@[i]).address == address;
                    if i > at {
                        assert(self.insns@[at as int].address.rank()
                            < self.insns@[i].address.rank());
                    }
                }
            }
        }
        found
    }

    /// The entry for an address: the instruction there, or a place to put one.
    pub fn insn_entry(&mut self, address: Address) -> (entry: InsnEntry<'_>)
        requires
            old(self).wf(),
        ensures
            match entry {
                InsnEntry::Occupied(occupied) => {
                    &&& first_at(*old(self), address, Some(occupied.id))
                    &&& occupied.function.wf()
                    &&& same_but_index(*occupied.function, *old(self))
                    &&& *final(occupied.function) == *final(self)
                },
                InsnEntry::Vacant(vacant) => {
                    &&& !old(self).has_insn_at(address)
                    &&& vacant.address == address
                    &&& vacant.function.wf()
                    &&& same_but_index(*vacant.function, *old(self))
                    &&& !(vacant.function.insns@.len() > 0 && vacant.function.insns@.last().address.rank()
                        < address.rank() && !vacant.function.insns_unsorted) ==> (
                    vacant.function.insns@.len() > 0 ==> indexes(
                        vacant.function.insn_index@,
                        vacant.function.insns@,
                        vacant.function.insn_generation,
                    ))
                    &&& old(self).insns@.len() > 0 && old(self).insns@.last().address.rank()
                        < address.rank() && !old(self).insns_unsorted ==> *vacant.function == *old(
                        self)
                    &&& *final(vacant.function) == *final(self)
                },
            },
    {
        let count: usize = self.insns.len();
        let append: bool = !self.insns_unsorted && count > 0
            && self.insns[count - 1].address().precedes(&address);
        if append {
            proof {
                if self.has_insn_at(address) {
                    let i = choose|i: int|
                        0 <= i < self.insns@.len() && (#[trigger] self.insns@[i]).address == address;
                    if i < count - 1 {
                        assert(self.insns@[i].address.rank() < self.insns@[count - 1].address.rank());
                    }
                }
            }
            return InsnEntry::Vacant(VacantInsnEntry { address, function: self });
        }
        self.ensure_insn_index();
        let existing: Option<InsnId> = self.insn_index.first(address);
        proof {
            self.lemma_indexed_first(address, existing);
        }
        match existing {
            Some(id) => InsnEntry::Occupied(OccupiedInsnEntry { id, function: self }),
            None => InsnEntry::Vacant(VacantInsnEntry { address, function: self }),
        }
    }

    /// Puts the instructions in the order of their addresses. Where they were not, they get
    /// other identities.
    pub fn sort_insns_by_address(&mut self)
        requires
            old(self).wf(),
            old(self).insns_unsorted ==> old(self).insn_generation + 1 < u32::MAX,
        ensures
            final(self).wf(),
            !old(self).insns_unsorted ==> *final(self) == *old(self),
            old(self).insns_unsorted ==> {
                &&& !final(self).insns_unsorted
                &&& insns_ascend(final(self).insns@)
                &&& final(self).insns@.to_multiset() == old(self).insns@.to_multiset()
                &&& final(self).insn_generation == old(self).insn_generation + 1
                &&& *final(self) == (IncompleteFunction {
                    insns: final(self).insns,
                    insn_generation: final(self).insn_generation,
                    insn_index: final(self).insn_index,
                    insns_unsorted: false,
                    ..*old(self)
                })
            },
    {
        if !self.insns_unsorted {
            return ;
        }
        let ghost before = *self;
        let mut unsorted: Vec<Insn> = Vec::new();
        core::mem::swap(&mut unsorted, &mut self.insns);
        let sorted: Vec<Insn> = sort_insns(unsorted);
        self.insns = sorted;
        let generation: u32 = self.insn_generation + 1;
        self.insn_generation = generation;
        self.insn_index.clear();
        proof {
            lemma_ascending_distinct(self.insns@);
            before.insns@.to_multiset_ensures();
            self.insns@.to_multiset_ensures();
        }
        index_insns(&mut self.insn_index, &self.insns, generation);
        self.insns_unsorted = false;
    }

    /// Forgets the index and hands it out, empty, to be used again.
    pub fn recycle_insn_index(&mut self) -> (index: FunctionInsnIndex)
        requires
            old(self).wf(),
        ensures
            index.wf(),
            index@ == Map::<Address, Seq<InsnId>>::empty(),
            final(self).wf(),
            same_but_index(*final(self), *old(self)),
            final(self).insn_index@ == Map::<Address, Seq<InsnId>>::empty(),
    {
        let mut index: FunctionInsnIndex = IdsByAddress::new();
        core::mem::swap(&mut index, &mut self.insn_index);
        index.clear();
        index
    }

    /// The identity of the instruction at a place.
    pub fn insn_id(&self, index: usize) -> (id: Option<InsnId>)
        requires
            self.wf(),
        ensures
            id is Some == (index < self.insns@.len()),
            id matches Some(i) ==> i == place_id::<InsnEntity>(index as int, self.insn_generation),
    {
        if index < self.insns.len() {
            let id: InsnId = Id::with_generation(index as u32, self.insn_generation);
            proof {
                Id::lemma_parts(id, place_id::<InsnEntity>(index as int, self.insn_generation));
            }
            Some(id)
        } else {
            None
        }
    }
}

/// Instructions in ascending order have different addresses.
proof fn lemma_ascending_distinct(insns: Seq<Insn>)
    requires
        insns_ascend(insns),
    ensures
        insns_distinct(insns),
{
}

/// Puts instructions with different addresses in the order of the addresses.
fn sort_insns(insns: Vec<Insn>) -> (sorted: Vec<Insn>)
    requires
        insns_distinct(insns@),
    ensures
        insns_ascend(sorted@),
        sorted@.to_multiset() == insns@.to_multiset(),
{
    let ghost all = insns@;
    let mut left: Vec<Insn> = insns;
    let mut sorted: Vec<Insn> = Vec::new();
    proof {
        all.to_multiset_ensures();
        assert(all.to_multiset().add(sorted@.to_multiset()) =~= all.to_multiset()) by {
            sorted@.to_multiset_ensures();
        }
    }
    while left.len() > 0
        invariant
            insns_ascend(sorted@),
            left@.len() <= all.len(),
            left@ == all.take(left@.len() as int),
            insns_distinct(all),
            left@.to_multiset().add(sorted@.to_multiset()) == all.to_multiset(),
            forall|i: int|
                0 <= i < sorted@.len() ==> all.skip(left@.len() as int).contains(
                    #[trigger] sorted@[i],
                ),
        decreases left@.len(),
    {
        let ghost (left0, sorted0) = (left@, sorted@);
        let insn: Insn = match left.pop() {
            Some(insn) => insn,
            None => {
                return sorted;
            },
        };
        let at: usize = lower_insn(&sorted, insn.address());
        proof {
            if at < sorted0.len() {
                let other = sorted0[at as int];
                let k = all.skip(left0.len() as int).index_of(other);
                assert(all[left0.len() + k] == other);
                assert(all[left0.len() - 1] == insn);
                assert(insn.address != other.address);
                if other.address.rank() == insn.address.rank() {
                    Address::lemma_rank_injective(other.address, insn.address);
                }
            }
        }
        sorted.insert(at, insn);
        proof {
            assert(insns_ascend(sorted@)) by {
                assert forall|a: int, b: int| 0 <= a < b < sorted@.len() implies (#[trigger]
                sorted@[a]).address.rank() < (#[trigger] sorted@[b]).address.rank() by {
                    let a0 = if a < at {
                        a
                    } else {
                        a - 1
                    };
                    let b0 = if b < at {
                        b
                    } else {
                        b - 1
                    };
                    if a != at && b != at {
                        assert(sorted0[a0].address.rank() < sorted0[b0].address.rank());
                    } else if a == at {
                        assert(sorted@[b] == sorted0[b0]);
                        if b0 > at {
                            assert(sorted0[at as int].address.rank() < sorted0[b0].address.rank());
                        }
                    } else {
                        assert(sorted@[a] == sorted0[a0]);
                    }
                }
            }
            assert(left0 =~= left@.push(insn));
            left@.to_multiset_ensures();
            sorted0.to_multiset_ensures();
            vstd::seq_lib::to_multiset_insert(sorted0, at as int, insn);
            assert(sorted@ =~= sorted0.insert(at as int, insn));
            assert(left@.to_multiset().add(sorted@.to_multiset()) =~= left0.to_multiset().add(
                sorted0.to_multiset(),
            ));
            assert forall|i: int| 0 <= i < sorted@.len() implies all.skip(
                left@.len() as int,
            ).contains(#[trigger] sorted@[i]) by {
                let rest = all.skip(left@.len() as int);
                if i == at {
                    assert(rest[0] == insn);
                } else {
                    let i0 = if i < at {
                        i
                    } else {
                        i - 1
                    };
                    assert(sorted@[i] == sorted0[i0]);
                    let k = all.skip(left0.len() as int).index_of(sorted0[i0]);
                    assert(rest[k + 1] == sorted0[i0]);
                }
            }
        }
    }
    proof {
        left@.to_multiset_ensures();
        assert(left@.to_multiset().add(sorted@.to_multiset()) =~= sorted@.to_multiset());
    }
    sorted
}

/// A place for an instruction: taken or free.
pub enum InsnEntry<'a> {
    Occupied(OccupiedInsnEntry<'a>),
    Vacant(VacantInsnEntry<'a>),
}

/// A free place for an instruction.
pub struct VacantInsnEntry<'a> {
    pub address: Address,
    pub function: &'a mut IncompleteFunction,
}

impl<'a> VacantInsnEntry<'a> {
    /// Puts an instruction with the address of the entry there.
    pub fn insert(self, insn: Insn) -> (id: InsnId)
        requires
            self.function.wf(),
            self.function.insns@.len() + 1 < u32::MAX,
            insn.address == self.address,
            !self.function.has_insn_at(self.address),
        ensures
            id == place_id::<InsnEntity>(
                old(self.function).insns@.len() as int,
                old(self.function).insn_generation,
            ),
            final(self.function).insns@ == old(self.function).insns@.push(insn),
            final(self.function).insns_unsorted == (old(self.function).insns_unsorted || (
            old(self.function).insns@.len() > 0 && insn.address.rank() < old(
                self.function).insns@.last().address.rank())),
            *final(self.function) == (IncompleteFunction {
                insns: final(self.function).insns,
                insn_index: final(self.function).insn_index,
                insns_unsorted: final(self.function).insns_unsorted,
                ..*old(self.function)
            }),
            old(self.function).insn_index@ == Map::<Address, Seq<InsnId>>::empty() ==> final(
                self.function).insn_index@ == Map::<Address, Seq<InsnId>>::empty(),
            final(self.function).wf(),
    {
        let ghost before = *self.function;
        let count: usize = self.function.insns.len();
        if count > 0 && insn.address().precedes(&self.function.insns[count - 1].address()) {
            self.function.insns_unsorted = true;
        }
        let id: InsnId = Id::with_generation(count as u32, self.function.insn_generation);
        let ghost address = insn.address;
        self.function.insns.push(insn);
        let indexed: bool = !self.function.insn_index.is_empty();
        if indexed {
            self.function.insn_index.insert(self.address, id);
        }
        proof {
            let after = *self.function;
            Id::lemma_parts(id, place_id::<InsnEntity>(count as int, before.insn_generation));
            assert forall|i: int, j: int| 0 <= i < j < after.insns@.len() implies (#[trigger]
            after.insns@[i]).address != (#[trigger] after.insns@[j]).address by {
                assert(after.insns@[i] == before.insns@[i]);
                if j < count {
                    assert(before.insns@[i].address != before.insns@[j].address);
                }
            }
            if !after.insns_unsorted {
                assert forall|i: int, j: int| 0 <= i < j < after.insns@.len() implies (#[trigger]
                after.insns@[i]).address.rank() < (#[trigger] after.insns@[j]).address.rank() by {
                    if j == count {
                        let last = before.insns@[count - 1];
                        assert(last.address != address);
                        if last.address.rank() == address.rank() {
                            Address::lemma_rank_injective(last.address, address);
                        }
                        if i < count - 1 {
                            assert(before.insns@[i].address.rank() < last.address.rank());
                        }
                    } else {
                        assert(before.insns@[i].address.rank() < before.insns@[j].address.rank());
                    }
                }
            }
            if indexed {
                assert(!before.insn_index@.contains_key(address));
                assert forall|i: int| 0 <= i < after.insns@.len() implies
                    after.insn_index@.contains_key((#[trigger] after.insns@[i]).address)
                    && after.insn_index@[after.insns@[i].address] == seq![
                    place_id::<InsnEntity>(i, after.insn_generation),
                ] by {
                    if i < count {
                        assert(after.insns@[i] == before.insns@[i]);
                    }
                }
                assert forall|a: Address| #[trigger]
                    after.insn_index@.contains_key(a) implies some_insn_at(after.insns@, a) by {
                    if a == address {
                        assert(after.insns@[count as int].address == a);
                    } else {
                        assert(before.insn_index@.contains_key(a));
                        let j = choose|j: int|
                            0 <= j < before.insns@.len() && (#[trigger] before.insns@[j]).address
                                == a;
                        assert(after.insns@[j].address == a);
                    }
                }
                assert(after.insn_index@.contains_key(address));
                assert(after.insn_index@ != Map::<Address, Seq<InsnId>>::empty());
            }
        }
        id
    }
}

/// A place that an instruction has taken.
pub struct OccupiedInsnEntry<'a> {
    pub id: InsnId,
    pub function: &'a mut IncompleteFunction,
}

impl<'a> OccupiedInsnEntry<'a> {
    pub fn id(&self) -> (id: InsnId)
        ensures
            id == self.id,
    {
        self.id
    }

    /// Access to the instruction.
    pub fn get_mut(self) -> (insn: &'a mut Insn)
        requires
            self.id.id < self.function.insns@.len(),
            self.id.id < u32::MAX,
        ensures
            *insn == old(self.function).insns@[self.id.id as int],
            final(self.function).insns@ == old(self.function).insns@.update(
                self.id.id as int,
                *final(insn),
            ),
            *final(self.function) == (IncompleteFunction {
                insns: final(self.function).insns,
                ..*old(self.function)
            }),
    {
        let index: usize = self.id.index();
        &mut self.function.insns[index]
    }
}

/// The first of the identities that names no instruction.
pub open spec fn first_unknown(function: IncompleteFunction, ids: Seq<InsnId>) -> Option<InsnId>
    decreases ids.len(),
{
    if ids.len() == 0 {
        None
    } else if function.insn_place(ids.first()) is None {
        Some(ids.first())
    } else {
        first_unknown(function, ids.drop_first())
    }
}

/// What is wrong with the blocks from a place on: the first of them that is empty or has an
/// instruction that is not there.
pub open spec fn first_fault(function: IncompleteFunction, from: int) -> Option<
    IncompleteFunctionError,
>
    decreases function.blocks@.len() - from,
{
    if from < 0 || from >= function.blocks@.len() {
        None
    } else {
        let block = function.blocks@[from];
        if block.size == 0 {
            Some(IncompleteFunctionError::InvalidBlockSize { address: block.start })
        } else {
            match first_unknown(function, block.insn_ids@) {
                Some(id) => Some(IncompleteFunctionError::InvalidInsnId(id)),
                None => first_fault(function, from + 1),
            }
        }
    }
}

/// The instructions that the identities name.
pub open spec fn named_insns(function: IncompleteFunction, ids: Seq<InsnId>) -> Seq<InsnView> {
    ids.map_values(|id: InsnId| function.insns@[id.id as int]@)
}

/// Those of the instructions that the identities name and that are there.
pub open spec fn known_insns(function: IncompleteFunction, ids: Seq<InsnId>) -> Seq<InsnView>
    decreases ids.len(),
{
    if ids.len() == 0 {
        Seq::empty()
    } else {
        let before = known_insns(function, ids.drop_last());
        match function.insn_place(ids.last()) {
            Some(place) => before.push(function.insns@[place]@),
            None => before,
        }
    }
}

/// The record that a block becomes.
pub open spec fn block_record(function: IncompleteFunction, place: int) -> crate::block::CodeBlockRecordView {
    let block = function.blocks@[place];
    recorded(block.start, block.size, named_insns(function, block.insn_ids@), block.context@)
}

/// The flows out of the first blocks of a function, as it sees them.
pub open spec fn function_flows(function: IncompleteFunction, count: int) -> Seq<FlowTarget>
    decreases count,
{
    if count <= 0 {
        Seq::empty()
    } else {
        function_flows(function, count - 1) + all_classified(
            function.tail_call_sites@,
            block_record(function, count - 1).flows(),
        )
    }
}

/// Whether one of the first blocks of a function holds an address.
pub open spec fn block_holds(function: IncompleteFunction, count: int, address: Address) -> bool {
    exists|b: int|
        0 <= b < count && span_range(
            (#[trigger] function.blocks@[b]).start,
            function.blocks@[b].size as int,
        ).holds(address)
}

/// Whether one of the flows is a call to an address.
pub open spec fn calls_to(flows: Seq<FlowTarget>, address: Address) -> bool {
    exists|i: int|
        0 <= i < flows.len() && (#[trigger] flows[i]).kind.calls() && flows[i].to == address
}

/// Whether the successors of the blocks before a place are all blocks of the function.
pub open spec fn successors_known(function: IncompleteFunction, count: int) -> bool {
    forall|b: int, id: IncompleteCodeBlockId|
        0 <= b < count && (#[trigger] function.blocks@[b]).successors@.contains(id)
            ==> #[trigger] function.block_place(id) is Some
}

/// Whether an edge leads from a block to one of its successors.
pub open spec fn is_block_edge(function: IncompleteFunction, edge: (usize, usize)) -> bool {
    &&& edge.0 < function.blocks@.len()
    &&& edge.1 < function.blocks@.len()
    &&& function.blocks@[edge.0 as int].successors@.contains(
        place_id(edge.1 as int, function.block_generation),
    )
}

/// Whether these are the edges between the first blocks and their successors, each once and
/// in the order of the blocks they come from.
pub open spec fn are_block_edges(
    function: IncompleteFunction,
    count: int,
    edges: Seq<(usize, usize)>,
) -> bool {
    &&& edges.no_duplicates()
    &&& forall|edge: (usize, usize)| #[trigger]
        edges.contains(edge) <==> edge.0 < count && is_block_edge(function, edge)
    &&& forall|i: int, j: int|
        0 <= i < j < edges.len() ==> (#[trigger] edges[i]).0 <= (#[trigger] edges[j]).0
}

/// Whether the blocks can be recorded: their flows come from within, and their addresses do
/// not run over the end of their space.
pub open spec fn recordable(function: IncompleteFunction) -> bool {
    forall|b: int|
        0 <= b < function.blocks@.len() ==> {
            let block = #[trigger] function.blocks@[b];
            &&& spans(block.start, block.size as int)
            &&& flows_inside(
                named_insns(function, block.insn_ids@),
                block.start,
                block.size as int,
            )
        }
}

/// A function that is complete but for the identities of its blocks.
pub struct FunctionRecord {
    pub blocks: Vec<CodeBlockRecord>,
    pub call_targets: SortedSet<Address>,
    pub confidence: Confidence,
    pub coverage: AddressRangeSet,
    pub edges: Vec<(usize, usize)>,
    pub entry: Address,
    pub entry_block: Option<usize>,
    pub input_revision: Revision,
    pub name: Option<Ustr>,
    pub origin: ReferenceOrigin,
    pub properties: FunctionProperties,
    pub references: Vec<Reference>,
    pub tail_call_sites: Vec<Address>,
}

impl FunctionRecord {
    /// The parts of the record fit together.
    pub open spec fn wf(&self) -> bool {
        &&& self.call_targets.wf()
        &&& self.coverage.wf()
        &&& ascending(self.tail_call_sites@)
        &&& forall|i: int, j: int|
            0 <= i < j < self.blocks@.len() ==> (#[trigger] self.blocks@[i]).address.rank() <= (
            #[trigger] self.blocks@[j]).address.rank()
        &&& forall|i: int|
            0 <= i < self.edges@.len() ==> (#[trigger] self.edges@[i]).0 < self.blocks@.len()
                && self.edges@[i].1 < self.blocks@.len()
        &&& self.entry_block matches Some(i) ==> i < self.blocks@.len()
    }

    /// Whether this is the record of a function.
    pub open spec fn records(&self, function: IncompleteFunction) -> bool {
        let count = function.blocks@.len() as int;
        let flows = function_flows(function, count);
        &&& self.blocks@.len() == count
        &&& forall|i: int| 0 <= i < count ==> (#[trigger] self.blocks@[i])@ == block_record(function, i)
        &&& forall|a: Address| #[trigger] self.call_targets@.contains(a) <==> calls_to(flows, a)
        &&& forall|a: Address| #[trigger]
            self.coverage@.contains(a) <==> block_holds(function, count, a)
        &&& coalesces(self.references@, flows)
        &&& are_block_edges(function, count, self.edges@)
        &&& self.entry_block == if function.entry_block.id == u32::MAX {
            None
        } else {
            Some(function.entry_block.id as usize)
        }
        &&& self.entry == function.entry
        &&& self.confidence == function.confidence
        &&& self.input_revision == function.input_revision
        &&& self.name == function.name
        &&& self.origin == function.origin
        &&& self.properties == function.properties
        &&& self.tail_call_sites@ == function.tail_call_sites@
    }
}

/// Looks for the first of the identities that names no instruction.
fn find_unknown(function: &IncompleteFunction, ids: &Vec<InsnId>) -> (unknown: Option<InsnId>)
    ensures
        unknown == first_unknown(*function, ids@),
        unknown is None ==> forall|i: int|
            0 <= i < ids@.len() ==> function.insn_place(#[trigger] ids@[i]) is Some,
{
    let mut i: usize = 0;
    assert(ids@.skip(0) =~= ids@);
    while i < ids.len()
        invariant
            i <= ids@.len(),
            first_unknown(*function, ids@.skip(i as int)) == first_unknown(*function, ids@),
            forall|j: int| 0 <= j < i ==> function.insn_place(#[trigger] ids@[j]) is Some,
        decreases ids@.len() - i,
    {
        assert(ids@.skip(i as int).first() == ids@[i as int]);
        assert(ids@.skip(i as int).drop_first() =~= ids@.skip(i + 1));
        match function.insn(ids[i]) {
            Some(_) => {},
            None => {
                return Some(ids[i]);
            },
        }
        i = i + 1;
    }
    None
}

/// Looks for what is wrong with the blocks.
fn find_fault(function: &IncompleteFunction) -> (fault: Option<IncompleteFunctionError>)
    ensures
        fault == first_fault(*function, 0),
        fault is None ==> forall|b: int, i: int|
            0 <= b < function.blocks@.len() && 0 <= i < function.blocks@[b].insn_ids@.len()
                ==> function.insn_place(#[trigger] function.blocks@[b].insn_ids@[i]) is Some,
        fault is None ==> forall|b: int|
            0 <= b < function.blocks@.len() ==> (#[trigger] function.blocks@[b]).size > 0,
{
    let mut at: usize = 0;
    while at < function.blocks.len()
        invariant
            at <= function.blocks@.len(),
            first_fault(*function, at as int) == first_fault(*function, 0),
            forall|b: int, i: int|
                0 <= b < at && 0 <= i < function.blocks@[b].insn_ids@.len()
                    ==> function.insn_place(#[trigger] function.blocks@[b].insn_ids@[i]) is Some,
            forall|b: int| 0 <= b < at ==> (#[trigger] function.blocks@[b]).size > 0,
        decreases function.blocks@.len() - at,
    {
        let block: &IncompleteCodeBlock = &function.blocks[at];
        if block.is_empty() {
            return Some(IncompleteFunctionError::invalid_block_size(block.address()));
        }
        match find_unknown(function, &block.insn_ids) {
            Some(id) => {
                return Some(IncompleteFunctionError::invalid_insn_id(id));
            },
            None => {},
        }
        at = at + 1;
    }
    None
}

/// Gathers the instructions of a block, all of which are there.
fn block_insns<'a>(function: &'a IncompleteFunction, ids: &Vec<InsnId>) -> (insns: Vec<&'a Insn>)
    requires
        forall|i: int| 0 <= i < ids@.len() ==> function.insn_place(#[trigger] ids@[i]) is Some,
    ensures
        insn_views(insns@) == named_insns(*function, ids@),
{
    let mut insns: Vec<&'a Insn> = Vec::new();
    let mut i: usize = 0;
    while i < ids.len()
        invariant
            i <= ids@.len(),
            forall|j: int| 0 <= j < ids@.len() ==> function.insn_place(#[trigger] ids@[j]) is Some,
            insns@.len() == i,
            forall|j: int|
                0 <= j < i ==> *(#[trigger] insns@[j]) == function.insns@[ids@[j].id as int],
        decreases ids@.len() - i,
    {
        assert(function.insn_place(ids@[i as int]) is Some);
        insns.push(&function.insns[ids[i].index()]);
        i = i + 1;
    }
    assert(insn_views(insns@) =~= named_insns(*function, ids@));
    insns
}

/// Records the blocks.
fn record_blocks(function: &IncompleteFunction) -> (blocks: Vec<CodeBlockRecord>)
    requires
        recordable(*function),
        forall|b: int, i: int|
            0 <= b < function.blocks@.len() && 0 <= i < function.blocks@[b].insn_ids@.len()
                ==> function.insn_place(#[trigger] function.blocks@[b].insn_ids@[i]) is Some,
    ensures
        blocks@.len() == function.blocks@.len(),
        forall|i: int|
            0 <= i < blocks@.len() ==> (#[trigger] blocks@[i])@ == block_record(*function, i),
{
    let mut blocks: Vec<CodeBlockRecord> = Vec::new();
    let mut at: usize = 0;
    while at < function.blocks.len()
        invariant
            at <= function.blocks@.len(),
            recordable(*function),
            forall|b: int, i: int|
                0 <= b < function.blocks@.len() && 0 <= i < function.blocks@[b].insn_ids@.len()
                    ==> function.insn_place(#[trigger] function.blocks@[b].insn_ids@[i]) is Some,
            blocks@.len() == at,
            forall|i: int| 0 <= i < at ==> (#[trigger] blocks@[i])@ == block_record(*function, i),
        decreases function.blocks@.len() - at,
    {
        let block: &IncompleteCodeBlock = &function.blocks[at];
        assert forall|i: int| 0 <= i < block.insn_ids@.len() implies function.insn_place(
            #[trigger] block.insn_ids@[i],
        ) is Some by {
            assert(function.insn_place(function.blocks@[at as int].insn_ids@[i]) is Some);
        }
        let insns: Vec<&Insn> = block_insns(function, &block.insn_ids);
        let record: CodeBlockRecord = CodeBlockRecord::new(
            block.address(),
            block.size,
            &insns,
            block.context().clone(),
        );
        blocks.push(record);
        at = at + 1;
    }
    blocks
}

/// Gathers the flows out of the recorded blocks, as the function sees them.
fn gather_flows(function: &IncompleteFunction, blocks: &Vec<CodeBlockRecord>) -> (flows: Vec<
    FlowTarget,
>)
    requires
        ascending(function.tail_call_sites@),
        blocks@.len() == function.blocks@.len(),
        forall|i: int|
            0 <= i < blocks@.len() ==> (#[trigger] blocks@[i])@ == block_record(*function, i),
    ensures
        flows@ == function_flows(*function, blocks@.len() as int),
{
    let mut flows: Vec<FlowTarget> = Vec::new();
    let mut at: usize = 0;
    while at < blocks.len()
        invariant
            at <= blocks@.len(),
            ascending(function.tail_call_sites@),
            blocks@.len() == function.blocks@.len(),
            forall|i: int|
                0 <= i < blocks@.len() ==> (#[trigger] blocks@[i])@ == block_record(*function, i),
            flows@ == function_flows(*function, at as int),
        decreases blocks@.len() - at,
    {
        let own: Vec<FlowTarget> = blocks[at].flow_targets();
        let ghost before = flows@;
        let ghost sites = function.tail_call_sites@;
        let mut k: usize = 0;
        assert(before + all_classified(sites, own@.take(0)) =~= before);
        while k < own.len()
            invariant
                k <= own@.len(),
                sites == function.tail_call_sites@,
                ascending(sites),
                flows@ == before + all_classified(sites, own@.take(k as int)),
            decreases own@.len() - k,
        {
            flows.push(classify(&function.tail_call_sites, own[k]));
            k = k + 1;
            assert(flows@ =~= before + all_classified(sites, own@.take(k as int)));
        }
        assert(own@.take(k as int) =~= own@);
        assert(blocks@[at as int]@ == block_record(*function, at as int));
        at = at + 1;
    }
    flows
}

/// Gathers where the calls among the flows go.
fn gather_calls(flows: &Vec<FlowTarget>) -> (targets: SortedSet<Address>)
    ensures
        targets.wf(),
        forall|a: Address| #[trigger] targets@.contains(a) <==> calls_to(flows@, a),
{
    let mut targets: SortedSet<Address> = SortedSet::new();
    let mut i: usize = 0;
    while i < flows.len()
        invariant
            i <= flows@.len(),
            targets.wf(),
            forall|a: Address| #[trigger]
                targets@.contains(a) <==> calls_to(flows@.take(i as int), a),
        decreases flows@.len() - i,
    {
        let flow: FlowTarget = flows[i];
        let ghost before = targets@;
        if flow.kind().is_call() {
            targets.insert(flow.to());
        }
        proof {
            let (done, more) = (flows@.take(i as int), flows@.take(i + 1));
            assert forall|a: Address| #[trigger]
                targets@.contains(a) <==> calls_to(more, a) by {
                assert(before.contains(a) <==> calls_to(done, a));
                if calls_to(done, a) {
                    let j = choose|j: int|
                        0 <= j < done.len() && (#[trigger] done[j]).kind.calls() && done[j].to == a;
                    assert(more[j] == done[j]);
                }
                if calls_to(more, a) {
                    let j = choose|j: int|
                        0 <= j < more.len() && (#[trigger] more[j]).kind.calls() && more[j].to == a;
                    if j < i {
                        assert(done[j] == more[j]);
                    }
                }
                assert(more[i as int] == flow);
            }
        }
        i = i + 1;
    }
    assert(flows@.take(i as int) =~= flows@);
    targets
}

/// Whether addresses or a range beside them hold an address.
spec fn held_so_far(addresses: Set<Address>, pending: Option<AddressRange>, a: Address) -> bool {
    addresses.contains(a) || match pending {
        Some(range) => range.holds(a),
        None => false,
    }
}

/// Gathers the addresses of the blocks. Blocks that touch are put in as one range.
fn gather_coverage(function: &IncompleteFunction) -> (coverage: AddressRangeSet)
    requires
        recordable(*function),
        forall|i: int, j: int|
            0 <= i < j < function.blocks@.len() ==> (#[trigger] function.blocks@[i]).start.rank()
                <= (#[trigger] function.blocks@[j]).start.rank(),
    ensures
        coverage.wf(),
        forall|a: Address| #[trigger]
            coverage@.contains(a) <==> block_holds(*function, function.blocks@.len() as int, a),
{
    let mut coverage: AddressRangeSet = AddressRangeSet::new();
    let mut pending: Option<AddressRange> = None;
    let mut at: usize = 0;
    while at < function.blocks.len()
        invariant
            at <= function.blocks@.len(),
            recordable(*function),
            forall|i: int, j: int|
                0 <= i < j < function.blocks@.len() ==> (#[trigger]
                function.blocks@[i]).start.rank() <= (#[trigger] function.blocks@[j]).start.rank(),
            coverage.wf(),
            pending is None ==> at == 0,
            pending matches Some(current) ==> at > 0 && current.start.0 <= current.end.0
                && current.space == function.blocks@[at - 1].start.space && current.start.0
                <= function.blocks@[at - 1].start.address.0,
            forall|a: Address| #[trigger]
                held_so_far(coverage@, pending, a) <==> block_holds(*function, at as int, a),
        decreases function.blocks@.len() - at,
    {
        let block: &IncompleteCodeBlock = &function.blocks[at];
        let ghost before = coverage@;
        let ghost held = pending;
        let range: AddressRange = AddressRange::new(
            block.address().space(),
            block.address().raw_address(),
            RawAddress(block.address().offset() + (block.size - 1) as u64),
        );
        assert(range == span_range(block.start, block.size as int));
        match pending {
            Some(current) => {
                let touches: bool = current.space() == range.space() && current.end().0 < u64::MAX
                    && range.start().0 <= current.end().0 + 1;
                if touches {
                    let end: RawAddress = if current.end().0 < range.end().0 {
                        range.end()
                    } else {
                        current.end()
                    };
                    pending = Some(AddressRange::new(current.space(), current.start(), end));
                    proof {
                        assert(function.blocks@[at - 1].start.rank()
                            <= function.blocks@[at as int].start.rank());
                    }
                } else {
                    coverage.insert_range(current);
                    pending = Some(range);
                }
            },
            None => {
                pending = Some(range);
            },
        }
        proof {
            assert forall|a: Address| #[trigger]
                held_so_far(coverage@, pending, a) <==> block_holds(*function, at + 1, a) by {
                assert(held_so_far(before, held, a) <==> block_holds(*function, at as int, a));
                if block_holds(*function, at as int, a) {
                    let b = choose|b: int|
                        0 <= b < at && span_range(
                            (#[trigger] function.blocks@[b]).start,
                            function.blocks@[b].size as int,
                        ).holds(a);
                    assert(block_holds(*function, at + 1, a));
                }
                if block_holds(*function, at + 1, a) {
                    let b = choose|b: int|
                        0 <= b < at + 1 && span_range(
                            (#[trigger] function.blocks@[b]).start,
                            function.blocks@[b].size as int,
                        ).holds(a);
                    if b < at {
                        assert(block_holds(*function, at as int, a));
                    }
                }
                assert(range.holds(a) ==> block_holds(*function, at + 1, a));
            }
        }
        at = at + 1;
    }
    let ghost before = coverage@;
    let ghost held = pending;
    match pending {
        Some(range) => coverage.insert_range(range),
        None => {},
    }
    proof {
        assert forall|a: Address| #[trigger]
            coverage@.contains(a) <==> block_holds(*function, function.blocks@.len() as int, a) by {
            assert(held_so_far(before, held, a) <==> block_holds(*function, at as int, a));
        }
    }
    coverage
}

/// Gathers the edges between the blocks, or finds a successor that is not there.
fn gather_edges(function: &IncompleteFunction) -> (edges: Result<
    Vec<(usize, usize)>,
    IncompleteFunctionError,
>)
    requires
        function.blocks@.len() < u32::MAX,
    ensures
        match edges {
            Ok(edges) => successors_known(*function, function.blocks@.len() as int)
                && are_block_edges(*function, function.blocks@.len() as int, edges@),
            Err(error) => unknown_successor(*function, error),
        },
{
    let mut edges: Vec<(usize, usize)> = Vec::new();
    let mut at: usize = 0;
    while at < function.blocks.len()
        invariant
            at <= function.blocks@.len(),
            function.blocks@.len() < u32::MAX,
            successors_known(*function, at as int),
            are_block_edges(*function, at as int, edges@),
        decreases function.blocks@.len() - at,
    {
        let ids: Vec<IncompleteCodeBlockId> = function.blocks[at].successors().iter();
        let ghost before = edges@;
        let mut k: usize = 0;
        assert(before + Seq::new(0, |j: int| (at, ids@[j].id as usize)) =~= before);
        while k < ids.len()
            invariant
                k <= ids@.len(),
                at < function.blocks@.len(),
                successors_known(*function, at as int),
                forall|id: IncompleteCodeBlockId| #[trigger]
                    ids@.contains(id) <==> function.blocks@[at as int].successors@.contains(id),
                edges@ == before + Seq::new(k as nat, |j: int| (at, ids@[j].id as usize)),
                forall|j: int| 0 <= j < k ==> function.block_place(#[trigger] ids@[j]) is Some,
            decreases ids@.len() - k,
        {
            let id: IncompleteCodeBlockId = ids[k];
            assert(ids@.contains(id));
            match function.block_index(id) {
                Some(index) => edges.push((at, index)),
                None => {
                    return Err(IncompleteFunctionError::invalid_block_id(id));
                },
            }
            k = k + 1;
            assert(edges@ =~= before + Seq::new(k as nat, |j: int| (at, ids@[j].id as usize)));
        }
        proof {
            lemma_edges_step(*function, at as int, before, ids@, edges@);
        }
        at = at + 1;
    }
    Ok(edges)
}

/// Whether an error names a successor that is no block, of the first block that has one.
pub open spec fn unknown_successor(
    function: IncompleteFunction,
    error: IncompleteFunctionError,
) -> bool {
    exists|b: int, id: IncompleteCodeBlockId|
        0 <= b < function.blocks@.len() && successors_known(function, b) && (
        #[trigger] function.blocks@[b]).successors@.contains(id) && #[trigger] function.block_place(
            id,
        ) is None && error == IncompleteFunctionError::InvalidBlockId(id)
}

/// The edges of one more block.
proof fn lemma_edges_step(
    function: IncompleteFunction,
    at: int,
    before: Seq<(usize, usize)>,
    ids: Seq<IncompleteCodeBlockId>,
    edges: Seq<(usize, usize)>,
)
    requires
        0 <= at < function.blocks@.len() < u32::MAX,
        successors_known(function, at),
        are_block_edges(function, at, before),
        ids.no_duplicates(),
        forall|id: IncompleteCodeBlockId| #[trigger]
            ids.contains(id) <==> function.blocks@[at].successors@.contains(id),
        forall|j: int| 0 <= j < ids.len() ==> function.block_place(#[trigger] ids[j]) is Some,
        edges == before + Seq::new(ids.len(), |j: int| (at as usize, ids[j].id as usize)),
    ensures
        successors_known(function, at + 1),
        are_block_edges(function, at + 1, edges),
{
    let added = Seq::new(ids.len(), |j: int| (at as usize, ids[j].id as usize));
    assert forall|b: int, id: IncompleteCodeBlockId|
        0 <= b < at + 1 && (#[trigger] function.blocks@[b]).successors@.contains(
            id,
        ) implies #[trigger] function.block_place(id) is Some by {
        if b == at {
            assert(ids.contains(id));
            let j = ids.index_of(id);
            assert(function.block_place(ids[j]) is Some);
        }
    }
    assert forall|edge: (usize, usize)| #[trigger]
        edges.contains(edge) <==> edge.0 < at + 1 && is_block_edge(function, edge) by {
        if edges.contains(edge) {
            let i = edges.index_of(edge);
            if i < before.len() {
                assert(before[i] == edge);
                assert(before.contains(edge));
            } else {
                let id = ids[i - before.len()];
                assert(edge == added[i - before.len()]);
                assert(function.block_place(id) is Some);
                Id::lemma_parts(id, place_id(edge.1 as int, function.block_generation));
                assert(ids.contains(id));
            }
        }
        if edge.0 < at + 1 && is_block_edge(function, edge) {
            if edge.0 < at {
                assert(before.contains(edge));
                let i = before.index_of(edge);
                assert(edges[i] == edge);
            } else {
                let id: IncompleteCodeBlockId = place_id(edge.1 as int, function.block_generation);
                assert(ids.contains(id));
                let j = ids.index_of(id);
                assert(edges[before.len() + j] == added[j]);
                assert(added[j] == edge);
            }
        }
    }
    assert forall|i: int, j: int|
        0 <= i < edges.len() && 0 <= j < edges.len() && i != j implies edges[i] != edges[j] by {
        if i < before.len() && j < before.len() {
            assert(before[i] != before[j]);
        } else if i < before.len() {
            assert(before.contains(before[i]));
            assert(edges[j] == added[j - before.len()]);
        } else if j < before.len() {
            assert(before.contains(before[j]));
            assert(edges[i] == added[i - before.len()]);
        } else {
            let (a, b) = (ids[i - before.len()], ids[j - before.len()]);
            assert(function.block_place(a) is Some);
            assert(function.block_place(b) is Some);
            assert(a != b);
            Id::lemma_parts(a, b);
        }
    }
    assert forall|i: int, j: int| 0 <= i < j < edges.len() implies (#[trigger] edges[i]).0 <= (
    #[trigger] edges[j]).0 by {
        if j < before.len() {
            assert(before[i].0 <= before[j].0);
        } else if i < before.len() {
            assert(before.contains(before[i]));
        }
    }
}

impl IncompleteFunction {
    /// The place of the block with an identity.
    fn block_index(&self, id: IncompleteCodeBlockId) -> (index: Option<usize>)
        ensures
            index is Some == self.block_place(id) is Some,
            index matches Some(i) ==> i == self.block_place(id)->0,
    {
        if id.is_invalid() || id.generation() != self.block_generation {
            return None;
        }
        let index: usize = id.index();
        if index < self.blocks.len() {
            Some(index)
        } else {
            None
        }
    }

    /// Completes the function but for the identities of its blocks.
    pub fn normalise(self) -> (record: Result<FunctionRecord, IncompleteFunctionError>)
        requires
            self.wf(),
            first_fault(self, 0) is None ==> recordable(self),
        ensures
            match record {
                Ok(record) => {
                    &&& first_fault(self, 0) is None
                    &&& successors_known(self, self.blocks@.len() as int)
                    &&& record.wf()
                    &&& record.records(self)
                },
                Err(error) => first_fault(self, 0) == Some(error) || (first_fault(self, 0) is None
                    && unknown_successor(self, error)),
            },
    {
        match find_fault(&self) {
            Some(error) => {
                return Err(error);
            },
            None => {},
        }
        let blocks: Vec<CodeBlockRecord> = record_blocks(&self);
        let coverage: AddressRangeSet = gather_coverage(&self);
        let flows: Vec<FlowTarget> = gather_flows(&self, &blocks);
        let call_targets: SortedSet<Address> = gather_calls(&flows);
        let references: Vec<Reference> = coalesce_flows(&flows);
        let edges: Vec<(usize, usize)> = match gather_edges(&self) {
            Ok(edges) => edges,
            Err(error) => {
                return Err(error);
            },
        };
        let entry_block: Option<usize> = if self.entry_block.is_valid() {
            Some(self.entry_block.index())
        } else {
            None
        };
        proof {
            assert forall|i: int, j: int| 0 <= i < j < blocks@.len() implies (#[trigger]
            blocks@[i]).address.rank() <= (#[trigger] blocks@[j]).address.rank() by {
                assert(blocks@[i]@ == block_record(self, i));
                assert(blocks@[j]@ == block_record(self, j));
                assert(self.blocks@[i].start.rank() <= self.blocks@[j].start.rank());
            }
            assert forall|i: int| 0 <= i < edges@.len() implies (#[trigger] edges@[i]).0
                < blocks@.len() && edges@[i].1 < blocks@.len() by {
                assert(edges@.contains(edges@[i]));
            }
        }
        Ok(
            FunctionRecord {
                blocks,
                call_targets,
                confidence: self.confidence,
                coverage,
                edges,
                entry: self.entry,
                entry_block,
                input_revision: self.input_revision,
                name: self.name,
                origin: self.origin,
                properties: self.properties,
                references,
                tail_call_sites: self.tail_call_sites,
            },
        )
    }
}

/// Whether the instruction is an indirect branch that is no call and no return.
pub open spec fn branches_indirectly(insn: InsnView) -> bool {
    let bits = insn.properties.bits;
    &&& bits & InsnProperties::BRANCH != 0
    &&& bits & InsnProperties::INDIRECT != 0
    &&& bits & InsnProperties::CALL == 0
    &&& bits & InsnProperties::RETURN == 0
}

/// The indirect branches of a block: those of the instructions that are there.
pub open spec fn block_indirect(function: IncompleteFunction, place: int, ids: Seq<InsnId>) -> Seq<
    (IncompleteCodeBlockId, Address),
>
    decreases ids.len(),
{
    if ids.len() == 0 {
        Seq::empty()
    } else {
        let before = block_indirect(function, place, ids.drop_last());
        match function.insn_place(ids.last()) {
            Some(at) => if branches_indirectly(function.insns@[at]@) {
                before.push(
                    (place_id(place, function.block_generation), function.insns@[at].address),
                )
            } else {
                before
            },
            None => before,
        }
    }
}

/// The indirect branches of the first blocks.
pub open spec fn all_indirect(function: IncompleteFunction, count: int) -> Seq<
    (IncompleteCodeBlockId, Address),
>
    decreases count,
{
    if count <= 0 {
        Seq::empty()
    } else {
        all_indirect(function, count - 1) + block_indirect(
            function,
            count - 1,
            function.blocks@[count - 1].insn_ids@,
        )
    }
}

/// Whether a block and its sibling are the two successors of a predecessor of the block.
pub open spec fn is_sibling(
    function: IncompleteFunction,
    block: IncompleteCodeBlockId,
    guard: IncompleteCodeBlockId,
    sibling: IncompleteCodeBlockId,
) -> bool {
    &&& function.block_place(block) is Some
    &&& function.blocks@[function.block_place(block)->0].predecessors@.contains(guard)
    &&& function.block_place(guard) is Some
    &&& sibling != block
    &&& function.blocks@[function.block_place(guard)->0].successors@ == set![block, sibling]
    &&& function.block_place(sibling) is Some
}

impl IncompleteFunction {
    /// Whether a switch waits for the branch at an address.
    pub fn has_pending_switch(&self, branch: Address) -> (pending: bool)
        ensures
            pending == exists|i: int|
                0 <= i < self.pending_switches@.len() && (#[trigger]
                self.pending_switches@[i]).branch == branch,
    {
        let mut i: usize = 0;
        while i < self.pending_switches.len()
            invariant
                i <= self.pending_switches@.len(),
                forall|j: int|
                    0 <= j < i ==> (#[trigger] self.pending_switches@[j]).branch != branch,
            decreases self.pending_switches@.len() - i,
        {
            if self.pending_switches[i].branch() == branch {
                return true;
            }
            i = i + 1;
        }
        false
    }

    /// Lets a switch wait, in place of the first that waits for the same branch if there is
    /// one.
    pub fn add_pending_switch(&mut self, switch: Switch)
        ensures
            *final(self) == (IncompleteFunction {
                pending_switches: final(self).pending_switches,
                ..*old(self)
            }),
            (exists|i: int|
                0 <= i < old(self).pending_switches@.len() && (#[trigger] old(
                    self).pending_switches@[i]).branch == switch.branch && (forall|j: int|
                    0 <= j < i ==> (#[trigger] old(self).pending_switches@[j]).branch
                        != switch.branch) && final(self).pending_switches@ == old(
                    self).pending_switches@.update(i, switch)) || ((forall|j: int|
                0 <= j < old(self).pending_switches@.len() ==> (#[trigger] old(
                    self).pending_switches@[j]).branch != switch.branch) && final(
                self).pending_switches@ == old(self).pending_switches@.push(switch)),
    {
        let ghost before = *self;
        let mut i: usize = 0;
        while i < self.pending_switches.len()
            invariant
                i <= self.pending_switches@.len(),
                *self == before,
                before == *old(self),
                forall|j: int|
                    0 <= j < i ==> (#[trigger] self.pending_switches@[j]).branch != switch.branch,
            decreases self.pending_switches@.len() - i,
        {
            if self.pending_switches[i].branch() == switch.branch() {
                self.pending_switches.set(i, switch);
                assert(before.pending_switches@[i as int].branch == switch.branch);
                return ;
            }
            i = i + 1;
        }
        self.pending_switches.push(switch);
    }

    /// Hands out the switches that wait.
    pub fn take_pending_switches(&mut self) -> (switches: Vec<Switch>)
        ensures
            switches == old(self).pending_switches,
            final(self).pending_switches@ == Seq::<Switch>::empty(),
            *final(self) == (IncompleteFunction {
                pending_switches: final(self).pending_switches,
                ..*old(self)
            }),
    {
        let mut switches: Vec<Switch> = Vec::new();
        core::mem::swap(&mut switches, &mut self.pending_switches);
        switches
    }

    pub fn name(&self) -> (name: Option<Ustr>)
        ensures
            name == self.name,
    {
        self.name
    }

    pub fn set_name(&mut self, name: Ustr)
        ensures
            *final(self) == (IncompleteFunction { name: Some(name), ..*old(self) }),
    {
        self.name = Some(name);
    }

    pub fn clear_name(&mut self)
        ensures
            *final(self) == (IncompleteFunction { name: None, ..*old(self) }),
    {
        self.name = None;
    }

    pub fn entry(&self) -> (entry: Address)
        ensures
            entry == self.entry,
    {
        self.entry
    }

    pub fn blocks(&self) -> (blocks: &[IncompleteCodeBlock])
        ensures
            blocks@ == self.blocks@,
    {
        self.blocks.as_slice()
    }

    pub fn block(&self, id: IncompleteCodeBlockId) -> (block: Option<&IncompleteCodeBlock>)
        ensures
            block is Some == self.block_place(id) is Some,
            block matches Some(b) ==> *b == self.blocks@[self.block_place(id)->0],
    {
        match self.block_index(id) {
            Some(index) => Some(&self.blocks[index]),
            None => None,
        }
    }

    /// Access to a block. What is known of the function stays true if the block keeps its
    /// address.
    pub fn block_mut(&mut self, id: IncompleteCodeBlockId) -> (block: Option<
        &mut IncompleteCodeBlock,
    >)
        requires
            old(self).wf(),
        ensures
            block is Some == old(self).block_place(id) is Some,
            match block {
                Some(b) => {
                    let place = old(self).block_place(id)->0;
                    &&& *b == old(self).blocks@[place]
                    &&& final(self).blocks@ == old(self).blocks@.update(place, *final(b))
                    &&& *final(self) == (IncompleteFunction {
                        blocks: final(self).blocks,
                        ..*old(self)
                    })
                    &&& final(b).start == b.start ==> final(self).wf()
                },
                None => *final(self) == *old(self),
            },
    {
        match self.block_index(id) {
            Some(index) => {
                let ghost before = *self;
                proof {
                    assert forall|after: IncompleteFunction, block: IncompleteCodeBlock|
                        #![trigger after.wf(), before.blocks@.update(index as int, block)]
                        after == (IncompleteFunction { blocks: after.blocks, ..before })
                            && after.blocks@ == before.blocks@.update(index as int, block)
                            && block.start == before.blocks@[index as int].start implies
                        after.wf() by {
                        lemma_same_starts(before, after);
                    }
                }
                Some(&mut self.blocks[index])
            },
            None => None,
        }
    }

    /// The blocks that begin at an address.
    pub fn blocks_at(&self, address: Address) -> (found: Vec<&IncompleteCodeBlock>)
        requires
            self.wf(),
        ensures
            exists|start: int, end: int|
                0 <= start <= end <= self.blocks@.len() && found@.len() == end - start && (forall|
                    i: int,
                |
                    0 <= i < found@.len() ==> *(#[trigger] found@[i]) == self.blocks@[start + i])
                    && #[trigger] starts_between(self.blocks@, address, start, end),
    {
        let mut found: Vec<&IncompleteCodeBlock> = Vec::new();
        let mut start: usize = 0;
        while start < self.blocks.len() && self.blocks[start].address().precedes(&address)
            invariant
                start <= self.blocks@.len(),
                forall|i: int|
                    0 <= i < start ==> (#[trigger] self.blocks@[i]).start.rank() < address.rank(),
            ensures
                start <= self.blocks@.len(),
                start == self.blocks@.len() || address.rank()
                    <= self.blocks@[start as int].start.rank(),
                forall|i: int|
                    0 <= i < start ==> (#[trigger] self.blocks@[i]).start.rank() < address.rank(),
            decreases self.blocks@.len() - start,
        {
            start = start + 1;
        }
        let mut end: usize = start;
        while end < self.blocks.len() && self.blocks[end].address() == address
            invariant
                start <= end <= self.blocks@.len(),
                found@.len() == end - start,
                forall|i: int|
                    0 <= i < found@.len() ==> *(#[trigger] found@[i]) == self.blocks@[start + i],
                forall|i: int| start <= i < end ==> (#[trigger] self.blocks@[i]).start == address,
            ensures
                start <= end <= self.blocks@.len(),
                found@.len() == end - start,
                forall|i: int|
                    0 <= i < found@.len() ==> *(#[trigger] found@[i]) == self.blocks@[start + i],
                forall|i: int| start <= i < end ==> (#[trigger] self.blocks@[i]).start == address,
                end == self.blocks@.len() || self.blocks@[end as int].start != address,
            decreases self.blocks@.len() - end,
        {
            found.push(&self.blocks[end]);
            end = end + 1;
        }
        proof {
            assert forall|i: int| 0 <= i < self.blocks@.len() implies ((#[trigger]
            self.blocks@[i]).start == address <==> start <= i < end) by {
                if i >= end {
                    if end > start {
                        assert(self.blocks@[start as int].start.rank()
                            <= self.blocks@[end as int].start.rank());
                    }
                    if i > end {
                        assert(self.blocks@[end as int].start.rank()
                            <= self.blocks@[i].start.rank());
                    }
                    if self.blocks@[i].start == address {
                        Address::lemma_rank_injective(self.blocks@[end as int].start, address);
                    }
                }
            }
            assert(starts_between(self.blocks@, address, start as int, end as int));
        }
        found
    }

    /// The block that the function begins with, which must be there.
    pub fn entry_block(&self) -> (block: &IncompleteCodeBlock)
        requires
            self.block_place(self.entry_block) is Some,
        ensures
            *block == self.blocks@[self.block_place(self.entry_block)->0],
    {
        &self.blocks[self.entry_block.index()]
    }

    /// Says at which addresses the function makes tail calls.
    pub fn set_tail_call_sites(&mut self, sites: &Vec<Address>)
        ensures
            sorts(final(self).tail_call_sites@, sites@),
            *final(self) == (IncompleteFunction {
                tail_call_sites: final(self).tail_call_sites,
                ..*old(self)
            }),
            old(self).wf() ==> final(self).wf(),
    {
        self.tail_call_sites = sort_keys(sites);
    }

    /// The indirect branches, in the order of the blocks and the instructions in them.
    pub fn indirect_branches(&self) -> (branches: Vec<(IncompleteCodeBlockId, Address)>)
        requires
            self.wf(),
        ensures
            branches@ == all_indirect(*self, self.blocks@.len() as int),
    {
        let mut branches: Vec<(IncompleteCodeBlockId, Address)> = Vec::new();
        let mut at: usize = 0;
        while at < self.blocks.len()
            invariant
                at <= self.blocks@.len(),
                self.wf(),
                branches@ == all_indirect(*self, at as int),
            decreases self.blocks@.len() - at,
        {
            let ids: &Vec<InsnId> = &self.blocks[at].insn_ids;
            let ghost before = branches@;
            let mut k: usize = 0;
            assert(ids@.take(0) =~= Seq::empty());
            assert(before + block_indirect(*self, at as int, ids@.take(0)) =~= before);
            while k < ids.len()
                invariant
                    k <= ids@.len(),
                    at < self.blocks@.len(),
                    self.wf(),
                    branches@ == before + block_indirect(*self, at as int, ids@.take(k as int)),
                decreases ids@.len() - k,
            {
                let ghost done = block_indirect(*self, at as int, ids@.take(k as int));
                assert(ids@.take(k + 1).drop_last() =~= ids@.take(k as int));
                assert(ids@.take(k + 1).last() == ids@[k as int]);
                match self.insn(ids[k]) {
                    Some(insn) => {
                        if insn.is_branch() && insn.is_indirect() && !insn.is_call()
                            && !insn.is_return() {
                            let id: IncompleteCodeBlockId = Id::with_generation(
                                at as u32,
                                self.block_generation,
                            );
                            proof {
                                Id::lemma_parts(id, place_id(at as int, self.block_generation));
                            }
                            branches.push((id, insn.address()));
                            assert(branches@ =~= before + done.push((id, insn.address)));
                        }
                    },
                    None => {},
                }
                k = k + 1;
            }
            assert(ids@.take(k as int) =~= ids@);
            at = at + 1;
        }
        branches
    }

    /// The flows out of a block that is made of instructions of the function.
    pub fn block_flow_targets(&self, block: &IncompleteCodeBlock) -> (flows: Vec<FlowTarget>)
        ensures
            flows@ == leaving_flows(
                known_insns(*self, block.insn_ids@),
                address_after(block.start, block.size as int),
            ),
    {
        let end: Address = block.address() + block.size();
        assert(end == address_after(block.start, block.size as int));
        let ids: &Vec<InsnId> = &block.insn_ids;
        let mut flows: Vec<FlowTarget> = Vec::new();
        let mut i: usize = 0;
        assert(ids@.take(0) =~= Seq::empty());
        while i < ids.len()
            invariant
                i <= ids@.len(),
                flows@ == leaving_flows(known_insns(*self, ids@.take(i as int)), end),
            decreases ids@.len() - i,
        {
            assert(ids@.take(i + 1).drop_last() =~= ids@.take(i as int));
            assert(ids@.take(i + 1).last() == ids@[i as int]);
            match self.insn(ids[i]) {
                Some(insn) => {
                    let own: Vec<FlowTarget> = insn.flow_targets();
                    let ghost before = flows@;
                    let ghost known = known_insns(*self, ids@.take(i as int));
                    let mut k: usize = 0;
                    assert(own@.take(0) =~= Seq::empty());
                    assert(before + kept(own@.take(0), end) =~= before);
                    while k < own.len()
                        invariant
                            k <= own@.len(),
                            flows@ == before + kept(own@.take(k as int), end),
                        decreases own@.len() - k,
                    {
                        let flow: FlowTarget = own[k];
                        let ghost done = kept(own@.take(k as int), end);
                        assert(own@.take(k + 1).drop_last() =~= own@.take(k as int));
                        assert(own@.take(k + 1).last() == flow);
                        if !flow.kind().is_fall_through() || flow.to() == end {
                            flows.push(flow);
                            assert(flows@ =~= before + done.push(flow));
                        }
                        k = k + 1;
                    }
                    proof {
                        assert(own@.take(k as int) =~= own@);
                        assert(known.push(insn@).drop_last() =~= known);
                        assert(known.push(insn@).last() == insn@);
                    }
                },
                None => {},
            }
            i = i + 1;
        }
        assert(ids@.take(i as int) =~= ids@);
        flows
    }

    pub fn properties(&self) -> (properties: FunctionProperties)
        ensures
            properties == self.properties,
    {
        self.properties
    }

    pub fn is_non_returning(&self) -> (r: bool)
        ensures
            r == (self.properties.bits & FunctionProperties::NON_RETURNING == FunctionProperties::NON_RETURNING),
    {
        self.properties.contains(FunctionProperties::NON_RETURNING)
    }

    pub fn mark_non_returning(&mut self)
        ensures
            *final(self) == (IncompleteFunction {
                properties: FunctionProperties {
                    bits: old(self).properties.bits | FunctionProperties::NON_RETURNING,
                },
                ..*old(self)
            }),
    {
        self.properties.insert(FunctionProperties::NON_RETURNING);
    }

    pub fn is_thunk(&self) -> (r: bool)
        ensures
            r == (self.properties.bits & FunctionProperties::THUNK == FunctionProperties::THUNK),
    {
        self.properties.contains(FunctionProperties::THUNK)
    }

    pub fn mark_thunk(&mut self)
        ensures
            *final(self) == (IncompleteFunction {
                properties: FunctionProperties {
                    bits: old(self).properties.bits | FunctionProperties::THUNK,
                },
                ..*old(self)
            }),
    {
        self.properties.insert(FunctionProperties::THUNK);
    }

    pub fn is_external(&self) -> (r: bool)
        ensures
            r == (self.properties.bits & FunctionProperties::EXTERNAL == FunctionProperties::EXTERNAL),
    {
        self.properties.contains(FunctionProperties::EXTERNAL)
    }

    pub fn mark_external(&mut self)
        ensures
            *final(self) == (IncompleteFunction {
                properties: FunctionProperties {
                    bits: old(self).properties.bits | FunctionProperties::EXTERNAL,
                },
                ..*old(self)
            }),
    {
        self.properties.insert(FunctionProperties::EXTERNAL);
    }

    pub fn origin(&self) -> (origin: ReferenceOrigin)
        ensures
            origin == self.origin,
    {
        self.origin
    }

    pub fn set_origin(&mut self, origin: ReferenceOrigin)
        ensures
            *final(self) == (IncompleteFunction { origin, ..*old(self) }),
    {
        self.origin = origin;
    }

    pub fn with_origin(self, origin: ReferenceOrigin) -> (function: Self)
        ensures
            function == (IncompleteFunction { origin, ..self }),
    {
        IncompleteFunction { origin, ..self }
    }

    pub fn confidence(&self) -> (confidence: Confidence)
        ensures
            confidence == self.confidence,
    {
        self.confidence
    }

    pub fn set_confidence(&mut self, confidence: Confidence)
        ensures
            *final(self) == (IncompleteFunction { confidence, ..*old(self) }),
    {
        self.confidence = confidence;
    }

    pub fn with_confidence(self, confidence: Confidence) -> (function: Self)
        ensures
            function == (IncompleteFunction { confidence, ..self }),
    {
        IncompleteFunction { confidence, ..self }
    }

    pub fn input_revision(&self) -> (input_revision: Revision)
        ensures
            input_revision == self.input_revision,
    {
        self.input_revision
    }

    pub fn set_input_revision(&mut self, input_revision: Revision)
        ensures
            *final(self) == (IncompleteFunction { input_revision, ..*old(self) }),
    {
        self.input_revision = input_revision;
    }

    pub fn with_input_revision(self, input_revision: Revision) -> (function: Self)
        ensures
            function == (IncompleteFunction { input_revision, ..self }),
    {
        IncompleteFunction { input_revision, ..self }
    }

    /// Where the other successor of a predecessor of a block begins, if there is a predecessor
    /// with just one other successor.
    pub fn sibling_successor_from_incoming(&self, block: IncompleteCodeBlockId) -> (found: Option<
        AddressWithContext,
    >)
        ensures
            match found {
                Some(target) => exists|guard: IncompleteCodeBlockId, sibling: IncompleteCodeBlockId|
                    #[trigger]
                    is_sibling(*self, block, guard, sibling) && target.address
                        == self.blocks@[self.block_place(sibling)->0].start && target.context@
                        == self.blocks@[self.block_place(sibling)->0].context@ && target.confidence
                        is Certain,
                None => forall|guard: IncompleteCodeBlockId, sibling: IncompleteCodeBlockId|
                    !(#[trigger] is_sibling(*self, block, guard, sibling)),
            },
    {
        let branch: &IncompleteCodeBlock = match self.block(block) {
            Some(branch) => branch,
            None => {
                return None;
            },
        };
        let guards: Vec<IncompleteCodeBlockId> = branch.predecessors().iter();
        let mut i: usize = 0;
        while i < guards.len()
            invariant
                i <= guards@.len(),
                self.block_place(block) is Some,
                *branch == self.blocks@[self.block_place(block)->0],
                forall|id: IncompleteCodeBlockId| #[trigger]
                    guards@.contains(id) <==> branch.predecessors@.contains(id),
                forall|j: int, sibling: IncompleteCodeBlockId|
                    0 <= j < i ==> !(#[trigger] is_sibling(*self, block, guards@[j], sibling)),
            decreases guards@.len() - i,
        {
            let predecessor: IncompleteCodeBlockId = guards[i];
            assert(guards@.contains(predecessor));
            match self.block(predecessor) {
                Some(guard) => {
                    let successors: Vec<IncompleteCodeBlockId> = guard.successors().iter();
                    match other_of_two(&successors, block) {
                        Some(sibling) => {
                            proof {
                                let set = guard.successors@;
                                assert forall|id: IncompleteCodeBlockId| #[trigger]
                                    set.contains(id) <==> set![block, sibling].contains(id) by {
                                    assert(successors@.contains(id) <==> set.contains(id));
                                    if successors@.contains(id) {
                                        let j = successors@.index_of(id);
                                        assert(j == 0 || j == 1);
                                    }
                                    assert(successors@.contains(successors@[0]));
                                    assert(successors@.contains(successors@[1]));
                                }
                                assert(set =~= set![block, sibling]);
                            }
                            match self.block(sibling) {
                                Some(found) => {
                                    assert(is_sibling(*self, block, predecessor, sibling));
                                    return Some(
                                        AddressWithContext {
                                            address: found.address(),
                                            context: found.context().clone(),
                                            confidence: Confidence::certain(),
                                        },
                                    );
                                },
                                None => {
                                    assert forall|other: IncompleteCodeBlockId|
                                        !(#[trigger] is_sibling(
                                            *self,
                                            block,
                                            predecessor,
                                            other,
                                        )) by {
                                        if is_sibling(*self, block, predecessor, other) {
                                            assert(set![block, other].contains(other));
                                            assert(set![block, sibling].contains(other));
                                        }
                                    }
                                },
                            }
                        },
                        None => {
                            assert forall|other: IncompleteCodeBlockId|
                                !(#[trigger] is_sibling(*self, block, predecessor, other)) by {
                                if is_sibling(*self, block, predecessor, other) {
                                    lemma_two(successors@, block, other);
                                }
                            }
                        },
                    }
                },
                None => {},
            }
            i = i + 1;
        }
        assert forall|guard: IncompleteCodeBlockId, sibling: IncompleteCodeBlockId|
            !(#[trigger] is_sibling(*self, block, guard, sibling)) by {
            if is_sibling(*self, block, guard, sibling) {
                assert(guards@.contains(guard));
                let j = guards@.index_of(guard);
                assert(!is_sibling(*self, block, guards@[j], sibling));
            }
        }
        None
    }

    /// Adds a block behind all others, which must not come after it.
    pub fn push_block(&mut self, block: IncompleteCodeBlock) -> (id: IncompleteCodeBlockId)
        requires
            old(self).wf(),
            old(self).blocks@.len() + 1 < u32::MAX,
            old(self).blocks@.len() > 0 ==> old(self).blocks@.last().start.rank()
                <= block.start.rank(),
        ensures
            final(self).wf(),
            id == place_id::<IncompleteCodeBlockEntity>(
                old(self).blocks@.len() as int,
                old(self).block_generation,
            ),
            final(self).blocks@ == old(self).blocks@.push(block),
            final(self).entry_block == if old(self).entry_block.id == u32::MAX && block.start
                == old(self).entry {
                id
            } else {
                old(self).entry_block
            },
            *final(self) == (IncompleteFunction {
                blocks: final(self).blocks,
                entry_block: final(self).entry_block,
                ..*old(self)
            }),
    {
        let ghost before = *self;
        let count: usize = self.blocks.len();
        let id: IncompleteCodeBlockId = Id::with_generation(count as u32, self.block_generation);
        proof {
            Id::lemma_parts(id, place_id(count as int, self.block_generation));
        }
        if self.entry_block.is_invalid() && block.address() == self.entry {
            self.entry_block = id;
        }
        self.blocks.push(block);
        proof {
            assert forall|i: int, j: int| 0 <= i < j < self.blocks@.len() implies (#[trigger]
            self.blocks@[i]).start.rank() <= (#[trigger] self.blocks@[j]).start.rank() by {
                if j == count {
                    let last = before.blocks@.last();
                    assert(last == before.blocks@[count - 1]);
                    if i < count - 1 {
                        assert(before.blocks@[i].start.rank() <= last.start.rank());
                    }
                } else {
                    assert(before.blocks@[i].start.rank() <= before.blocks@[j].start.rank());
                }
            }
        }
        id
    }

    /// Makes one block a successor of another.
    pub fn add_block_edge(
        &mut self,
        source: IncompleteCodeBlockId,
        target: IncompleteCodeBlockId,
    ) -> (r: Result<(), IncompleteFunctionError>)
        requires
            old(self).wf(),
        ensures
            final(self).wf(),
            r == old(self).edge_ends(source, target),
            r is Err ==> *final(self) == *old(self),
            r is Ok ==> final(self).edge_changed(*old(self), source, target, true),
    {
        self.change_edge(source, target, true)
    }

    /// Makes one block no successor of another.
    pub fn remove_block_edge(
        &mut self,
        source: IncompleteCodeBlockId,
        target: IncompleteCodeBlockId,
    ) -> (r: Result<(), IncompleteFunctionError>)
        requires
            old(self).wf(),
        ensures
            final(self).wf(),
            r == old(self).edge_ends(source, target),
            r is Err ==> *final(self) == *old(self),
            r is Ok ==> final(self).edge_changed(*old(self), source, target, false),
    {
        self.change_edge(source, target, false)
    }

    /// Whether both ends of an edge are blocks, and if not, which is not.
    pub open spec fn edge_ends(
        &self,
        source: IncompleteCodeBlockId,
        target: IncompleteCodeBlockId,
    ) -> Result<(), IncompleteFunctionError> {
        if self.block_place(source) is None {
            Err(IncompleteFunctionError::InvalidBlockId(source))
        } else if self.block_place(target) is None {
            Err(IncompleteFunctionError::InvalidBlockId(target))
        } else {
            Ok(())
        }
    }

    /// A block after an edge was added or taken away.
    pub open spec fn edge_changed(
        &self,
        before: IncompleteFunction,
        source: IncompleteCodeBlockId,
        target: IncompleteCodeBlockId,
        present: bool,
    ) -> bool {
        let (s, t) = (before.block_place(source)->0, before.block_place(target)->0);
        &&& *self == (IncompleteFunction { blocks: self.blocks, ..before })
        &&& self.blocks@.len() == before.blocks@.len()
        &&& forall|b: int|
            0 <= b < self.blocks@.len() ==> (#[trigger] self.blocks@[b])@ == (
            IncompleteCodeBlockView {
                successors: if b != s {
                    before.blocks@[b].successors@
                } else if present {
                    before.blocks@[b].successors@.insert(target)
                } else {
                    before.blocks@[b].successors@.remove(target)
                },
                predecessors: if b != t {
                    before.blocks@[b].predecessors@
                } else if present {
                    before.blocks@[b].predecessors@.insert(source)
                } else {
                    before.blocks@[b].predecessors@.remove(source)
                },
                ..before.blocks@[b]@
            })
    }

    fn change_edge(
        &mut self,
        source: IncompleteCodeBlockId,
        target: IncompleteCodeBlockId,
        present: bool,
    ) -> (r: Result<(), IncompleteFunctionError>)
        requires
            old(self).wf(),
        ensures
            final(self).wf(),
            r == old(self).edge_ends(source, target),
            r is Err ==> *final(self) == *old(self),
            r is Ok ==> final(self).edge_changed(*old(self), source, target, present),
    {
        let ghost before = *self;
        let source_index: usize = match self.block_index(source) {
            Some(index) => index,
            None => {
                return Err(IncompleteFunctionError::invalid_block_id(source));
            },
        };
        let target_index: usize = match self.block_index(target) {
            Some(index) => index,
            None => {
                return Err(IncompleteFunctionError::invalid_block_id(target));
            },
        };
        if present {
            self.blocks[source_index].add_successor(target);
            self.blocks[target_index].add_predecessor(source);
        } else {
            self.blocks[source_index].remove_successor(target);
            self.blocks[target_index].remove_predecessor(source);
        }
        proof {
            assert forall|b: int| 0 <= b < self.blocks@.len() implies (#[trigger]
            self.blocks@[b]).start == before.blocks@[b].start by {
                assert(self.blocks@[b]@.start == before.blocks@[b]@.start);
            }
            lemma_same_starts(before, *self);
        }
        Ok(())
    }

    /// Takes all blocks out. Identities of blocks that were there name nothing from then on.
    pub fn clear_blocks(&mut self)
        requires
            old(self).wf(),
            old(self).block_generation + 1 < u32::MAX,
        ensures
            final(self).wf(),
            final(self).blocks@ == Seq::<IncompleteCodeBlock>::empty(),
            final(self).entry_block == IncompleteCodeBlockId::none(),
            final(self).block_generation == old(self).block_generation + 1,
            *final(self) == (IncompleteFunction {
                blocks: final(self).blocks,
                entry_block: final(self).entry_block,
                block_generation: final(self).block_generation,
                ..*old(self)
            }),
    {
        self.blocks = Vec::new();
        self.entry_block = Id::invalid();
        self.block_generation = self.block_generation + 1;
    }
}

/// An identity that named a block names none after the blocks were taken out.
pub proof fn law_cleared_blocks_are_gone(
    before: IncompleteFunction,
    after: IncompleteFunction,
    later: IncompleteFunction,
    id: IncompleteCodeBlockId,
)
    requires
        before.block_place(id) is Some,
        after.block_generation == before.block_generation + 1,
        later.block_generation == after.block_generation,
    ensures
        later.block_place(id) is None,
{
}

/// Whether the blocks that begin at an address are those between two places.
pub open spec fn starts_between(
    blocks: Seq<IncompleteCodeBlock>,
    address: Address,
    start: int,
    end: int,
) -> bool {
    forall|i: int|
        0 <= i < blocks.len() ==> ((#[trigger] blocks[i]).start == address <==> start <= i < end)
}

/// Whether the invariant holds depends on where the blocks begin only.
proof fn lemma_same_starts(before: IncompleteFunction, after: IncompleteFunction)
    requires
        before.wf(),
        after == (IncompleteFunction { blocks: after.blocks, ..before }),
        after.blocks@.len() == before.blocks@.len(),
        forall|i: int|
            0 <= i < before.blocks@.len() ==> (#[trigger] after.blocks@[i]).start
                == before.blocks@[i].start,
    ensures
        after.wf(),
{
    assert forall|i: int, j: int| 0 <= i < j < after.blocks@.len() implies (#[trigger]
    after.blocks@[i]).start.rank() <= (#[trigger] after.blocks@[j]).start.rank() by {
        assert(before.blocks@[i].start.rank() <= before.blocks@[j].start.rank());
    }
}

/// If there are two identities and one is the given one, the other.
fn other_of_two(ids: &Vec<IncompleteCodeBlockId>, id: IncompleteCodeBlockId) -> (other: Option<
    IncompleteCodeBlockId,
>)
    requires
        ids@.no_duplicates(),
    ensures
        match other {
            Some(other) => ids@.len() == 2 && other != id && (ids@ == seq![id, other] || ids@
                == seq![other, id]),
            None => ids@.len() != 2 || (ids@[0] != id && ids@[1] != id),
        },
{
    if ids.len() != 2 {
        return None;
    }
    let (first, second): (IncompleteCodeBlockId, IncompleteCodeBlockId) = (ids[0], ids[1]);
    if first == id {
        assert(ids@ =~= seq![id, second]);
        Some(second)
    } else if second == id {
        assert(ids@ =~= seq![first, id]);
        Some(first)
    } else {
        None
    }
}

/// A list of two different identities has two entries, one of them the first.
proof fn lemma_two(
    ids: Seq<IncompleteCodeBlockId>,
    a: IncompleteCodeBlockId,
    b: IncompleteCodeBlockId,
)
    requires
        ids.no_duplicates(),
        a != b,
        forall|id: IncompleteCodeBlockId| #[trigger] ids.contains(id) <==> id == a || id == b,
    ensures
        ids.len() == 2,
        ids[0] == a || ids[1] == a,
{
    assert(ids.contains(a));
    assert(ids.contains(b));
    let (i, j) = (ids.index_of(a), ids.index_of(b));
    assert(i != j);
    if ids.len() > 2 {
        assert(ids.contains(ids[0]));
        assert(ids.contains(ids[1]));
        assert(ids.contains(ids[2]));
    }
    if ids.len() == 1 {
        assert(i == 0 && j == 0);
    }
}

/// The recorded blocks under the identities that they were given.
pub open spec fn record_members(record: FunctionRecord, ids: Seq<CodeBlockId>) -> Seq<
    (Address, CodeBlockId),
> {
    Seq::new(record.blocks@.len(), |i: int| (record.blocks@[i].address, ids[i]))
}

/// The recorded edges between blocks under the identities that they were given.
pub open spec fn record_edges(record: FunctionRecord, ids: Seq<CodeBlockId>) -> Seq<
    (CodeBlockId, CodeBlockId),
> {
    record.edges@.map_values(|e: (usize, usize)| (ids[e.0 as int], ids[e.1 as int]))
}

impl FunctionRecord {
    /// Where the recorded blocks begin.
    pub fn block_addresses(&self) -> (addresses: Vec<Address>)
        ensures
            addresses@ == self.blocks@.map_values(|b: CodeBlockRecord| b.address),
    {
        let mut addresses: Vec<Address> = Vec::new();
        let mut i: usize = 0;
        while i < self.blocks.len()
            invariant
                i <= self.blocks@.len(),
                addresses@.len() == i,
                forall|j: int| 0 <= j < i ==> #[trigger] addresses@[j] == self.blocks@[j].address,
            decreases self.blocks@.len() - i,
        {
            addresses.push(self.blocks[i].address());
            i = i + 1;
        }
        assert(addresses@ =~= self.blocks@.map_values(|b: CodeBlockRecord| b.address));
        addresses
    }

    pub fn block_count(&self) -> (count: usize)
        ensures
            count == self.blocks@.len(),
    {
        self.blocks.len()
    }

    pub fn entry(&self) -> (entry: Address)
        ensures
            entry == self.entry,
    {
        self.entry
    }

    pub fn take_call_targets(&mut self) -> (targets: SortedSet<Address>)
        ensures
            targets == old(self).call_targets,
            final(self).call_targets@ == Set::<Address>::empty(),
            final(self).call_targets.wf(),
            *final(self) == (FunctionRecord {
                call_targets: final(self).call_targets,
                ..*old(self)
            }),
    {
        let mut targets: SortedSet<Address> = SortedSet::new();
        core::mem::swap(&mut targets, &mut self.call_targets);
        targets
    }

    pub fn take_coverage(&mut self) -> (coverage: AddressRangeSet)
        ensures
            coverage == old(self).coverage,
            final(self).coverage@ == Set::<Address>::empty(),
            final(self).coverage.wf(),
            *final(self) == (FunctionRecord { coverage: final(self).coverage, ..*old(self) }),
    {
        let mut coverage: AddressRangeSet = AddressRangeSet::new();
        core::mem::swap(&mut coverage, &mut self.coverage);
        coverage
    }

    pub fn take_references(&mut self) -> (references: Vec<Reference>)
        ensures
            references == old(self).references,
            final(self).references@ == Seq::<Reference>::empty(),
            *final(self) == (FunctionRecord { references: final(self).references, ..*old(self) }),
    {
        let mut references: Vec<Reference> = Vec::new();
        core::mem::swap(&mut references, &mut self.references);
        references
    }

    /// Makes the function, given the identities of its blocks.
    pub fn materialise(self, id: FunctionId, ids: &Vec<CodeBlockId>) -> (function: Function)
        requires
            self.wf(),
            ids@.len() == self.blocks@.len(),
            forall|i: int| 0 <= i < ids@.len() ==> (#[trigger] ids@[i]).id < u32::MAX,
        ensures
            function@ == (FunctionView {
                entry_block: match self.entry_block {
                    Some(i) => ids@[i as int],
                    None => CodeBlockId::none(),
                },
                blocks: record_members(self, ids@),
                edges: function@.edges,
                properties: self.properties,
                origin: self.origin,
                confidence: self.confidence,
                input_revision: self.input_revision,
                tail_call_sites: self.tail_call_sites@,
                ..blank_function(id, self.entry, self.name)
            }),
            sorts(function@.edges, record_edges(self, ids@)),
            function@.wf(),
    {
        let mut members: Vec<(Address, CodeBlockId)> = Vec::new();
        let mut i: usize = 0;
        while i < self.blocks.len()
            invariant
                i <= self.blocks@.len(),
                ids@.len() == self.blocks@.len(),
                members@.len() == i,
                forall|j: int|
                    0 <= j < i ==> #[trigger] members@[j] == (self.blocks@[j].address, ids@[j]),
            decreases self.blocks@.len() - i,
        {
            members.push((self.blocks[i].address(), ids[i]));
            i = i + 1;
        }
        assert(members@ =~= record_members(self, ids@));
        let mut edges: Vec<(CodeBlockId, CodeBlockId)> = Vec::new();
        let mut k: usize = 0;
        while k < self.edges.len()
            invariant
                k <= self.edges@.len(),
                self.wf(),
                ids@.len() == self.blocks@.len(),
                edges@.len() == k,
                forall|j: int|
                    0 <= j < k ==> #[trigger] edges@[j] == (
                        ids@[self.edges@[j].0 as int],
                        ids@[self.edges@[j].1 as int],
                    ),
            decreases self.edges@.len() - k,
        {
            let (source, target): (usize, usize) = self.edges[k];
            edges.push((ids[source], ids[target]));
            k = k + 1;
        }
        assert(edges@ =~= record_edges(self, ids@));
        let sorted: Vec<(CodeBlockId, CodeBlockId)> = sort_keys(&edges);
        let entry_block: Option<CodeBlockId> = match self.entry_block {
            Some(entry) => Some(ids[entry]),
            None => None,
        };
        let mut function: Function = Function::new_with(id, self.entry, self.name).with_body(
            members,
            sorted,
            entry_block,
        );
        function.set_properties(self.properties);
        function.set_origin(self.origin);
        function.set_confidence(self.confidence);
        function.set_input_revision(self.input_revision);
        function.set_tail_call_sites(&self.tail_call_sites);
        proof {
            crate::order::law_sorting_determined(
                function@.tail_call_sites,
                self.tail_call_sites@,
                self.tail_call_sites@,
            );
            let view = function@;
            assert forall|j: int| 0 <= j < ids@.len() implies lists_block(
                view.blocks,
                #[trigger] ids@[j],
            ) by {
                assert(view.blocks[j].1 == ids@[j]);
            }
            assert forall|j: int| 0 <= j < view.edges.len() implies lists_block(
                view.blocks,
                (#[trigger] view.edges[j]).0,
            ) && lists_block(view.blocks, view.edges[j].1) by {
                assert(view.edges.contains(view.edges[j]));
                let n = edges@.index_of(view.edges[j]);
                assert(edges@[n] == view.edges[j]);
                assert(self.edges@[n].0 < self.blocks@.len());
            }
            assert forall|a: int, b: int| 0 <= a < b < view.blocks.len() implies (#[trigger]
            view.blocks[a]).0.rank() <= (#[trigger] view.blocks[b]).0.rank() by {
                assert(self.blocks@[a].address.rank() <= self.blocks@[b].address.rank());
            }
            assert(by_address(view.blocks));
        }
        function
    }
}

} // verus!
