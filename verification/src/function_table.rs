//! The table of all functions.
use vstd::prelude::*;

use crate::address::{Address, AddressRange, RawAddress};
use crate::block::{CodeBlock, CodeBlockId, CodeBlockView};
use crate::body::lemma_push_contains;
use crate::block_holders::{held, none_empty, without_holder, BlockHolders};
use crate::block_table::{block_meets, finds, CodeBlockTable};
use crate::function::{lists_block, Function, FunctionEntity, FunctionId, FunctionView};
use crate::id::{hands_out, IdAllocator, IdSet};
use crate::keyed_table::{changed_in_place, key_is_free, keyed, reindexed, KeyedTable, TableEntry};
use crate::order::{ascending, bounds_ordered, cursor_bound, lies_between, KeyBound, SortedSet};
use crate::types::{copy_values, AddressSpaceId};

verus! {

/// Why a function was not put into the table.
#[derive(Debug)]
pub enum FunctionTableError {
    AddressMismatch,
    Custom(String),
    Other(String),
}

impl FunctionTableError {
    pub fn custom(error: String) -> (r: Self)
        ensures
            r == FunctionTableError::Custom(error),
    {
        FunctionTableError::Custom(error)
    }

    pub fn custom_with(message: String) -> (r: Self)
        ensures
            r == FunctionTableError::Custom(message),
    {
        FunctionTableError::Custom(message)
    }

    pub fn other(error: String) -> (r: Self)
        ensures
            r == FunctionTableError::Other(error),
    {
        FunctionTableError::Other(error)
    }

    pub fn other_with(message: String) -> (r: Self)
        ensures
            r == FunctionTableError::Other(message),
    {
        FunctionTableError::Other(message)
    }
}

/// Functions are found by their entries.
impl TableEntry<FunctionEntity, Address> for Function {
    open spec fn ident(&self) -> FunctionId {
        self.id
    }

    open spec fn own_key(&self) -> Address {
        self.entry
    }

    fn entry_id(&self) -> (id: FunctionId) {
        self.id
    }

    fn entry_key(&self) -> (key: Address) {
        self.entry
    }
}

/// What a table shows once the function with an identity was changed in its slot. Nothing is
/// shown under an identity that its function has no more, and a function whose identity names
/// another slot is not shown at all.
pub open spec fn function_changed(
    functions: Map<FunctionId, FunctionView>,
    id: FunctionId,
    function: FunctionView,
) -> Map<FunctionId, FunctionView> {
    if function.id == id {
        functions.insert(id, function)
    } else if function.id.id == id.id {
        functions.remove(id).insert(function.id, function)
    } else {
        functions.remove(id)
    }
}

/// Functions as they are, apart from how they are stored.
pub open spec fn shown(functions: Map<FunctionId, Function>) -> Map<FunctionId, FunctionView> {
    Map::new(|id: FunctionId| functions.contains_key(id), |id: FunctionId| functions[id]@)
}

/// Whether blocks are listed with the functions that are made of them, and with no others.
pub open spec fn holders_agree(
    holders: Map<CodeBlockId, Set<FunctionId>>,
    functions: Map<FunctionId, FunctionView>,
) -> bool {
    forall|block: CodeBlockId, id: FunctionId| #[trigger]
        held(holders, block).contains(id) <==> functions.contains_key(id) && lists_block(
            functions[id].blocks,
            block,
        )
}

/// The table of all functions.
pub struct FunctionTable {
    table: KeyedTable<FunctionEntity, Address, Function>,
    by_block: BlockHolders,
}

impl View for FunctionTable {
    type V = Map<FunctionId, FunctionView>;

    closed spec fn view(&self) -> Map<FunctionId, FunctionView> {
        shown(self.table@)
    }
}

/// What is listed once a function is no more made of some blocks.
pub open spec fn unlinked(
    holders: Map<CodeBlockId, Set<FunctionId>>,
    blocks: Seq<(Address, CodeBlockId)>,
    function: FunctionId,
) -> Map<CodeBlockId, Set<FunctionId>>
    decreases blocks.len(),
{
    if blocks.len() == 0 {
        holders
    } else {
        without_holder(
            unlinked(holders, blocks.drop_last(), function),
            blocks.last().1,
            function,
        )
    }
}

/// What is listed once a function is made of some blocks.
pub open spec fn linked(
    holders: Map<CodeBlockId, Set<FunctionId>>,
    blocks: Seq<(Address, CodeBlockId)>,
    function: FunctionId,
) -> Map<CodeBlockId, Set<FunctionId>>
    decreases blocks.len(),
{
    if blocks.len() == 0 {
        holders
    } else {
        let before = linked(holders, blocks.drop_last(), function);
        before.insert(blocks.last().1, held(before, blocks.last().1).insert(function))
    }
}

/// Linking a function changes only its own membership, and only in its blocks.
pub proof fn lemma_linked(
    holders: Map<CodeBlockId, Set<FunctionId>>,
    blocks: Seq<(Address, CodeBlockId)>,
    function: FunctionId,
)
    ensures
        forall|block: CodeBlockId, id: FunctionId| #[trigger]
            held(linked(holders, blocks, function), block).contains(id) <==> held(
                holders,
                block,
            ).contains(id) || (id == function && lists_block(blocks, block)),
        none_empty(holders) ==> none_empty(linked(holders, blocks, function)),
    decreases blocks.len(),
{
    let after = linked(holders, blocks, function);
    if blocks.len() == 0 {
    } else {
        let rest = blocks.drop_last();
        let before = linked(holders, rest, function);
        lemma_linked(holders, rest, function);
        assert forall|block: CodeBlockId, id: FunctionId| #[trigger]
            held(after, block).contains(id) <==> held(holders, block).contains(id) || (id
                == function && lists_block(blocks, block)) by {
            assert(held(before, block).contains(id) <==> held(holders, block).contains(id) || (id
                == function && lists_block(rest, block)));
            lemma_lists_last(blocks, block);
        }
        if none_empty(holders) {
            assert forall|block: CodeBlockId| #[trigger] after.contains_key(block) implies after[block]
                != Set::<FunctionId>::empty() by {
                if block == blocks.last().1 {
                    assert(after[block].contains(function));
                } else {
                    assert(before.contains_key(block));
                }
            }
        }
    }
}

/// Unlinking a function takes away its own membership, and only in its blocks.
pub proof fn lemma_unlinked(
    holders: Map<CodeBlockId, Set<FunctionId>>,
    blocks: Seq<(Address, CodeBlockId)>,
    function: FunctionId,
)
    ensures
        forall|block: CodeBlockId, id: FunctionId| #[trigger]
            held(unlinked(holders, blocks, function), block).contains(id) <==> held(
                holders,
                block,
            ).contains(id) && !(id == function && lists_block(blocks, block)),
        none_empty(holders) ==> none_empty(unlinked(holders, blocks, function)),
    decreases blocks.len(),
{
    let after = unlinked(holders, blocks, function);
    if blocks.len() == 0 {
    } else {
        let rest = blocks.drop_last();
        let before = unlinked(holders, rest, function);
        lemma_unlinked(holders, rest, function);
        let last = blocks.last().1;
        let left = held(before, last).remove(function);
        assert forall|block: CodeBlockId, id: FunctionId| #[trigger]
            held(after, block).contains(id) <==> held(holders, block).contains(id) && !(id
                == function && lists_block(blocks, block)) by {
            assert(held(before, block).contains(id) <==> held(holders, block).contains(id) && !(id
                == function && lists_block(rest, block)));
            lemma_lists_last(blocks, block);
            if block == last {
                assert(left.contains(id) <==> held(before, last).contains(id) && id != function);
            }
        }
    }
}

/// The listed blocks are the last and those before it.
proof fn lemma_lists_last(blocks: Seq<(Address, CodeBlockId)>, block: CodeBlockId)
    requires
        blocks.len() > 0,
    ensures
        lists_block(blocks, block) <==> lists_block(blocks.drop_last(), block) || blocks.last().1
            == block,
{
    let rest = blocks.drop_last();
    if lists_block(blocks, block) {
        let i = choose|i: int| 0 <= i < blocks.len() && (#[trigger] blocks[i]).1 == block;
        if i < rest.len() {
            assert(rest[i].1 == block);
        }
    }
    if lists_block(rest, block) {
        let i = choose|i: int| 0 <= i < rest.len() && (#[trigger] rest[i]).1 == block;
        assert(blocks[i].1 == block);
    }
    if blocks.last().1 == block {
        assert(blocks[blocks.len() - 1].1 == block);
    }
}

/// Links a function with its blocks.
fn link(by_block: &mut BlockHolders, blocks: &[(Address, CodeBlockId)], function: FunctionId)
    requires
        old(by_block).wf(),
    ensures
        final(by_block).wf(),
        final(by_block)@ == linked(old(by_block)@, blocks@, function),
{
    let ghost before = by_block@;
    let mut i: usize = 0;
    while i < blocks.len()
        invariant
            i <= blocks@.len(),
            by_block.wf(),
            by_block@ == linked(before, blocks@.take(i as int), function),
        decreases blocks@.len() - i,
    {
        by_block.add_holder(blocks[i].1, function);
        i = i + 1;
        assert(blocks@.take(i as int).drop_last() =~= blocks@.take(i - 1));
    }
    assert(blocks@.take(i as int) =~= blocks@);
}

/// Unlinks a function from its blocks.
fn unlink(by_block: &mut BlockHolders, blocks: &[(Address, CodeBlockId)], function: FunctionId)
    requires
        old(by_block).wf(),
    ensures
        final(by_block).wf(),
        final(by_block)@ == unlinked(old(by_block)@, blocks@, function),
{
    let ghost before = by_block@;
    let mut i: usize = 0;
    while i < blocks.len()
        invariant
            i <= blocks@.len(),
            by_block.wf(),
            by_block@ == unlinked(before, blocks@.take(i as int), function),
        decreases blocks@.len() - i,
    {
        by_block.drop_holder(blocks[i].1, function);
        i = i + 1;
        assert(blocks@.take(i as int).drop_last() =~= blocks@.take(i - 1));
    }
    assert(blocks@.take(i as int) =~= blocks@);
}

/// Whether functions are found by their entries.
pub open spec fn found_by_entry(
    index: Map<Address, FunctionId>,
    functions: Map<FunctionId, FunctionView>,
) -> bool {
    &&& forall|id: FunctionId| #[trigger]
        functions.contains_key(id) ==> functions[id].id == id && index.contains_key(
            functions[id].entry,
        ) && index[functions[id].entry] == id
    &&& forall|entry: Address| #[trigger]
        index.contains_key(entry) ==> functions.contains_key(index[entry])
            && functions[index[entry]].entry == entry
}

/// The blocks of a function, as far as it is there.
pub open spec fn blocks_of(
    functions: Map<FunctionId, FunctionView>,
    id: FunctionId,
) -> Seq<(Address, CodeBlockId)> {
    if functions.contains_key(id) {
        functions[id].blocks
    } else {
        Seq::empty()
    }
}

/// What is listed once a function is made of other blocks than before.
pub open spec fn relinked(
    holders: Map<CodeBlockId, Set<FunctionId>>,
    previous: Seq<(Address, CodeBlockId)>,
    blocks: Seq<(Address, CodeBlockId)>,
    id: FunctionId,
) -> Map<CodeBlockId, Set<FunctionId>> {
    linked(unlinked(holders, previous, id), blocks, id)
}

/// Where a function takes the place of another under its identity, or of none, relinking it
/// keeps the lists in agreement with the functions.
pub proof fn lemma_relinked(
    holders: Map<CodeBlockId, Set<FunctionId>>,
    functions: Map<FunctionId, FunctionView>,
    id: FunctionId,
    function: FunctionView,
)
    requires
        holders_agree(holders, functions),
    ensures
        holders_agree(
            relinked(holders, blocks_of(functions, id), function.blocks, id),
            functions.insert(id, function),
        ),
{
    let previous = blocks_of(functions, id);
    let middle = unlinked(holders, previous, id);
    let after = relinked(holders, previous, function.blocks, id);
    lemma_unlinked(holders, previous, id);
    lemma_linked(middle, function.blocks, id);
    assert forall|block: CodeBlockId, other: FunctionId| #[trigger]
        held(after, block).contains(other) <==> functions.insert(id, function).contains_key(other)
            && lists_block(functions.insert(id, function)[other].blocks, block) by {
        assert(held(middle, block).contains(other) <==> held(holders, block).contains(other) && !(
        other == id && lists_block(previous, block)));
        assert(held(holders, block).contains(other) <==> functions.contains_key(other)
            && lists_block(functions[other].blocks, block));
    }
}

/// Where a function is taken out, unlinking it keeps the lists in agreement with the functions.
pub proof fn lemma_unlinked_agree(
    holders: Map<CodeBlockId, Set<FunctionId>>,
    functions: Map<FunctionId, FunctionView>,
    id: FunctionId,
)
    requires
        holders_agree(holders, functions),
    ensures
        holders_agree(unlinked(holders, blocks_of(functions, id), id), functions.remove(id)),
{
    let after = unlinked(holders, blocks_of(functions, id), id);
    lemma_unlinked(holders, blocks_of(functions, id), id);
    assert forall|block: CodeBlockId, other: FunctionId| #[trigger]
        held(after, block).contains(other) <==> functions.remove(id).contains_key(other)
            && lists_block(functions.remove(id)[other].blocks, block) by {
        assert(held(holders, block).contains(other) <==> functions.contains_key(other)
            && lists_block(functions[other].blocks, block));
    }
}

/// Whether a table differs from another by a function with an entry.
pub open spec fn takes_in(
    before: &FunctionTable,
    after: &FunctionTable,
    entry: Address,
    id: FunctionId,
    function: FunctionView,
) -> bool {
    &&& function.entry == entry
    &&& after@ == before@.insert(id, function)
    &&& after.index() == before.index().insert(entry, id)
    &&& if before.index().contains_key(entry) {
        after.ids() == before.ids()
    } else {
        hands_out(after.ids(), before.ids(), 1, Seq::empty())
    }
    &&& after.holders() == relinked(
        before.holders(),
        blocks_of(before@, id),
        function.blocks,
        id,
    )
}

/// Whether some function that is listed for a block of the table that meets a range has an
/// identity.
pub open spec fn holds_some(
    holders: Map<CodeBlockId, Set<FunctionId>>,
    blocks: Map<CodeBlockId, CodeBlockView>,
    range: AddressRange,
    id: FunctionId,
) -> bool {
    exists|block: CodeBlockId| #[trigger]
        blocks.contains_key(block) && blocks[block].range().meets(range) && held(
            holders,
            block,
        ).contains(id)
}

impl FunctionTable {
    /// The functions stand under their identities, and the allocator knows which are in use.
    pub closed spec fn sound(&self) -> bool {
        &&& self.table.sound()
        &&& self.by_block.wf()
        &&& none_empty(self.by_block@)
        &&& forall|id: FunctionId| #[trigger] self.table@.contains_key(id) ==> self.table@[id]@.wf()
    }

    /// The functions are found by their entries.
    pub open spec fn wf(&self) -> bool {
        self.sound() && found_by_entry(self.index(), self@)
    }

    /// Blocks are listed with the functions that are made of them.
    pub open spec fn consistent(&self) -> bool {
        holders_agree(self.holders(), self@)
    }

    /// What is found by each entry.
    pub closed spec fn index(&self) -> Map<Address, FunctionId> {
        self.table.index()
    }

    /// The functions that are listed for each block.
    pub closed spec fn holders(&self) -> Map<CodeBlockId, Set<FunctionId>> {
        self.by_block@
    }

    /// What hands out the identities.
    pub closed spec fn ids(&self) -> IdAllocator<FunctionEntity> {
        self.table.ids()
    }

    /// Whether a slot is handed out and no function stands in it.
    pub open spec fn reserved(&self, slot: int) -> bool {
        &&& self.ids().in_use(slot)
        &&& forall|id: FunctionId| #[trigger] self@.contains_key(id) ==> id.id != slot
    }

    /// What holds of every table.
    pub proof fn lemma_sound(&self)
        requires
            self.sound(),
        ensures
            self.ids().wf(),
            none_empty(self.holders()),
            forall|id: FunctionId| #[trigger]
                self@.contains_key(id) ==> self@[id].id == id && id.id < u32::MAX && self@[id].wf()
                    && self.ids().in_use(id.id as int),
            forall|a: FunctionId, b: FunctionId|
                #![trigger self@.contains_key(a), self@.contains_key(b)]
                self@.contains_key(a) && self@.contains_key(b) && a.id == b.id ==> a == b,
    {
        self.table.lemma_sound();
        assert forall|id: FunctionId| #[trigger] self@.contains_key(id) implies self@[id].id == id
            && id.id < u32::MAX && self@[id].wf() && self.ids().in_use(id.id as int) by {
            assert(self.table@.contains_key(id));
        }
        assert forall|a: FunctionId, b: FunctionId|
            #![trigger self@.contains_key(a), self@.contains_key(b)]
            self@.contains_key(a) && self@.contains_key(b) && a.id == b.id implies a == b by {
            assert(self.table@.contains_key(a) && self.table@.contains_key(b));
        }
    }

    proof fn lemma_keyed(&self)
        ensures
            found_by_entry(self.index(), self@) <==> keyed(self.table.index(), self.table@),
    {
        if found_by_entry(self.index(), self@) {
            assert forall|id: FunctionId| #[trigger]
                self.table@.contains_key(id) implies self.table@[id].ident() == id
                && self.table.index().contains_key(self.table@[id].own_key())
                && self.table.index()[self.table@[id].own_key()] == id by {
                assert(self@.contains_key(id));
            }
            assert forall|entry: Address| #[trigger]
                self.table.index().contains_key(entry) implies self.table@.contains_key(
                self.table.index()[entry],
            ) && self.table@[self.table.index()[entry]].own_key() == entry by {
                assert(self.index().contains_key(entry));
            }
        }
        if keyed(self.table.index(), self.table@) {
            assert forall|id: FunctionId| #[trigger] self@.contains_key(id) implies self@[id].id
                == id && self.index().contains_key(self@[id].entry) && self.index()[self@[id].entry]
                == id by {
                assert(self.table@.contains_key(id));
            }
            assert forall|entry: Address| #[trigger]
                self.index().contains_key(entry) implies self@.contains_key(self.index()[entry])
                && self@[self.index()[entry]].entry == entry by {
                assert(self.table.index().contains_key(entry));
            }
        }
    }

    pub fn new() -> (table: Self)
        ensures
            table.wf(),
            table.consistent(),
            table@ == Map::<FunctionId, FunctionView>::empty(),
            table.index() == Map::<Address, FunctionId>::empty(),
            table.holders() == Map::<CodeBlockId, Set<FunctionId>>::empty(),
            table.ids().free_ids@ == Seq::<FunctionId>::empty(),
            table.ids().next_index == 0,
    {
        let table = FunctionTable { table: KeyedTable::new(), by_block: BlockHolders::new() };
        assert(table@ =~= Map::<FunctionId, FunctionView>::empty());
        table
    }

    /// A table that is kept in memory.
    pub fn new_transient() -> (table: Self)
        ensures
            table.wf(),
            table.consistent(),
            table@ == Map::<FunctionId, FunctionView>::empty(),
            table.index() == Map::<Address, FunctionId>::empty(),
            table.holders() == Map::<CodeBlockId, Set<FunctionId>>::empty(),
            table.ids().free_ids@ == Seq::<FunctionId>::empty(),
            table.ids().next_index == 0,
    {
        FunctionTable::new()
    }

    /// The identity that the reservation after `offset` others gives.
    pub fn pending_id(&self, offset: usize) -> (id: FunctionId)
        requires
            self.sound(),
            offset < self.ids().room(),
        ensures
            id == self.ids().pending(offset as int),
    {
        self.table.pending_id(offset)
    }

    pub fn get_by_id(&self, id: FunctionId) -> (function: Option<&Function>)
        requires
            self.sound(),
        ensures
            function is Some == self@.contains_key(id),
            function matches Some(f) ==> f@ == self@[id] && f.id == id && f@.wf(),
    {
        proof {
            self.lemma_sound();
        }
        let function: Option<&Function> = self.table.get_by_id(id);
        assert(self@.contains_key(id) == self.table@.contains_key(id));
        function
    }

    pub fn get_by_address(&self, address: Address) -> (function: Option<&Function>)
        requires
            self.sound(),
        ensures
            function is Some == (self.index().contains_key(address) && self@.contains_key(
                self.index()[address],
            )),
            function matches Some(f) ==> f@ == self@[self.index()[address]] && f.id
                == self.index()[address] && f@.wf(),
    {
        match self.table.id_by_key(address) {
            Some(id) => self.get_by_id(id),
            None => None,
        }
    }

    /// Whether an address leads to a function as its entry.
    pub fn contains(&self, address: Address) -> (found: bool)
        requires
            self.sound(),
        ensures
            found == self.index().contains_key(address),
    {
        self.table.contains_key(address)
    }

    /// The entries in their order.
    pub fn addresses(&self) -> (addresses: Vec<Address>)
        requires
            self.sound(),
        ensures
            ascending(addresses@),
            addresses@.to_set() == self.index().dom(),
    {
        self.table.keys()
    }

    /// The functions that are listed for a block.
    pub fn get_by_block_id(&self, block: CodeBlockId) -> (functions: IdSet<FunctionEntity>)
        ensures
            functions@ == held(self.holders(), block),
    {
        self.by_block.get_or_empty(block)
    }

    /// The functions in the order of their slots.
    pub fn iter(&self) -> (functions: Vec<&Function>)
        requires
            self.sound(),
        ensures
            forall|i: int|
                0 <= i < functions@.len() ==> self@.contains_key((#[trigger] functions@[i]).id)
                    && functions@[i]@ == self@[functions@[i].id],
            forall|i: int, j: int|
                0 <= i < j < functions@.len() ==> (#[trigger] functions@[i]).id.id < (#[trigger]
                functions@[j]).id.id,
            forall|id: FunctionId| #[trigger]
                self@.contains_key(id) ==> exists|i: int|
                    0 <= i < functions@.len() && (#[trigger] functions@[i]).id == id,
    {
        let functions: Vec<&Function> = self.table.iter();
        proof {
            assert forall|i: int| 0 <= i < functions@.len() implies self@.contains_key(
                (#[trigger] functions@[i]).id,
            ) && functions@[i]@ == self@[functions@[i].id] by {
                assert(self.table@.contains_key(functions@[i].ident()));
            }
            assert forall|i: int, j: int| 0 <= i < j < functions@.len() implies (#[trigger]
            functions@[i]).id.id < (#[trigger] functions@[j]).id.id by {
                assert(functions@[i].ident().id < functions@[j].ident().id);
            }
            assert forall|id: FunctionId| #[trigger] self@.contains_key(id) implies exists|i: int|
                0 <= i < functions@.len() && (#[trigger] functions@[i]).id == id by {
                assert(self.table@.contains_key(id));
                let i = choose|i: int|
                    0 <= i < functions@.len() && (#[trigger] functions@[i]).ident() == id;
                assert(functions@[i].id == id);
            }
        }
        functions
    }

    pub fn is_empty(&self) -> (empty: bool)
        requires
            self.sound(),
        ensures
            empty == (self.index() == Map::<Address, FunctionId>::empty()),
            self.wf() ==> empty == (self@ == Map::<FunctionId, FunctionView>::empty()),
    {
        let empty: bool = self.table.is_empty();
        proof {
            if self.wf() {
                if empty {
                    assert forall|id: FunctionId| !(#[trigger] self@.contains_key(id)) by {
                        if self@.contains_key(id) {
                            assert(self.index().contains_key(self@[id].entry));
                        }
                    }
                    assert(self@ =~= Map::<FunctionId, FunctionView>::empty());
                } else if self@ == Map::<FunctionId, FunctionView>::empty() {
                    assert forall|entry: Address| !(#[trigger] self.index().contains_key(entry)) by {
                    }
                    assert(self.index() =~= Map::<Address, FunctionId>::empty());
                }
            }
        }
        empty
    }

    /// There are as many functions as there are entries.
    pub proof fn lemma_len(&self)
        requires
            self.wf(),
        ensures
            self@.dom().finite(),
            self@.dom().len() == self.index().dom().len(),
    {
        self.lemma_keyed();
        self.table.lemma_len();
        assert(self@.dom() =~= self.table@.dom());
    }

    pub fn len(&self) -> (len: usize)
        requires
            self.sound(),
        ensures
            self.index().dom().finite(),
            len == self.index().dom().len(),
            self.wf() ==> self@.dom().finite() && len == self@.dom().len(),
    {
        proof {
            if self.wf() {
                self.lemma_len();
            }
        }
        self.table.len()
    }

    /// The entries in a span of offsets of a space, in their order.
    pub fn addresses_in_range(
        &self,
        space: AddressSpaceId,
        start: KeyBound<RawAddress>,
        end: KeyBound<RawAddress>,
    ) -> (addresses: Vec<Address>)
        requires
            self.sound(),
            bounds_ordered(start, end),
        ensures
            ascending(addresses@),
            forall|a: Address| #[trigger]
                addresses@.contains(a) <==> self.index().contains_key(a) && a.space == space
                    && lies_between(start, end, a.address),
    {
        let (first, last): (KeyBound<Address>, KeyBound<Address>) = Address::bounds_in_space(
            space,
            start,
            end,
        );
        let addresses: Vec<Address> = self.table.keys_between(first, last);
        proof {
            assert forall|a: Address| #[trigger]
                addresses@.contains(a) <==> self.index().contains_key(a) && a.space == space
                    && lies_between(start, end, a.address) by {
                assert(addresses@.contains(a) <==> self.index().dom().contains(a)
                    && lies_between(first, last, a));
            }
        }
        addresses
    }

    /// The entries of a space behind an offset, in their order.
    pub fn addresses_in_space_after(&self, space: AddressSpaceId, after: Option<RawAddress>) -> (
        addresses: Vec<Address>)
        requires
            self.sound(),
        ensures
            ascending(addresses@),
            forall|a: Address| #[trigger]
                addresses@.contains(a) <==> self.index().contains_key(a) && a.space == space && (
                after matches Some(offset) ==> offset.0 < a.address.0),
    {
        let start: KeyBound<RawAddress> = cursor_bound(after);
        self.addresses_in_range(space, start, KeyBound::Unbounded)
    }
}

impl FunctionTable {
    /// The identity that a function with an entry gets or has.
    pub open spec fn target(&self, address: Address) -> FunctionId {
        if self.index().contains_key(address) {
            self.index()[address]
        } else {
            self.ids().pending(0)
        }
    }

    /// Puts a function in place of the one with its entry and identity.
    fn put_again(&mut self, function: Function)
        requires
            old(self).wf(),
            function@.wf(),
            old(self).index().contains_key(function.entry),
            function.id == old(self).index()[function.entry],
        ensures
            final(self).wf(),
            old(self).consistent() ==> final(self).consistent(),
            takes_in(old(self), final(self), function.entry, function.id, function@),
    {
        let ghost before = *self;
        let id: FunctionId = function.id();
        proof {
            before.lemma_sound();
            before.lemma_keyed();
            assert(before@.contains_key(id));
            assert(before.table@.contains_key(id));
            lemma_unlinked(before.by_block@, blocks_of(before@, id), id);
            lemma_linked(
                unlinked(before.by_block@, blocks_of(before@, id), id),
                function.blocks@,
                id,
            );
            if before.consistent() {
                lemma_relinked(before.holders(), before@, id, function@);
            }
        }
        let blocks: Vec<(Address, CodeBlockId)> = copy_values(&function.blocks);
        let previous: Function = self.table.replace_entry(function);
        unlink(&mut self.by_block, previous.blocks.as_slice(), id);
        link(&mut self.by_block, blocks.as_slice(), id);
        proof {
            assert(self@ =~= before@.insert(id, function@));
            assert(self.index() =~= before.index().insert(function.entry, id));
            self.lemma_keyed();
            assert forall|other: FunctionId| #[trigger]
                self.table@.contains_key(other) implies self.table@[other]@.wf() by {
                assert(before.table@.contains_key(other));
            }
        }
    }

    /// Puts a function under the next identity, which it has already.
    fn put_new(&mut self, function: Function)
        requires
            old(self).wf(),
            function@.wf(),
            !old(self).index().contains_key(function.entry),
            old(self).ids().room() > 0,
            function.id == old(self).ids().pending(0),
        ensures
            final(self).wf(),
            old(self).consistent() ==> final(self).consistent(),
            takes_in(old(self), final(self), function.entry, function.id, function@),
    {
        let ghost before = *self;
        let id: FunctionId = function.id();
        link(&mut self.by_block, function.blocks.as_slice(), id);
        proof {
            before.lemma_sound();
            before.lemma_keyed();
            lemma_linked(before.by_block@, function.blocks@, id);
            assert forall|other: FunctionId| #[trigger]
                before.table@.contains_key(other) && other
                    != id implies before.table@[other].own_key() != function.entry by {
                assert(before@.contains_key(other));
            }
            assert(key_is_free(before.table@, id, function.own_key()));
        }
        self.table.add_entry(function);
        proof {
            assert(!before.table@.contains_key(id));
            assert(blocks_of(before@, id) =~= Seq::empty());
            assert(unlinked(before.holders(), Seq::empty(), id) == before.holders());
            if before.consistent() {
                lemma_relinked(before.holders(), before@, id, function@);
            }
            assert(self@ =~= before@.insert(id, function@));
            self.lemma_keyed();
            assert forall|other: FunctionId| #[trigger]
                self.table@.contains_key(other) implies self.table@[other]@.wf() by {
                if other != id {
                    assert(before.table@.contains_key(other));
                }
            }
        }
    }

    /// Makes a function for an entry and puts it into the table: in place of the one that is
    /// there, or under the next identity.
    pub fn insert_with<
        R,
        F: FnOnce(FunctionId, Address) -> Result<(Function, R), FunctionTableError>,
    >(&mut self, address: Address, f: F) -> (r: Result<(FunctionId, R), FunctionTableError>)
        requires
            old(self).wf(),
            !old(self).index().contains_key(address) ==> old(self).ids().room() > 0,
            call_requires(f, (old(self).target(address), address)),
            forall|function: Function, value: R| #[trigger]
                call_ensures(
                    f,
                    (old(self).target(address), address),
                    Ok::<(Function, R), FunctionTableError>((function, value)),
                ) ==> function.id == old(self).target(address) && function@.wf(),
        ensures
            final(self).wf(),
            old(self).consistent() ==> final(self).consistent(),
            match r {
                Ok((id, given)) => id == old(self).target(address) && exists|
                    function: Function,
                    value: R,
                |
                    #[trigger] call_ensures(
                        f,
                        (id, address),
                        Ok::<(Function, R), FunctionTableError>((function, value)),
                    ) && value == given && takes_in(old(self), final(self), address, id, function@),
                Err(error) => {
                    &&& *final(self) == *old(self)
                    &&& call_ensures(
                        f,
                        (old(self).target(address), address),
                        Err::<(Function, R), FunctionTableError>(error),
                    ) || (error is AddressMismatch && exists|function: Function, value: R|
                        #[trigger] call_ensures(
                            f,
                            (old(self).target(address), address),
                            Ok::<(Function, R), FunctionTableError>((function, value)),
                        ) && function.entry != address)
                },
            },
    {
        match self.table.id_by_key(address) {
            Some(existing) => {
                let (function, value): (Function, R) = match f(existing, address) {
                    Ok(made) => made,
                    Err(error) => {
                        return Err(error);
                    },
                };
                if function.entry() != address {
                    return Err(FunctionTableError::AddressMismatch);
                }
                self.put_again(function);
                Ok((existing, value))
            },
            None => {
                let id: FunctionId = self.table.pending_id(0);
                let (function, value): (Function, R) = match f(id, address) {
                    Ok(made) => made,
                    Err(error) => {
                        return Err(error);
                    },
                };
                if function.entry() != address {
                    return Err(FunctionTableError::AddressMismatch);
                }
                self.put_new(function);
                Ok((id, value))
            },
        }
    }

    /// Makes a function for an entry and puts it into the table.
    pub fn insert<F: FnOnce(FunctionId, Address) -> Result<Function, FunctionTableError>>(
        &mut self,
        address: Address,
        f: F,
    ) -> (r: Result<FunctionId, FunctionTableError>)
        requires
            old(self).wf(),
            !old(self).index().contains_key(address) ==> old(self).ids().room() > 0,
            call_requires(f, (old(self).target(address), address)),
            forall|function: Function| #[trigger]
                call_ensures(
                    f,
                    (old(self).target(address), address),
                    Ok::<Function, FunctionTableError>(function),
                ) ==> function.id == old(self).target(address) && function@.wf(),
        ensures
            final(self).wf(),
            old(self).consistent() ==> final(self).consistent(),
            match r {
                Ok(id) => id == old(self).target(address) && exists|function: Function|
                    {
                        &&& #[trigger] call_ensures(
                            f,
                            (id, address),
                            Ok::<Function, FunctionTableError>(function),
                        )
                        &&& takes_in(old(self), final(self), address, id, function@)
                    },
                Err(error) => {
                    &&& *final(self) == *old(self)
                    &&& call_ensures(
                        f,
                        (old(self).target(address), address),
                        Err::<Function, FunctionTableError>(error),
                    ) || (error is AddressMismatch && exists|function: Function|
                        #[trigger] call_ensures(
                            f,
                            (old(self).target(address), address),
                            Ok::<Function, FunctionTableError>(function),
                        ) && function.entry != address)
                },
            },
    {
        let ghost target = self.target(address);
        let made = |id: FunctionId, entry: Address| -> (r: Result<(Function, ()), FunctionTableError>)
            requires
                call_requires(f, (id, entry)),
            ensures
                match r {
                    Ok((function, _)) => call_ensures(
                        f,
                        (id, entry),
                        Ok::<Function, FunctionTableError>(function),
                    ),
                    Err(error) => call_ensures(
                        f,
                        (id, entry),
                        Err::<Function, FunctionTableError>(error),
                    ),
                },
            {
                match f(id, entry) {
                    Ok(function) => Ok((function, ())),
                    Err(error) => Err(error),
                }
            };
        match self.insert_with(address, made) {
            Ok((id, _)) => Ok(id),
            Err(error) => Err(error),
        }
    }

    /// The function with an identity, to be changed.
    pub fn get_by_id_mut(&mut self, id: FunctionId) -> (function: Option<&mut Function>)
        requires
            old(self).sound(),
        ensures
            function is Some == old(self)@.contains_key(id),
            match function {
                Some(f) => {
                    &&& f@ == old(self)@[id]
                    &&& f@.wf()
                    &&& final(self).ids() == old(self).ids()
                    &&& final(self).index() == old(self).index()
                    &&& final(self).holders() == old(self).holders()
                    &&& final(f)@.wf() && final(f).id.id == id.id ==> final(self).sound()
                    &&& final(self)@ == function_changed(old(self)@, id, final(f)@)
                },
                None => *final(self) == *old(self),
            },
    {
        let ghost before = *self;
        proof {
            before.lemma_sound();
            assert(before@.contains_key(id) == before.table@.contains_key(id));
            assert forall|after: Self, f: Function|
                #![trigger after.sound(), changed_in_place(before.table@, id, f)]
                after.by_block == before.by_block && (f.id.id == id.id ==> after.table.sound())
                    && after.table@ == changed_in_place(before.table@, id, f)
                    && before.table@.contains_key(id) implies (f@.wf() && f.id.id == id.id
                ==> after.sound()) && after@ == function_changed(before@, id, f@) by {
                assert(after@ =~= function_changed(before@, id, f@));
            }
        }
        self.table.get_mut(id)
    }

    /// The function with an entry, to be changed.
    pub fn get_by_address_mut(&mut self, address: Address) -> (function: Option<&mut Function>)
        requires
            old(self).sound(),
        ensures
            function is Some == (old(self).index().contains_key(address) && old(self)@.contains_key(
                old(self).index()[address],
            )),
            match function {
                Some(f) => {
                    let id = old(self).index()[address];
                    &&& f@ == old(self)@[id]
                    &&& f@.wf()
                    &&& final(self).ids() == old(self).ids()
                    &&& final(self).index() == old(self).index()
                    &&& final(self).holders() == old(self).holders()
                    &&& final(f)@.wf() && final(f).id.id == id.id ==> final(self).sound()
                    &&& final(self)@ == function_changed(old(self)@, id, final(f)@)
                },
                None => *final(self) == *old(self),
            },
    {
        match self.table.id_by_key(address) {
            Some(id) => self.get_by_id_mut(id),
            None => None,
        }
    }

    /// Lets `f` change the function with an identity, if it is there.
    pub fn modify_by_id<R, F: FnOnce(&mut Function) -> R>(&mut self, id: FunctionId, f: F) -> (r:
        Option<R>)
        requires
            old(self).sound(),
            forall|e: &mut Function|
                old(self)@.contains_key(id) && e@ == old(self)@[id] ==> #[trigger] call_requires(
                    f,
                    (e,),
                ),
        ensures
            r is Some == old(self)@.contains_key(id),
            r is None ==> *final(self) == *old(self),
            final(self).ids() == old(self).ids(),
            final(self).index() == old(self).index(),
            final(self).holders() == old(self).holders(),
            r matches Some(value) ==> exists|e: &mut Function|
                {
                    &&& #[trigger] call_ensures(f, (e,), value)
                    &&& e@ == old(self)@[id]
                    &&& final(e)@.wf() && final(e).id.id == id.id ==> final(self).sound()
                    &&& final(self)@ == function_changed(old(self)@, id, final(e)@)
                },
    {
        let ghost before = *self;
        proof {
            assert(before@.contains_key(id) == before.table@.contains_key(id));
        }
        let r: Option<R> = self.table.modify_by_id(id, f);
        proof {
            if r is Some {
                let value = r->0;
                let e = choose|e: &mut Function|
                    {
                        &&& #[trigger] call_ensures(f, (e,), value)
                        &&& *e == before.table@[id]
                        &&& final(e).ident().id == id.id ==> self.table.sound()
                        &&& self.table@ == changed_in_place(before.table@, id, *final(e))
                    };
                assert(call_ensures(f, (e,), value));
                assert forall|last: Function|
                    #![trigger changed_in_place(before.table@, id, last)]
                    self.table@ == changed_in_place(before.table@, id, last) implies self@
                    == function_changed(before@, id, last@) && (last@.wf() && self.table.sound()
                    ==> self.sound()) by {
                    assert(self@ =~= function_changed(before@, id, last@));
                    assert forall|other: FunctionId| #[trigger]
                        self.table@.contains_key(other) && last@.wf() implies self.table@[other]@.wf() by {
                        if other != last.id {
                            assert(before.table@.contains_key(other));
                        }
                    }
                }
            }
        }
        r
    }

    /// Lets `f` change the function with an entry, if it is there.
    pub fn modify_by_address<R, F: FnOnce(&mut Function) -> R>(&mut self, address: Address, f: F) -> (r:
        Option<R>)
        requires
            old(self).sound(),
            forall|e: &mut Function|
                old(self).index().contains_key(address) && old(self)@.contains_key(
                    old(self).index()[address],
                ) && e@ == old(self)@[old(self).index()[address]] ==> #[trigger] call_requires(
                    f,
                    (e,),
                ),
        ensures
            r is Some == (old(self).index().contains_key(address) && old(self)@.contains_key(
                old(self).index()[address],
            )),
            r is None ==> *final(self) == *old(self),
            final(self).ids() == old(self).ids(),
            final(self).index() == old(self).index(),
            final(self).holders() == old(self).holders(),
            r matches Some(value) ==> exists|e: &mut Function|
                {
                    let id = old(self).index()[address];
                    &&& #[trigger] call_ensures(f, (e,), value)
                    &&& e@ == old(self)@[id]
                    &&& final(e)@.wf() && final(e).id.id == id.id ==> final(self).sound()
                    &&& final(self)@ == function_changed(old(self)@, id, final(e)@)
                },
    {
        match self.table.id_by_key(address) {
            Some(id) => self.modify_by_id(id, f),
            None => None,
        }
    }

    /// Takes a function out and says whether it was there.
    pub fn remove_by_id(&mut self, id: FunctionId) -> (removed: bool)
        requires
            old(self).wf(),
            old(self)@.contains_key(id) ==> id.generation < u32::MAX - 1,
        ensures
            final(self).wf(),
            old(self).consistent() ==> final(self).consistent(),
            removed == old(self)@.contains_key(id),
            final(self)@ == old(self)@.remove(id),
            removed ==> {
                &&& final(self).index() == old(self).index().remove(old(self)@[id].entry)
                &&& final(self).holders() == unlinked(
                    old(self).holders(),
                    old(self)@[id].blocks,
                    id,
                )
                &&& hands_out(final(self).ids(), old(self).ids(), 0, seq![id])
            },
            !removed ==> *final(self) == *old(self),
    {
        let ghost before = *self;
        proof {
            before.lemma_keyed();
            assert(before@.contains_key(id) == before.table@.contains_key(id));
        }
        match self.table.remove_by_id(id) {
            Some(function) => {
                unlink(&mut self.by_block, function.blocks.as_slice(), id);
                proof {
                    assert(self@ =~= before@.remove(id));
                    self.lemma_keyed();
                    lemma_unlinked(before.by_block@, function.blocks@, id);
                    assert(blocks_of(before@, id) == function.blocks@);
                    if before.consistent() {
                        lemma_unlinked_agree(before.holders(), before@, id);
                    }
                    assert forall|other: FunctionId| #[trigger]
                        self.table@.contains_key(other) implies self.table@[other]@.wf() by {
                        assert(before.table@.contains_key(other));
                    }
                }
                true
            },
            None => {
                assert(self@ =~= before@.remove(id));
                false
            },
        }
    }

    /// Takes out the function with an entry and says whether there was one.
    pub fn remove_by_address(&mut self, address: Address) -> (removed: bool)
        requires
            old(self).wf(),
            old(self).index().contains_key(address) ==> old(self).index()[address].generation
                < u32::MAX - 1,
        ensures
            final(self).wf(),
            old(self).consistent() ==> final(self).consistent(),
            removed == old(self).index().contains_key(address),
            removed ==> {
                let id = old(self).index()[address];
                &&& final(self)@ == old(self)@.remove(id)
                &&& final(self).index() == old(self).index().remove(address)
                &&& final(self).holders() == unlinked(
                    old(self).holders(),
                    old(self)@[id].blocks,
                    id,
                )
                &&& hands_out(final(self).ids(), old(self).ids(), 0, seq![id])
            },
            !removed ==> *final(self) == *old(self),
    {
        match self.table.id_by_key(address) {
            Some(id) => {
                assert(self@.contains_key(id));
                self.remove_by_id(id)
            },
            None => false,
        }
    }

    /// The function with an identity. A table in memory never fails.
    pub fn try_get_by_id(&self, id: FunctionId) -> (r: Result<
        Option<&Function>,
        FunctionTableError,
    >)
        requires
            self.sound(),
        ensures
            r is Ok,
            r->Ok_0 is Some == self@.contains_key(id),
            r->Ok_0 matches Some(f) ==> f@ == self@[id] && f.id == id && f@.wf(),
    {
        Ok(self.get_by_id(id))
    }

    /// The function at an entry. A table in memory never fails.
    pub fn try_get_by_address(&self, address: Address) -> (r: Result<
        Option<&Function>,
        FunctionTableError,
    >)
        requires
            self.sound(),
        ensures
            r is Ok,
            r->Ok_0 is Some == (self.index().contains_key(address) && self@.contains_key(
                self.index()[address],
            )),
            r->Ok_0 matches Some(f) ==> f@ == self@[self.index()[address]] && f.id
                == self.index()[address] && f@.wf(),
    {
        Ok(self.get_by_address(address))
    }

    /// The function with an identity, to change it. A table in memory never fails.
    pub fn try_get_by_id_mut(&mut self, id: FunctionId) -> (r: Result<
        Option<&mut Function>,
        FunctionTableError,
    >)
        requires
            old(self).sound(),
        ensures
            r is Ok,
            r->Ok_0 is Some == old(self)@.contains_key(id),
            match r->Ok_0 {
                Some(f) => {
                    &&& f@ == old(self)@[id]
                    &&& f@.wf()
                    &&& final(self).ids() == old(self).ids()
                    &&& final(self).index() == old(self).index()
                    &&& final(self).holders() == old(self).holders()
                    &&& final(f)@.wf() && final(f).id.id == id.id ==> final(self).sound()
                    &&& final(self)@ == function_changed(old(self)@, id, final(f)@)
                },
                None => *final(self) == *old(self),
            },
    {
        Ok(self.get_by_id_mut(id))
    }

    /// The function at an entry, to change it. A table in memory never fails.
    pub fn try_get_by_address_mut(&mut self, address: Address) -> (r: Result<
        Option<&mut Function>,
        FunctionTableError,
    >)
        requires
            old(self).sound(),
        ensures
            r is Ok,
            r->Ok_0 is Some == (old(self).index().contains_key(address) && old(self)@.contains_key(
                old(self).index()[address],
            )),
            match r->Ok_0 {
                Some(f) => {
                    let id = old(self).index()[address];
                    &&& f@ == old(self)@[id]
                    &&& f@.wf()
                    &&& final(self).ids() == old(self).ids()
                    &&& final(self).index() == old(self).index()
                    &&& final(self).holders() == old(self).holders()
                    &&& final(f)@.wf() && final(f).id.id == id.id ==> final(self).sound()
                    &&& final(self)@ == function_changed(old(self)@, id, final(f)@)
                },
                None => *final(self) == *old(self),
            },
    {
        Ok(self.get_by_address_mut(address))
    }

    /// Lets `f` change the function with an identity, if it is there. A table in memory never
    /// fails.
    pub fn try_modify_by_id<R, F: FnOnce(&mut Function) -> R>(&mut self, id: FunctionId, f: F) -> (r: Result<
        Option<R>,
        FunctionTableError,
    >)
        requires
            old(self).sound(),
            forall|e: &mut Function|
                old(self)@.contains_key(id) && e@ == old(self)@[id] ==> #[trigger] call_requires(
                    f,
                    (e,),
                ),
        ensures
            r is Ok,
            r->Ok_0 is Some == old(self)@.contains_key(id),
            r->Ok_0 is None ==> *final(self) == *old(self),
            final(self).ids() == old(self).ids(),
            final(self).index() == old(self).index(),
            final(self).holders() == old(self).holders(),
            r->Ok_0 matches Some(value) ==> exists|e: &mut Function|
                {
                    &&& #[trigger] call_ensures(f, (e,), value)
                    &&& e@ == old(self)@[id]
                    &&& final(e)@.wf() && final(e).id.id == id.id ==> final(self).sound()
                    &&& final(self)@ == function_changed(old(self)@, id, final(e)@)
                },
    {
        Ok(self.modify_by_id(id, f))
    }

    /// Lets `f` change the function at an entry, if it is there. A table in memory never fails.
    pub fn try_modify_by_address<R, F: FnOnce(&mut Function) -> R>(&mut self, address: Address, f: F) -> (r: Result<
        Option<R>,
        FunctionTableError,
    >)
        requires
            old(self).sound(),
            forall|e: &mut Function|
                old(self).index().contains_key(address) && old(self)@.contains_key(
                    old(self).index()[address],
                ) && e@ == old(self)@[old(self).index()[address]] ==> #[trigger] call_requires(
                    f,
                    (e,),
                ),
        ensures
            r is Ok,
            r->Ok_0 is Some == (old(self).index().contains_key(address) && old(self)@.contains_key(
                old(self).index()[address],
            )),
            r->Ok_0 is None ==> *final(self) == *old(self),
            final(self).ids() == old(self).ids(),
            final(self).index() == old(self).index(),
            final(self).holders() == old(self).holders(),
            r->Ok_0 matches Some(value) ==> exists|e: &mut Function|
                {
                    let id = old(self).index()[address];
                    &&& #[trigger] call_ensures(f, (e,), value)
                    &&& e@ == old(self)@[id]
                    &&& final(e)@.wf() && final(e).id.id == id.id ==> final(self).sound()
                    &&& final(self)@ == function_changed(old(self)@, id, final(e)@)
                },
    {
        Ok(self.modify_by_address(address, f))
    }

    /// Takes a function out and says whether it was there. A table in memory never fails.
    pub fn try_remove_by_id(&mut self, id: FunctionId) -> (r: Result<bool, FunctionTableError>)
        requires
            old(self).wf(),
            old(self)@.contains_key(id) ==> id.generation < u32::MAX - 1,
        ensures
            r is Ok,
            final(self).wf(),
            old(self).consistent() ==> final(self).consistent(),
            r->Ok_0 == old(self)@.contains_key(id),
            final(self)@ == old(self)@.remove(id),
            r->Ok_0 ==> {
                &&& final(self).index() == old(self).index().remove(old(self)@[id].entry)
                &&& final(self).holders() == unlinked(
                    old(self).holders(),
                    old(self)@[id].blocks,
                    id,
                )
                &&& hands_out(final(self).ids(), old(self).ids(), 0, seq![id])
            },
            !(r->Ok_0) ==> *final(self) == *old(self),
    {
        Ok(self.remove_by_id(id))
    }

    /// Takes the function at an entry out and says whether it was there. A table in memory never
    /// fails.
    pub fn try_remove_by_address(&mut self, address: Address) -> (r: Result<
        bool,
        FunctionTableError,
    >)
        requires
            old(self).wf(),
            old(self).index().contains_key(address) ==> old(self).index()[address].generation
                < u32::MAX - 1,
        ensures
            r is Ok,
            final(self).wf(),
            old(self).consistent() ==> final(self).consistent(),
            r->Ok_0 == old(self).index().contains_key(address),
            r->Ok_0 ==> {
                let id = old(self).index()[address];
                &&& final(self)@ == old(self)@.remove(id)
                &&& final(self).index() == old(self).index().remove(address)
                &&& final(self).holders() == unlinked(
                    old(self).holders(),
                    old(self)@[id].blocks,
                    id,
                )
                &&& hands_out(final(self).ids(), old(self).ids(), 0, seq![id])
            },
            !(r->Ok_0) ==> *final(self) == *old(self),
    {
        Ok(self.remove_by_address(address))
    }

    /// The functions that are listed for blocks, in ascending order.
    fn holders_of(&self, found: &Vec<&CodeBlock>) -> (functions: Vec<FunctionId>)
        ensures
            ascending(functions@),
            forall|id: FunctionId| #[trigger]
                functions@.contains(id) <==> exists|i: int|
                    0 <= i < found@.len() && held(
                        self.holders(),
                        (#[trigger] found@[i]).id,
                    ).contains(id),
    {
        let mut functions: SortedSet<FunctionId> = SortedSet::new();
        let mut i: usize = 0;
        while i < found.len()
            invariant
                i <= found@.len(),
                functions.wf(),
                forall|id: FunctionId| #[trigger]
                    functions@.contains(id) <==> exists|k: int|
                        0 <= k < i && held(self.holders(), (#[trigger] found@[k]).id).contains(id),
            decreases found@.len() - i,
        {
            let ghost before = functions@;
            let holders: Vec<FunctionId> = self.get_by_block_id(found[i].id()).iter();
            let mut j: usize = 0;
            while j < holders.len()
                invariant
                    j <= holders@.len(),
                    functions.wf(),
                    forall|id: FunctionId| #[trigger]
                        functions@.contains(id) <==> before.contains(id) || holders@.take(
                            j as int,
                        ).contains(id),
                decreases holders@.len() - j,
            {
                let ghost earlier = functions@;
                functions.insert(holders[j]);
                proof {
                    assert(holders@.take(j + 1) =~= holders@.take(j as int).push(
                        holders@[j as int],
                    ));
                    assert forall|id: FunctionId| #[trigger]
                        functions@.contains(id) <==> before.contains(id) || holders@.take(
                            j + 1,
                        ).contains(id) by {
                        lemma_push_contains(holders@.take(j as int), holders@[j as int], id);
                    }
                }
                j = j + 1;
            }
            proof {
                assert(holders@.take(j as int) =~= holders@);
                assert forall|id: FunctionId| #[trigger]
                    functions@.contains(id) <==> exists|k: int|
                        0 <= k < i + 1 && held(self.holders(), (#[trigger] found@[k]).id).contains(
                            id,
                        ) by {
                    assert(before.contains(id) <==> exists|k: int|
                        0 <= k < i && held(self.holders(), (#[trigger] found@[k]).id).contains(id));
                    if holders@.contains(id) {
                        assert(held(self.holders(), found@[i as int].id).contains(id));
                    }
                }
            }
            i = i + 1;
        }
        proof {
            assert forall|id: FunctionId| #[trigger]
                functions.items@.contains(id) <==> exists|k: int|
                    0 <= k < found@.len() && held(self.holders(), (#[trigger] found@[k]).id).contains(
                        id,
                    ) by {
                assert(functions@.contains(id) <==> functions.items@.contains(id));
            }
        }
        functions.items
    }

    /// The functions with a block that shares an address with a range, in ascending order.
    pub fn overlaps(&self, blocks: &CodeBlockTable, range: &AddressRange) -> (functions: Vec<
        FunctionId,
    >)
        requires
            blocks.wf(),
            range.start.0 <= range.end.0,
        ensures
            ascending(functions@),
            forall|id: FunctionId| #[trigger]
                functions@.contains(id) <==> holds_some(self.holders(), blocks@, *range, id),
    {
        let found: Vec<&CodeBlock> = blocks.overlaps(range);
        let functions: Vec<FunctionId> = self.holders_of(&found);
        proof {
            lemma_holders_of(self.holders(), blocks@, *range, found@, functions@);
        }
        functions
    }

    /// The functions with a block that an address lies in, in ascending order.
    pub fn functions_containing(&self, blocks: &CodeBlockTable, address: Address) -> (functions: Vec<
        FunctionId,
    >)
        requires
            blocks.wf(),
        ensures
            ascending(functions@),
            forall|id: FunctionId| #[trigger]
                functions@.contains(id) <==> holds_some(
                    self.holders(),
                    blocks@,
                    AddressRange { space: address.space, start: address.address, end: address.address },
                    id,
                ),
    {
        let found: Vec<&CodeBlock> = blocks.overlaps_address(address);
        let functions: Vec<FunctionId> = self.holders_of(&found);
        proof {
            lemma_holders_of(
                self.holders(),
                blocks@,
                AddressRange { space: address.space, start: address.address, end: address.address },
                found@,
                functions@,
            );
        }
        functions
    }
}

/// What is listed for the blocks that were found is listed for the blocks of the table.
proof fn lemma_holders_of(
    holders: Map<CodeBlockId, Set<FunctionId>>,
    blocks: Map<CodeBlockId, CodeBlockView>,
    range: AddressRange,
    found: Seq<&CodeBlock>,
    functions: Seq<FunctionId>,
)
    requires
        finds(found, blocks, block_meets(range)),
        forall|id: FunctionId| #[trigger]
            functions.contains(id) <==> exists|i: int|
                0 <= i < found.len() && held(holders, (#[trigger] found[i]).id).contains(id),
    ensures
        forall|id: FunctionId| #[trigger]
            functions.contains(id) <==> holds_some(holders, blocks, range, id),
{
    assert forall|id: FunctionId| #[trigger]
        functions.contains(id) <==> holds_some(holders, blocks, range, id) by {
        if functions.contains(id) {
            let i = choose|i: int|
                0 <= i < found.len() && held(holders, (#[trigger] found[i]).id).contains(id);
            assert(blocks.contains_key(found[i].id));
            assert(block_meets(range)(found[i]@));
        }
        if holds_some(holders, blocks, range, id) {
            let block = choose|block: CodeBlockId| #[trigger]
                blocks.contains_key(block) && blocks[block].range().meets(range) && held(
                    holders,
                    block,
                ).contains(id);
            assert(block_meets(range)(blocks[block]));
            let i = choose|i: int| 0 <= i < found.len() && (#[trigger] found[i]).id == block;
            assert(held(holders, found[i].id).contains(id));
        }
    }
}

/// What is listed for blocks once other lists have come in. An empty list is not kept.
pub open spec fn merged(
    holders: Map<CodeBlockId, Set<FunctionId>>,
    incoming: Map<CodeBlockId, Set<FunctionId>>,
) -> Map<CodeBlockId, Set<FunctionId>> {
    Map::new(
        |block: CodeBlockId|
            if incoming.contains_key(block) {
                incoming[block] != Set::<FunctionId>::empty()
            } else {
                holders.contains_key(block)
            },
        |block: CodeBlockId|
            if incoming.contains_key(block) {
                incoming[block]
            } else {
                holders[block]
            },
    )
}

impl FunctionTable {
    /// Hands out the next identities, which must be the given ones.
    pub fn publish_reservations(&mut self, reservations: &Vec<FunctionId>)
        requires
            old(self).sound(),
            reservations@.len() <= old(self).ids().room(),
            forall|i: int|
                0 <= i < reservations@.len() ==> #[trigger] reservations@[i] == old(
                    self).ids().pending(i),
        ensures
            final(self).sound(),
            final(self)@ == old(self)@,
            final(self).index() == old(self).index(),
            final(self).holders() == old(self).holders(),
            final(self).ids().room() == old(self).ids().room() - reservations@.len(),
            forall|slot: int| #[trigger]
                final(self).ids().in_use(slot) <==> old(self).ids().in_use(slot) || exists|i: int|
                    0 <= i < reservations@.len() && (#[trigger] reservations@[i]).id == slot,
            forall|offset: int|
                0 <= offset ==> #[trigger] final(self).ids().pending(offset) == old(
                    self).ids().pending(offset + reservations@.len()),
            forall|i: int|
                0 <= i < reservations@.len() ==> final(self).reserved(
                    (#[trigger] reservations@[i]).id as int,
                ),
    {
        self.table.publish_reservations(reservations);
        proof {
            assert forall|i: int| 0 <= i < reservations@.len() implies self.reserved(
                (#[trigger] reservations@[i]).id as int,
            ) by {
                assert(self.table.reserved(reservations@[i].id as int));
                assert forall|id: FunctionId| #[trigger] self@.contains_key(id) implies id.id
                    != reservations@[i].id by {
                    assert(self.table@.contains_key(id));
                }
            }
        }
    }

    proof fn lemma_reserved(&self, slot: int)
        ensures
            self.reserved(slot) == self.table.reserved(slot),
    {
        if self.reserved(slot) {
            assert forall|id: FunctionId| #[trigger] self.table@.contains_key(id) implies id.id
                != slot by {
                assert(self@.contains_key(id));
            }
        }
        if self.table.reserved(slot) {
            assert forall|id: FunctionId| #[trigger] self@.contains_key(id) implies id.id
                != slot by {
                assert(self.table@.contains_key(id));
            }
        }
    }

    /// Takes back an identity that no function took.
    pub fn publish_release(&mut self, id: FunctionId)
        requires
            old(self).sound(),
            old(self).reserved(id.id as int),
            id.generation < u32::MAX - 1,
        ensures
            final(self).sound(),
            final(self)@ == old(self)@,
            final(self).index() == old(self).index(),
            final(self).holders() == old(self).holders(),
            final(self).ids().free_ids@ == old(self).ids().free_ids@.push(id.successor()),
            final(self).ids().next_index == old(self).ids().next_index,
            forall|slot: int| #[trigger]
                final(self).ids().in_use(slot) <==> old(self).ids().in_use(slot) && slot != id.id,
    {
        proof {
            self.lemma_reserved(id.id as int);
        }
        self.table.publish_release(id);
    }

    /// Puts a function under its identity, which was handed out, and lets its entry lead to it.
    /// `previous` is the entry of the function that stood there. What blocks are listed with
    /// does not change.
    pub fn publish_upsert(&mut self, function: Function, previous: Option<Address>)
        requires
            old(self).sound(),
            function.id.id < u32::MAX,
            function@.wf(),
            old(self).reserved(function.id.id as int) || old(self)@.contains_key(function.id),
        ensures
            final(self).sound(),
            final(self)@ == old(self)@.insert(function.id, function@),
            final(self).index() == reindexed(
                old(self).index(),
                previous,
                function.entry,
                function.id,
            ),
            final(self).holders() == old(self).holders(),
            final(self).ids() == old(self).ids(),
    {
        let ghost before = *self;
        proof {
            self.lemma_reserved(function.id.id as int);
            assert(self@.contains_key(function.id) == self.table@.contains_key(function.id));
        }
        self.table.publish_upsert(function, previous);
        proof {
            assert(self@ =~= before@.insert(function.id, function@));
            assert forall|other: FunctionId| #[trigger]
                self.table@.contains_key(other) implies self.table@[other]@.wf() by {
                if other != function.id {
                    assert(before.table@.contains_key(other));
                }
            }
        }
    }

    /// Takes a function out and takes back its identity. What blocks are listed with does not
    /// change.
    pub fn publish_remove(&mut self, id: FunctionId, entry: Address)
        requires
            old(self).sound(),
            old(self)@.contains_key(id),
            id.generation < u32::MAX - 1,
        ensures
            final(self).sound(),
            final(self)@ == old(self)@.remove(id),
            final(self).index() == old(self).index().remove(entry),
            final(self).holders() == old(self).holders(),
            final(self).ids().free_ids@ == old(self).ids().free_ids@.push(id.successor()),
            final(self).ids().next_index == old(self).ids().next_index,
            forall|slot: int| #[trigger]
                final(self).ids().in_use(slot) <==> old(self).ids().in_use(slot) && slot != id.id,
    {
        let ghost before = *self;
        assert(self.table@.contains_key(id));
        self.table.publish_remove(id, entry);
        proof {
            assert(self@ =~= before@.remove(id));
            assert forall|other: FunctionId| #[trigger]
                self.table@.contains_key(other) implies self.table@[other]@.wf() by {
                assert(before.table@.contains_key(other));
            }
        }
    }

    /// Takes in what blocks are listed with.
    pub fn publish_membership(&mut self, by_block: BlockHolders)
        requires
            old(self).sound(),
            by_block.wf(),
        ensures
            final(self).sound(),
            final(self)@ == old(self)@,
            final(self).index() == old(self).index(),
            final(self).ids() == old(self).ids(),
            final(self).holders() == merged(old(self).holders(), by_block@),
    {
        let ghost before = *self;
        let ghost all = by_block@;
        let mut by_block: BlockHolders = by_block;
        let blocks: Vec<CodeBlockId> = by_block.blocks();
        let mut i: usize = 0;
        proof {
            assert forall|j: int| 0 <= j < blocks@.len() implies by_block@.contains_key(
                #[trigger] blocks@[j],
            ) by {
                assert(blocks@.contains(blocks@[j]));
            }
        }
        while i < blocks.len()
            invariant
                i <= blocks@.len(),
                blocks@.no_duplicates(),
                by_block.wf(),
                self.by_block.wf(),
                *self == (FunctionTable { by_block: self.by_block, ..before }),
                forall|b: CodeBlockId| #[trigger] blocks@.contains(b) <==> all.contains_key(b),
                forall|j: int|
                    i <= j < blocks@.len() ==> by_block@.contains_key(#[trigger] blocks@[j])
                        && by_block@[blocks@[j]] == all[blocks@[j]],
                self.by_block@ == merged(
                    before.by_block@,
                    all.restrict(blocks@.take(i as int).to_set()),
                ),
                none_empty(before.by_block@),
            decreases blocks@.len() - i,
        {
            let ghost earlier = self.by_block@;
            let ghost done = blocks@.take(i as int);
            let ghost more = blocks@.take(i + 1);
            let block: CodeBlockId = blocks[i];
            match by_block.remove(block) {
                Some(set) => {
                    if set.is_empty() {
                        self.by_block.remove(block);
                    } else {
                        self.by_block.set(block, set);
                    }
                },
                None => {},
            }
            proof {
                assert(blocks@.contains(block));
                assert(more =~= done.push(block));
                assert forall|b: CodeBlockId| #[trigger]
                    more.to_set().contains(b) <==> done.to_set().contains(b) || b == block by {
                    lemma_push_contains(done, block, b);
                }
                assert(!done.contains(block)) by {
                    if done.contains(block) {
                        let k = done.index_of(block);
                        assert(blocks@[k] == blocks@[i as int]);
                    }
                }
                let (a, b) = (all.restrict(done.to_set()), all.restrict(more.to_set()));
                assert(a =~= b.remove(block));
                assert(b.contains_key(block) && b[block] == all[block]);
                assert(self.by_block@ =~= merged(before.by_block@, b));
            }
            i = i + 1;
        }
        proof {
            assert(blocks@.take(i as int) =~= blocks@);
            assert(all.restrict(blocks@.to_set()) =~= all);
            assert(none_empty(self.by_block@));
        }
    }
}

} // verus!
