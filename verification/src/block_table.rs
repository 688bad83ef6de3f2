//! The table of all code blocks.
use vstd::prelude::*;

use crate::address::{offsets, Address, AddressRange};
use crate::address_set::AddressRangeSet;
use crate::block::{CodeBlock, CodeBlockEntity, CodeBlockId, CodeBlockView};
use crate::id::{hands_out, lemma_given_back_in_parts, IdAllocator, IdSet};
use crate::ids_by_address::IdsByAddress;
use crate::intervals::{
    interval_before, intervals_from_sorted, intervals_get, intervals_insert, intervals_is_empty,
    intervals_meet, intervals_new, intervals_over, intervals_overlap, intervals_remove,
    intervals_sorted, lists_overlaps, IntervalIds,
};
use crate::order::SortedMap;
use crate::types::{AddressSpaceId, ContextSet};

verus! {

/// For each of some addresses the blocks that begin there.
pub type CodeBlockIdsByStart = IdsByAddress<CodeBlockEntity>;

/// Why a block was not put into the table.
#[derive(Debug)]
pub enum CodeBlockTableError {
    AddressMismatch,
    Other(String),
}

impl CodeBlockTableError {
    pub fn other(error: String) -> (r: Self)
        ensures
            r == CodeBlockTableError::Other(error),
    {
        CodeBlockTableError::Other(error)
    }

    pub fn other_with(message: String) -> (r: Self)
        ensures
            r == CodeBlockTableError::Other(message),
    {
        CodeBlockTableError::Other(message)
    }
}

/// The interval of a block's offsets.
pub open spec fn block_interval(block: CodeBlockView) -> (u128, u128) {
    (block.start.address.0 as u128, (block.start.address.0 + block.size) as u128)
}

/// The interval of a range's offsets.
pub open spec fn range_interval(range: AddressRange) -> (u128, u128) {
    (range.start.0 as u128, (range.end.0 + 1) as u128)
}

/// How many entries are there.
pub open spec fn occupied(entries: Seq<Option<CodeBlock>>) -> nat
    decreases entries.len(),
{
    if entries.len() == 0 {
        0
    } else {
        occupied(entries.drop_last()) + if entries.last() is Some {
            1nat
        } else {
            0nat
        }
    }
}

/// Changing an entry changes the count by what it was and what it is.
proof fn lemma_occupied_update(entries: Seq<Option<CodeBlock>>, at: int, entry: Option<CodeBlock>)
    requires
        0 <= at < entries.len(),
    ensures
        occupied(entries.update(at, entry)) + (if entries[at] is Some {
            1nat
        } else {
            0nat
        }) == occupied(entries) + (if entry is Some {
            1nat
        } else {
            0nat
        }),
    decreases entries.len(),
{
    let after = entries.update(at, entry);
    if at == entries.len() - 1 {
        assert(after.drop_last() =~= entries.drop_last());
    } else {
        lemma_occupied_update(entries.drop_last(), at, entry);
        assert(after.drop_last() =~= entries.drop_last().update(at, entry));
    }
}

/// The blocks of the entries, by identity.
pub open spec fn stored(entries: Seq<Option<CodeBlock>>) -> Map<CodeBlockId, CodeBlockView> {
    Map::new(
        |id: CodeBlockId|
            id.id < entries.len() && entries[id.id as int] is Some && entries[id.id as int]->0.id
                == id,
        |id: CodeBlockId| entries[id.id as int]->0@,
    )
}

/// Whether each entry stands where its identity says.
pub open spec fn placed_by_id(entries: Seq<Option<CodeBlock>>) -> bool {
    forall|i: int|
        0 <= i < entries.len() && (#[trigger] entries[i]) is Some ==> entries[i]->0.id.id == i
            && i < u32::MAX
}

/// There are as many blocks as there are occupied entries.
proof fn lemma_stored_len(entries: Seq<Option<CodeBlock>>)
    requires
        placed_by_id(entries),
    ensures
        stored(entries).dom().finite(),
        stored(entries).dom().len() == occupied(entries),
    decreases entries.len(),
{
    let dom = stored(entries).dom();
    if entries.len() == 0 {
        assert(dom =~= Set::<CodeBlockId>::empty());
    } else {
        let rest = entries.drop_last();
        let last = entries.len() - 1;
        assert(placed_by_id(rest)) by {
            assert forall|i: int| 0 <= i < rest.len() && (#[trigger] rest[i]) is Some implies rest[i]->0.id.id
                == i && i < u32::MAX by {
                assert(rest[i] == entries[i]);
            }
        }
        lemma_stored_len(rest);
        if entries[last] is Some {
            let id = entries[last]->0.id;
            assert(dom =~= stored(rest).dom().insert(id));
            assert(!stored(rest).dom().contains(id));
        } else {
            assert(dom =~= stored(rest).dom());
        }
    }
}

/// Whether the intervals of a space lead to a block.
pub open spec fn leads_to(
    bounds: Map<AddressSpaceId, IntervalIds>,
    space: AddressSpaceId,
    key: (u128, u128),
    id: CodeBlockId,
) -> bool {
    bounds.contains_key(space) && bounds[space]@.contains_key(key) && bounds[space]@[key].contains(
        id,
    )
}

/// Whether blocks are found by their intervals: from the interval of each, and from nowhere
/// else.
pub open spec fn bounded(
    bounds: Map<AddressSpaceId, IntervalIds>,
    blocks: Map<CodeBlockId, CodeBlockView>,
) -> bool {
    &&& forall|id: CodeBlockId| #[trigger]
        blocks.contains_key(id) ==> blocks[id].fits() && blocks[id].id == id && leads_to(
            bounds,
            blocks[id].start.space,
            block_interval(blocks[id]),
            id,
        )
    &&& forall|space: AddressSpaceId, key: (u128, u128), id: CodeBlockId| #[trigger]
        leads_to(bounds, space, key, id) ==> blocks.contains_key(id) && blocks[id].start.space
            == space && block_interval(blocks[id]) == key
    &&& forall|space: AddressSpaceId, key: (u128, u128)|
        bounds.contains_key(space) && #[trigger] bounds[space]@.contains_key(key) ==> bounds[space]@[key]
            != Set::<CodeBlockId>::empty()
}

/// The table of all code blocks.
pub struct CodeBlockTable {
    allocator: IdAllocator<CodeBlockEntity>,
    bounds: SortedMap<AddressSpaceId, IntervalIds>,
    entries: Vec<Option<CodeBlock>>,
    live: usize,
}

impl View for CodeBlockTable {
    type V = Map<CodeBlockId, CodeBlockView>;

    closed spec fn view(&self) -> Map<CodeBlockId, CodeBlockView> {
        stored(self.entries@)
    }
}

/// Whether one block does not come after another in the order of their ranges.
pub open spec fn ranges_ordered(a: CodeBlockView, b: CodeBlockView) -> bool {
    interval_before(block_interval(a), block_interval(b)) || block_interval(a) == block_interval(b)
}

/// Whether a list gives every wanted block of the table once, in the order of their ranges.
/// The order of blocks with one range is open.
pub open spec fn finds(
    found: Seq<&CodeBlock>,
    table: Map<CodeBlockId, CodeBlockView>,
    wanted: spec_fn(CodeBlockView) -> bool,
) -> bool {
    &&& forall|i: int|
        0 <= i < found.len() ==> table.contains_key((#[trigger] found[i]).id) && found[i]@
            == table[found[i].id] && wanted(found[i]@)
    &&& forall|i: int, j: int|
        0 <= i < j < found.len() ==> (#[trigger] found[i]).id != (#[trigger] found[j]).id
            && ranges_ordered(found[i]@, found[j]@)
    &&& forall|id: CodeBlockId| #[trigger]
        table.contains_key(id) && wanted(table[id]) ==> exists|i: int|
            0 <= i < found.len() && (#[trigger] found[i]).id == id
}

/// Whether a block shares an address with a range.
pub open spec fn block_meets(range: AddressRange) -> spec_fn(CodeBlockView) -> bool {
    |b: CodeBlockView| b.range().meets(range)
}

/// Whether a block begins at an address.
pub open spec fn begins_at(address: Address) -> spec_fn(CodeBlockView) -> bool {
    |b: CodeBlockView| b.start == address
}

/// Whether a block begins at an address in a context.
pub open spec fn begins_in(address: Address, context: Seq<(u32, u64)>) -> spec_fn(
    CodeBlockView,
) -> bool {
    |b: CodeBlockView| b.start == address && b.context == context
}

impl CodeBlockTable {
    /// The blocks stand under their identities and are found by their intervals, and the
    /// allocator knows which identities are in use.
    pub closed spec fn wf(&self) -> bool {
        &&& self.allocator.wf()
        &&& self.bounds.wf()
        &&& placed_by_id(self.entries@)
        &&& bounded(self.bounds@, self@)
        &&& self.live == occupied(self.entries@)
        &&& forall|id: CodeBlockId| #[trigger]
            self@.contains_key(id) ==> self.allocator.in_use(id.id as int)
    }

    /// What hands out the identities.
    pub closed spec fn ids(&self) -> IdAllocator<CodeBlockEntity> {
        self.allocator
    }

    /// Whether a slot is handed out and no block stands in it.
    pub open spec fn reserved(&self, slot: int) -> bool {
        &&& self.ids().in_use(slot)
        &&& forall|id: CodeBlockId| #[trigger] self@.contains_key(id) ==> id.id != slot
    }

    /// What holds of every table.
    pub proof fn lemma_wf(&self)
        requires
            self.wf(),
        ensures
            self.ids().wf(),
            forall|id: CodeBlockId| #[trigger]
                self@.contains_key(id) ==> self@[id].id == id && self@[id].fits() && id.id < u32::MAX
                    && self.ids().in_use(id.id as int),
            self@.dom().finite(),
            forall|a: CodeBlockId, b: CodeBlockId|
                #![trigger self@.contains_key(a), self@.contains_key(b)]
                self@.contains_key(a) && self@.contains_key(b) && a.id == b.id ==> a == b,
    {
        lemma_stored_len(self.entries@);
        assert forall|id: CodeBlockId| #[trigger] self@.contains_key(id) implies id.id
            < u32::MAX by {
            assert(self.entries@[id.id as int] is Some);
        }
    }

    pub fn new() -> (table: Self)
        ensures
            table.wf(),
            table@ == Map::<CodeBlockId, CodeBlockView>::empty(),
            table.ids().free_ids@ == Seq::<CodeBlockId>::empty(),
            table.ids().next_index == 0,
    {
        let table = CodeBlockTable {
            allocator: IdAllocator::new(),
            bounds: SortedMap::new(),
            entries: Vec::new(),
            live: 0,
        };
        assert(table@ =~= Map::<CodeBlockId, CodeBlockView>::empty());
        table
    }

    pub fn new_transient() -> (table: Self)
        ensures
            table.wf(),
            table@ == Map::<CodeBlockId, CodeBlockView>::empty(),
            table.ids().free_ids@ == Seq::<CodeBlockId>::empty(),
            table.ids().next_index == 0,
    {
        CodeBlockTable::new()
    }

    /// The identity that the reservation after `offset` others gives.
    pub fn pending_id(&self, offset: usize) -> (id: CodeBlockId)
        requires
            self.wf(),
            offset < self.ids().room(),
        ensures
            id == self.ids().pending(offset as int),
    {
        self.allocator.pending_id(offset)
    }

    /// Whether an address lies in a block.
    pub fn contains(&self, address: Address) -> (found: bool)
        requires
            self.wf(),
        ensures
            found == exists|id: CodeBlockId| #[trigger]
                self@.contains_key(id) && self@[id].range().holds(address),
    {
        let raw: u128 = address.offset() as u128;
        match self.bounds.get(&address.space()) {
            Some(bounds) => {
                let found: bool = intervals_overlap(bounds, raw, raw + 1);
                proof {
                    if found {
                        let key = choose|key: (u128, u128)| #[trigger]
                            bounds@.contains_key(key) && intervals_meet(
                                key,
                                (raw, (raw + 1) as u128),
                            );
                        let set = bounds@[key];
                        assert(self.bounds@[address.space]@.contains_key(key));
                        let id = choose|id: CodeBlockId| set.contains(id);
                        assert(set.contains(id)) by {
                            if forall|id: CodeBlockId| !set.contains(id) {
                                assert(set =~= Set::<CodeBlockId>::empty());
                            }
                        }
                        assert(leads_to(self.bounds@, address.space, key, id));
                        assert(self@[id].range().holds(address));
                    }
                    if exists|id: CodeBlockId| #[trigger]
                        self@.contains_key(id) && self@[id].range().holds(address) {
                        let id = choose|id: CodeBlockId| #[trigger]
                            self@.contains_key(id) && self@[id].range().holds(address);
                        let key = block_interval(self@[id]);
                        assert(leads_to(self.bounds@, address.space, key, id));
                        assert(bounds@.contains_key(key));
                    }
                }
                found
            },
            None => {
                proof {
                    if exists|id: CodeBlockId| #[trigger]
                        self@.contains_key(id) && self@[id].range().holds(address) {
                        let id = choose|id: CodeBlockId| #[trigger]
                            self@.contains_key(id) && self@[id].range().holds(address);
                        assert(leads_to(
                            self.bounds@,
                            address.space,
                            block_interval(self@[id]),
                            id,
                        ));
                    }
                }
                false
            },
        }
    }

    pub fn is_empty(&self) -> (empty: bool)
        requires
            self.wf(),
        ensures
            empty == (self@ == Map::<CodeBlockId, CodeBlockView>::empty()),
    {
        proof {
            lemma_stored_len(self.entries@);
            if self.live == 0 {
                assert(self@.dom() =~= Set::<CodeBlockId>::empty());
                assert(self@ =~= Map::<CodeBlockId, CodeBlockView>::empty());
            }
        }
        self.live == 0
    }

    pub fn len(&self) -> (len: usize)
        requires
            self.wf(),
        ensures
            self@.dom().finite(),
            len == self@.dom().len(),
    {
        proof {
            lemma_stored_len(self.entries@);
        }
        self.live
    }

    pub fn get_by_id(&self, id: CodeBlockId) -> (block: Option<&CodeBlock>)
        requires
            self.wf(),
        ensures
            block is Some == self@.contains_key(id),
            block matches Some(b) ==> b.id == id && b@ == self@[id] && self.stores(*b),
    {
        if id.is_invalid() {
            proof {
                if self@.contains_key(id) {
                    assert(self.entries@[id.id as int] is Some);
                }
            }
            return None;
        }
        let index: usize = id.index();
        if index >= self.entries.len() {
            return None;
        }
        match self.entries[index].as_ref() {
            Some(block) => {
                if block.id() == id {
                    Some(block)
                } else {
                    None
                }
            },
            None => None,
        }
    }

    /// The block with an identity. A table in memory never fails.
    pub fn try_get_by_id(&self, id: CodeBlockId) -> (r: Result<
        Option<&CodeBlock>,
        CodeBlockTableError,
    >)
        requires
            self.wf(),
        ensures
            r is Ok,
            r->Ok_0 is Some == self@.contains_key(id),
            r->Ok_0 matches Some(b) ==> b.id == id && b@ == self@[id] && self.stores(*b),
    {
        Ok(self.get_by_id(id))
    }
}

/// What a table shows once the block with an identity was changed in its slot. Nothing is shown
/// under an identity that its block has no more, and a block whose identity names another slot is
/// not shown at all.
pub open spec fn block_changed(
    blocks: Map<CodeBlockId, CodeBlockView>,
    id: CodeBlockId,
    block: CodeBlockView,
) -> Map<CodeBlockId, CodeBlockView> {
    if block.id == id {
        blocks.insert(id, block)
    } else if block.id.id == id.id {
        blocks.remove(id).insert(block.id, block)
    } else {
        blocks.remove(id)
    }
}

/// Whether a block stands under the identity and in the range of another.
pub open spec fn same_place(a: CodeBlockView, b: CodeBlockView) -> bool {
    a.id == b.id && a.start == b.start && a.size == b.size
}

impl CodeBlockTable {
    /// The block with an identity, to be changed. What leads to the block is as it was, so the
    /// block must keep its identity and its range for the table to stay in order.
    pub fn get_by_id_mut(&mut self, id: CodeBlockId) -> (block: Option<&mut CodeBlock>)
        requires
            old(self).wf(),
        ensures
            block is Some == old(self)@.contains_key(id),
            match block {
                Some(b) => {
                    &&& b.id == id
                    &&& b@ == old(self)@[id]
                    &&& final(self).ids() == old(self).ids()
                    &&& final(self)@ == block_changed(old(self)@, id, final(b)@)
                    &&& same_place(final(b)@, old(self)@[id]) ==> final(self).wf()
                },
                None => *final(self) == *old(self),
            },
    {
        let ghost before = *self;
        proof {
            before.lemma_wf();
        }
        if id.is_invalid() {
            return None;
        }
        let index: usize = id.index();
        if index >= self.entries.len() {
            return None;
        }
        let found: bool = match self.entries[index].as_ref() {
            Some(block) => block.id() == id,
            None => false,
        };
        if !found {
            return None;
        }
        proof {
            assert forall|after: Self, b: CodeBlock|
                #![trigger after.wf(), before.entries@.update(index as int, Some(b))]
                after.allocator == before.allocator && after.bounds == before.bounds && after.live
                    == before.live && after.entries@ == before.entries@.update(
                    index as int,
                    Some(b),
                ) implies after@ == block_changed(before@, id, b@) && (same_place(b@, before@[id])
                ==> after.wf()) by {
                assert(after@ =~= block_changed(before@, id, b@));
                if same_place(b@, before@[id]) {
                    lemma_occupied_update(before.entries@, index as int, Some(b));
                    assert forall|other: CodeBlockId| #[trigger]
                        after@.contains_key(other) implies before@.contains_key(other)
                        && same_place(after@[other], before@[other]) by {}
                    assert forall|other: CodeBlockId| #[trigger]
                        before@.contains_key(other) implies after@.contains_key(other) by {}
                    assert(bounded(after.bounds@, after@));
                }
            }
        }
        self.entries[index].as_mut()
    }

    /// Lets `f` change the block with an identity, if it is there.
    pub fn modify_by_id<R, F: FnOnce(&mut CodeBlock) -> R>(&mut self, id: CodeBlockId, f: F) -> (r:
        Option<R>)
        requires
            old(self).wf(),
            forall|e: &mut CodeBlock|
                old(self)@.contains_key(id) && e@ == old(self)@[id] ==> #[trigger] call_requires(
                    f,
                    (e,),
                ),
        ensures
            r is Some == old(self)@.contains_key(id),
            r is None ==> *final(self) == *old(self),
            final(self).ids() == old(self).ids(),
            r matches Some(value) ==> exists|e: &mut CodeBlock|
                {
                    &&& #[trigger] call_ensures(f, (e,), value)
                    &&& e@ == old(self)@[id]
                    &&& final(self)@ == block_changed(old(self)@, id, final(e)@)
                    &&& same_place(final(e)@, old(self)@[id]) ==> final(self).wf()
                },
    {
        let ghost before = *self;
        let ghost mut last: CodeBlock = arbitrary();
        let r: Option<R> = match self.get_by_id_mut(id) {
            Some(block) => {
                let value: R = f(block);
                proof {
                    last = *block;
                }
                assert(exists|e: &mut CodeBlock|
                    #[trigger] call_ensures(f, (e,), value) && e@ == before@[id] && *final(e)
                        == last);
                Some(value)
            },
            None => None,
        };
        proof {
            if r is Some {
                let value = r->0;
                let e = choose|e: &mut CodeBlock|
                    #[trigger] call_ensures(f, (e,), value) && e@ == before@[id] && *final(e)
                        == last;
                assert(call_ensures(f, (e,), value));
                assert(e@ == before@[id]);
                assert(self@ == block_changed(before@, id, last@));
                assert(same_place(last@, before@[id]) ==> self.wf());
                assert(*final(e) == last);
            }
        }
        r
    }
}

/// Whether one of the first listed sets has an identity.
spec fn listed(
    list: Seq<(u128, u128, &IdSet<CodeBlockEntity>)>,
    count: int,
    id: CodeBlockId,
) -> bool {
    exists|m: int| 0 <= m < count && (#[trigger] list[m]).2@.contains(id)
}

/// Whether a list of blocks has one with an identity.
spec fn has_found(found: Seq<&CodeBlock>, id: CodeBlockId) -> bool {
    exists|i: int| 0 <= i < found.len() && (#[trigger] found[i]).id == id
}

impl CodeBlockTable {
    /// The blocks that share an address with a range.
    pub fn overlaps(&self, range: &AddressRange) -> (found: Vec<&CodeBlock>)
        requires
            self.wf(),
            range.start.0 <= range.end.0,
        ensures
            finds(found@, self@, block_meets(*range)),
    {
        let mut found: Vec<&CodeBlock> = Vec::new();
        let bounds: &IntervalIds = match self.bounds.get(&range.space()) {
            Some(bounds) => bounds,
            None => {
                proof {
                    assert forall|id: CodeBlockId| #[trigger] self@.contains_key(id) implies !(
                    block_meets(*range))(self@[id]) by {
                        assert(leads_to(
                            self.bounds@,
                            self@[id].start.space,
                            block_interval(self@[id]),
                            id,
                        ));
                    }
                }
                return found;
            },
        };
        let start: u128 = range.start().offset() as u128;
        let end: u128 = range.end().offset() as u128 + 1;
        let list: Vec<(u128, u128, &IdSet<CodeBlockEntity>)> = intervals_over(bounds, start, end);
        let ghost query = (start, end);
        let mut k: usize = 0;
        while k < list.len()
            invariant
                k <= list@.len(),
                self.wf(),
                range.start.0 <= range.end.0,
                query == range_interval(*range),
                self.bounds@.contains_key(range.space),
                bounds == self.bounds@[range.space],
                lists_overlaps(list@, bounds@, query),
                forall|i: int|
                    0 <= i < found@.len() ==> self@.contains_key((#[trigger] found@[i]).id)
                        && found@[i]@ == self@[found@[i].id] && block_meets(*range)(found@[i]@)
                        && listed(list@, k as int, found@[i].id),
                forall|i: int, j: int|
                    0 <= i < j < found@.len() ==> (#[trigger] found@[i]).id != (#[trigger]
                    found@[j]).id && ranges_ordered(found@[i]@, found@[j]@),
                forall|id: CodeBlockId|
                    #[trigger] listed(list@, k as int, id) ==> has_found(found@, id),
            decreases list@.len() - k,
        {
            let ids: Vec<CodeBlockId> = list[k].2.iter();
            let ghost key = (list@[k as int].0, list@[k as int].1);
            let ghost before = found@;
            let mut m: usize = 0;
            proof {
                assert forall|i: int| 0 <= i < found@.len() implies interval_before(
                    block_interval((#[trigger] found@[i])@),
                    key,
                ) by {
                    self.lemma_listed(list@, k as int, range.space, query, found@[i].id);
                }
            }
            while m < ids.len()
                invariant
                    m <= ids@.len(),
                    k < list@.len(),
                    self.wf(),
                    range.start.0 <= range.end.0,
                    query == range_interval(*range),
                    self.bounds@.contains_key(range.space),
                    bounds == self.bounds@[range.space],
                    lists_overlaps(list@, bounds@, query),
                    key == (list@[k as int].0, list@[k as int].1),
                    ids@.no_duplicates(),
                    forall|id: CodeBlockId| #[trigger]
                        ids@.contains(id) <==> list@[k as int].2@.contains(id),
                    found@.len() == before.len() + m,
                    forall|i: int| 0 <= i < before.len() ==> found@[i] == before[i],
                    forall|i: int|
                        0 <= i < before.len() ==> interval_before(
                            block_interval((#[trigger] before[i])@),
                            key,
                        ),
                    forall|i: int|
                        before.len() <= i < found@.len() ==> self@.contains_key(
                            (#[trigger] found@[i]).id,
                        ) && found@[i]@ == self@[found@[i].id] && found@[i].id == ids@[i
                            - before.len()] && block_interval(found@[i]@) == key
                            && found@[i].start.space == range.space,
                decreases ids@.len() - m,
            {
                let id: CodeBlockId = ids[m];
                proof {
                    assert(ids@.contains(id));
                    assert(leads_to(self.bounds@, range.space, key, id));
                }
                match self.get_by_id(id) {
                    Some(block) => found.push(block),
                    None => {},
                }
                m = m + 1;
            }
            proof {
                assert forall|i: int| 0 <= i < found@.len() implies self@.contains_key(
                    (#[trigger] found@[i]).id,
                ) && found@[i]@ == self@[found@[i].id] && block_meets(*range)(found@[i]@)
                    && listed(list@, k + 1, found@[i].id) by {
                    if i < before.len() {
                        assert(found@[i] == before[i]);
                        let n = choose|n: int|
                            0 <= n < k && (#[trigger] list@[n]).2@.contains(found@[i].id);
                        assert(list@[n].2@.contains(found@[i].id));
                    } else {
                        assert(ids@.contains(found@[i].id));
                        assert(list@[k as int].2@.contains(found@[i].id));
                        assert(intervals_meet(key, query));
                    }
                }
                assert forall|i: int, j: int| 0 <= i < j < found@.len() implies (#[trigger]
                found@[i]).id != (#[trigger] found@[j]).id && ranges_ordered(
                    found@[i]@,
                    found@[j]@,
                ) by {
                    if j < before.len() {
                        assert(before[i].id != before[j].id);
                    } else if i < before.len() {
                        assert(interval_before(block_interval(before[i]@), key));
                    } else {
                        assert(ids@[i - before.len()] != ids@[j - before.len()]);
                    }
                }
                assert forall|id: CodeBlockId|
                    #[trigger] listed(list@, k + 1, id) implies has_found(found@, id) by {
                    let n = choose|n: int|
                        0 <= n < k + 1 && (#[trigger] list@[n]).2@.contains(id);
                    if n < k {
                        assert(listed(list@, k as int, id));
                        let i = choose|i: int| 0 <= i < before.len() && (#[trigger] before[i]).id == id;
                        assert(found@[i].id == id);
                    } else {
                        assert(ids@.contains(id));
                        let j = ids@.index_of(id);
                        assert(found@[before.len() + j].id == ids@[j]);
                    }
                }
            }
            k = k + 1;
        }
        proof {
            assert forall|id: CodeBlockId| #[trigger]
                self@.contains_key(id) && block_meets(*range)(self@[id]) implies exists|i: int|
                0 <= i < found@.len() && (#[trigger] found@[i]).id == id by {
                let key = block_interval(self@[id]);
                assert(leads_to(self.bounds@, range.space, key, id));
                assert(bounds@.contains_key(key));
                assert(intervals_meet(key, query));
                let n = choose|n: int|
                    0 <= n < list@.len() && ((#[trigger] list@[n]).0, list@[n].1) == key;
                assert(list@[n].2@.contains(id));
                assert(listed(list@, k as int, id));
                assert(has_found(found@, id));
            }
        }
        found
    }

    /// An identity that was listed leads to a block with a listed interval.
    proof fn lemma_listed(
        &self,
        list: Seq<(u128, u128, &IdSet<CodeBlockEntity>)>,
        k: int,
        space: AddressSpaceId,
        query: (u128, u128),
        id: CodeBlockId,
    )
        requires
            self.wf(),
            0 <= k < list.len(),
            self.bounds@.contains_key(space),
            lists_overlaps(list, self.bounds@[space]@, query),
            listed(list, k, id),
        ensures
            self@.contains_key(id),
            interval_before(block_interval(self@[id]), (list[k].0, list[k].1)),
    {
        let n = choose|n: int| 0 <= n < k && (#[trigger] list[n]).2@.contains(id);
        let key = (list[n].0, list[n].1);
        assert(leads_to(self.bounds@, space, key, id));
        assert(interval_before(key, (list[k].0, list[k].1)));
    }

    /// The blocks that an address lies in.
    pub fn overlaps_address(&self, address: Address) -> (found: Vec<&CodeBlock>)
        requires
            self.wf(),
        ensures
            finds(found@, self@, block_meets(
                (AddressRange { space: address.space, start: address.address, end: address.address }),
            )),
    {
        self.overlaps(&AddressRange::point(address))
    }

    /// The blocks that begin at an address, in a context if one is given.
    fn starting_at(&self, address: Address, context: Option<&ContextSet>) -> (found: Vec<
        &CodeBlock,
    >)
        requires
            self.wf(),
        ensures
            match context {
                Some(context) => finds(found@, self@, begins_in(address, context@)),
                None => finds(found@, self@, begins_at(address)),
            },
    {
        let point: AddressRange = AddressRange::point(address);
        let over: Vec<&CodeBlock> = self.overlaps(&point);
        let ghost wanted = match context {
            Some(context) => begins_in(address, context@),
            None => begins_at(address),
        };
        let mut found: Vec<&CodeBlock> = Vec::new();
        let mut i: usize = 0;
        while i < over.len()
            invariant
                i <= over@.len(),
                finds(over@, self@, block_meets(point)),
                wanted == match context {
                    Some(context) => begins_in(address, context@),
                    None => begins_at(address),
                },
                forall|j: int|
                    0 <= j < found@.len() ==> self@.contains_key((#[trigger] found@[j]).id)
                        && found@[j]@ == self@[found@[j].id] && wanted(found@[j]@) && has_found(
                        over@.take(i as int),
                        found@[j].id,
                    ),
                forall|a: int, b: int|
                    0 <= a < b < found@.len() ==> (#[trigger] found@[a]).id != (#[trigger]
                    found@[b]).id && ranges_ordered(found@[a]@, found@[b]@),
                forall|j: int|
                    0 <= j < i && wanted((#[trigger] over@[j])@) ==> has_found(
                        found@,
                        over@[j].id,
                    ),
            decreases over@.len() - i,
        {
            let block: &CodeBlock = over[i];
            let ghost before = found@;
            let fits: bool = block.address() == address && match context {
                Some(context) => block.context().same(context),
                None => true,
            };
            assert(fits == wanted(block@));
            if fits {
                found.push(block);
            }
            proof {
                let (done, more) = (over@.take(i as int), over@.take(i + 1));
                assert forall|j: int| 0 <= j < found@.len() implies self@.contains_key(
                    (#[trigger] found@[j]).id,
                ) && found@[j]@ == self@[found@[j].id] && wanted(found@[j]@) && has_found(
                    more,
                    found@[j].id,
                ) by {
                    if j < before.len() {
                        assert(found@[j] == before[j]);
                        let n = choose|n: int|
                            0 <= n < done.len() && (#[trigger] done[n]).id == before[j].id;
                        assert(more[n].id == before[j].id);
                    } else {
                        assert(more[i as int].id == block.id);
                    }
                }
                assert forall|a: int, b: int| 0 <= a < b < found@.len() implies (#[trigger]
                found@[a]).id != (#[trigger] found@[b]).id && ranges_ordered(
                    found@[a]@,
                    found@[b]@,
                ) by {
                    if b == before.len() {
                        let n = choose|n: int|
                            0 <= n < done.len() && (#[trigger] done[n]).id == before[a].id;
                        assert(over@[n].id != over@[i as int].id);
                        assert(over@[n]@ == self@[over@[n].id]);
                    } else {
                        assert(before[a].id != before[b].id);
                    }
                }
                assert forall|j: int| 0 <= j < i + 1 && wanted((#[trigger] over@[j])@) implies
                    has_found(found@, over@[j].id) by {
                    if j < i {
                        assert(has_found(before, over@[j].id));
                        let n = choose|n: int|
                            0 <= n < before.len() && (#[trigger] before[n]).id == over@[j].id;
                        assert(found@[n].id == over@[j].id);
                    } else {
                        assert(found@[before.len() as int].id == over@[j].id);
                    }
                }
            }
            i = i + 1;
        }
        proof {
            assert forall|id: CodeBlockId| #[trigger]
                self@.contains_key(id) && wanted(self@[id]) implies exists|j: int|
                0 <= j < found@.len() && (#[trigger] found@[j]).id == id by {
                self.lemma_wf();
                assert(block_meets(point)(self@[id]));
                let n = choose|n: int| 0 <= n < over@.len() && (#[trigger] over@[n]).id == id;
                assert(over@[n]@ == self@[id]);
                assert(has_found(found@, over@[n].id));
            }
            assert(finds(found@, self@, wanted));
        }
        found
    }

    /// The blocks that begin at an address.
    pub fn get_by_address(&self, address: Address) -> (found: Vec<&CodeBlock>)
        requires
            self.wf(),
        ensures
            finds(found@, self@, begins_at(address)),
    {
        self.starting_at(address, None)
    }

    /// The blocks that begin at an address in a context.
    pub fn get_by_address_and_context(&self, address: Address, context: &ContextSet) -> (found: Vec<
        &CodeBlock,
    >)
        requires
            self.wf(),
        ensures
            finds(found@, self@, begins_in(address, context@)),
    {
        self.starting_at(address, Some(context))
    }

    /// All blocks, by slot.
    pub fn iter(&self) -> (blocks: Vec<&CodeBlock>)
        requires
            self.wf(),
        ensures
            forall|i: int|
                0 <= i < blocks@.len() ==> self@.contains_key((#[trigger] blocks@[i]).id)
                    && blocks@[i]@ == self@[blocks@[i].id],
            forall|i: int, j: int|
                0 <= i < j < blocks@.len() ==> (#[trigger] blocks@[i]).id.id < (#[trigger]
                blocks@[j]).id.id,
            forall|id: CodeBlockId| #[trigger]
                self@.contains_key(id) ==> exists|i: int|
                    0 <= i < blocks@.len() && (#[trigger] blocks@[i]).id == id,
    {
        let mut blocks: Vec<&CodeBlock> = Vec::new();
        let mut at: usize = 0;
        while at < self.entries.len()
            invariant
                at <= self.entries@.len(),
                self.wf(),
                forall|i: int|
                    0 <= i < blocks@.len() ==> self@.contains_key((#[trigger] blocks@[i]).id)
                        && blocks@[i]@ == self@[blocks@[i].id] && blocks@[i].id.id < at,
                forall|i: int, j: int|
                    0 <= i < j < blocks@.len() ==> (#[trigger] blocks@[i]).id.id < (#[trigger]
                    blocks@[j]).id.id,
                forall|id: CodeBlockId| #[trigger]
                    self@.contains_key(id) && id.id < at ==> has_found(blocks@, id),
            decreases self.entries@.len() - at,
        {
            let ghost before = blocks@;
            match self.entries[at].as_ref() {
                Some(block) => {
                    blocks.push(block);
                    assert(self@.contains_key(block.id));
                },
                None => {},
            }
            proof {
                assert forall|id: CodeBlockId| #[trigger]
                    self@.contains_key(id) && id.id < at + 1 implies has_found(blocks@, id) by {
                    if id.id < at {
                        let n = choose|n: int| 0 <= n < before.len() && (#[trigger] before[n]).id == id;
                        assert(blocks@[n].id == id);
                    } else {
                        assert(blocks@[before.len() as int].id == id);
                    }
                }
            }
            at = at + 1;
        }
        proof {
            assert forall|id: CodeBlockId| #[trigger]
                self@.contains_key(id) implies exists|i: int|
                0 <= i < blocks@.len() && (#[trigger] blocks@[i]).id == id by {
                assert(has_found(blocks@, id));
            }
        }
        blocks
    }

    /// Whether a block stands in the table.
    pub closed spec fn stores(&self, block: CodeBlock) -> bool {
        block.id.id < self.entries@.len() && self.entries@[block.id.id as int] == Some(block)
    }

    /// The view shows the blocks that stand in the table.
    pub proof fn law_stored_blocks_are_shown(&self, block: CodeBlock)
        requires
            self.stores(block),
        ensures
            self@.contains_key(block.id),
            self@[block.id] == block@,
    {
    }

    /// A block stands in the table for everything that the view shows.
    pub proof fn lemma_shown(&self, id: CodeBlockId) -> (block: CodeBlock)
        requires
            self@.contains_key(id),
        ensures
            self.stores(block),
            block.id == id,
            block@ == self@[id],
    {
        self.entries@[id.id as int]->0
    }

    /// A block with just this range and context on which the predicate holds.
    pub fn find_by_range_and_context<F: Fn(&CodeBlock) -> bool>(
        &self,
        range: AddressRange,
        context: &ContextSet,
        predicate: F,
    ) -> (found: Option<&CodeBlock>)
        requires
            self.wf(),
            range.start.0 <= range.end.0,
            forall|block: &CodeBlock| #[trigger] call_requires(predicate, (block,)),
        ensures
            match found {
                Some(block) => self.stores(*block) && block@.range() == range && block.context@
                    == context@ && call_ensures(predicate, (block,), true),
                None => forall|block: CodeBlock| #[trigger]
                    self.stores(block) && block@.range() == range && block.context@ == context@
                        ==> call_ensures(predicate, (&block,), false),
            },
    {
        let start: u128 = range.start().offset() as u128;
        let end: u128 = range.end().offset() as u128 + 1;
        let ghost key = (start, end);
        let bounds: &IntervalIds = match self.bounds.get(&range.space()) {
            Some(bounds) => bounds,
            None => {
                proof {
                    assert forall|block: CodeBlock| #[trigger]
                        self.stores(block) implies block@.range() != range by {
                        assert(self@.contains_key(block.id));
                        assert(leads_to(
                            self.bounds@,
                            block.start.space,
                            block_interval(block@),
                            block.id,
                        ));
                    }
                }
                return None;
            },
        };
        let set: &IdSet<CodeBlockEntity> = match intervals_get(bounds, start, end) {
            Some(set) => set,
            None => {
                proof {
                    assert forall|block: CodeBlock| #[trigger]
                        self.stores(block) implies block@.range() != range by {
                        assert(self@.contains_key(block.id));
                        assert(leads_to(
                            self.bounds@,
                            block.start.space,
                            block_interval(block@),
                            block.id,
                        ));
                    }
                }
                return None;
            },
        };
        let ids: Vec<CodeBlockId> = set.iter();
        let mut i: usize = 0;
        while i < ids.len()
            invariant
                i <= ids@.len(),
                self.wf(),
                key == range_interval(range),
                range.start.0 <= range.end.0,
                self.bounds@.contains_key(range.space),
                bounds == self.bounds@[range.space],
                bounds@.contains_key(key),
                bounds@[key] == set@,
                forall|id: CodeBlockId| #[trigger] ids@.contains(id) <==> set@.contains(id),
                forall|block: &CodeBlock| #[trigger] call_requires(predicate, (block,)),
                forall|j: int, block: CodeBlock|
                    0 <= j < i && #[trigger] self.stores(block) && block.id == #[trigger] ids@[j]
                        && block.context@ == context@ ==> call_ensures(
                        predicate,
                        (&block,),
                        false,
                    ),
            decreases ids@.len() - i,
        {
            let id: CodeBlockId = ids[i];
            proof {
                assert(ids@.contains(id));
                assert(leads_to(self.bounds@, range.space, key, id));
            }
            match self.get_by_id(id) {
                Some(block) => {
                    assert(self.entries@[id.id as int] == Some(*block));
                    if block.context().same(context) {
                        if predicate(block) {
                            proof {
                                assert(block@.range() == range);
                            }
                            return Some(block);
                        }
                    }
                },
                None => {},
            }
            i = i + 1;
        }
        proof {
            assert forall|block: CodeBlock| #[trigger]
                self.stores(block) && block@.range() == range && block.context@
                    == context@ implies call_ensures(predicate, (&block,), false) by {
                assert(self@.contains_key(block.id));
                assert(leads_to(
                    self.bounds@,
                    block.start.space,
                    block_interval(block@),
                    block.id,
                ));
                assert(block_interval(block@) == key);
                assert(ids@.contains(block.id));
                let j = ids@.index_of(block.id);
                assert(ids@[j] == block.id);
            }
        }
        None
    }
}

/// Whether no set of identities is empty.
spec fn sets_nonempty(bounds: Map<AddressSpaceId, IntervalIds>) -> bool {
    forall|space: AddressSpaceId, key: (u128, u128)|
        bounds.contains_key(space) && #[trigger] bounds[space]@.contains_key(key) ==> bounds[space]@[key]
            != Set::<CodeBlockId>::empty()
}

/// Lets an interval lead to one more block.
fn link(
    bounds: &mut SortedMap<AddressSpaceId, IntervalIds>,
    space: AddressSpaceId,
    start: u128,
    end: u128,
    id: CodeBlockId,
)
    requires
        old(bounds).wf(),
        sets_nonempty(old(bounds)@),
        start < end,
    ensures
        final(bounds).wf(),
        sets_nonempty(final(bounds)@),
        forall|s: AddressSpaceId, k: (u128, u128), i: CodeBlockId| #[trigger]
            leads_to(final(bounds)@, s, k, i) <==> leads_to(old(bounds)@, s, k, i) || (s == space
                && k == (start, end) && i == id),
{
    let ghost before = bounds@;
    let ghost key = (start, end);
    let mut intervals: IntervalIds = match bounds.remove(&space) {
        Some(intervals) => intervals,
        None => intervals_new(),
    };
    let ghost earlier = intervals@;
    let mut ids: IdSet<CodeBlockEntity> = match intervals_remove(&mut intervals, start, end) {
        Some(ids) => ids,
        None => IdSet::new(),
    };
    let ghost set = ids@;
    ids.insert(id);
    intervals_insert(&mut intervals, start, end, ids);
    bounds.insert(space, intervals);
    proof {
        assert(intervals@[key] == set.insert(id));
        assert forall|s: AddressSpaceId, k: (u128, u128), i: CodeBlockId| #[trigger]
            leads_to(bounds@, s, k, i) <==> leads_to(before, s, k, i) || (s == space && k == key
                && i == id) by {
            if s == space {
                assert(bounds@[s] == intervals);
                if k == key {
                } else {
                    assert(intervals@.contains_key(k) == earlier.contains_key(k));
                }
            } else {
                assert(bounds@.contains_key(s) == before.contains_key(s));
            }
        }
        assert forall|s: AddressSpaceId, k: (u128, u128)|
            bounds@.contains_key(s) && #[trigger] bounds@[s]@.contains_key(k) implies bounds@[s]@[k]
            != Set::<CodeBlockId>::empty() by {
            if s == space {
                if k == key {
                    assert(bounds@[s]@[k].contains(id));
                } else {
                    assert(earlier.contains_key(k));
                    assert(before[s]@.contains_key(k));
                }
            } else {
                assert(before[s]@.contains_key(k));
            }
        }
    }
}

/// Lets an interval no longer lead to a block.
fn unlink(
    bounds: &mut SortedMap<AddressSpaceId, IntervalIds>,
    space: AddressSpaceId,
    start: u128,
    end: u128,
    id: CodeBlockId,
)
    requires
        old(bounds).wf(),
        sets_nonempty(old(bounds)@),
        start < end,
    ensures
        final(bounds).wf(),
        sets_nonempty(final(bounds)@),
        forall|s: AddressSpaceId, k: (u128, u128), i: CodeBlockId| #[trigger]
            leads_to(final(bounds)@, s, k, i) <==> leads_to(old(bounds)@, s, k, i) && !(s == space
                && k == (start, end) && i == id),
{
    let ghost before = bounds@;
    let ghost key = (start, end);
    let mut intervals: IntervalIds = match bounds.remove(&space) {
        Some(intervals) => intervals,
        None => {
            assert(bounds@ =~= before);
            return ;
        },
    };
    let ghost earlier = intervals@;
    match intervals_remove(&mut intervals, start, end) {
        Some(mut ids) => {
            let ghost set = ids@;
            ids.remove(id);
            if !ids.is_empty() {
                intervals_insert(&mut intervals, start, end, ids);
            }
            proof {
                if ids@ == Set::<CodeBlockId>::empty() {
                    assert forall|i: CodeBlockId| set.contains(i) implies i == id by {
                        if i != id {
                            assert(set.remove(id).contains(i));
                        }
                    }
                }
            }
        },
        None => {
            assert(intervals@ =~= earlier);
        },
    }
    bounds.insert(space, intervals);
    proof {
        assert forall|s: AddressSpaceId, k: (u128, u128), i: CodeBlockId| #[trigger]
            leads_to(bounds@, s, k, i) <==> leads_to(before, s, k, i) && !(s == space && k == key
                && i == id) by {
            if s == space {
                assert(bounds@[s] == intervals);
                if k != key {
                    assert(intervals@.contains_key(k) == earlier.contains_key(k));
                }
            } else {
                assert(bounds@.contains_key(s) == before.contains_key(s));
            }
        }
        assert forall|s: AddressSpaceId, k: (u128, u128)|
            bounds@.contains_key(s) && #[trigger] bounds@[s]@.contains_key(k) implies bounds@[s]@[k]
            != Set::<CodeBlockId>::empty() by {
            if s == space {
                if k != key {
                    assert(earlier.contains_key(k));
                    assert(before[s]@.contains_key(k));
                }
            } else {
                assert(before[s]@.contains_key(k));
            }
        }
    }
}

/// Puts a block in its slot, which must be free.
fn fill_slot(entries: &mut Vec<Option<CodeBlock>>, block: CodeBlock)
    requires
        placed_by_id(old(entries)@),
        block.id.id < u32::MAX,
        block.id.id < old(entries)@.len() ==> old(entries)@[block.id.id as int] is None,
    ensures
        placed_by_id(final(entries)@),
        occupied(final(entries)@) == occupied(old(entries)@) + 1,
        stored(final(entries)@) == stored(old(entries)@).insert(block.id, block@),
        final(entries)@.len() > block.id.id,
        final(entries)@[block.id.id as int] == Some(block),
{
    let ghost before = entries@;
    let index: usize = block.id().index();
    while entries.len() <= index
        invariant
            placed_by_id(entries@),
            occupied(entries@) == occupied(before),
            stored(entries@) == stored(before),
            before.len() <= entries@.len(),
            forall|i: int| 0 <= i < before.len() ==> entries@[i] == before[i],
            forall|i: int| before.len() <= i < entries@.len() ==> entries@[i] is None,
        decreases index + 1 - entries@.len(),
    {
        let ghost earlier = entries@;
        entries.push(None);
        proof {
            assert(entries@.drop_last() =~= earlier);
            assert(placed_by_id(entries@)) by {
                assert forall|i: int|
                    0 <= i < entries@.len() && (#[trigger] entries@[i]) is Some implies entries@[i]->0.id.id
                    == i && i < u32::MAX by {
                    assert(entries@[i] == earlier[i]);
                }
            }
            assert(stored(entries@) =~= stored(before)) by {
                assert forall|id: CodeBlockId| #[trigger]
                    stored(entries@).contains_key(id) <==> stored(earlier).contains_key(id) by {}
            }
        }
    }
    let ghost wide = entries@;
    assert(wide[index as int] is None);
    proof {
        lemma_occupied_update(wide, index as int, Some(block));
    }
    entries.set(index, Some(block));
    proof {
        assert(placed_by_id(entries@)) by {
            assert forall|i: int|
                0 <= i < entries@.len() && (#[trigger] entries@[i]) is Some implies entries@[i]->0.id.id
                == i && i < u32::MAX by {
                if i != index {
                    assert(entries@[i] == wide[i]);
                }
            }
        }
        assert(stored(entries@) =~= stored(before).insert(block.id, block@)) by {
            assert forall|id: CodeBlockId| #[trigger]
                stored(entries@).contains_key(id) <==> stored(before).insert(
                    block.id,
                    block@,
                ).contains_key(id) by {
                assert(stored(wide).contains_key(id) == stored(before).contains_key(id));
            }
            assert forall|id: CodeBlockId| #[trigger]
                stored(entries@).contains_key(id) implies stored(entries@)[id] == stored(
                before,
            ).insert(block.id, block@)[id] by {
                if id.id != index {
                    assert(stored(wide).contains_key(id));
                    assert(stored(wide)[id] == stored(before)[id]);
                }
            }
        }
    }
}

impl CodeBlockTable {
    /// Hands out the next identities, which must be the given ones.
    pub fn publish_reservations(&mut self, reservations: &Vec<CodeBlockId>)
        requires
            old(self).wf(),
            reservations@.len() <= old(self).ids().room(),
            forall|i: int|
                0 <= i < reservations@.len() ==> #[trigger] reservations@[i] == old(
                    self).ids().pending(i),
        ensures
            final(self).wf(),
            final(self)@ == old(self)@,
            final(self).ids().room() == old(self).ids().room() - reservations@.len(),
            forall|slot: int| #[trigger]
                final(self).ids().in_use(slot) <==> old(self).ids().in_use(slot) || exists|i: int|
                    0 <= i < reservations@.len() && (#[trigger] reservations@[i]).id == slot,
            forall|offset: int|
                0 <= offset ==> #[trigger] final(self).ids().pending(offset) == old(
                    self).ids().pending(offset + reservations@.len()),
            forall|i: int|
                0 <= i < reservations@.len() ==> final(self).reserved(
                    (#[trigger] reservations@[i]).id as int,
                ),
    {
        let ghost before = *self;
        let mut i: usize = 0;
        while i < reservations.len()
            invariant
                i <= reservations@.len(),
                before.wf(),
                self.wf(),
                self@ == before@,
                self.entries == before.entries,
                reservations@.len() <= before.allocator.room(),
                self.allocator.room() == before.allocator.room() - i,
                forall|j: int|
                    0 <= j < reservations@.len() ==> #[trigger] reservations@[j]
                        == before.allocator.pending(j),
                forall|slot: int| #[trigger]
                    self.allocator.in_use(slot) <==> before.allocator.in_use(slot) || exists|j: int|
                        0 <= j < i && (#[trigger] reservations@[j]).id == slot,
                forall|offset: int|
                    0 <= offset ==> #[trigger] self.allocator.pending(offset)
                        == before.allocator.pending(offset + i),
                forall|j: int|
                    0 <= j < i ==> self.reserved((#[trigger] reservations@[j]).id as int),
            decreases reservations@.len() - i,
        {
            let ghost earlier = *self;
            let id: CodeBlockId = self.allocator.allocate();
            proof {
                assert(earlier.allocator.pending(0) == before.allocator.pending(i as int));
                assert(id == reservations@[i as int]);
                assert(self@ == before@);
                assert forall|slot: int| #[trigger]
                    self.allocator.in_use(slot) <==> before.allocator.in_use(slot) || exists|j: int|
                        0 <= j < i + 1 && (#[trigger] reservations@[j]).id == slot by {
                    assert(earlier.allocator.in_use(slot) <==> before.allocator.in_use(slot)
                        || exists|j: int|
                        0 <= j < i && (#[trigger] reservations@[j]).id == slot);
                    if slot == id.id {
                        assert(reservations@[i as int].id == slot);
                    }
                }
                assert forall|other: CodeBlockId| #[trigger]
                    self@.contains_key(other) implies self.allocator.in_use(other.id as int)
                    && other.id != id.id by {
                    assert(earlier@.contains_key(other));
                    assert(earlier.allocator.in_use(other.id as int));
                }
                assert forall|j: int| 0 <= j < i + 1 implies self.reserved(
                    (#[trigger] reservations@[j]).id as int,
                ) by {
                    if j < i {
                        assert(earlier.reserved(reservations@[j].id as int));
                    }
                }
                assert forall|offset: int| 0 <= offset implies #[trigger] self.allocator.pending(
                    offset,
                ) == before.allocator.pending(offset + i + 1) by {
                    assert(self.allocator.pending(offset) == earlier.allocator.pending(offset + 1));
                }
            }
            i = i + 1;
        }
    }

    /// Takes back an identity that no block took.
    pub fn publish_release(&mut self, id: CodeBlockId)
        requires
            old(self).wf(),
            old(self).reserved(id.id as int),
            id.generation < u32::MAX - 1,
        ensures
            final(self).wf(),
            final(self)@ == old(self)@,
            final(self).ids().free_ids@ == old(self).ids().free_ids@.push(id.successor()),
            final(self).ids().next_index == old(self).ids().next_index,
            forall|slot: int| #[trigger]
                final(self).ids().in_use(slot) <==> old(self).ids().in_use(slot) && slot != id.id,
    {
        let ghost before = *self;
        self.allocator.release(id);
        proof {
            assert(self@ == before@);
            assert forall|other: CodeBlockId| #[trigger]
                self@.contains_key(other) implies self.allocator.in_use(other.id as int) by {
                assert(before@.contains_key(other));
            }
        }
    }

    /// Puts a block under its identity, which was handed out.
    pub fn publish_upsert(&mut self, block: CodeBlock)
        requires
            old(self).wf(),
            old(self).reserved(block.id.id as int),
            block.id.id < u32::MAX,
            block@.fits(),
        ensures
            final(self).wf(),
            final(self)@ == old(self)@.insert(block.id, block@),
            final(self).ids() == old(self).ids(),
    {
        let ghost before = *self;
        let start: u128 = block.address().offset() as u128;
        let end: u128 = start + block.size as u128;
        let id: CodeBlockId = block.id();
        let space: AddressSpaceId = block.space();
        link(&mut self.bounds, space, start, end, id);
        proof {
            before.lemma_slot_free(id.id as int);
            lemma_stored_len(before.entries@);
        }
        let ghost view = block@;
        fill_slot(&mut self.entries, block);
        proof {
            before.lemma_live_bound(id.id as int);
        }
        self.live = self.live + 1;
        proof {
            assert forall|other: CodeBlockId| #[trigger]
                self@.contains_key(other) implies self@[other].fits() && self@[other].id == other
                && leads_to(
                self.bounds@,
                self@[other].start.space,
                block_interval(self@[other]),
                other,
            ) by {
                if other != id {
                    assert(before@.contains_key(other));
                }
            }
            assert forall|s: AddressSpaceId, k: (u128, u128), other: CodeBlockId| #[trigger]
                leads_to(self.bounds@, s, k, other) implies self@.contains_key(other)
                && self@[other].start.space == s && block_interval(self@[other]) == k by {
                if leads_to(before.bounds@, s, k, other) {
                    assert(before@.contains_key(other));
                    assert(other.id != id.id);
                }
            }
            assert forall|other: CodeBlockId| #[trigger]
                self@.contains_key(other) implies self.allocator.in_use(other.id as int) by {
                if other != id {
                    assert(before@.contains_key(other));
                }
            }
        }
    }

    /// A slot that no block stands in is empty.
    proof fn lemma_slot_free(&self, slot: int)
        requires
            self.wf(),
            self.reserved(slot),
            0 <= slot < u32::MAX,
        ensures
            slot < self.entries@.len() ==> self.entries@[slot] is None,
    {
        if slot < self.entries@.len() && self.entries@[slot] is Some {
            let id = self.entries@[slot]->0.id;
            assert(self@.contains_key(id));
        }
    }

    /// Where a slot is free there is a number for one more block.
    proof fn lemma_live_bound(&self, slot: int)
        requires
            self.wf(),
            self.reserved(slot),
            0 <= slot < u32::MAX,
        ensures
            self.live < usize::MAX,
    {
        lemma_occupied_bound(self.entries@);
        assert(self.entries.len() <= usize::MAX);
        if self.live == usize::MAX {
            lemma_occupied_all(self.entries@);
            self.lemma_slot_free(slot);
            assert(self.entries@[slot] is Some);
        }
    }
}

/// There are not more blocks than entries.
proof fn lemma_occupied_bound(entries: Seq<Option<CodeBlock>>)
    ensures
        occupied(entries) <= entries.len(),
    decreases entries.len(),
{
    if entries.len() > 0 {
        lemma_occupied_bound(entries.drop_last());
    }
}

/// Where there are as many blocks as entries, every entry is a block.
proof fn lemma_occupied_all(entries: Seq<Option<CodeBlock>>)
    requires
        occupied(entries) == entries.len(),
    ensures
        forall|i: int| 0 <= i < entries.len() ==> (#[trigger] entries[i]) is Some,
    decreases entries.len(),
{
    if entries.len() > 0 {
        lemma_occupied_bound(entries.drop_last());
        lemma_occupied_all(entries.drop_last());
        assert forall|i: int| 0 <= i < entries.len() implies (#[trigger] entries[i]) is Some by {
            if i < entries.len() - 1 {
                assert(entries.drop_last()[i] is Some);
            }
        }
    }
}

/// Whether one of the blocks has an identity.
pub open spec fn in_batch(blocks: Seq<CodeBlock>, id: CodeBlockId) -> bool {
    exists|i: int| 0 <= i < blocks.len() && (#[trigger] blocks[i]).id == id
}

/// Whether one of the blocks between two places has an interval and an identity.
spec fn between(
    blocks: Seq<CodeBlock>,
    from: int,
    to: int,
    key: (u128, u128),
    id: CodeBlockId,
) -> bool {
    exists|i: int|
        from <= i < to && (#[trigger] blocks[i]).id == id && block_interval(blocks[i]@) == key
}

/// Whether an interval is listed with an identity.
spec fn lists(
    incoming: Seq<(u128, u128, IdSet<CodeBlockEntity>)>,
    key: (u128, u128),
    id: CodeBlockId,
) -> bool {
    exists|m: int|
        0 <= m < incoming.len() && ((#[trigger] incoming[m]).0, incoming[m].1) == key
            && incoming[m].2@.contains(id)
}

/// Whether listed intervals have numbers and identities.
spec fn lists_something(incoming: Seq<(u128, u128, IdSet<CodeBlockEntity>)>) -> bool {
    forall|m: int|
        0 <= m < incoming.len() ==> (#[trigger] incoming[m]).0 < incoming[m].1 && incoming[m].2@
            != Set::<CodeBlockId>::empty()
}

/// Whether blocks can be put into the table as one batch.
pub open spec fn batch_fits(blocks: Seq<CodeBlock>) -> bool {
    &&& forall|i: int|
        0 <= i < blocks.len() ==> (#[trigger] blocks[i])@.fits() && blocks[i].id.id < u32::MAX
    &&& forall|i: int, j: int|
        0 <= i < j < blocks.len() ==> (#[trigger] blocks[i]).id.id != (#[trigger] blocks[j]).id.id
}

/// Lists the intervals of the blocks of one space from a place on. Neighbours with one interval
/// are listed together.
fn gather_run(blocks: &Vec<CodeBlock>, from: usize) -> (r: (
    usize,
    Vec<(u128, u128, IdSet<CodeBlockEntity>)>,
))
    requires
        from < blocks@.len(),
        batch_fits(blocks@),
    ensures
        from < r.0 <= blocks@.len(),
        forall|i: int| from <= i < r.0 ==> (#[trigger] blocks@[i]).start.space == blocks@[from as int].start.space,
        lists_something(r.1@),
        forall|key: (u128, u128), id: CodeBlockId| #[trigger]
            lists(r.1@, key, id) <==> between(blocks@, from as int, r.0 as int, key, id),
{
    let space: AddressSpaceId = blocks[from].space();
    let mut incoming: Vec<(u128, u128, IdSet<CodeBlockEntity>)> = Vec::new();
    let mut at: usize = from;
    while at < blocks.len() && blocks[at].space() == space
        invariant
            from <= at <= blocks@.len(),
            from < blocks@.len(),
            batch_fits(blocks@),
            space == blocks@[from as int].start.space,
            forall|i: int| from <= i < at ==> (#[trigger] blocks@[i]).start.space == space,
            lists_something(incoming@),
            forall|key: (u128, u128), id: CodeBlockId| #[trigger]
                lists(incoming@, key, id) <==> between(blocks@, from as int, at as int, key, id),
        decreases blocks@.len() - at,
    {
        let start: u128 = blocks[at].address().offset() as u128;
        let end: u128 = start + blocks[at].size as u128;
        let ghost key = (start, end);
        assert(key == block_interval(blocks@[at as int]@));
        let ghost (first, earlier) = (at as int, incoming@);
        let mut ids: IdSet<CodeBlockEntity> = IdSet::new();
        ids.insert(blocks[at].id());
        at = at + 1;
        proof {
            assert forall|id: CodeBlockId| #[trigger]
                ids@.contains(id) <==> between(blocks@, first, at as int, key, id) by {
                if ids@.contains(id) {
                    assert(blocks@[first].id == id);
                }
            }
        }
        while at < blocks.len() && blocks[at].space() == space && blocks[at].address().offset()
            as u128 == start && start + blocks[at].size as u128 == end
            invariant
                from <= first < at <= blocks@.len(),
                batch_fits(blocks@),
                space == blocks@[from as int].start.space,
                key == (start, end),
                start <= u64::MAX,
                forall|i: int| from <= i < at ==> (#[trigger] blocks@[i]).start.space == space,
                forall|i: int|
                    first <= i < at ==> block_interval((#[trigger] blocks@[i])@) == key,
                forall|id: CodeBlockId| #[trigger]
                    ids@.contains(id) <==> between(blocks@, first, at as int, key, id),
            decreases blocks@.len() - at,
        {
            let ghost (before, here) = (ids@, at as int);
            let id: CodeBlockId = blocks[at].id();
            ids.insert(id);
            at = at + 1;
            proof {
                assert(block_interval(blocks@[here]@) == key);
                assert forall|other: CodeBlockId| #[trigger]
                    ids@.contains(other) <==> between(blocks@, first, at as int, key, other) by {
                    assert(before.contains(other) <==> between(blocks@, first, here, key, other));
                    if between(blocks@, first, here, key, other) {
                        let i = choose|i: int|
                            first <= i < here && (#[trigger] blocks@[i]).id == other
                                && block_interval(blocks@[i]@) == key;
                        assert(blocks@[i].id == other);
                    }
                    if other == id {
                        assert(blocks@[here].id == other);
                    }
                }
            }
        }
        let ghost set = ids@;
        assert(set.contains(blocks@[first].id)) by {
            assert(between(blocks@, first, at as int, key, blocks@[first].id));
        }
        incoming.push((start, end, ids));
        proof {
            assert forall|k: (u128, u128), id: CodeBlockId| #[trigger]
                lists(incoming@, k, id) <==> between(blocks@, from as int, at as int, k, id) by {
                assert(lists(earlier, k, id) <==> between(blocks@, from as int, first, k, id));
                if lists(incoming@, k, id) {
                    let m = choose|m: int|
                        0 <= m < incoming@.len() && ((#[trigger] incoming@[m]).0, incoming@[m].1)
                            == k && incoming@[m].2@.contains(id);
                    if m < earlier.len() {
                        assert(earlier[m] == incoming@[m]);
                        assert(lists(earlier, k, id));
                        let i = choose|i: int|
                            from <= i < first && (#[trigger] blocks@[i]).id == id
                                && block_interval(blocks@[i]@) == k;
                        assert(blocks@[i].id == id);
                    } else {
                        assert(between(blocks@, first, at as int, key, id));
                        let i = choose|i: int|
                            first <= i < at && (#[trigger] blocks@[i]).id == id
                                && block_interval(blocks@[i]@) == key;
                        assert(blocks@[i].id == id);
                    }
                }
                if between(blocks@, from as int, at as int, k, id) {
                    let i = choose|i: int|
                        from <= i < at && (#[trigger] blocks@[i]).id == id && block_interval(
                            blocks@[i]@,
                        ) == k;
                    if i < first {
                        assert(between(blocks@, from as int, first, k, id));
                        let m = choose|m: int|
                            0 <= m < earlier.len() && ((#[trigger] earlier[m]).0, earlier[m].1) == k
                                && earlier[m].2@.contains(id);
                        assert(incoming@[m] == earlier[m]);
                    } else {
                        assert(between(blocks@, first, at as int, key, id));
                        assert(set.contains(id));
                        let m = earlier.len() as int;
                        assert((incoming@[m].0, incoming@[m].1) == k);
                    }
                }
            }
        }
    }
    (at, incoming)
}

/// Whether listed intervals stand in their order.
fn is_sorted(incoming: &Vec<(u128, u128, IdSet<CodeBlockEntity>)>) -> (sorted: bool)
    requires
        lists_something(incoming@),
    ensures
        sorted == intervals_sorted(incoming@),
{
    let mut i: usize = 1;
    while i < incoming.len()
        invariant
            1 <= i,
            lists_something(incoming@),
            forall|a: int, b: int|
                0 <= a < b < i && b < incoming@.len() ==> interval_before(
                    ((#[trigger] incoming@[a]).0, incoming@[a].1),
                    ((#[trigger] incoming@[b]).0, incoming@[b].1),
                ),
        decreases incoming@.len() - i,
    {
        let (s0, e0): (u128, u128) = (incoming[i - 1].0, incoming[i - 1].1);
        let (s1, e1): (u128, u128) = (incoming[i].0, incoming[i].1);
        if !(s0 < s1 || (s0 == s1 && e0 < e1)) {
            return false;
        }
        proof {
            assert forall|a: int, b: int| 0 <= a < b < i + 1 implies interval_before(
                ((#[trigger] incoming@[a]).0, incoming@[a].1),
                ((#[trigger] incoming@[b]).0, incoming@[b].1),
            ) by {
                if b == i && a < i - 1 {
                    assert(interval_before(
                        (incoming@[a].0, incoming@[a].1),
                        (incoming@[i - 1].0, incoming@[i - 1].1),
                    ));
                }
            }
        }
        i = i + 1;
    }
    true
}

/// Lets listed intervals of a space lead to what is listed with them.
fn link_all(
    bounds: &mut SortedMap<AddressSpaceId, IntervalIds>,
    space: AddressSpaceId,
    incoming: Vec<(u128, u128, IdSet<CodeBlockEntity>)>,
)
    requires
        old(bounds).wf(),
        sets_nonempty(old(bounds)@),
        lists_something(incoming@),
    ensures
        final(bounds).wf(),
        sets_nonempty(final(bounds)@),
        forall|s: AddressSpaceId, k: (u128, u128), i: CodeBlockId| #[trigger]
            leads_to(final(bounds)@, s, k, i) <==> leads_to(old(bounds)@, s, k, i) || (s == space
                && lists(incoming@, k, i)),
{
    let ghost before = bounds@;
    let blank: bool = match bounds.get(&space) {
        Some(intervals) => intervals_is_empty(intervals),
        None => true,
    };
    if blank && is_sorted(&incoming) {
        let ghost list = incoming@;
        let intervals: IntervalIds = intervals_from_sorted(incoming);
        bounds.insert(space, intervals);
        proof {
            assert forall|s: AddressSpaceId, k: (u128, u128), i: CodeBlockId| #[trigger]
                leads_to(bounds@, s, k, i) <==> leads_to(before, s, k, i) || (s == space && lists(
                    list,
                    k,
                    i,
                )) by {
                if s == space {
                    assert(!leads_to(before, s, k, i));
                    assert(bounds@[s] == intervals);
                    if lists(list, k, i) {
                        let m = choose|m: int|
                            0 <= m < list.len() && ((#[trigger] list[m]).0, list[m].1) == k
                                && list[m].2@.contains(i);
                        assert(intervals@.contains_key((list[m].0, list[m].1)));
                    }
                    if leads_to(bounds@, s, k, i) {
                        let m = choose|m: int|
                            0 <= m < list.len() && ((#[trigger] list[m]).0, list[m].1) == k;
                        assert(intervals@[(list[m].0, list[m].1)] == list[m].2@);
                    }
                }
            }
            assert forall|s: AddressSpaceId, k: (u128, u128)|
                bounds@.contains_key(s) && #[trigger] bounds@[s]@.contains_key(
                    k,
                ) implies bounds@[s]@[k] != Set::<CodeBlockId>::empty() by {
                if s == space {
                    let m = choose|m: int|
                        0 <= m < list.len() && ((#[trigger] list[m]).0, list[m].1) == k;
                    assert(intervals@[(list[m].0, list[m].1)] == list[m].2@);
                } else {
                    assert(before[s]@.contains_key(k));
                }
            }
        }
        return ;
    }
    let mut m: usize = 0;
    while m < incoming.len()
        invariant
            m <= incoming@.len(),
            bounds.wf(),
            sets_nonempty(bounds@),
            lists_something(incoming@),
            forall|s: AddressSpaceId, k: (u128, u128), i: CodeBlockId| #[trigger]
                leads_to(bounds@, s, k, i) <==> leads_to(before, s, k, i) || (s == space && lists(
                    incoming@.take(m as int),
                    k,
                    i,
                )),
        decreases incoming@.len() - m,
    {
        let (start, end): (u128, u128) = (incoming[m].0, incoming[m].1);
        let ids: Vec<CodeBlockId> = incoming[m].2.iter();
        let ghost earlier = bounds@;
        let ghost key = (start, end);
        let mut n: usize = 0;
        while n < ids.len()
            invariant
                n <= ids@.len(),
                start < end,
                key == (start, end),
                bounds.wf(),
                sets_nonempty(bounds@),
                forall|s: AddressSpaceId, k: (u128, u128), i: CodeBlockId| #[trigger]
                    leads_to(bounds@, s, k, i) <==> leads_to(earlier, s, k, i) || (s == space && k
                        == key && ids@.take(n as int).contains(i)),
            decreases ids@.len() - n,
        {
            let ghost inner = bounds@;
            let id: CodeBlockId = ids[n];
            link(bounds, space, start, end, id);
            proof {
                assert forall|s: AddressSpaceId, k: (u128, u128), i: CodeBlockId| #[trigger]
                    leads_to(bounds@, s, k, i) <==> leads_to(earlier, s, k, i) || (s == space && k
                        == key && ids@.take(n + 1).contains(i)) by {
                    assert(leads_to(inner, s, k, i) <==> leads_to(earlier, s, k, i) || (s == space
                        && k == key && ids@.take(n as int).contains(i)));
                    lemma_take_contains(ids@, n as int, i);
                }
            }
            n = n + 1;
        }
        proof {
            assert(ids@.take(n as int) =~= ids@);
            let (done, more) = (incoming@.take(m as int), incoming@.take(m + 1));
            assert forall|s: AddressSpaceId, k: (u128, u128), i: CodeBlockId| #[trigger]
                leads_to(bounds@, s, k, i) <==> leads_to(before, s, k, i) || (s == space && lists(
                    more,
                    k,
                    i,
                )) by {
                assert(leads_to(earlier, s, k, i) <==> leads_to(before, s, k, i) || (s == space
                    && lists(done, k, i)));
                if lists(done, k, i) {
                    let x = choose|x: int|
                        0 <= x < done.len() && ((#[trigger] done[x]).0, done[x].1) == k
                            && done[x].2@.contains(i);
                    assert(more[x] == done[x]);
                }
                if lists(more, k, i) {
                    let x = choose|x: int|
                        0 <= x < more.len() && ((#[trigger] more[x]).0, more[x].1) == k
                            && more[x].2@.contains(i);
                    if x < m {
                        assert(done[x] == more[x]);
                    } else {
                        assert(ids@.contains(i));
                    }
                }
                if k == key && ids@.contains(i) {
                    assert((more[m as int].0, more[m as int].1) == k);
                    assert(more[m as int].2@.contains(i));
                }
            }
        }
        m = m + 1;
    }
    assert(incoming@.take(m as int) =~= incoming@);
}

/// What a list has up to one more place.
proof fn lemma_take_contains(ids: Seq<CodeBlockId>, n: int, id: CodeBlockId)
    requires
        0 <= n < ids.len(),
    ensures
        ids.take(n + 1).contains(id) <==> ids.take(n).contains(id) || id == ids[n],
{
    if ids.take(n).contains(id) {
        let j = ids.take(n).index_of(id);
        assert(ids.take(n + 1)[j] == id);
    }
    if ids.take(n + 1).contains(id) {
        let j = ids.take(n + 1).index_of(id);
        if j < n {
            assert(ids.take(n)[j] == id);
        }
    }
    assert(ids.take(n + 1)[n] == ids[n]);
}

impl CodeBlockTable {
    /// Puts new blocks under their identities, which were handed out.
    pub fn publish_batch(&mut self, blocks: Vec<CodeBlock>)
        requires
            old(self).wf(),
            batch_fits(blocks@),
            forall|i: int|
                0 <= i < blocks@.len() ==> old(self).reserved((#[trigger] blocks@[i]).id.id as int),
        ensures
            final(self).wf(),
            final(self).ids() == old(self).ids(),
            forall|id: CodeBlockId| #[trigger]
                final(self)@.contains_key(id) <==> old(self)@.contains_key(id) || in_batch(
                    blocks@,
                    id,
                ),
            forall|id: CodeBlockId| #[trigger]
                old(self)@.contains_key(id) ==> final(self)@[id] == old(self)@[id],
            forall|i: int|
                0 <= i < blocks@.len() ==> final(self)@[(#[trigger] blocks@[i]).id] == blocks@[i]@,
    {
        let ghost before = *self;
        let ghost all = blocks@;
        let mut at: usize = 0;
        while at < blocks.len()
            invariant
                at <= blocks@.len(),
                blocks@ == all,
                batch_fits(blocks@),
                *self == (CodeBlockTable { bounds: self.bounds, ..before }),
                self.bounds.wf(),
                sets_nonempty(self.bounds@),
                forall|s: AddressSpaceId, k: (u128, u128), i: CodeBlockId| #[trigger]
                    leads_to(self.bounds@, s, k, i) <==> leads_to(before.bounds@, s, k, i)
                        || linked(all, at as int, s, k, i),
            decreases blocks@.len() - at,
        {
            let ghost earlier = self.bounds@;
            let space: AddressSpaceId = blocks[at].space();
            let (next, incoming): (usize, Vec<(u128, u128, IdSet<CodeBlockEntity>)>) = gather_run(
                &blocks,
                at,
            );
            let ghost list = incoming@;
            link_all(&mut self.bounds, space, incoming);
            proof {
                assert forall|s: AddressSpaceId, k: (u128, u128), i: CodeBlockId| #[trigger]
                    leads_to(self.bounds@, s, k, i) <==> leads_to(before.bounds@, s, k, i)
                        || linked(all, next as int, s, k, i) by {
                    assert(leads_to(earlier, s, k, i) <==> leads_to(before.bounds@, s, k, i)
                        || linked(all, at as int, s, k, i));
                    assert(lists(list, k, i) <==> between(all, at as int, next as int, k, i));
                    if linked(all, at as int, s, k, i) {
                        let n = choose|n: int|
                            0 <= n < at && (#[trigger] all[n]).id == i && all[n].start.space == s
                                && block_interval(all[n]@) == k;
                        assert(all[n].id == i);
                    }
                    if between(all, at as int, next as int, k, i) {
                        let n = choose|n: int|
                            at <= n < next && (#[trigger] all[n]).id == i && block_interval(all[n]@)
                                == k;
                        assert(all[n].start.space == space);
                    }
                    if linked(all, next as int, s, k, i) {
                        let n = choose|n: int|
                            0 <= n < next && (#[trigger] all[n]).id == i && all[n].start.space == s
                                && block_interval(all[n]@) == k;
                        if n >= at {
                            assert(all[n].start.space == space);
                            assert(between(all, at as int, next as int, k, i));
                        } else {
                            assert(linked(all, at as int, s, k, i));
                        }
                    }
                }
            }
            at = next;
        }
        let ghost bounds = self.bounds@;
        let mut blocks: Vec<CodeBlock> = blocks;
        while blocks.len() > 0
            invariant
                before.wf(),
                batch_fits(all),
                forall|i: int| 0 <= i < all.len() ==> before.reserved((#[trigger] all[i]).id.id as int),
                blocks@.len() <= all.len(),
                blocks@ == all.take(blocks@.len() as int),
                self.bounds@ == bounds,
                self.bounds.wf(),
                self.allocator == before.allocator,
                placed_by_id(self.entries@),
                self.live == occupied(self.entries@),
                forall|id: CodeBlockId| #[trigger]
                    self@.contains_key(id) <==> before@.contains_key(id) || in_batch(
                        all.skip(blocks@.len() as int),
                        id,
                    ),
                forall|id: CodeBlockId| #[trigger]
                    before@.contains_key(id) ==> self@[id] == before@[id],
                forall|i: int|
                    blocks@.len() <= i < all.len() ==> self@[(#[trigger] all[i]).id] == all[i]@,
            decreases blocks@.len(),
        {
            let ghost (rest, earlier) = (blocks@, *self);
            let block: CodeBlock = match blocks.pop() {
                Some(block) => block,
                None => {
                    return ;
                },
            };
            let ghost last = rest.len() - 1;
            assert(block == all[last]);
            let ghost (id, view) = (block.id, block@);
            proof {
                assert(before.reserved(all[last].id.id as int));
                earlier.lemma_gap(before, all, last);
            }
            fill_slot(&mut self.entries, block);
            self.live = self.live + 1;
            proof {
                let (old_tail, tail) = (all.skip(rest.len() as int), all.skip(last));
                assert forall|other: CodeBlockId| #[trigger]
                    self@.contains_key(other) <==> before@.contains_key(other) || in_batch(
                        tail,
                        other,
                    ) by {
                    assert(earlier@.contains_key(other) <==> before@.contains_key(other)
                        || in_batch(old_tail, other));
                    if in_batch(old_tail, other) {
                        let n = choose|n: int| 0 <= n < old_tail.len() && (#[trigger] old_tail[n]).id == other;
                        assert(tail[n + 1] == old_tail[n]);
                    }
                    if in_batch(tail, other) {
                        let n = choose|n: int| 0 <= n < tail.len() && (#[trigger] tail[n]).id == other;
                        if n > 0 {
                            assert(old_tail[n - 1] == tail[n]);
                        } else {
                            assert(tail[0] == all[last]);
                        }
                    }
                    if other == id {
                        assert(tail[0].id == id);
                    }
                }
                assert forall|other: CodeBlockId| #[trigger]
                    before@.contains_key(other) implies self@[other] == before@[other] by {
                    assert(other.id != id.id);
                    assert(earlier@.contains_key(other));
                }
                assert forall|i: int| last <= i < all.len() implies self@[(#[trigger] all[i]).id]
                    == all[i]@ by {
                    if i > last {
                        assert(all[last].id.id != all[i].id.id);
                        assert(old_tail[i - rest.len()] == all[i]);
                        assert(in_batch(old_tail, all[i].id));
                        assert(earlier@.contains_key(all[i].id));
                    }
                }
            }
        }
        proof {
            assert(all.skip(0) =~= all);
            assert forall|id: CodeBlockId| #[trigger] self@.contains_key(id) implies self@[id].fits()
                && self@[id].id == id && leads_to(
                self.bounds@,
                self@[id].start.space,
                block_interval(self@[id]),
                id,
            ) by {
                if before@.contains_key(id) {
                    assert(leads_to(
                        before.bounds@,
                        before@[id].start.space,
                        block_interval(before@[id]),
                        id,
                    ));
                } else {
                    let n = choose|n: int| 0 <= n < all.len() && (#[trigger] all[n]).id == id;
                    assert(self@[all[n].id] == all[n]@);
                    assert(linked(
                        all,
                        all.len() as int,
                        all[n].start.space,
                        block_interval(all[n]@),
                        id,
                    ));
                }
            }
            assert forall|s: AddressSpaceId, k: (u128, u128), id: CodeBlockId| #[trigger]
                leads_to(self.bounds@, s, k, id) implies self@.contains_key(id)
                && self@[id].start.space == s && block_interval(self@[id]) == k by {
                if leads_to(before.bounds@, s, k, id) {
                    assert(before@.contains_key(id));
                } else {
                    let n = choose|n: int|
                        0 <= n < all.len() && (#[trigger] all[n]).id == id && all[n].start.space == s
                            && block_interval(all[n]@) == k;
                    assert(in_batch(all, id));
                    assert(self@[all[n].id] == all[n]@);
                }
            }
            assert forall|id: CodeBlockId| #[trigger]
                self@.contains_key(id) implies self.allocator.in_use(id.id as int) by {
                if !before@.contains_key(id) {
                    let n = choose|n: int| 0 <= n < all.len() && (#[trigger] all[n]).id == id;
                    assert(before.reserved(all[n].id.id as int));
                }
            }
        }
    }

    /// The slot of a block that is still to come is empty, and there is a number for one more
    /// block.
    proof fn lemma_gap(&self, before: CodeBlockTable, all: Seq<CodeBlock>, last: int)
        requires
            0 <= last < all.len(),
            batch_fits(all),
            before.reserved(all[last].id.id as int),
            placed_by_id(self.entries@),
            self.live == occupied(self.entries@),
            forall|id: CodeBlockId| #[trigger]
                self@.contains_key(id) <==> before@.contains_key(id) || in_batch(
                    all.skip(last + 1),
                    id,
                ),
        ensures
            all[last].id.id < self.entries@.len() ==> self.entries@[all[last].id.id as int] is None,
            self.live < usize::MAX,
    {
        let slot = all[last].id.id as int;
        if slot < self.entries@.len() && self.entries@[slot] is Some {
            let id = self.entries@[slot]->0.id;
            assert(self@.contains_key(id));
            if in_batch(all.skip(last + 1), id) {
                let tail = all.skip(last + 1);
                let n = choose|n: int| 0 <= n < tail.len() && (#[trigger] tail[n]).id == id;
                assert(tail[n] == all[last + 1 + n]);
                assert(all[last].id.id != all[last + 1 + n].id.id);
            }
        }
        lemma_occupied_bound(self.entries@);
        assert(self.entries.len() <= usize::MAX);
        if self.live == usize::MAX {
            lemma_occupied_all(self.entries@);
            assert(self.entries@[slot] is Some);
        }
    }

    /// Takes a block out and takes back its identity.
    pub fn publish_remove(&mut self, id: CodeBlockId, previous: AddressRange)
        requires
            old(self).wf(),
            old(self)@.contains_key(id),
            previous == old(self)@[id].range(),
            id.generation < u32::MAX - 1,
        ensures
            final(self).wf(),
            final(self)@ == old(self)@.remove(id),
            final(self).ids().free_ids@ == old(self).ids().free_ids@.push(id.successor()),
            final(self).ids().next_index == old(self).ids().next_index,
            forall|slot: int| #[trigger]
                final(self).ids().in_use(slot) <==> old(self).ids().in_use(slot) && slot != id.id,
    {
        let ghost before = *self;
        proof {
            self.lemma_wf();
        }
        let start: u128 = previous.start().offset() as u128;
        let end: u128 = previous.end().offset() as u128 + 1;
        unlink(&mut self.bounds, previous.space(), start, end, id);
        let index: usize = id.index();
        proof {
            lemma_occupied_update(before.entries@, index as int, None);
        }
        self.entries.set(index, None);
        self.allocator.release(id);
        self.live = self.live - 1;
        proof {
            assert((start, end) == block_interval(before@[id]));
            assert(self@ =~= before@.remove(id)) by {
                assert forall|other: CodeBlockId| #[trigger]
                    self@.contains_key(other) <==> before@.remove(id).contains_key(other) by {
                    if before@.contains_key(other) && other.id == id.id {
                        assert(other == id);
                    }
                }
            }
            assert(placed_by_id(self.entries@)) by {
                assert forall|i: int|
                    0 <= i < self.entries@.len() && (#[trigger] self.entries@[i]) is Some implies self.entries@[i]->0.id.id
                    == i && i < u32::MAX by {
                    assert(self.entries@[i] == before.entries@[i]);
                }
            }
            assert forall|other: CodeBlockId| #[trigger]
                self@.contains_key(other) implies self@[other].fits() && self@[other].id == other
                && leads_to(
                self.bounds@,
                self@[other].start.space,
                block_interval(self@[other]),
                other,
            ) by {
                assert(before@.contains_key(other));
            }
            assert forall|s: AddressSpaceId, k: (u128, u128), other: CodeBlockId| #[trigger]
                leads_to(self.bounds@, s, k, other) implies self@.contains_key(other)
                && self@[other].start.space == s && block_interval(self@[other]) == k by {
                assert(leads_to(before.bounds@, s, k, other));
                assert(before@.contains_key(other));
            }
            assert forall|other: CodeBlockId| #[trigger]
                self@.contains_key(other) implies self.allocator.in_use(other.id as int) by {
                assert(before@.contains_key(other));
                if other.id == id.id {
                    assert(other == id);
                }
            }
        }
    }

    /// Takes a block out and says whether it was there.
    pub fn remove_by_id(&mut self, id: CodeBlockId) -> (removed: bool)
        requires
            old(self).wf(),
            old(self)@.contains_key(id) ==> id.generation < u32::MAX - 1,
        ensures
            final(self).wf(),
            removed == old(self)@.contains_key(id),
            final(self)@ == old(self)@.remove(id),
            removed ==> hands_out(final(self).ids(), old(self).ids(), 0, seq![id]),
            !removed ==> final(self).ids() == old(self).ids(),
    {
        let range: AddressRange = match self.get_by_id(id) {
            Some(block) => {
                proof {
                    self.lemma_wf();
                }
                block.address_range()
            },
            None => {
                assert(self@ =~= self@.remove(id));
                return false;
            },
        };
        self.publish_remove(id, range);
        true
    }

    /// Takes out the listed blocks, all of which are there.
    fn remove_all(&mut self, ids: &Vec<CodeBlockId>)
        requires
            old(self).wf(),
            ids@.no_duplicates(),
            forall|i: int|
                0 <= i < ids@.len() ==> old(self)@.contains_key(#[trigger] ids@[i])
                    && ids@[i].generation < u32::MAX - 1,
        ensures
            final(self).wf(),
            forall|id: CodeBlockId| #[trigger]
                final(self)@.contains_key(id) <==> old(self)@.contains_key(id) && !ids@.contains(
                    id,
                ),
            forall|id: CodeBlockId| #[trigger]
                final(self)@.contains_key(id) ==> final(self)@[id] == old(self)@[id],
            final(self)@.dom().len() + ids@.len() == old(self)@.dom().len(),
            hands_out(final(self).ids(), old(self).ids(), 0, ids@),
    {
        let ghost before = self@;
        let ghost allocator = self.ids();
        assert(ids@.take(0) =~= Seq::empty());
        let mut i: usize = 0;
        while i < ids.len()
            invariant
                i <= ids@.len(),
                self.wf(),
                hands_out(self.ids(), allocator, 0, ids@.take(i as int)),
                ids@.no_duplicates(),
                forall|j: int|
                    0 <= j < ids@.len() ==> before.contains_key(#[trigger] ids@[j])
                        && ids@[j].generation < u32::MAX - 1,
                forall|id: CodeBlockId| #[trigger]
                    self@.contains_key(id) <==> before.contains_key(id) && !ids@.take(
                        i as int,
                    ).contains(id),
                forall|id: CodeBlockId| #[trigger]
                    self@.contains_key(id) ==> self@[id] == before[id],
                self@.dom().len() + i == before.dom().len(),
            decreases ids@.len() - i,
        {
            let ghost earlier = self@;
            let ghost earlier_ids = self.ids();
            let id: CodeBlockId = ids[i];
            proof {
                self.lemma_wf();
                assert(before.contains_key(ids@[i as int]));
                if ids@.take(i as int).contains(id) {
                    let j = ids@.take(i as int).index_of(id);
                    assert(ids@[j] == ids@[i as int]);
                }
                assert(earlier.contains_key(id));
            }
            self.remove_by_id(id);
            proof {
                lemma_given_back_in_parts(
                    self.ids(),
                    earlier_ids,
                    allocator,
                    0,
                    ids@.take(i as int),
                    seq![id],
                );
                assert(ids@.take(i as int) + seq![id] =~= ids@.take(i + 1));
                assert(self@.dom() =~= earlier.dom().remove(id));
                assert forall|other: CodeBlockId| #[trigger]
                    self@.contains_key(other) <==> before.contains_key(other) && !ids@.take(
                        i + 1,
                    ).contains(other) by {
                    lemma_take_contains(ids@, i as int, other);
                    assert(earlier.contains_key(other) <==> before.contains_key(other)
                        && !ids@.take(i as int).contains(other));
                }
            }
            i = i + 1;
        }
        assert(ids@.take(i as int) =~= ids@);
    }

    /// Takes out the blocks that begin at an address and says how many there were.
    pub fn remove_by_address(&mut self, address: Address) -> (removed: usize)
        requires
            old(self).wf(),
            forall|id: CodeBlockId| #[trigger]
                old(self)@.contains_key(id) && old(self)@[id].start == address ==> id.generation
                    < u32::MAX - 1,
        ensures
            final(self).wf(),
            forall|id: CodeBlockId| #[trigger]
                final(self)@.contains_key(id) <==> old(self)@.contains_key(id) && old(
                    self)@[id].start != address,
            forall|id: CodeBlockId| #[trigger]
                final(self)@.contains_key(id) ==> final(self)@[id] == old(self)@[id],
            final(self)@.dom().len() + removed == old(self)@.dom().len(),
            exists|back: Seq<CodeBlockId>| #[trigger] gives_back(old(self), final(self), back),
    {
        let ghost table = *self;
        let ghost before = self@;
        let found: Vec<&CodeBlock> = self.get_by_address(address);
        let ids: Vec<CodeBlockId> = block_ids(&found);
        proof {
            lemma_found_ids(found@, ids@, before, begins_at(address));
        }
        self.remove_all(&ids);
        assert(gives_back(&table, self, ids@));
        ids.len()
    }

    /// Takes out the blocks that begin at an address in a context and says how many there
    /// were.
    pub fn remove_by_address_and_context(&mut self, address: Address, context: &ContextSet) -> (
    removed: usize)
        requires
            old(self).wf(),
            forall|id: CodeBlockId| #[trigger]
                old(self)@.contains_key(id) && old(self)@[id].start == address && old(
                    self)@[id].context == context@ ==> id.generation < u32::MAX - 1,
        ensures
            final(self).wf(),
            forall|id: CodeBlockId| #[trigger]
                final(self)@.contains_key(id) <==> old(self)@.contains_key(id) && !(old(
                    self)@[id].start == address && old(self)@[id].context == context@),
            forall|id: CodeBlockId| #[trigger]
                final(self)@.contains_key(id) ==> final(self)@[id] == old(self)@[id],
            final(self)@.dom().len() + removed == old(self)@.dom().len(),
            exists|back: Seq<CodeBlockId>| #[trigger] gives_back(old(self), final(self), back),
    {
        let ghost table = *self;
        let ghost before = self@;
        let found: Vec<&CodeBlock> = self.get_by_address_and_context(address, context);
        let ids: Vec<CodeBlockId> = block_ids(&found);
        proof {
            lemma_found_ids(found@, ids@, before, begins_in(address, context@));
        }
        self.remove_all(&ids);
        assert(gives_back(&table, self, ids@));
        ids.len()
    }

    /// Makes a block for an address under the next identity and puts it into the table.
    pub fn insert<F: FnOnce(CodeBlockId, Address) -> Result<CodeBlock, CodeBlockTableError>>(
        &mut self,
        address: Address,
        f: F,
    ) -> (r: Result<CodeBlockId, CodeBlockTableError>)
        requires
            old(self).wf(),
            old(self).ids().room() > 0,
            call_requires(f, (old(self).ids().pending(0), address)),
            forall|block: CodeBlock| #[trigger]
                call_ensures(f, (old(self).ids().pending(0), address), Ok::<CodeBlock, CodeBlockTableError>(block))
                    ==> block.id == old(self).ids().pending(0) && block@.fits(),
        ensures
            final(self).wf(),
            match r {
                Ok(id) => id == old(self).ids().pending(0) && !old(self)@.contains_key(id)
                    && exists|block: CodeBlock|
                    {
                        &&& #[trigger] call_ensures(
                            f,
                            (id, address),
                            Ok::<CodeBlock, CodeBlockTableError>(block),
                        )
                        &&& block.start == address
                        &&& final(self)@ == old(self)@.insert(id, block@)
                        &&& hands_out(final(self).ids(), old(self).ids(), 1, Seq::empty())
                    },
                Err(error) => {
                    &&& *final(self) == *old(self)
                    &&& call_ensures(
                        f,
                        (old(self).ids().pending(0), address),
                        Err::<CodeBlock, CodeBlockTableError>(error),
                    ) || (error is AddressMismatch && exists|block: CodeBlock|
                        #[trigger] call_ensures(
                            f,
                            (old(self).ids().pending(0), address),
                            Ok::<CodeBlock, CodeBlockTableError>(block),
                        ) && block.start != address)
                },
            },
    {
        let id: CodeBlockId = self.allocator.next_id();
        let block: CodeBlock = match f(id, address) {
            Ok(block) => block,
            Err(error) => {
                return Err(error);
            },
        };
        if block.address() != address {
            return Err(CodeBlockTableError::AddressMismatch);
        }
        let ghost before = *self;
        let allocated: CodeBlockId = self.allocator.allocate();
        proof {
            assert(self@ == before@);
            assert forall|other: CodeBlockId| #[trigger]
                self@.contains_key(other) implies self.allocator.in_use(other.id as int)
                && other.id != id.id by {
                assert(before@.contains_key(other));
            }
        }
        self.publish_upsert(block);
        Ok(allocated)
    }

    /// The addresses of the listed blocks, as far as they are there.
    pub fn coverage(&self, blocks: &Vec<CodeBlockId>) -> (covered: AddressRangeSet)
        requires
            self.wf(),
        ensures
            covered.wf(),
            forall|a: Address| #[trigger]
                covered@.contains(a) <==> covered_by(self@, blocks@, a),
    {
        let mut covered: AddressRangeSet = AddressRangeSet::new();
        self.coverage_into(blocks, &mut covered);
        covered
    }

    /// Adds the addresses of the listed blocks to a set, as far as they are there.
    pub fn coverage_into(&self, blocks: &Vec<CodeBlockId>, covered: &mut AddressRangeSet)
        requires
            self.wf(),
            old(covered).wf(),
        ensures
            final(covered).wf(),
            forall|a: Address| #[trigger]
                final(covered)@.contains(a) <==> old(covered)@.contains(a) || covered_by(
                    self@,
                    blocks@,
                    a,
                ),
    {
        let ghost before = covered@;
        let mut i: usize = 0;
        while i < blocks.len()
            invariant
                i <= blocks@.len(),
                self.wf(),
                covered.wf(),
                forall|a: Address| #[trigger]
                    covered@.contains(a) <==> before.contains(a) || covered_by(
                        self@,
                        blocks@.take(i as int),
                        a,
                    ),
            decreases blocks@.len() - i,
        {
            let ghost earlier = covered@;
            match self.get_by_id(blocks[i]) {
                Some(block) => {
                    proof {
                        self.lemma_wf();
                    }
                    block.coverage_into(covered);
                },
                None => {},
            }
            proof {
                let (done, more) = (blocks@.take(i as int), blocks@.take(i + 1));
                assert forall|a: Address| #[trigger]
                    covered@.contains(a) <==> before.contains(a) || covered_by(self@, more, a) by {
                    assert(earlier.contains(a) <==> before.contains(a) || covered_by(
                        self@,
                        done,
                        a,
                    ));
                    if covered_by(self@, done, a) {
                        let j = choose|j: int|
                            0 <= j < done.len() && self@.contains_key(#[trigger] done[j])
                                && self@[done[j]].range().holds(a);
                        assert(more[j] == done[j]);
                    }
                    if covered_by(self@, more, a) {
                        let j = choose|j: int|
                            0 <= j < more.len() && self@.contains_key(#[trigger] more[j])
                                && self@[more[j]].range().holds(a);
                        if j < i {
                            assert(done[j] == more[j]);
                        }
                    }
                    assert(more[i as int] == blocks@[i as int]);
                }
            }
            i = i + 1;
        }
        assert(blocks@.take(i as int) =~= blocks@);
    }

    /// The blocks that begin at the given addresses.
    pub fn get_ids_by_address(&self, addresses: &Vec<Address>) -> (ids: CodeBlockIdsByStart)
        requires
            self.wf(),
            addresses@.no_duplicates(),
        ensures
            ids.wf(),
            forall|a: Address| #[trigger]
                ids@.contains_key(a) <==> addresses@.contains(a) && some_begins(self@, a),
            forall|a: Address| #[trigger]
                ids@.contains_key(a) ==> ids@[a].no_duplicates() && forall|id: CodeBlockId|
                    #[trigger] ids@[a].contains(id) <==> self@.contains_key(id) && self@[id].start
                        == a,
    {
        let mut ids: CodeBlockIdsByStart = IdsByAddress::new();
        let mut i: usize = 0;
        while i < addresses.len()
            invariant
                i <= addresses@.len(),
                self.wf(),
                addresses@.no_duplicates(),
                ids.wf(),
                forall|a: Address| #[trigger]
                    ids@.contains_key(a) <==> addresses@.take(i as int).contains(a)
                        && some_begins(self@, a),
                forall|a: Address| #[trigger]
                    ids@.contains_key(a) ==> ids@[a].no_duplicates() && forall|id: CodeBlockId|
                        #[trigger] ids@[a].contains(id) <==> self@.contains_key(id)
                            && self@[id].start == a,
            decreases addresses@.len() - i,
        {
            let address: Address = addresses[i];
            let ghost before = ids@;
            let found: Vec<&CodeBlock> = self.get_by_address(address);
            let list: Vec<CodeBlockId> = block_ids(&found);
            proof {
                lemma_found_ids(found@, list@, self@, begins_at(address));
                if before.contains_key(address) {
                    let j = addresses@.take(i as int).index_of(address);
                    assert(addresses@[j] == addresses@[i as int]);
                }
            }
            ids.push(address, &list);
            proof {
                assert(Seq::<CodeBlockId>::empty() + list@ =~= list@);
                assert(some_begins(self@, address) <==> list@.len() > 0) by {
                    if some_begins(self@, address) {
                        let id = choose|id: CodeBlockId| #[trigger]
                            self@.contains_key(id) && self@[id].start == address;
                        assert(list@.contains(id));
                    }
                    if list@.len() > 0 {
                        assert(list@.contains(list@[0]));
                    }
                }
                let (done, more) = (addresses@.take(i as int), addresses@.take(i + 1));
                assert forall|a: Address| #[trigger]
                    ids@.contains_key(a) <==> more.contains(a) && some_begins(self@, a) by {
                    assert(before.contains_key(a) <==> done.contains(a) && some_begins(self@, a));
                    if done.contains(a) {
                        let j = done.index_of(a);
                        assert(more[j] == a);
                    }
                    if more.contains(a) {
                        let j = more.index_of(a);
                        if j < i {
                            assert(done[j] == a);
                        }
                    }
                    assert(more[i as int] == address);
                }
                assert forall|a: Address| #[trigger]
                    ids@.contains_key(a) implies ids@[a].no_duplicates() && forall|id: CodeBlockId|
                    #[trigger] ids@[a].contains(id) <==> self@.contains_key(id) && self@[id].start
                        == a by {
                    if a != address {
                        assert(before.contains_key(a));
                    } else {
                        assert(ids@[a] == list@);
                    }
                }
            }
            i = i + 1;
        }
        assert(addresses@.take(i as int) =~= addresses@);
        ids
    }
}

/// Whether one of the first blocks has a space, an interval and an identity.
spec fn linked(
    blocks: Seq<CodeBlock>,
    count: int,
    space: AddressSpaceId,
    key: (u128, u128),
    id: CodeBlockId,
) -> bool {
    exists|n: int|
        0 <= n < count && (#[trigger] blocks[n]).id == id && blocks[n].start.space == space
            && block_interval(blocks[n]@) == key
}

/// Whether a block of the table begins at an address.
pub open spec fn some_begins(table: Map<CodeBlockId, CodeBlockView>, address: Address) -> bool {
    exists|id: CodeBlockId| #[trigger] table.contains_key(id) && table[id].start == address
}

/// Whether an address lies in one of the listed blocks.
pub open spec fn covered_by(
    table: Map<CodeBlockId, CodeBlockView>,
    ids: Seq<CodeBlockId>,
    address: Address,
) -> bool {
    exists|i: int|
        0 <= i < ids.len() && table.contains_key(#[trigger] ids[i]) && table[ids[i]].range().holds(
            address,
        )
}

/// The identities of blocks.
fn block_ids(blocks: &Vec<&CodeBlock>) -> (ids: Vec<CodeBlockId>)
    ensures
        ids@ == blocks@.map_values(|b: &CodeBlock| b.id),
{
    let mut ids: Vec<CodeBlockId> = Vec::new();
    let mut i: usize = 0;
    while i < blocks.len()
        invariant
            i <= blocks@.len(),
            ids@.len() == i,
            forall|j: int| 0 <= j < i ==> #[trigger] ids@[j] == blocks@[j].id,
        decreases blocks@.len() - i,
    {
        ids.push(blocks[i].id());
        i = i + 1;
    }
    assert(ids@ =~= blocks@.map_values(|b: &CodeBlock| b.id));
    ids
}

/// Whether the blocks that left a table gave their identities back in an order.
pub open spec fn gives_back(
    before: &CodeBlockTable,
    after: &CodeBlockTable,
    back: Seq<CodeBlockId>,
) -> bool {
    &&& back.no_duplicates()
    &&& forall|id: CodeBlockId| #[trigger]
        back.contains(id) <==> before@.contains_key(id) && !after@.contains_key(id)
    &&& hands_out(after.ids(), before.ids(), 0, back)
}

/// The identities of what was found are those of the wanted blocks.
proof fn lemma_found_ids(
    found: Seq<&CodeBlock>,
    ids: Seq<CodeBlockId>,
    table: Map<CodeBlockId, CodeBlockView>,
    wanted: spec_fn(CodeBlockView) -> bool,
)
    requires
        finds(found, table, wanted),
        ids == found.map_values(|b: &CodeBlock| b.id),
    ensures
        ids.no_duplicates(),
        forall|id: CodeBlockId| #[trigger]
            ids.contains(id) <==> table.contains_key(id) && wanted(table[id]),
        forall|i: int| 0 <= i < ids.len() ==> table.contains_key(#[trigger] ids[i]) && wanted(
            table[ids[i]],
        ),
{
    assert forall|i: int, j: int| 0 <= i < ids.len() && 0 <= j < ids.len() && i != j implies ids[i]
        != ids[j] by {
        if i < j {
            assert(found[i].id != found[j].id);
        } else {
            assert(found[j].id != found[i].id);
        }
    }
    assert forall|i: int| 0 <= i < ids.len() implies table.contains_key(#[trigger] ids[i])
        && wanted(table[ids[i]]) by {
        assert(found[i].id == ids[i]);
    }
    assert forall|id: CodeBlockId| #[trigger]
        ids.contains(id) <==> table.contains_key(id) && wanted(table[id]) by {
        if table.contains_key(id) && wanted(table[id]) {
            let i = choose|i: int| 0 <= i < found.len() && (#[trigger] found[i]).id == id;
            assert(ids[i] == id);
        }
    }
}

} // verus!
