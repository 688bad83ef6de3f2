//! Changes to the tables of functions and code blocks that wait to be published together.
use vstd::prelude::*;

use crate::address::Address;
use crate::address_set::AddressRangeSet;
use crate::block::{
    span_range, spans, CodeBlock, CodeBlockEntity, CodeBlockId, CodeBlockRecord,
    CodeBlockRecordView, CodeBlockView,
};
use crate::body::{body_flows, lemma_add_contains, lemma_push_contains};
use crate::coalesce::{all_classified, coalesce_flows, coalesces};
use crate::flags::FunctionProperties;
use crate::flow::FlowTarget;
use crate::incomplete::{
    calls_to, record_edges, record_members, FunctionRecord, IncompleteFunctionError,
};
use crate::block_holders::{held, BlockHolders};
use crate::block_table::{some_begins, CodeBlockIdsByStart, CodeBlockTable};
use crate::function::{blank_function, lists_block, Function, FunctionEntity, FunctionId, FunctionView};
use crate::function_table::{found_by_entry, holders_agree, FunctionTable};
use crate::fx::{map_get, map_insert, map_new, FxMap};
use crate::id::{Id, IdAllocator, IdSet};
use crate::ids_by_address::{address_key, differs, taken_out};
use crate::order::{sort_keys, sorts, Ranked, SortedSet};
use crate::reference::{addresses, Reference, ReferenceOrigin};
use crate::staged_records::StagedEntityRecords;
use crate::types::Revision;

verus! {

/// A function that is to take the place of the one with its identity, or the wish that there
/// be none.
pub struct StagedFunctionRecord {
    pub function: Option<Function>,
    pub is_new: bool,
}

/// A block that is to take the place of the one with its identity, or the wish that there be
/// none.
pub struct StagedCodeBlockRecord {
    pub block: Option<CodeBlock>,
    pub is_new: bool,
}

/// What a staged function is, apart from how it is stored.
#[verifier::ext_equal]
pub struct StagedFunctionView {
    pub function: Option<FunctionView>,
    pub is_new: bool,
}

/// What a staged block is, apart from how it is stored.
#[verifier::ext_equal]
pub struct StagedBlockView {
    pub block: Option<CodeBlockView>,
    pub is_new: bool,
}

impl View for StagedFunctionRecord {
    type V = StagedFunctionView;

    open spec fn view(&self) -> StagedFunctionView {
        StagedFunctionView {
            function: match self.function {
                Some(function) => Some(function@),
                None => None,
            },
            is_new: self.is_new,
        }
    }
}

impl View for StagedCodeBlockRecord {
    type V = StagedBlockView;

    open spec fn view(&self) -> StagedBlockView {
        StagedBlockView {
            block: match self.block {
                Some(block) => Some(block@),
                None => None,
            },
            is_new: self.is_new,
        }
    }
}

/// What is staged, apart from how it is stored.
#[verifier::ext_equal]
pub struct StagingView {
    pub functions: Map<FunctionId, StagedFunctionView>,
    pub entries: Map<Address, Option<FunctionId>>,
    pub function_ids: Seq<FunctionId>,
    pub cancelled_functions: Set<FunctionId>,
    pub blocks: Map<CodeBlockId, StagedBlockView>,
    pub locations: Map<Address, Seq<CodeBlockId>>,
    pub block_ids: Seq<CodeBlockId>,
    pub cancelled_blocks: Set<CodeBlockId>,
    pub holders: Map<CodeBlockId, Set<FunctionId>>,
    pub original_holders: Map<CodeBlockId, Set<FunctionId>>,
}

/// The tables that staged changes are for.
#[verifier::ext_equal]
pub struct TablesView {
    pub functions: Map<FunctionId, FunctionView>,
    pub index: Map<Address, FunctionId>,
    pub holders: Map<CodeBlockId, Set<FunctionId>>,
    pub function_ids: IdAllocator<FunctionEntity>,
    pub blocks: Map<CodeBlockId, CodeBlockView>,
    pub block_ids: IdAllocator<CodeBlockEntity>,
}

/// The tables as staged changes see them.
pub open spec fn tables(functions: &FunctionTable, blocks: &CodeBlockTable) -> TablesView {
    TablesView {
        functions: functions@,
        index: functions.index(),
        holders: functions.holders(),
        function_ids: functions.ids(),
        blocks: blocks@,
        block_ids: blocks.ids(),
    }
}

/// Changes to the tables of functions and code blocks.
pub struct FunctionTableStaging {
    staged_functions: StagedEntityRecords<FunctionEntity, StagedFunctionRecord>,
    function_addresses: FxMap<Option<FunctionId>>,
    function_reservations: Vec<FunctionId>,
    cancelled_functions: SortedSet<FunctionId>,
    staged_code_blocks: StagedEntityRecords<CodeBlockEntity, StagedCodeBlockRecord>,
    block_locations: CodeBlockIdsByStart,
    block_reservations: Vec<CodeBlockId>,
    cancelled_blocks: SortedSet<CodeBlockId>,
    by_block: BlockHolders,
    original_by_block: BlockHolders,
}

spec fn function_views(records: Map<FunctionId, StagedFunctionRecord>) -> Map<
    FunctionId,
    StagedFunctionView,
> {
    Map::new(|id: FunctionId| records.contains_key(id), |id: FunctionId| records[id]@)
}

spec fn block_views(records: Map<CodeBlockId, StagedCodeBlockRecord>) -> Map<
    CodeBlockId,
    StagedBlockView,
> {
    Map::new(|id: CodeBlockId| records.contains_key(id), |id: CodeBlockId| records[id]@)
}

spec fn entry_views(map: Map<u128, Option<FunctionId>>) -> Map<Address, Option<FunctionId>> {
    Map::new(
        |a: Address| map.contains_key(a.rank() as u128),
        |a: Address| map[a.rank() as u128],
    )
}

impl View for FunctionTableStaging {
    type V = StagingView;

    closed spec fn view(&self) -> StagingView {
        StagingView {
            functions: function_views(self.staged_functions@),
            entries: entry_views(self.function_addresses@),
            function_ids: self.function_reservations@,
            cancelled_functions: self.cancelled_functions@,
            blocks: block_views(self.staged_code_blocks@),
            locations: self.block_locations@,
            block_ids: self.block_reservations@,
            cancelled_blocks: self.cancelled_blocks@,
            holders: self.by_block@,
            original_holders: self.original_by_block@,
        }
    }
}

impl StagingView {
    /// The functions as they will be.
    pub open spec fn functions_now(self, t: TablesView) -> Map<FunctionId, FunctionView> {
        Map::new(
            |id: FunctionId|
                if self.functions.contains_key(id) {
                    self.functions[id].function is Some
                } else {
                    t.functions.contains_key(id)
                },
            |id: FunctionId|
                if self.functions.contains_key(id) {
                    self.functions[id].function->0
                } else {
                    t.functions[id]
                },
        )
    }

    /// What each entry will lead to.
    pub open spec fn index_now(self, t: TablesView) -> Map<Address, FunctionId> {
        Map::new(
            |a: Address|
                if self.entries.contains_key(a) {
                    self.entries[a] is Some
                } else {
                    t.index.contains_key(a)
                },
            |a: Address|
                if self.entries.contains_key(a) {
                    self.entries[a]->0
                } else {
                    t.index[a]
                },
        )
    }

    /// The functions that will be listed for each block.
    pub open spec fn holders_now(self, t: TablesView) -> Map<CodeBlockId, Set<FunctionId>> {
        t.holders.union_prefer_right(self.holders)
    }

    /// The blocks as they will be.
    pub open spec fn blocks_now(self, t: TablesView) -> Map<CodeBlockId, CodeBlockView> {
        Map::new(
            |id: CodeBlockId|
                if self.blocks.contains_key(id) {
                    self.blocks[id].block is Some
                } else {
                    t.blocks.contains_key(id)
                },
            |id: CodeBlockId|
                if self.blocks.contains_key(id) {
                    self.blocks[id].block->0
                } else {
                    t.blocks[id]
                },
        )
    }

    /// The blocks that there are or will be, also those that are to go.
    pub open spec fn blocks_known(self, t: TablesView) -> Map<CodeBlockId, CodeBlockView> {
        Map::new(
            |id: CodeBlockId|
                (self.blocks.contains_key(id) && self.blocks[id].block is Some)
                    || t.blocks.contains_key(id),
            |id: CodeBlockId|
                if self.blocks.contains_key(id) && self.blocks[id].block is Some {
                    self.blocks[id].block->0
                } else {
                    t.blocks[id]
                },
        )
    }
}

/// Whether identities are those that an allocator hands out next.
pub open spec fn next_ids<T>(ids: Seq<Id<T>>, allocator: IdAllocator<T>) -> bool {
    &&& ids.len() <= allocator.room()
    &&& forall|i: int| 0 <= i < ids.len() ==> #[trigger] ids[i] == allocator.pending(i)
}

/// Identities that are handed out next are distinct, and none of their slots is in use.
pub proof fn lemma_next_ids<T>(ids: Seq<Id<T>>, allocator: IdAllocator<T>)
    requires
        allocator.wf(),
        next_ids(ids, allocator),
    ensures
        forall|i: int|
            0 <= i < ids.len() ==> (#[trigger] ids[i]).id < u32::MAX && !allocator.in_use(
                ids[i].id as int,
            ),
        forall|i: int, j: int|
            0 <= i < j < ids.len() ==> (#[trigger] ids[i]).id != (#[trigger] ids[j]).id,
{
    let free = allocator.free_ids@;
    assert forall|i: int| 0 <= i < ids.len() implies (#[trigger] ids[i]).id < u32::MAX
        && !allocator.in_use(ids[i].id as int) by {
        if i < free.len() {
            assert(ids[i] == free[free.len() - 1 - i]);
        }
    }
    assert forall|i: int, j: int| 0 <= i < j < ids.len() implies (#[trigger] ids[i]).id != (
    #[trigger] ids[j]).id by {
        if j < free.len() {
            assert(ids[i] == free[free.len() - 1 - i]);
            assert(ids[j] == free[free.len() - 1 - j]);
        } else if i < free.len() {
            assert(ids[i] == free[free.len() - 1 - i]);
        }
    }
}

/// Whether staged functions are new ones under reserved identities or changed ones of the table
/// with their entries.
pub open spec fn functions_staged(v: StagingView, t: TablesView) -> bool {
    &&& next_ids(v.function_ids, t.function_ids)
    &&& forall|id: FunctionId| #[trigger]
        v.functions.contains_key(id) ==> {
            &&& v.functions[id].function matches Some(f) ==> f.id == id && f.wf()
            &&& v.functions[id].is_new ==> v.functions[id].function is Some
                && v.function_ids.contains(id) && !v.cancelled_functions.contains(id)
            &&& !v.functions[id].is_new ==> t.functions.contains_key(id) && (
            v.functions[id].function matches Some(f) ==> f.entry == t.functions[id].entry)
        }
    &&& forall|id: FunctionId| #[trigger]
        v.cancelled_functions.contains(id) ==> v.function_ids.contains(id)
}

/// Whether staged blocks are new ones under reserved identities, or blocks of the table that
/// are to go because no function is listed for them. A reserved identity is that of a staged
/// block or cancelled.
pub open spec fn blocks_staged(v: StagingView, t: TablesView) -> bool {
    &&& next_ids(v.block_ids, t.block_ids)
    &&& forall|id: CodeBlockId| #[trigger]
        v.blocks.contains_key(id) ==> {
            &&& v.blocks[id].is_new ==> {
                &&& v.blocks[id].block matches Some(b)
                &&& b.id == id
                &&& b.fits()
                &&& v.block_ids.contains(id)
                &&& !v.cancelled_blocks.contains(id)
            }
            &&& !v.blocks[id].is_new ==> v.blocks[id].block is None && t.blocks.contains_key(id)
                && held(v.holders_now(t), id) == Set::<FunctionId>::empty()
        }
    &&& forall|id: CodeBlockId| #[trigger]
        v.cancelled_blocks.contains(id) ==> v.block_ids.contains(id)
    &&& forall|id: CodeBlockId| #[trigger]
        v.block_ids.contains(id) ==> v.is_new_block(id) || v.cancelled_blocks.contains(id)
}

/// Whether the identities of new blocks that are not staged any more have been cancelled, and no
/// others.
pub open spec fn cancels(v: StagingView, after: StagingView) -> bool {
    forall|id: CodeBlockId| #[trigger]
        after.cancelled_blocks.contains(id) <==> v.cancelled_blocks.contains(id) || (
        v.is_new_block(id) && !after.is_new_block(id))
}

/// Whether the known locations are of blocks that there are, and the staged blocks are all
/// located.
pub open spec fn blocks_located(v: StagingView, t: TablesView) -> bool {
    &&& forall|a: Address, i: int|
        v.locations.contains_key(a) && 0 <= i < v.locations[a].len() ==> v.blocks_known(
            t,
        ).contains_key(#[trigger] v.locations[a][i]) && v.blocks_known(
            t,
        )[v.locations[a][i]].start == a
    &&& forall|a: Address| #[trigger]
        v.locations.contains_key(a) ==> v.locations[a].no_duplicates()
    &&& forall|id: CodeBlockId| #[trigger]
        v.blocks.contains_key(id) && v.blocks[id].block is Some ==> {
            let start = v.blocks[id].block->0.start;
            v.locations.contains_key(start) && v.locations[start].contains(id)
        }
}

/// Whether what was listed before is remembered wherever it was changed.
pub open spec fn originals_kept(v: StagingView, t: TablesView) -> bool {
    &&& forall|block: CodeBlockId| #[trigger]
        v.original_holders.contains_key(block) ==> v.holders.contains_key(block)
            && v.original_holders[block] == held(t.holders, block)
    &&& forall|block: CodeBlockId| #[trigger]
        v.holders.contains_key(block) && !v.original_holders.contains_key(block)
            ==> v.block_ids.contains(block)
}

/// Whether no function is listed for a block that is still to be handed out.
pub open spec fn none_claimed(
    holders: Map<CodeBlockId, Set<FunctionId>>,
    allocator: IdAllocator<CodeBlockEntity>,
) -> bool {
    forall|i: int| 0 <= i < allocator.room() ==> !holders.contains_key(#[trigger] allocator.pending(i))
}

/// Whether no function will be made of a block that is still to be handed out.
pub open spec fn none_awaited(v: StagingView, t: TablesView) -> bool {
    forall|i: int|
        v.block_ids.len() <= i < t.block_ids.room() ==> is_idle(
            v.functions_now(t),
            #[trigger] t.block_ids.pending(i),
        )
}

/// Whether no function has a block.
pub open spec fn is_idle(functions: Map<FunctionId, FunctionView>, block: CodeBlockId) -> bool {
    forall|id: FunctionId| #[trigger]
        functions.contains_key(id) ==> !lists_block(functions[id].blocks, block)
}

/// Whether tables can be changed through staging: the functions are found by their entries and
/// listed for their blocks, and none is listed for a block that is still to be handed out.
pub open spec fn stageable(functions: &FunctionTable, blocks: &CodeBlockTable) -> bool {
    &&& functions.wf()
    &&& functions.consistent()
    &&& blocks.wf()
    &&& none_claimed(functions.holders(), blocks.ids())
}

impl FunctionTableStaging {
    /// The collections that hold what is staged are as they should be.
    pub closed spec fn parts_wf(&self) -> bool {
        &&& self.staged_functions.wf()
        &&& self.cancelled_functions.wf()
        &&& self.staged_code_blocks.wf()
        &&& self.block_locations.wf()
        &&& self.cancelled_blocks.wf()
        &&& self.by_block.wf()
        &&& self.original_by_block.wf()
        &&& forall|key: u128| #[trigger]
            self.function_addresses@.contains_key(key) ==> key < addresses()
    }

    /// What is staged fits the tables and fits together.
    pub open spec fn wf(&self, functions: &FunctionTable, blocks: &CodeBlockTable) -> bool {
        let t = tables(functions, blocks);
        &&& self.parts_wf()
        &&& stageable(functions, blocks)
        &&& functions_staged(self@, t)
        &&& blocks_staged(self@, t)
        &&& blocks_located(self@, t)
        &&& originals_kept(self@, t)
        &&& found_by_entry(self@.index_now(t), self@.functions_now(t))
        &&& holders_agree(self@.holders_now(t), self@.functions_now(t))
        &&& none_awaited(self@, t)
    }

    pub fn new() -> (staging: Self)
        ensures
            staging@ == (StagingView {
                functions: Map::empty(),
                entries: Map::empty(),
                function_ids: Seq::empty(),
                cancelled_functions: Set::empty(),
                blocks: Map::empty(),
                locations: Map::empty(),
                block_ids: Seq::empty(),
                cancelled_blocks: Set::empty(),
                holders: Map::empty(),
                original_holders: Map::empty(),
            }),
            forall|functions: &FunctionTable, blocks: &CodeBlockTable|
                #![trigger staging.wf(functions, blocks)]
                stageable(functions, blocks) ==> staging.wf(functions, blocks),
    {
        let staging = FunctionTableStaging {
            staged_functions: StagedEntityRecords::new(),
            function_addresses: map_new(),
            function_reservations: Vec::new(),
            cancelled_functions: SortedSet::new(),
            staged_code_blocks: StagedEntityRecords::new(),
            block_locations: CodeBlockIdsByStart::new(),
            block_reservations: Vec::new(),
            cancelled_blocks: SortedSet::new(),
            by_block: BlockHolders::new(),
            original_by_block: BlockHolders::new(),
        };
        proof {
            let v = staging@;
            assert(v.functions =~= Map::<FunctionId, StagedFunctionView>::empty());
            assert(v.entries =~= Map::<Address, Option<FunctionId>>::empty());
            assert(v.blocks =~= Map::<CodeBlockId, StagedBlockView>::empty());
            assert forall|functions: &FunctionTable, blocks: &CodeBlockTable|
                #![trigger staging.wf(functions, blocks)]
                stageable(functions, blocks) implies staging.wf(functions, blocks) by {
                let t = tables(functions, blocks);
                functions.lemma_sound();
                blocks.lemma_wf();
                lemma_room(functions.ids());
                lemma_room(blocks.ids());
                assert(v.functions_now(t) =~= functions@);
                assert(v.index_now(t) =~= functions.index());
                assert(v.holders_now(t) =~= functions.holders());
                assert forall|i: int|
                    v.block_ids.len() <= i < t.block_ids.room() implies is_idle(
                    v.functions_now(t),
                    #[trigger] t.block_ids.pending(i),
                ) by {
                    lemma_idle(v.holders_now(t), v.functions_now(t), t.block_ids.pending(i));
                }
            }
        }
        staging
    }
}

/// There is never less than no room.
proof fn lemma_room<T>(allocator: IdAllocator<T>)
    requires
        allocator.wf(),
    ensures
        allocator.room() >= 0,
{
}

impl StagingView {
    /// Whether a block is staged as a new one.
    pub open spec fn is_new_block(self, id: CodeBlockId) -> bool {
        self.blocks.contains_key(id) && self.blocks[id].is_new
    }

    /// Whether a function is staged as a new one.
    pub open spec fn is_new_function(self, id: FunctionId) -> bool {
        self.functions.contains_key(id) && self.functions[id].is_new
    }

    /// What is staged once the functions of a block have been looked up for a change.
    pub open spec fn touched(
        self,
        holders: Map<CodeBlockId, Set<FunctionId>>,
        block: CodeBlockId,
    ) -> StagingView {
        if self.holders.contains_key(block) {
            self
        } else {
            StagingView {
                holders: self.holders.insert(block, held(holders, block)),
                original_holders: if self.is_new_block(block) {
                    self.original_holders
                } else {
                    self.original_holders.insert(block, held(holders, block))
                },
                ..self
            }
        }
    }

    /// What is staged once a block is listed with other functions.
    pub open spec fn with_held(
        self,
        holders: Map<CodeBlockId, Set<FunctionId>>,
        block: CodeBlockId,
        functions: Set<FunctionId>,
    ) -> StagingView {
        let touched = self.touched(holders, block);
        StagingView { holders: touched.holders.insert(block, functions), ..touched }
    }
}

impl StagingView {
    /// What is staged once a function is listed no more for members, one after the other.
    pub open spec fn members_dropped(
        self,
        t: TablesView,
        members: Seq<(Address, CodeBlockId)>,
        id: FunctionId,
    ) -> StagingView
        decreases members.len(),
    {
        if members.len() == 0 {
            self
        } else {
            let v = self.members_dropped(t, members.drop_last(), id);
            let block = members.last().1;
            v.with_held(t.holders, block, v.touched(t.holders, block).holders[block].remove(id))
        }
    }

    /// What is staged once a function is listed for members, one after the other. Those that
    /// were to go stay.
    pub open spec fn members_added(
        self,
        t: TablesView,
        members: Seq<(Address, CodeBlockId)>,
        id: FunctionId,
    ) -> StagingView
        decreases members.len(),
    {
        if members.len() == 0 {
            self
        } else {
            let v = self.members_added(t, members.drop_last(), id);
            let block = members.last().1;
            v.with_held(
                t.holders,
                block,
                v.touched(t.holders, block).holders[block].insert(id),
            ).reviving(block)
        }
    }

    /// What is staged once those of some blocks go, one after the other, that no function is
    /// listed for.
    pub open spec fn idle_dropped(self, t: TablesView, ids: Seq<CodeBlockId>) -> StagingView
        decreases ids.len(),
    {
        if ids.len() == 0 {
            self
        } else {
            let v = self.idle_dropped(t, ids.drop_last()).touched(t.holders, ids.last());
            if v.holders[ids.last()] == Set::<FunctionId>::empty() {
                v.without_block(t.blocks, ids.last())
            } else {
                v
            }
        }
    }

    /// What is staged once a function takes the place of a previous one, or of none. The blocks
    /// of both are affected.
    pub open spec fn with_change(
        self,
        t: TablesView,
        function: FunctionView,
        previous: Option<FunctionView>,
        is_new: bool,
        affected: Seq<CodeBlockId>,
    ) -> StagingView {
        let dropped = self.members_dropped(t, blocks_of_option(previous), function.id);
        let added = dropped.members_added(t, function.blocks, function.id);
        let left = if previous is Some {
            added.idle_dropped(t, affected)
        } else {
            added
        };
        StagingView {
            functions: self.functions.insert(
                function.id,
                StagedFunctionView { function: Some(function), is_new },
            ),
            entries: self.entries.insert(function.entry, Some(function.id)),
            ..left
        }
    }

    /// What is staged once a function that will be there is another with the same entry and
    /// blocks, or is no more.
    pub open spec fn with_replacement(
        self,
        t: TablesView,
        id: FunctionId,
        previous: FunctionView,
        function: Option<FunctionView>,
    ) -> StagingView {
        let dropped = self.members_dropped(t, previous.blocks, id);
        let added = dropped.members_added(t, blocks_of_option(function), id);
        let left = added.idle_dropped(t, member_ids(previous.blocks));
        StagingView {
            functions: self.functions.insert(
                id,
                StagedFunctionView { function, is_new: self.is_new_function(id) },
            ),
            entries: self.entries.insert(
                previous.entry,
                if function is Some {
                    Some(id)
                } else {
                    None
                },
            ),
            ..left
        }
    }
}

/// Letting idle blocks go does not depend on the staged functions and entries.
proof fn lemma_idle_dropped(a: StagingView, b: StagingView, t: TablesView, ids: Seq<CodeBlockId>)
    requires
        b == (StagingView { functions: b.functions, entries: b.entries, ..a }),
    ensures
        b.idle_dropped(t, ids) == (StagingView {
            functions: b.functions,
            entries: b.entries,
            ..a.idle_dropped(t, ids)
        }),
    decreases ids.len(),
{
    if ids.len() > 0 {
        lemma_idle_dropped(a, b, t, ids.drop_last());
    }
}

/// Looking up the functions of a block changes nothing that will be.
proof fn lemma_touched(v: StagingView, t: TablesView, block: CodeBlockId)
    requires
        originals_kept(v, t),
        v.is_new_block(block) ==> v.block_ids.contains(block),
    ensures
        originals_kept(v.touched(t.holders, block), t),
        v.touched(t.holders, block).holders.contains_key(block),
        v.touched(t.holders, block).holders[block] == held(v.holders_now(t), block),
        forall|b: CodeBlockId| #[trigger]
            held(v.touched(t.holders, block).holders_now(t), b) == held(v.holders_now(t), b),
{
}

/// Listing a block with other functions changes what is listed for it and nothing else.
proof fn lemma_with_held(v: StagingView, t: TablesView, block: CodeBlockId, set: Set<FunctionId>)
    requires
        originals_kept(v, t),
        v.is_new_block(block) ==> v.block_ids.contains(block),
    ensures
        originals_kept(v.with_held(t.holders, block, set), t),
        forall|b: CodeBlockId| #[trigger]
            held(v.with_held(t.holders, block, set).holders_now(t), b) == (if b == block {
                set
            } else {
                held(v.holders_now(t), b)
            }),
{
    lemma_touched(v, t, block);
    let after = v.with_held(t.holders, block, set);
    let touched = v.touched(t.holders, block);
    assert forall|b: CodeBlockId| #[trigger]
        held(after.holders_now(t), b) == (if b == block {
            set
        } else {
            held(v.holders_now(t), b)
        }) by {
        assert(held(touched.holders_now(t), b) == held(v.holders_now(t), b));
    }
}

impl FunctionTableStaging {
    fn new_block(&self, id: CodeBlockId) -> (is_new: bool)
        requires
            self.parts_wf(),
        ensures
            is_new == self@.is_new_block(id),
    {
        match self.staged_code_blocks.get(&id) {
            Some(record) => record.is_new,
            None => false,
        }
    }

    fn new_function(&self, id: FunctionId) -> (is_new: bool)
        requires
            self.parts_wf(),
        ensures
            is_new == self@.is_new_function(id),
    {
        match self.staged_functions.get(&id) {
            Some(record) => record.is_new,
            None => false,
        }
    }

    /// Looks up the functions of a block, for a change.
    fn by_block_mut(&mut self, functions: &FunctionTable, block: CodeBlockId)
        requires
            old(self).parts_wf(),
            old(self)@.is_new_block(block) ==> !functions.holders().contains_key(block),
        ensures
            final(self).parts_wf(),
            final(self)@ == old(self)@.touched(functions.holders(), block),
    {
        let ghost before = self@;
        if self.by_block.contains(block) {
            return;
        }
        if self.new_block(block) {
            self.by_block.set(block, IdSet::new());
        } else {
            let current: IdSet<FunctionEntity> = functions.get_by_block_id(block);
            self.original_by_block.set(block, current.clone());
            self.by_block.set(block, current);
        }
        assert(self@ =~= before.touched(functions.holders(), block));
    }

    /// Lists a function for a block.
    fn add_holder(&mut self, functions: &FunctionTable, block: CodeBlockId, id: FunctionId)
        requires
            old(self).parts_wf(),
            old(self)@.is_new_block(block) ==> !functions.holders().contains_key(block),
        ensures
            final(self).parts_wf(),
            final(self)@ == old(self)@.with_held(
                functions.holders(),
                block,
                old(self)@.touched(functions.holders(), block).holders[block].insert(id),
            ),
    {
        let ghost before = self@;
        self.by_block_mut(functions, block);
        let ghost touched = self@;
        self.by_block.add_holder(block, id);
        assert(self@ =~= before.with_held(
            functions.holders(),
            block,
            touched.holders[block].insert(id),
        ));
    }

    /// Lists a function for a block no more.
    fn drop_holder(&mut self, functions: &FunctionTable, block: CodeBlockId, id: FunctionId)
        requires
            old(self).parts_wf(),
            old(self)@.is_new_block(block) ==> !functions.holders().contains_key(block),
        ensures
            final(self).parts_wf(),
            final(self)@ == old(self)@.with_held(
                functions.holders(),
                block,
                old(self)@.touched(functions.holders(), block).holders[block].remove(id),
            ),
    {
        let ghost before = self@;
        self.by_block_mut(functions, block);
        let ghost touched = self@;
        match self.by_block.remove(block) {
            Some(mut set) => {
                set.remove(id);
                self.by_block.set(block, set);
            },
            None => {},
        }
        assert(self@ =~= before.with_held(
            functions.holders(),
            block,
            touched.holders[block].remove(id),
        ));
    }

    /// Whether no function is listed for a block.
    fn is_unheld(&mut self, functions: &FunctionTable, block: CodeBlockId) -> (unheld: bool)
        requires
            old(self).parts_wf(),
            old(self)@.is_new_block(block) ==> !functions.holders().contains_key(block),
        ensures
            final(self).parts_wf(),
            final(self)@ == old(self)@.touched(functions.holders(), block),
            unheld == (final(self)@.holders[block] == Set::<FunctionId>::empty()),
    {
        self.by_block_mut(functions, block);
        match self.by_block.get(block) {
            Some(set) => set.is_empty(),
            None => true,
        }
    }

    /// Whether a block of the table is to go.
    fn is_going(&self, id: CodeBlockId) -> (going: bool)
        requires
            self.parts_wf(),
        ensures
            going == (self@.blocks.contains_key(id) && self@.blocks[id].block is None),
    {
        match self.staged_code_blocks.get(&id) {
            Some(record) => record.block.is_none(),
            None => false,
        }
    }

    /// Stages nothing for a block any more.
    fn unstage_block(&mut self, id: CodeBlockId) -> (record: Option<StagedCodeBlockRecord>)
        requires
            old(self).parts_wf(),
        ensures
            final(self).parts_wf(),
            final(self)@ == (StagingView { blocks: old(self)@.blocks.remove(id), ..old(self)@ }),
            record is Some == old(self)@.blocks.contains_key(id),
            record matches Some(r) ==> r@ == old(self)@.blocks[id],
    {
        let ghost before = self@;
        let record: Option<StagedCodeBlockRecord> = self.staged_code_blocks.remove(&id);
        assert(self@ =~= (StagingView { blocks: before.blocks.remove(id), ..before }));
        record
    }

    /// Stages something for a block.
    fn stage_block(&mut self, id: CodeBlockId, record: StagedCodeBlockRecord)
        requires
            old(self).parts_wf(),
        ensures
            final(self).parts_wf(),
            final(self)@ == (StagingView {
                blocks: old(self)@.blocks.insert(id, record@),
                ..old(self)@
            }),
    {
        let ghost before = self@;
        self.staged_code_blocks.insert(id, record);
        assert(self@ =~= (StagingView { blocks: before.blocks.insert(id, record@), ..before }));
    }

    /// Stages something for a function.
    fn stage_record(&mut self, id: FunctionId, record: StagedFunctionRecord)
        requires
            old(self).parts_wf(),
        ensures
            final(self).parts_wf(),
            final(self)@ == (StagingView {
                functions: old(self)@.functions.insert(id, record@),
                ..old(self)@
            }),
    {
        let ghost before = self@;
        self.staged_functions.insert(id, record);
        assert(self@ =~= (StagingView { functions: before.functions.insert(id, record@), ..before }));
    }

    /// Lets an entry lead to a function or to none.
    fn stage_entry(&mut self, entry: Address, id: Option<FunctionId>)
        requires
            old(self).parts_wf(),
        ensures
            final(self).parts_wf(),
            final(self)@ == (StagingView {
                entries: old(self)@.entries.insert(entry, id),
                ..old(self)@
            }),
    {
        let ghost before = self@;
        map_insert(&mut self.function_addresses, address_key(entry), id);
        proof {
            assert forall|a: Address| a.rank() as u128 == entry.rank() as u128 implies a
                == entry by {
                assert(0 <= a.rank() < addresses());
                assert(0 <= entry.rank() < addresses());
                Address::lemma_rank_injective(a, entry);
            }
            assert(self@ =~= (StagingView { entries: before.entries.insert(entry, id), ..before }));
        }
    }

    /// What was staged about an entry.
    fn staged_entry(&self, entry: Address) -> (found: Option<Option<FunctionId>>)
        requires
            self.parts_wf(),
        ensures
            found is Some == self@.entries.contains_key(entry),
            found matches Some(id) ==> id == self@.entries[entry],
    {
        match map_get(&self.function_addresses, address_key(entry)) {
            Some(id) => Some(*id),
            None => None,
        }
    }
}

/// What is known of locations once a block is no more at an address.
pub open spec fn unlocated(
    locations: Map<Address, Seq<CodeBlockId>>,
    address: Address,
    id: CodeBlockId,
) -> Map<Address, Seq<CodeBlockId>> {
    if !locations.contains_key(address) {
        locations
    } else if taken_out(locations[address], id).len() == 0 {
        locations.remove(address)
    } else {
        locations.insert(address, taken_out(locations[address], id))
    }
}

/// What a selection keeps is what was there and is wanted, and nothing is kept twice that was
/// not there twice.
proof fn lemma_selected<T>(ids: Seq<T>, keep: spec_fn(T) -> bool)
    ensures
        forall|id: T| #[trigger] ids.filter(keep).contains(id) <==> ids.contains(id) && keep(id),
        ids.no_duplicates() ==> ids.filter(keep).no_duplicates(),
    decreases ids.len(),
{
    reveal(Seq::filter);
    if ids.len() > 0 {
        let rest = ids.drop_last();
        lemma_selected(rest, keep);
        assert(ids =~= rest.push(ids.last()));
        assert forall|id: T| #[trigger]
            ids.filter(keep).contains(id) <==> ids.contains(id) && keep(id) by {
            lemma_push_contains(rest, ids.last(), id);
            lemma_push_contains(rest.filter(keep), ids.last(), id);
        }
        if ids.no_duplicates() {
            assert(rest.no_duplicates());
            assert(!rest.contains(ids.last())) by {
                if rest.contains(ids.last()) {
                    let i = rest.index_of(ids.last());
                    assert(ids[i] == ids[ids.len() - 1]);
                }
            }
            assert(!rest.filter(keep).contains(ids.last()));
        }
    }
}

/// Taking an identity out of a list without repetitions leaves the others.
proof fn lemma_taken_out<T>(ids: Seq<Id<T>>, id: Id<T>)
    requires
        ids.no_duplicates(),
    ensures
        taken_out(ids, id).no_duplicates(),
        forall|other: Id<T>| #[trigger]
            taken_out(ids, id).contains(other) <==> ids.contains(other) && other != id,
{
    if ids.len() == 0 {
    } else if ids.first() == id {
        let rest = ids.drop_first();
        assert forall|other: Id<T>| #[trigger]
            rest.contains(other) <==> ids.contains(other) && other != id by {
            if rest.contains(other) {
                let i = rest.index_of(other);
                assert(ids[i + 1] == other);
                assert(ids[0] != ids[i + 1]);
            }
            if ids.contains(other) && other != id {
                let i = ids.index_of(other);
                assert(rest[i - 1] == other);
            }
        }
    } else {
        let rest = ids.drop_first();
        let left = rest.filter(differs(id));
        let after = seq![ids.first()] + left;
        assert forall|i: int, j: int| 0 <= i < rest.len() && 0 <= j < rest.len() && i
            != j implies rest[i] != rest[j] by {
            assert(ids[i + 1] != ids[j + 1]);
        }
        lemma_selected(rest, differs(id));
        assert forall|other: Id<T>| #[trigger]
            after.contains(other) <==> ids.contains(other) && other != id by {
            if after.contains(other) {
                let i = after.index_of(other);
                if i == 0 {
                    assert(ids[0] == other);
                } else {
                    assert(left[i - 1] == other);
                    assert(left.contains(other));
                    let k = rest.index_of(other);
                    assert(ids[k + 1] == other);
                }
            }
            if ids.contains(other) && other != id {
                let i = ids.index_of(other);
                if i == 0 {
                    assert(after[0] == other);
                } else {
                    assert(rest[i - 1] == other);
                    assert(left.contains(other));
                    let k = left.index_of(other);
                    assert(after[k + 1] == other);
                }
            }
        }
        assert forall|i: int, j: int| 0 <= i < after.len() && 0 <= j < after.len() && i
            != j implies after[i] != after[j] by {
            if i == 0 || j == 0 {
                let k = if i == 0 {
                    j
                } else {
                    i
                };
                assert(left.contains(left[k - 1]));
                let m = rest.index_of(left[k - 1]);
                assert(rest[m] == ids[m + 1]);
                assert(ids[0] != ids[m + 1]);
            } else {
                assert(left[i - 1] != left[j - 1]);
            }
        }
    }
}

impl StagingView {
    /// What is staged once a block is to go.
    pub open spec fn without_block(self, blocks: Map<CodeBlockId, CodeBlockView>, id: CodeBlockId) -> StagingView {
        if self.is_new_block(id) {
            StagingView {
                blocks: self.blocks.remove(id),
                locations: match self.blocks[id].block {
                    Some(block) => unlocated(self.locations, block.start, id),
                    None => self.locations,
                },
                cancelled_blocks: self.cancelled_blocks.insert(id),
                ..self
            }
        } else if blocks.contains_key(id) {
            StagingView {
                blocks: self.blocks.insert(id, StagedBlockView { block: None, is_new: false }),
                ..self
            }
        } else {
            self
        }
    }
}

/// Letting a block go that no function is listed for takes it out of what will be, and leaves
/// everything else.
proof fn lemma_without_block(v: StagingView, t: TablesView, id: CodeBlockId)
    requires
        blocks_staged(v, t),
        blocks_located(v, t),
        t.block_ids.wf(),
        forall|b: CodeBlockId| #[trigger]
            t.blocks.contains_key(b) ==> t.block_ids.in_use(b.id as int),
        held(v.holders_now(t), id) == Set::<FunctionId>::empty(),
    ensures
        blocks_staged(v.without_block(t.blocks, id), t),
        blocks_located(v.without_block(t.blocks, id), t),
        v.without_block(t.blocks, id).blocks_now(t) == v.blocks_now(t).remove(id),
        v.without_block(t.blocks, id) == (StagingView {
            blocks: v.without_block(t.blocks, id).blocks,
            locations: v.without_block(t.blocks, id).locations,
            cancelled_blocks: v.without_block(t.blocks, id).cancelled_blocks,
            ..v
        }),
        forall|b: CodeBlockId| #[trigger]
            v.without_block(t.blocks, id).blocks_known(t).contains_key(b) <==> v.blocks_known(
                t,
            ).contains_key(b) && !(b == id && v.is_new_block(id)),
{
    let after = v.without_block(t.blocks, id);
    assert(after.holders_now(t) == v.holders_now(t));
    if v.is_new_block(id) {
        lemma_next_ids(v.block_ids, t.block_ids);
        let block = v.blocks[id].block->0;
        let i = v.block_ids.index_of(id);
        assert(v.block_ids[i] == id);
        assert(!t.blocks.contains_key(id));
        lemma_taken_out(v.locations[block.start], id);
        assert(after.blocks_now(t) =~= v.blocks_now(t).remove(id));
        assert forall|a: Address, k: int|
            after.locations.contains_key(a) && 0 <= k < after.locations[a].len() implies after.blocks_known(
            t,
        ).contains_key(#[trigger] after.locations[a][k]) && after.blocks_known(
            t,
        )[after.locations[a][k]].start == a by {
            let other = after.locations[a][k];
            assert(after.locations[a].contains(other));
            assert(v.locations.contains_key(a));
            assert(v.locations[a].contains(other)) by {
                if a == block.start {
                    assert(taken_out(v.locations[a], id).contains(other));
                }
            }
            let m = v.locations[a].index_of(other);
            assert(v.locations[a][m] == other);
            if other == id {
                assert(v.blocks_known(t)[id].start == block.start);
                assert(taken_out(v.locations[a], id).contains(other));
            }
        }
        assert forall|other: CodeBlockId| #[trigger]
            after.blocks.contains_key(other) && after.blocks[other].block is Some implies {
            let start = after.blocks[other].block->0.start;
            after.locations.contains_key(start) && after.locations[start].contains(other)
        } by {
            let start = after.blocks[other].block->0.start;
            assert(v.blocks.contains_key(other));
            assert(v.locations[start].contains(other));
            if start == block.start {
                assert(taken_out(v.locations[start], id).contains(other));
            }
        }
    } else {
        assert(after.blocks_now(t) =~= v.blocks_now(t).remove(id));
    }
}

/// Whether an address lies in one of the members that are among the blocks.
pub open spec fn covered(
    blocks: Map<CodeBlockId, CodeBlockView>,
    members: Seq<(Address, CodeBlockId)>,
    address: Address,
) -> bool {
    exists|i: int|
        0 <= i < members.len() && blocks.contains_key((#[trigger] members[i]).1)
            && blocks[members[i].1].range().holds(address)
}

/// An address that lies in members lies in the last or in those before it.
proof fn lemma_covered_step(
    blocks: Map<CodeBlockId, CodeBlockView>,
    members: Seq<(Address, CodeBlockId)>,
    n: int,
    address: Address,
)
    requires
        0 <= n < members.len(),
    ensures
        covered(blocks, members.take(n + 1), address) <==> covered(
            blocks,
            members.take(n),
            address,
        ) || (blocks.contains_key(members[n].1) && blocks[members[n].1].range().holds(address)),
{
    let (less, more) = (members.take(n), members.take(n + 1));
    if covered(blocks, more, address) {
        let i = choose|i: int|
            0 <= i < more.len() && blocks.contains_key((#[trigger] more[i]).1)
                && blocks[more[i].1].range().holds(address);
        if i < n {
            assert(less[i] == more[i]);
        }
    }
    if covered(blocks, less, address) {
        let i = choose|i: int|
            0 <= i < less.len() && blocks.contains_key((#[trigger] less[i]).1)
                && blocks[less[i].1].range().holds(address);
        assert(more[i] == less[i]);
    }
    assert(more[n] == members[n]);
}

impl FunctionTableStaging {
    /// The function with an identity, as it will be.
    pub fn function_by_id(&self, functions: &FunctionTable, id: FunctionId) -> (function: Option<
        Function,
    >)
        requires
            self.parts_wf(),
            functions.sound(),
        ensures
            forall|t: TablesView|
                #![trigger self@.functions_now(t)]
                t.functions == functions@ ==> function is Some == self@.functions_now(
                    t,
                ).contains_key(id) && (function matches Some(f) ==> f@ == self@.functions_now(
                    t,
                )[id]),
    {
        match self.staged_functions.get(&id) {
            Some(record) => match &record.function {
                Some(function) => Some(function.clone()),
                None => None,
            },
            None => match functions.get_by_id(id) {
                Some(function) => Some(function.clone()),
                None => None,
            },
        }
    }

    /// The function with an entry, as it will be.
    pub fn function_by_address(
        &self,
        functions: &FunctionTable,
        blocks: &CodeBlockTable,
        entry: Address,
    ) -> (function: Option<Function>)
        requires
            self.wf(functions, blocks),
        ensures
            ({
                let t = tables(functions, blocks);
                &&& function is Some == self@.index_now(t).contains_key(entry)
                &&& function matches Some(f) ==> f@ == self@.functions_now(t)[self@.index_now(
                    t,
                )[entry]] && f.id == self@.index_now(t)[entry] && f.entry == entry && f@.wf()
            }),
    {
        let ghost t = tables(functions, blocks);
        proof {
            functions.lemma_sound();
            if self@.index_now(t).contains_key(entry) {
                let id = self@.index_now(t)[entry];
                assert(self@.functions_now(t).contains_key(id));
            }
        }
        match self.staged_entry(entry) {
            Some(Some(id)) => self.function_by_id(functions, id),
            Some(None) => None,
            None => {
                match functions.get_by_address(entry) {
                    Some(function) => self.function_by_id(functions, function.id()),
                    None => {
                        assert(!functions.index().contains_key(entry));
                        None
                    },
                }
            },
        }
    }

    /// Where the function with an identity comes from, as it will be.
    pub fn function_origin(&self, functions: &FunctionTable, id: FunctionId) -> (origin: Option<
        ReferenceOrigin,
    >)
        requires
            self.parts_wf(),
            functions.sound(),
        ensures
            forall|t: TablesView|
                #![trigger self@.functions_now(t)]
                t.functions == functions@ ==> origin is Some == self@.functions_now(
                    t,
                ).contains_key(id) && (origin matches Some(o) ==> o == self@.functions_now(
                    t,
                )[id].origin),
    {
        match self.staged_functions.get(&id) {
            Some(record) => match &record.function {
                Some(function) => Some(function.origin()),
                None => None,
            },
            None => match functions.get_by_id(id) {
                Some(function) => Some(function.origin()),
                None => None,
            },
        }
    }

    /// The block with an identity, as it will be.
    pub fn block_now<'a>(&'a self, blocks: &'a CodeBlockTable, id: CodeBlockId) -> (block: Option<
        &'a CodeBlock,
    >)
        requires
            self.parts_wf(),
            blocks.wf(),
        ensures
            forall|t: TablesView|
                #![trigger self@.blocks_now(t)]
                t.blocks == blocks@ ==> block is Some == self@.blocks_now(t).contains_key(id) && (
                block matches Some(b) ==> b@ == self@.blocks_now(t)[id]),
    {
        match self.staged_code_blocks.get(&id) {
            Some(record) => match &record.block {
                Some(block) => Some(block),
                None => None,
            },
            None => blocks.get_by_id(id),
        }
    }

    /// Lets a block go.
    fn stage_block_removal(&mut self, blocks: &CodeBlockTable, id: CodeBlockId)
        requires
            old(self).parts_wf(),
            blocks.wf(),
        ensures
            final(self).parts_wf(),
            final(self)@ == old(self)@.without_block(blocks@, id),
    {
        let ghost before = self@;
        if self.new_block(id) {
            match self.unstage_block(id) {
                Some(record) => match record.block {
                    Some(block) => {
                        self.block_locations.remove(block.address(), id);
                    },
                    None => {},
                },
                None => {},
            }
            self.cancelled_blocks.insert(id);
            assert(self@ =~= before.without_block(blocks@, id));
            return;
        }
        if blocks.get_by_id(id).is_some() {
            self.stage_block(id, StagedCodeBlockRecord { block: None, is_new: false });
        }
        assert(self@ =~= before.without_block(blocks@, id));
    }

    /// The addresses of the members that will be there.
    pub fn coverage(
        &self,
        functions: &FunctionTable,
        blocks: &CodeBlockTable,
        members: &[(Address, CodeBlockId)],
    ) -> (coverage: AddressRangeSet)
        requires
            self.wf(functions, blocks),
        ensures
            coverage.wf(),
            forall|a: Address| #[trigger]
                coverage@.contains(a) <==> covered(
                    self@.blocks_now(tables(functions, blocks)),
                    members@,
                    a,
                ),
    {
        let ghost now = self@.blocks_now(tables(functions, blocks));
        let mut coverage: AddressRangeSet = AddressRangeSet::new();
        let mut i: usize = 0;
        while i < members.len()
            invariant
                i <= members@.len(),
                self.wf(functions, blocks),
                now == self@.blocks_now(tables(functions, blocks)),
                coverage.wf(),
                forall|a: Address| #[trigger]
                    coverage@.contains(a) <==> covered(now, members@.take(i as int), a),
            decreases members@.len() - i,
        {
            let ghost earlier = coverage@;
            match self.block_now(blocks, members[i].1) {
                Some(block) => {
                    proof {
                        blocks.lemma_wf();
                    }
                    block.coverage_into(&mut coverage);
                },
                None => {},
            }
            proof {
                assert forall|a: Address| #[trigger]
                    coverage@.contains(a) <==> covered(now, members@.take(i + 1), a) by {
                    lemma_covered_step(now, members@, i as int, a);
                    assert(earlier.contains(a) <==> covered(now, members@.take(i as int), a));
                }
            }
            i = i + 1;
        }
        assert(members@.take(i as int) =~= members@);
        coverage
    }
}

/// Whether two states differ in what is listed for blocks only.
pub open spec fn same_but_holders(a: StagingView, b: StagingView) -> bool {
    b == (StagingView { holders: b.holders, original_holders: b.original_holders, ..a })
}

/// A new block is one that no function of the table is listed for.
proof fn lemma_unclaimed(v: StagingView, t: TablesView, block: CodeBlockId)
    requires
        blocks_staged(v, t),
        none_claimed(t.holders, t.block_ids),
    ensures
        v.is_new_block(block) ==> !t.holders.contains_key(block) && v.block_ids.contains(block),
{
    if v.is_new_block(block) {
        let i = v.block_ids.index_of(block);
        assert(v.block_ids[i] == block);
        assert(t.block_ids.pending(i) == block);
    }
}

/// What is staged fits blocks as long as nothing is listed for those that are to go.
proof fn lemma_holders_changed(v: StagingView, after: StagingView, t: TablesView)
    requires
        blocks_staged(v, t),
        blocks_located(v, t),
        same_but_holders(v, after),
        forall|b: CodeBlockId|
            v.blocks.contains_key(b) && v.blocks[b].block is None && held(v.holders_now(t), b)
                == Set::<FunctionId>::empty() ==> #[trigger] held(after.holders_now(t), b)
                == Set::<FunctionId>::empty(),
    ensures
        blocks_staged(after, t),
        blocks_located(after, t),
        after.blocks_now(t) == v.blocks_now(t),
        after.blocks_known(t) == v.blocks_known(t),
        after.functions_now(t) == v.functions_now(t),
        after.index_now(t) == v.index_now(t),
{
    assert(after.blocks_now(t) =~= v.blocks_now(t));
    assert(after.blocks_known(t) =~= v.blocks_known(t));
    assert(after.functions_now(t) =~= v.functions_now(t));
    assert(after.index_now(t) =~= v.index_now(t));
}

/// The members are the last of those counted and those before it.
proof fn lemma_member_step(members: Seq<(Address, CodeBlockId)>, n: int, block: CodeBlockId)
    requires
        0 <= n < members.len(),
    ensures
        lists_block(members.take(n + 1), block) <==> lists_block(members.take(n), block)
            || members[n].1 == block,
{
    let (less, more) = (members.take(n), members.take(n + 1));
    if lists_block(more, block) {
        let i = choose|i: int| 0 <= i < more.len() && (#[trigger] more[i]).1 == block;
        if i < n {
            assert(less[i].1 == block);
        }
    }
    if lists_block(less, block) {
        let i = choose|i: int| 0 <= i < less.len() && (#[trigger] less[i]).1 == block;
        assert(more[i].1 == block);
    }
    if members[n].1 == block {
        assert(more[n].1 == block);
    }
}

/// What is staged for blocks once those that have a function again are no more to go.
pub open spec fn revived(
    blocks: Map<CodeBlockId, StagedBlockView>,
    members: Seq<(Address, CodeBlockId)>,
) -> Map<CodeBlockId, StagedBlockView> {
    Map::new(
        |b: CodeBlockId|
            blocks.contains_key(b) && !(blocks[b].block is None && lists_block(members, b)),
        |b: CodeBlockId| blocks[b],
    )
}

impl FunctionTableStaging {
    /// Lists a function no more for its members.
    fn drop_members(
        &mut self,
        functions: &FunctionTable,
        blocks: &CodeBlockTable,
        members: &[(Address, CodeBlockId)],
        id: FunctionId,
    )
        requires
            old(self).parts_wf(),
            stageable(functions, blocks),
            blocks_staged(old(self)@, tables(functions, blocks)),
            blocks_located(old(self)@, tables(functions, blocks)),
            originals_kept(old(self)@, tables(functions, blocks)),
        ensures
            final(self).parts_wf(),
            same_but_holders(old(self)@, final(self)@),
            blocks_staged(final(self)@, tables(functions, blocks)),
            blocks_located(final(self)@, tables(functions, blocks)),
            originals_kept(final(self)@, tables(functions, blocks)),
            forall|b: CodeBlockId, f: FunctionId| #[trigger]
                held(final(self)@.holders_now(tables(functions, blocks)), b).contains(f) <==> held(
                    old(self)@.holders_now(tables(functions, blocks)),
                    b,
                ).contains(f) && !(f == id && lists_block(members@, b)),
            final(self)@ == old(self)@.members_dropped(tables(functions, blocks), members@, id),
    {
        let ghost t = tables(functions, blocks);
        let ghost before = self@;
        let mut i: usize = 0;
        while i < members.len()
            invariant
                i <= members@.len(),
                t == tables(functions, blocks),
                self@ == before.members_dropped(t, members@.take(i as int), id),
                self.parts_wf(),
                stageable(functions, blocks),
                same_but_holders(before, self@),
                blocks_staged(self@, t),
                blocks_located(self@, t),
                originals_kept(self@, t),
                forall|b: CodeBlockId, f: FunctionId| #[trigger]
                    held(self@.holders_now(t), b).contains(f) <==> held(
                        before.holders_now(t),
                        b,
                    ).contains(f) && !(f == id && lists_block(members@.take(i as int), b)),
            decreases members@.len() - i,
        {
            let ghost v = self@;
            let block: CodeBlockId = members[i].1;
            proof {
                lemma_unclaimed(v, t, block);
                lemma_touched(v, t, block);
                lemma_with_held(
                    v,
                    t,
                    block,
                    v.touched(t.holders, block).holders[block].remove(id),
                );
            }
            self.drop_holder(functions, block, id);
            proof {
                let after = self@;
                assert(members@.take(i + 1).drop_last() =~= members@.take(i as int));
                assert(members@.take(i + 1).last() == members@[i as int]);
                assert forall|b: CodeBlockId|
                    v.blocks.contains_key(b) && v.blocks[b].block is None && held(
                        v.holders_now(t),
                        b,
                    ) == Set::<FunctionId>::empty() implies #[trigger] held(
                    after.holders_now(t),
                    b,
                ) == Set::<FunctionId>::empty() by {
                    if b == block {
                        assert(held(after.holders_now(t), b) =~= Set::<FunctionId>::empty());
                    }
                }
                lemma_holders_changed(v, after, t);
                assert forall|b: CodeBlockId, f: FunctionId| #[trigger]
                    held(after.holders_now(t), b).contains(f) <==> held(
                        before.holders_now(t),
                        b,
                    ).contains(f) && !(f == id && lists_block(members@.take(i + 1), b)) by {
                    lemma_member_step(members@, i as int, b);
                    assert(held(v.holders_now(t), b).contains(f) <==> held(
                        before.holders_now(t),
                        b,
                    ).contains(f) && !(f == id && lists_block(members@.take(i as int), b)));
                }
            }
            i = i + 1;
        }
        assert(members@.take(i as int) =~= members@);
    }

    /// Lists a function for its members. Those that were to go stay.
    fn add_members(
        &mut self,
        functions: &FunctionTable,
        blocks: &CodeBlockTable,
        members: &[(Address, CodeBlockId)],
        id: FunctionId,
    )
        requires
            old(self).parts_wf(),
            stageable(functions, blocks),
            blocks_staged(old(self)@, tables(functions, blocks)),
            blocks_located(old(self)@, tables(functions, blocks)),
            originals_kept(old(self)@, tables(functions, blocks)),
        ensures
            final(self).parts_wf(),
            final(self)@ == (StagingView {
                holders: final(self)@.holders,
                original_holders: final(self)@.original_holders,
                blocks: revived(old(self)@.blocks, members@),
                ..old(self)@
            }),
            blocks_staged(final(self)@, tables(functions, blocks)),
            blocks_located(final(self)@, tables(functions, blocks)),
            originals_kept(final(self)@, tables(functions, blocks)),
            forall|b: CodeBlockId, f: FunctionId| #[trigger]
                held(final(self)@.holders_now(tables(functions, blocks)), b).contains(f) <==> held(
                    old(self)@.holders_now(tables(functions, blocks)),
                    b,
                ).contains(f) || (f == id && lists_block(members@, b)),
            final(self)@ == old(self)@.members_added(tables(functions, blocks), members@, id),
    {
        let ghost t = tables(functions, blocks);
        let ghost before = self@;
        let mut i: usize = 0;
        assert(revived(before.blocks, members@.take(0)) =~= before.blocks);
        while i < members.len()
            invariant
                i <= members@.len(),
                t == tables(functions, blocks),
                self@ == before.members_added(t, members@.take(i as int), id),
                self.parts_wf(),
                stageable(functions, blocks),
                self@ == (StagingView {
                    holders: self@.holders,
                    original_holders: self@.original_holders,
                    blocks: revived(before.blocks, members@.take(i as int)),
                    ..before
                }),
                blocks_staged(self@, t),
                blocks_located(self@, t),
                originals_kept(self@, t),
                forall|b: CodeBlockId, f: FunctionId| #[trigger]
                    held(self@.holders_now(t), b).contains(f) <==> held(
                        before.holders_now(t),
                        b,
                    ).contains(f) || (f == id && lists_block(members@.take(i as int), b)),
            decreases members@.len() - i,
        {
            let ghost v = self@;
            let block: CodeBlockId = members[i].1;
            proof {
                lemma_unclaimed(v, t, block);
                lemma_touched(v, t, block);
                lemma_with_held(
                    v,
                    t,
                    block,
                    v.touched(t.holders, block).holders[block].insert(id),
                );
            }
            self.add_holder(functions, block, id);
            let ghost middle = self@;
            if self.is_going(block) {
                self.unstage_block(block);
            }
            proof {
                let after = self@;
                assert(members@.take(i + 1).drop_last() =~= members@.take(i as int));
                assert(members@.take(i + 1).last() == members@[i as int]);
                assert(after.holders_now(t) == middle.holders_now(t));
                assert forall|b: CodeBlockId, f: FunctionId| #[trigger]
                    held(after.holders_now(t), b).contains(f) <==> held(
                        before.holders_now(t),
                        b,
                    ).contains(f) || (f == id && lists_block(members@.take(i + 1), b)) by {
                    lemma_member_step(members@, i as int, b);
                    assert(held(v.holders_now(t), b).contains(f) <==> held(
                        before.holders_now(t),
                        b,
                    ).contains(f) || (f == id && lists_block(members@.take(i as int), b)));
                }
                assert(after.blocks =~= revived(before.blocks, members@.take(i + 1))) by {
                    assert forall|b: CodeBlockId| #[trigger]
                        after.blocks.contains_key(b) <==> revived(
                            before.blocks,
                            members@.take(i + 1),
                        ).contains_key(b) by {
                        lemma_member_step(members@, i as int, b);
                    }
                }
                assert forall|b: CodeBlockId| #[trigger] after.blocks.contains_key(b) implies v.blocks.contains_key(
                    b,
                ) && after.blocks[b] == v.blocks[b] && (b == block ==> after.blocks[b].block is Some) by {}
                assert forall|b: CodeBlockId| #[trigger] after.blocks_known(t).contains_key(b)
                    <==> v.blocks_known(t).contains_key(b) by {}
                assert(after.blocks_known(t) =~= v.blocks_known(t));
            }
            i = i + 1;
        }
        assert(members@.take(i as int) =~= members@);
    }

    /// Lets those of some blocks go that no function is listed for.
    fn drop_idle(
        &mut self,
        functions: &FunctionTable,
        blocks: &CodeBlockTable,
        ids: &Vec<CodeBlockId>,
    )
        requires
            old(self).parts_wf(),
            stageable(functions, blocks),
            blocks_staged(old(self)@, tables(functions, blocks)),
            blocks_located(old(self)@, tables(functions, blocks)),
            originals_kept(old(self)@, tables(functions, blocks)),
        ensures
            final(self).parts_wf(),
            final(self)@ == (StagingView {
                holders: final(self)@.holders,
                original_holders: final(self)@.original_holders,
                blocks: final(self)@.blocks,
                locations: final(self)@.locations,
                cancelled_blocks: final(self)@.cancelled_blocks,
                ..old(self)@
            }),
            blocks_staged(final(self)@, tables(functions, blocks)),
            blocks_located(final(self)@, tables(functions, blocks)),
            originals_kept(final(self)@, tables(functions, blocks)),
            forall|b: CodeBlockId| #[trigger]
                held(final(self)@.holders_now(tables(functions, blocks)), b) == held(
                    old(self)@.holders_now(tables(functions, blocks)),
                    b,
                ),
            final(self)@.blocks_now(tables(functions, blocks)) == without_idle(
                old(self)@.blocks_now(tables(functions, blocks)),
                old(self)@.holders_now(tables(functions, blocks)),
                ids@,
            ),
            final(self)@ == old(self)@.idle_dropped(tables(functions, blocks), ids@),
    {
        let ghost t = tables(functions, blocks);
        let ghost before = self@;
        let mut i: usize = 0;
        assert(without_idle(before.blocks_now(t), before.holders_now(t), ids@.take(0))
            =~= before.blocks_now(t));
        while i < ids.len()
            invariant
                i <= ids@.len(),
                t == tables(functions, blocks),
                self@ == before.idle_dropped(t, ids@.take(i as int)),
                self.parts_wf(),
                stageable(functions, blocks),
                self@ == (StagingView {
                    holders: self@.holders,
                    original_holders: self@.original_holders,
                    blocks: self@.blocks,
                    locations: self@.locations,
                    cancelled_blocks: self@.cancelled_blocks,
                    ..before
                }),
                blocks_staged(self@, t),
                blocks_located(self@, t),
                originals_kept(self@, t),
                forall|b: CodeBlockId| #[trigger]
                    held(self@.holders_now(t), b) == held(before.holders_now(t), b),
                self@.blocks_now(t) == without_idle(
                    before.blocks_now(t),
                    before.holders_now(t),
                    ids@.take(i as int),
                ),
            decreases ids@.len() - i,
        {
            let ghost v = self@;
            let block: CodeBlockId = ids[i];
            proof {
                lemma_unclaimed(v, t, block);
                lemma_touched(v, t, block);
                lemma_holders_changed(v, v.touched(t.holders, block), t);
            }
            let unheld: bool = self.is_unheld(functions, block);
            let ghost middle = self@;
            if unheld {
                proof {
                    blocks.lemma_wf();
                    lemma_without_block(middle, t, block);
                }
                self.stage_block_removal(blocks, block);
            }
            proof {
                let after = self@;
                let less = ids@.take(i as int);
                let more = ids@.take(i + 1);
                assert(more =~= less.push(block));
                assert(more.drop_last() =~= less);
                assert(more.last() == block);
                assert(after.holders_now(t) == middle.holders_now(t));
                assert(held(middle.holders_now(t), block) == held(before.holders_now(t), block));
                assert(after.blocks_now(t) =~= without_idle(
                    before.blocks_now(t),
                    before.holders_now(t),
                    more,
                )) by {
                    assert forall|b: CodeBlockId| #[trigger]
                        after.blocks_now(t).contains_key(b) <==> without_idle(
                            before.blocks_now(t),
                            before.holders_now(t),
                            more,
                        ).contains_key(b) by {
                        lemma_push_contains(less, block, b);
                    }
                }
            }
            i = i + 1;
        }
        assert(ids@.take(i as int) =~= ids@);
    }
}

/// The blocks that are left when those of some go that no function is listed for.
pub open spec fn without_idle(
    blocks: Map<CodeBlockId, CodeBlockView>,
    holders: Map<CodeBlockId, Set<FunctionId>>,
    ids: Seq<CodeBlockId>,
) -> Map<CodeBlockId, CodeBlockView> {
    Map::new(
        |b: CodeBlockId|
            blocks.contains_key(b) && !(ids.contains(b) && held(holders, b) == Set::<
                FunctionId,
            >::empty()),
        |b: CodeBlockId| blocks[b],
    )
}

/// What changed with a function.
pub struct StagedFunctionChangeRecord {
    pub affected_blocks: Vec<CodeBlockId>,
    pub call_targets: SortedSet<Address>,
    pub coverage: AddressRangeSet,
    pub id: FunctionId,
    pub previous_coverage: AddressRangeSet,
    pub references: Vec<Reference>,
    pub replaces_existing: bool,
}

/// What went with a function.
pub struct StagedFunctionRemovalRecord {
    pub coverage: AddressRangeSet,
    pub function: Function,
}

impl StagedFunctionRemovalRecord {
    pub fn take_coverage(&mut self) -> (coverage: AddressRangeSet)
        ensures
            coverage == old(self).coverage,
            final(self).coverage.wf(),
            final(self).coverage@ == Set::<Address>::empty(),
            final(self).function == old(self).function,
    {
        let mut coverage: AddressRangeSet = AddressRangeSet::new();
        core::mem::swap(&mut coverage, &mut self.coverage);
        coverage
    }

    pub fn into_function(self) -> (function: Function)
        ensures
            function == self.function,
    {
        self.function
    }
}

impl StagedFunctionChangeRecord {
    pub fn id(&self) -> (id: FunctionId)
        ensures
            id == self.id,
    {
        self.id
    }

    pub fn replaces_existing(&self) -> (r: bool)
        ensures
            r == self.replaces_existing,
    {
        self.replaces_existing
    }

    pub fn take_call_targets(&mut self) -> (targets: SortedSet<Address>)
        ensures
            targets == old(self).call_targets,
            final(self).call_targets.wf(),
            final(self).call_targets@ == Set::<Address>::empty(),
            *final(self) == (StagedFunctionChangeRecord {
                call_targets: final(self).call_targets,
                ..*old(self)
            }),
    {
        let mut targets: SortedSet<Address> = SortedSet::new();
        core::mem::swap(&mut targets, &mut self.call_targets);
        targets
    }

    pub fn take_coverage(&mut self) -> (coverage: AddressRangeSet)
        ensures
            coverage == old(self).coverage,
            final(self).coverage.wf(),
            final(self).coverage@ == Set::<Address>::empty(),
            *final(self) == (StagedFunctionChangeRecord {
                coverage: final(self).coverage,
                ..*old(self)
            }),
    {
        let mut coverage: AddressRangeSet = AddressRangeSet::new();
        core::mem::swap(&mut coverage, &mut self.coverage);
        coverage
    }

    pub fn take_previous_coverage(&mut self) -> (coverage: AddressRangeSet)
        ensures
            coverage == old(self).previous_coverage,
            final(self).previous_coverage.wf(),
            final(self).previous_coverage@ == Set::<Address>::empty(),
            *final(self) == (StagedFunctionChangeRecord {
                previous_coverage: final(self).previous_coverage,
                ..*old(self)
            }),
    {
        let mut coverage: AddressRangeSet = AddressRangeSet::new();
        core::mem::swap(&mut coverage, &mut self.previous_coverage);
        coverage
    }

    pub fn take_references(&mut self) -> (references: Vec<Reference>)
        ensures
            references == old(self).references,
            final(self).references@ == Seq::<Reference>::empty(),
            *final(self) == (StagedFunctionChangeRecord {
                references: final(self).references,
                ..*old(self)
            }),
    {
        let mut references: Vec<Reference> = Vec::new();
        core::mem::swap(&mut references, &mut self.references);
        references
    }
}

/// The identities of members.
pub open spec fn member_ids(members: Seq<(Address, CodeBlockId)>) -> Seq<CodeBlockId> {
    members.map_values(|m: (Address, CodeBlockId)| m.1)
}

/// The identities of members are those of the listed blocks.
pub proof fn lemma_member_ids(members: Seq<(Address, CodeBlockId)>, block: CodeBlockId)
    ensures
        member_ids(members).contains(block) <==> lists_block(members, block),
{
    if member_ids(members).contains(block) {
        let i = member_ids(members).index_of(block);
        assert(members[i].1 == block);
    }
    if lists_block(members, block) {
        let i = choose|i: int| 0 <= i < members.len() && (#[trigger] members[i]).1 == block;
        assert(member_ids(members)[i] == block);
    }
}

/// The identities of members.
fn ids_of(members: &[(Address, CodeBlockId)]) -> (ids: Vec<CodeBlockId>)
    ensures
        ids@ == member_ids(members@),
{
    let mut ids: Vec<CodeBlockId> = Vec::new();
    let mut i: usize = 0;
    while i < members.len()
        invariant
            i <= members@.len(),
            ids@ == member_ids(members@.take(i as int)),
        decreases members@.len() - i,
    {
        ids.push(members[i].1);
        i = i + 1;
        assert(ids@ =~= member_ids(members@.take(i as int)));
    }
    assert(members@.take(i as int) =~= members@);
    ids
}

impl StagingView {
    /// The blocks that will be once a function is made of other blocks than before: those that
    /// it has stay or come back, and those that it had go where no function has them.
    pub open spec fn blocks_after(
        self,
        t: TablesView,
        previous: Seq<(Address, CodeBlockId)>,
        members: Seq<(Address, CodeBlockId)>,
        functions: Map<FunctionId, FunctionView>,
    ) -> Map<CodeBlockId, CodeBlockView> {
        Map::new(
            |b: CodeBlockId|
                if lists_block(members, b) {
                    self.blocks_known(t).contains_key(b)
                } else {
                    self.blocks_now(t).contains_key(b) && !(lists_block(previous, b) && is_idle(
                        functions,
                        b,
                    ))
                },
            |b: CodeBlockId| self.blocks_known(t)[b],
        )
    }

    /// Whether the staged functions can be followed by one in place of a previous one.
    pub open spec fn takes_change(
        self,
        t: TablesView,
        function: FunctionView,
        previous: Option<FunctionView>,
        is_new: bool,
    ) -> bool {
        &&& function.wf()
        &&& match previous {
            Some(p) => {
                &&& self.functions_now(t).contains_key(function.id)
                &&& p == self.functions_now(t)[function.id]
                &&& p.entry == function.entry
                &&& is_new == self.is_new_function(function.id)
            },
            None => {
                &&& !self.index_now(t).contains_key(function.entry)
                &&& self.function_ids.contains(function.id)
                &&& !self.functions.contains_key(function.id)
                &&& !self.cancelled_functions.contains(function.id)
                &&& is_new
            },
        }
    }
}

/// The blocks of a function that may not be there.
pub open spec fn blocks_of_option(function: Option<FunctionView>) -> Seq<(Address, CodeBlockId)> {
    match function {
        Some(function) => function.blocks,
        None => Seq::empty(),
    }
}

/// A function that may not be there, apart from how it is stored.
pub open spec fn option_view(function: Option<Function>) -> Option<FunctionView> {
    match function {
        Some(function) => Some(function@),
        None => None,
    }
}

/// What is listed is nothing just where no function has the block.
proof fn lemma_idle(
    holders: Map<CodeBlockId, Set<FunctionId>>,
    functions: Map<FunctionId, FunctionView>,
    block: CodeBlockId,
)
    requires
        holders_agree(holders, functions),
    ensures
        held(holders, block) == Set::<FunctionId>::empty() <==> is_idle(functions, block),
{
    if held(holders, block) == Set::<FunctionId>::empty() {
        assert forall|id: FunctionId| #[trigger] functions.contains_key(id) implies !lists_block(
            functions[id].blocks,
            block,
        ) by {
            assert(!held(holders, block).contains(id));
        }
    }
    if is_idle(functions, block) {
        assert forall|id: FunctionId| !held(holders, block).contains(id) by {
            if held(holders, block).contains(id) {
                assert(functions.contains_key(id));
            }
        }
        assert(held(holders, block) =~= Set::<FunctionId>::empty());
    }
}

/// The pieces of a change make up the whole: what is listed agrees with the functions that will
/// be, and entries lead to them.
proof fn lemma_changed(
    v: StagingView,
    after: StagingView,
    t: TablesView,
    function: FunctionView,
    previous: Option<FunctionView>,
    is_new: bool,
)
    requires
        v.takes_change(t, function, previous, is_new),
        functions_staged(v, t),
        t.function_ids.wf(),
        forall|id: FunctionId| #[trigger]
            t.functions.contains_key(id) ==> t.functions[id].id == id && t.function_ids.in_use(
                id.id as int,
            ),
        found_by_entry(v.index_now(t), v.functions_now(t)),
        holders_agree(v.holders_now(t), v.functions_now(t)),
        after.functions == v.functions.insert(
            function.id,
            StagedFunctionView { function: Some(function), is_new },
        ),
        after.entries == v.entries.insert(function.entry, Some(function.id)),
        after.function_ids == v.function_ids,
        after.cancelled_functions == v.cancelled_functions,
        forall|b: CodeBlockId, f: FunctionId| #[trigger]
            held(after.holders_now(t), b).contains(f) <==> (held(v.holders_now(t), b).contains(f)
                && !(f == function.id && lists_block(blocks_of_option(previous), b))) || (f
                == function.id && lists_block(function.blocks, b)),
    ensures
        functions_staged(after, t),
        after.functions_now(t) == v.functions_now(t).insert(function.id, function),
        after.index_now(t) == v.index_now(t).insert(function.entry, function.id),
        found_by_entry(after.index_now(t), after.functions_now(t)),
        holders_agree(after.holders_now(t), after.functions_now(t)),
{
    let id = function.id;
    let now = after.functions_now(t);
    assert(now =~= v.functions_now(t).insert(id, function));
    assert(after.index_now(t) =~= v.index_now(t).insert(function.entry, id));
    if previous is None {
        lemma_next_ids(v.function_ids, t.function_ids);
        let i = v.function_ids.index_of(id);
        assert(v.function_ids[i] == id);
        assert(!t.functions.contains_key(id));
        assert(!v.functions_now(t).contains_key(id));
    }
    assert forall|other: FunctionId| #[trigger] now.contains_key(other) implies now[other].id
        == other && after.index_now(t).contains_key(now[other].entry) && after.index_now(
        t,
    )[now[other].entry] == other by {
        if other != id {
            assert(v.functions_now(t).contains_key(other));
        }
    }
    assert forall|entry: Address| #[trigger]
        after.index_now(t).contains_key(entry) implies now.contains_key(
        after.index_now(t)[entry],
    ) && now[after.index_now(t)[entry]].entry == entry by {
        if entry != function.entry {
            assert(v.index_now(t).contains_key(entry));
        }
    }
    assert forall|b: CodeBlockId, f: FunctionId| #[trigger]
        held(after.holders_now(t), b).contains(f) <==> now.contains_key(f) && lists_block(
            now[f].blocks,
            b,
        ) by {
        assert(held(v.holders_now(t), b).contains(f) <==> v.functions_now(t).contains_key(f)
            && lists_block(v.functions_now(t)[f].blocks, b));
    }
    assert forall|other: FunctionId| #[trigger] after.functions.contains_key(other) implies {
        &&& after.functions[other].function matches Some(f) ==> f.id == other && f.wf()
        &&& after.functions[other].is_new ==> after.functions[other].function is Some
            && after.function_ids.contains(other) && !after.cancelled_functions.contains(other)
        &&& !after.functions[other].is_new ==> t.functions.contains_key(other) && (
        after.functions[other].function matches Some(f) ==> f.entry == t.functions[other].entry)
    } by {
        if other != id {
            assert(v.functions.contains_key(other));
        }
    }
}

/// Where blocks are staged or known to be gone, the identities of those that were staged and are
/// not any more have been cancelled.
proof fn lemma_cancels(v: StagingView, after: StagingView, t: TablesView)
    requires
        blocks_staged(v, t),
        blocks_staged(after, t),
        t.block_ids.wf(),
        forall|b: CodeBlockId| #[trigger]
            t.blocks.contains_key(b) ==> t.block_ids.in_use(b.id as int),
        forall|id: CodeBlockId| #[trigger]
            v.block_ids.contains(id) ==> after.block_ids.contains(id) && (after.blocks_now(
                t,
            ).contains_key(id) ==> v.blocks_known(t).contains_key(id)),
        forall|id: CodeBlockId| #[trigger]
            after.block_ids.contains(id) && !v.block_ids.contains(id) ==> after.is_new_block(id),
    ensures
        cancels(v, after),
{
    lemma_next_ids(v.block_ids, t.block_ids);
    assert forall|id: CodeBlockId| #[trigger]
        after.cancelled_blocks.contains(id) <==> v.cancelled_blocks.contains(id) || (
        v.is_new_block(id) && !after.is_new_block(id)) by {
        if v.block_ids.contains(id) {
            let i = v.block_ids.index_of(id);
            assert(v.block_ids[i] == id);
            assert(!t.blocks.contains_key(id));
            if after.is_new_block(id) {
                assert(after.blocks_now(t).contains_key(id));
            }
        }
    }
}

impl FunctionTableStaging {
    /// Lets a function take the place of a previous one, or of none.
    fn stage_change(
        &mut self,
        functions: &FunctionTable,
        blocks: &CodeBlockTable,
        function: Function,
        previous: Option<Function>,
        is_new: bool,
        record: StagedFunctionChangeRecord,
    ) -> (changed: StagedFunctionChangeRecord)
        requires
            old(self).wf(functions, blocks),
            old(self)@.takes_change(
                tables(functions, blocks),
                function@,
                option_view(previous),
                is_new,
            ),
            record.affected_blocks@.len() == 0,
            forall|b: CodeBlockId|
                lists_block(function.blocks@, b) ==> #[trigger] old(self)@.blocks_known(
                    tables(functions, blocks),
                ).contains_key(b),
        ensures
            final(self).wf(functions, blocks),
            ({
                let t = tables(functions, blocks);
                let v = old(self)@;
                let after = final(self)@;
                let previous_blocks = blocks_of_option(option_view(previous));
                &&& after.functions_now(t) == v.functions_now(t).insert(function.id, function@)
                &&& after.index_now(t) == v.index_now(t).insert(function.entry, function.id)
                &&& after.blocks_now(t) == v.blocks_after(
                    t,
                    previous_blocks,
                    function.blocks@,
                    after.functions_now(t),
                )
                &&& after.function_ids == v.function_ids
                &&& after.cancelled_functions == v.cancelled_functions
                &&& after.block_ids == v.block_ids
                &&& cancels(v, after)
                &&& after.functions == v.functions.insert(
                    function.id,
                    StagedFunctionView { function: Some(function@), is_new },
                )
                &&& after == v.with_change(
                    t,
                    function@,
                    option_view(previous),
                    is_new,
                    changed.affected_blocks@,
                )
                &&& sorts(
                    changed.affected_blocks@,
                    member_ids(previous_blocks) + member_ids(function.blocks@),
                )
                &&& changed.previous_coverage.wf()
                &&& forall|a: Address| #[trigger]
                    changed.previous_coverage@.contains(a) <==> covered(
                        v.blocks_now(t),
                        previous_blocks,
                        a,
                    )
                &&& changed == (StagedFunctionChangeRecord {
                    affected_blocks: changed.affected_blocks,
                    previous_coverage: changed.previous_coverage,
                    ..record
                })
            }),
    {
        let ghost t = tables(functions, blocks);
        let ghost v = self@;
        let ghost earlier = option_view(previous);
        let ghost before = blocks_of_option(earlier);
        proof {
            functions.lemma_sound();
            blocks.lemma_wf();
        }
        let entry: Address = function.entry();
        let id: FunctionId = function.id();
        let mut record: StagedFunctionChangeRecord = record;
        let mut affected: Vec<CodeBlockId> = Vec::new();
        let replaces_existing: bool = previous.is_some();
        match &previous {
            Some(previous) => {
                record.previous_coverage =
                self.coverage(functions, blocks, previous.blocks.as_slice());
                affected = ids_of(previous.blocks.as_slice());
                self.drop_members(functions, blocks, previous.blocks.as_slice(), id);
                if previous.entry() != entry {
                    self.stage_entry(previous.entry(), None);
                }
            },
            None => {
                record.previous_coverage = AddressRangeSet::new();
                assert(before =~= Seq::empty());
                assert(affected@ =~= member_ids(before));
            },
        }
        let ghost dropped = self@;
        proof {
            assert(affected@ == member_ids(before));
            assert(same_but_holders(v, dropped));
            assert(dropped.blocks_now(t) =~= v.blocks_now(t));
            assert(dropped.blocks_known(t) =~= v.blocks_known(t));
            if previous is None {
                assert forall|a: Address| !covered(v.blocks_now(t), before, a) by {}
            }
        }
        self.add_members(functions, blocks, function.blocks.as_slice(), id);
        let ghost added = self@;
        let mut more: Vec<CodeBlockId> = ids_of(function.blocks.as_slice());
        affected.append(&mut more);
        record.affected_blocks = sort_keys(&affected);
        if replaces_existing {
            self.drop_idle(functions, blocks, &record.affected_blocks);
        }
        let ghost cleared = self@;
        self.stage_entry(entry, Some(id));
        let ghost view = function@;
        let ghost members = function.blocks@;
        self.stage_record(id, StagedFunctionRecord { function: Some(function), is_new });
        proof {
            let after = self@;
            assert(after.holders_now(t) == cleared.holders_now(t));
            assert forall|b: CodeBlockId, f: FunctionId| #[trigger]
                held(after.holders_now(t), b).contains(f) <==> (held(v.holders_now(t), b).contains(
                    f,
                ) && !(f == id && lists_block(before, b))) || (f == id && lists_block(members, b)) by {
                assert(held(cleared.holders_now(t), b) == held(added.holders_now(t), b));
                assert(held(added.holders_now(t), b).contains(f) <==> held(
                    dropped.holders_now(t),
                    b,
                ).contains(f) || (f == id && lists_block(members, b)));
                if previous is Some {
                    assert(held(dropped.holders_now(t), b).contains(f) <==> held(
                        v.holders_now(t),
                        b,
                    ).contains(f) && !(f == id && lists_block(before, b)));
                }
            }
            lemma_changed(v, after, t, view, earlier, is_new);
            assert(after =~= v.with_change(t, view, earlier, is_new, record.affected_blocks@));
            assert(after.blocks_now(t) =~= cleared.blocks_now(t));
            assert(after.blocks_known(t) =~= cleared.blocks_known(t));
            let now = after.functions_now(t);
            assert forall|b: CodeBlockId| #[trigger]
                after.blocks_now(t).contains_key(b) <==> v.blocks_after(
                    t,
                    before,
                    members,
                    now,
                ).contains_key(b) by {
                lemma_idle(after.holders_now(t), now, b);
                lemma_member_ids(before, b);
                lemma_member_ids(members, b);
                assert(affected@.contains(b) <==> lists_block(before, b) || lists_block(
                    members,
                    b,
                )) by {
                    lemma_add_contains(member_ids(before), member_ids(members), b);
                }
                assert(record.affected_blocks@.contains(b) <==> affected@.contains(b));
                assert(held(cleared.holders_now(t), b) == held(added.holders_now(t), b));
                if lists_block(members, b) {
                    assert(held(added.holders_now(t), b).contains(id));
                }
                assert(added.blocks_now(t).contains_key(b) <==> if lists_block(members, b) {
                    v.blocks_known(t).contains_key(b)
                } else {
                    v.blocks_now(t).contains_key(b)
                });
            }
            assert forall|b: CodeBlockId| #[trigger] after.blocks_now(t).contains_key(b) implies after.blocks_now(
                t,
            )[b] == v.blocks_known(t)[b] by {
                assert(added.blocks_now(t).contains_key(b));
                assert(added.blocks_now(t)[b] == after.blocks_now(t)[b]);
            }
            assert(after.blocks_now(t) =~= v.blocks_after(t, before, members, now));
            assert(blocks_staged(after, t));
            assert(blocks_located(after, t));
            assert(originals_kept(after, t));
            lemma_cancels(v, after, t);
            assert forall|i: int|
                after.block_ids.len() <= i < t.block_ids.room() implies is_idle(
                now,
                #[trigger] t.block_ids.pending(i),
            ) by {
                let b = t.block_ids.pending(i);
                lemma_awaited(v, t, i);
                assert(is_idle(v.functions_now(t), b));
                assert forall|other: FunctionId| #[trigger] now.contains_key(other) implies !lists_block(
                    now[other].blocks,
                    b,
                ) by {
                    if other != id {
                        assert(v.functions_now(t).contains_key(other));
                    } else if lists_block(members, b) {
                        assert(v.blocks_known(t).contains_key(b));
                    }
                }
            }
        }
        record
    }
}

impl StagingView {
    /// The identity that a function with an entry has or gets.
    pub open spec fn target(self, t: TablesView, entry: Address) -> FunctionId {
        if self.index_now(t).contains_key(entry) {
            self.index_now(t)[entry]
        } else {
            t.function_ids.pending(self.function_ids.len() as int)
        }
    }

    /// The function with an entry, as it will be.
    pub open spec fn previous(self, t: TablesView, entry: Address) -> Option<FunctionView> {
        if self.index_now(t).contains_key(entry) {
            Some(self.functions_now(t)[self.index_now(t)[entry]])
        } else {
            None
        }
    }

    /// What is staged once a function with an entry has an identity.
    pub open spec fn with_claim(self, t: TablesView, entry: Address) -> StagingView {
        if self.index_now(t).contains_key(entry) {
            self
        } else {
            StagingView { function_ids: self.function_ids.push(self.target(t, entry)), ..self }
        }
    }
}

/// Reserving one more identity changes nothing that will be.
proof fn lemma_claimed(v: StagingView, t: TablesView, entry: Address)
    requires
        functions_staged(v, t),
        !v.index_now(t).contains_key(entry),
        v.function_ids.len() < t.function_ids.room(),
        t.function_ids.wf(),
        forall|id: FunctionId| #[trigger]
            t.functions.contains_key(id) ==> t.function_ids.in_use(id.id as int),
    ensures
        functions_staged(v.with_claim(t, entry), t),
        !v.functions.contains_key(v.target(t, entry)),
        !v.cancelled_functions.contains(v.target(t, entry)),
        v.with_claim(t, entry).function_ids.contains(v.target(t, entry)),
        v.target(t, entry).id < u32::MAX,
{
    let after = v.with_claim(t, entry);
    let id = v.target(t, entry);
    let last = v.function_ids.len() as int;
    assert(after.function_ids[last] == id);
    lemma_next_ids(after.function_ids, t.function_ids);
    assert(!v.function_ids.contains(id)) by {
        if v.function_ids.contains(id) {
            let i = v.function_ids.index_of(id);
            assert(after.function_ids[i] == id);
            assert(after.function_ids[i].id != after.function_ids[last].id);
        }
    }
    assert forall|other: FunctionId| v.function_ids.contains(other) implies #[trigger] after.function_ids.contains(
        other,
    ) by {
        let i = v.function_ids.index_of(other);
        assert(after.function_ids[i] == other);
    }
    if v.functions.contains_key(id) {
        assert(t.function_ids.in_use(id.id as int));
    }
}

impl FunctionTableStaging {
    /// The identity for a function with an entry: that of the function that is there, or the
    /// next one.
    fn claim(
        &mut self,
        functions: &FunctionTable,
        blocks: &CodeBlockTable,
        previous: &Option<Function>,
        entry: Address,
    ) -> (r: (FunctionId, bool))
        requires
            old(self).wf(functions, blocks),
            option_view(*previous) == old(self)@.previous(tables(functions, blocks), entry),
            previous is None ==> old(self)@.function_ids.len() < functions.ids().room(),
        ensures
            final(self).wf(functions, blocks),
            final(self)@ == old(self)@.with_claim(tables(functions, blocks), entry),
            r.0 == old(self)@.target(tables(functions, blocks), entry),
            r.1 == (previous is Some ==> old(self)@.is_new_function(r.0)),
            forall|function: FunctionView|
                function.wf() && function.id == r.0 && function.entry == entry
                    ==> #[trigger] final(self)@.takes_change(
                    tables(functions, blocks),
                    function,
                    option_view(*previous),
                    r.1,
                ),
            r.0.id < u32::MAX,
    {
        let ghost t = tables(functions, blocks);
        let ghost v = self@;
        proof {
            functions.lemma_sound();
        }
        match previous {
            Some(previous) => {
                let id: FunctionId = previous.id();
                proof {
                    let found = v.index_now(t)[entry];
                    assert(v.functions_now(t).contains_key(found));
                    assert(previous@.id == found);
                    if v.functions.contains_key(found) && v.functions[found].is_new {
                        lemma_next_ids(v.function_ids, t.function_ids);
                        let i = v.function_ids.index_of(found);
                        assert(v.function_ids[i] == found);
                    }
                }
                (id, self.new_function(id))
            },
            None => {
                let id: FunctionId = functions.pending_id(self.function_reservations.len());
                proof {
                    lemma_claimed(v, t, entry);
                }
                self.function_reservations.push(id);
                proof {
                    let after = self@;
                    assert(after =~= v.with_claim(t, entry));
                    assert(after.functions_now(t) =~= v.functions_now(t));
                    assert(after.index_now(t) =~= v.index_now(t));
                    assert(after.blocks_known(t) =~= v.blocks_known(t));
                }
                (id, true)
            },
        }
    }
}

/// Whether each listed block before the first that will not be there begins where it is listed.
pub open spec fn members_placed(
    blocks: Map<CodeBlockId, CodeBlockView>,
    members: Seq<(Address, CodeBlockId)>,
) -> bool {
    forall|i: int|
        0 <= i < members.len() && all_present(blocks, members.take(i + 1))
            ==> blocks[(#[trigger] members[i]).1].start == members[i].0
}

/// Whether a block is the first of the members that will not be there.
pub open spec fn first_missing(
    blocks: Map<CodeBlockId, CodeBlockView>,
    members: Seq<(Address, CodeBlockId)>,
    id: CodeBlockId,
) -> bool {
    exists|i: int|
        {
            &&& 0 <= i < members.len()
            &&& (#[trigger] members[i]).1 == id
            &&& !blocks.contains_key(id)
            &&& forall|j: int| 0 <= j < i ==> blocks.contains_key((#[trigger] members[j]).1)
        }
}

/// Whether all members will be there.
pub open spec fn all_present(
    blocks: Map<CodeBlockId, CodeBlockView>,
    members: Seq<(Address, CodeBlockId)>,
) -> bool {
    forall|i: int| 0 <= i < members.len() ==> blocks.contains_key((#[trigger] members[i]).1)
}

/// Where calls among flows go.
fn call_targets_of(flows: &Vec<FlowTarget>) -> (targets: SortedSet<Address>)
    ensures
        targets.wf(),
        forall|a: Address| #[trigger] targets@.contains(a) <==> calls_to(flows@, a),
{
    let mut targets: SortedSet<Address> = SortedSet::new();
    let mut i: usize = 0;
    while i < flows.len()
        invariant
            i <= flows@.len(),
            targets.wf(),
            forall|a: Address| #[trigger]
                targets@.contains(a) <==> calls_to(flows@.take(i as int), a),
        decreases flows@.len() - i,
    {
        let ghost before = targets@;
        let flow: FlowTarget = flows[i];
        if flow.kind().is_call() {
            targets.insert(flow.to());
        }
        proof {
            let (less, more) = (flows@.take(i as int), flows@.take(i + 1));
            assert forall|a: Address| #[trigger] targets@.contains(a) <==> calls_to(more, a) by {
                assert(before.contains(a) <==> calls_to(less, a));
                if calls_to(less, a) {
                    let k = choose|k: int|
                        0 <= k < less.len() && (#[trigger] less[k]).kind.calls() && less[k].to == a;
                    assert(more[k] == less[k]);
                }
                if calls_to(more, a) {
                    let k = choose|k: int|
                        0 <= k < more.len() && (#[trigger] more[k]).kind.calls() && more[k].to == a;
                    if k < i {
                        assert(less[k] == more[k]);
                    }
                }
                assert(more[i as int] == flow);
            }
        }
        i = i + 1;
    }
    assert(flows@.take(i as int) =~= flows@);
    targets
}

impl FunctionTableStaging {
    /// The flows out of the members of a function, as the function sees them, or the first
    /// member that will not be there.
    fn member_flows(
        &self,
        functions: &FunctionTable,
        blocks: &CodeBlockTable,
        function: &Function,
    ) -> (flows: Result<Vec<FlowTarget>, CodeBlockId>)
        requires
            self.wf(functions, blocks),
            function@.wf(),
        ensures
            match flows {
                Ok(flows) => {
                    &&& all_present(self@.blocks_now(tables(functions, blocks)), function.blocks@)
                    &&& flows@ == body_flows(
                        function@,
                        self@.blocks_now(tables(functions, blocks)),
                        function.blocks@.len() as int,
                    )
                },
                Err(id) => first_missing(
                    self@.blocks_now(tables(functions, blocks)),
                    function.blocks@,
                    id,
                ),
            },
    {
        let ghost now = self@.blocks_now(tables(functions, blocks));
        let mut flows: Vec<FlowTarget> = Vec::new();
        let mut i: usize = 0;
        while i < function.blocks.len()
            invariant
                i <= function.blocks@.len(),
                function@.wf(),
                self.wf(functions, blocks),
                now == self@.blocks_now(tables(functions, blocks)),
                flows@ == body_flows(function@, now, i as int),
                forall|j: int|
                    0 <= j < i ==> now.contains_key((#[trigger] function.blocks@[j]).1),
            decreases function.blocks@.len() - i,
        {
            let id: CodeBlockId = function.blocks[i].1;
            match self.block_now(blocks, id) {
                Some(block) => {
                    let own: Vec<FlowTarget> = block.flow_targets();
                    let ghost before = flows@;
                    let ghost sites = function@.tail_call_sites;
                    let mut k: usize = 0;
                    assert(before + all_classified(sites, own@.take(0)) =~= before);
                    while k < own.len()
                        invariant
                            k <= own@.len(),
                            function@.wf(),
                            sites == function@.tail_call_sites,
                            flows@ == before + all_classified(sites, own@.take(k as int)),
                        decreases own@.len() - k,
                    {
                        flows.push(function.classify_flow_target(own[k]));
                        k = k + 1;
                        assert(flows@ =~= before + all_classified(sites, own@.take(k as int)));
                    }
                    assert(own@.take(k as int) =~= own@);
                },
                None => {
                    assert(function.blocks@[i as int].1 == id);
                    return Err(id);
                },
            }
            i = i + 1;
        }
        Ok(flows)
    }

    /// Stages a function that is made of blocks that will be there.
    pub fn stage_membership(
        &mut self,
        functions: &FunctionTable,
        blocks: &CodeBlockTable,
        function: Function,
    ) -> (r: Result<StagedFunctionChangeRecord, IncompleteFunctionError>)
        requires
            old(self).wf(functions, blocks),
            function@.wf(),
            members_placed(old(self)@.blocks_now(tables(functions, blocks)), function.blocks@),
            !old(self)@.index_now(tables(functions, blocks)).contains_key(function.entry) ==> old(
                self,
            )@.function_ids.len() < functions.ids().room(),
        ensures
            final(self).wf(functions, blocks),
            ({
                let t = tables(functions, blocks);
                let v = old(self)@;
                let after = final(self)@;
                let id = v.target(t, function.entry);
                let staged = FunctionView { id, ..function@ };
                let flows = body_flows(staged, v.blocks_now(t), function.blocks@.len() as int);
                let earlier = v.previous(t, function.entry);
                match r {
                    Ok(record) => {
                        &&& all_present(v.blocks_now(t), function.blocks@)
                        &&& after == v.with_claim(t, function.entry).with_change(
                            t,
                            staged,
                            earlier,
                            earlier is Some ==> v.is_new_function(id),
                            record.affected_blocks@,
                        )
                        &&& after.function_ids == v.with_claim(t, function.entry).function_ids
                        &&& after.cancelled_functions == v.cancelled_functions
                        &&& after.block_ids == v.block_ids
                        &&& cancels(v, after)
                        &&& after.functions_now(t) == v.functions_now(t).insert(id, staged)
                        &&& after.index_now(t) == v.index_now(t).insert(function.entry, id)
                        &&& after.blocks_now(t) == v.blocks_after(
                            t,
                            blocks_of_option(earlier),
                            function.blocks@,
                            after.functions_now(t),
                        )
                        &&& record.id == id
                        &&& record.replaces_existing == (earlier is Some && !v.is_new_function(id))
                        &&& record.coverage.wf()
                        &&& forall|a: Address| #[trigger]
                            record.coverage@.contains(a) <==> covered(
                                v.blocks_now(t),
                                function.blocks@,
                                a,
                            )
                        &&& record.previous_coverage.wf()
                        &&& forall|a: Address| #[trigger]
                            record.previous_coverage@.contains(a) <==> covered(
                                v.blocks_now(t),
                                blocks_of_option(earlier),
                                a,
                            )
                        &&& record.call_targets.wf()
                        &&& forall|a: Address| #[trigger]
                            record.call_targets@.contains(a) <==> calls_to(flows, a)
                        &&& coalesces(record.references@, flows)
                        &&& sorts(
                            record.affected_blocks@,
                            member_ids(blocks_of_option(earlier)) + member_ids(function.blocks@),
                        )
                    },
                    Err(error) => {
                        &&& after == v.with_claim(t, function.entry)
                        &&& error matches IncompleteFunctionError::MissingCodeBlock(missing)
                        &&& first_missing(v.blocks_now(t), function.blocks@, missing)
                    },
                }
            }),
    {
        let ghost t = tables(functions, blocks);
        let ghost v = self@;
        let mut function: Function = function;
        let ghost given = function@;
        let entry: Address = function.entry();
        let previous: Option<Function> = self.function_by_address(functions, blocks, entry);
        let (id, is_new): (FunctionId, bool) = self.claim(functions, blocks, &previous, entry);
        function.set_id(id);
        proof {
            let claimed = self@;
            assert(claimed.blocks_now(t) =~= v.blocks_now(t));
            assert(claimed.blocks_known(t) =~= v.blocks_known(t));
            assert(claimed.functions_now(t) =~= v.functions_now(t));
            assert(claimed.index_now(t) =~= v.index_now(t));
            assert(function@ == (FunctionView { id, ..given }));
        }
        let flows: Vec<FlowTarget> = match self.member_flows(functions, blocks, &function) {
            Ok(flows) => flows,
            Err(missing) => {
                return Err(IncompleteFunctionError::missing_code_block(missing));
            },
        };
        let coverage: AddressRangeSet = self.coverage(
            functions,
            blocks,
            function.blocks.as_slice(),
        );
        let record = StagedFunctionChangeRecord {
            affected_blocks: Vec::new(),
            call_targets: call_targets_of(&flows),
            coverage,
            id,
            previous_coverage: AddressRangeSet::new(),
            references: coalesce_flows(&flows),
            replaces_existing: !is_new,
        };
        proof {
            let claimed = self@;
            assert forall|b: CodeBlockId|
                lists_block(function.blocks@, b) implies #[trigger] claimed.blocks_known(
                t,
            ).contains_key(b) by {
                let i = choose|i: int|
                    0 <= i < function.blocks@.len() && (#[trigger] function.blocks@[i]).1 == b;
                assert(v.blocks_now(t).contains_key(b));
            }
        }
        let ghost claimed = self@;
        let changed: StagedFunctionChangeRecord = self.stage_change(
            functions,
            blocks,
            function,
            previous,
            is_new,
            record,
        );
        assert(self@.blocks_now(t) =~= v.blocks_after(
            t,
            blocks_of_option(v.previous(t, entry)),
            given.blocks,
            self@.functions_now(t),
        ));
        Ok(changed)
    }
}

impl StagingView {
    /// Whether a block that there is or will be is the recorded one.
    pub open spec fn is_match(self, t: TablesView, record: CodeBlockRecordView, id: CodeBlockId) -> bool {
        self.blocks_known(t).contains_key(id) && self.blocks_known(t)[id] == record.under(id)
    }

    /// The blocks that are known to begin at an address.
    pub open spec fn located(self, address: Address) -> Seq<CodeBlockId> {
        if self.locations.contains_key(address) {
            self.locations[address]
        } else {
            Seq::empty()
        }
    }

    /// Whether a block is taken for the recorded one: the first that is of those known to begin
    /// where the recorded one does, or, where none of those is, one of the table that is.
    pub open spec fn picks(self, t: TablesView, record: CodeBlockRecordView, id: CodeBlockId) -> bool {
        let ids = self.located(record.address);
        &&& self.is_match(t, record, id)
        &&& forall|i: int|
            0 <= i < ids.len() && self.is_match(t, record, #[trigger] ids[i]) ==> exists|j: int|
                0 <= j <= i && #[trigger] ids[j] == id
    }

    /// What is staged once the recorded block has been found or staged under an identity.
    pub open spec fn resolves_to(
        self,
        t: TablesView,
        record: CodeBlockRecordView,
        id: CodeBlockId,
        after: StagingView,
    ) -> bool {
        if self.has_match(t, record) {
            self.picks(t, record, id) && after == self.reviving(id)
        } else {
            id == t.block_ids.pending(self.block_ids.len() as int) && after == self.with_block(
                record,
                id,
            )
        }
    }

    /// Whether there is or will be a block that is the recorded one.
    pub open spec fn has_match(self, t: TablesView, record: CodeBlockRecordView) -> bool {
        exists|id: CodeBlockId| #[trigger] self.is_match(t, record, id)
    }

    /// What is staged once a block is not to go.
    pub open spec fn reviving(self, id: CodeBlockId) -> StagingView {
        if self.blocks.contains_key(id) && self.blocks[id].block is None {
            StagingView { blocks: self.blocks.remove(id), ..self }
        } else {
            self
        }
    }

    /// What is staged once the recorded block is to come under an identity.
    pub open spec fn with_block(self, record: CodeBlockRecordView, id: CodeBlockId) -> StagingView {
        StagingView {
            blocks: self.blocks.insert(
                id,
                StagedBlockView { block: Some(record.under(id)), is_new: true },
            ),
            locations: self.locations.insert(
                record.address,
                if self.locations.contains_key(record.address) {
                    self.locations[record.address].push(id)
                } else {
                    seq![id]
                },
            ),
            block_ids: self.block_ids.push(id),
            ..self
        }
    }
}

/// A block that is not to go any more changes nothing else.
proof fn lemma_reviving(v: StagingView, t: TablesView, id: CodeBlockId)
    requires
        blocks_staged(v, t),
        blocks_located(v, t),
        v.blocks_known(t).contains_key(id),
    ensures
        blocks_staged(v.reviving(id), t),
        blocks_located(v.reviving(id), t),
        v.reviving(id).blocks_known(t) == v.blocks_known(t),
        v.reviving(id).blocks_now(t) == v.blocks_now(t).insert(id, v.blocks_known(t)[id]),
        v.reviving(id).functions_now(t) == v.functions_now(t),
        v.reviving(id).index_now(t) == v.index_now(t),
        v.reviving(id).holders_now(t) == v.holders_now(t),
{
    let after = v.reviving(id);
    assert(after.blocks_known(t) =~= v.blocks_known(t));
    assert(after.blocks_now(t) =~= v.blocks_now(t).insert(id, v.blocks_known(t)[id]));
    assert(after.functions_now(t) =~= v.functions_now(t));
    assert(after.index_now(t) =~= v.index_now(t));
    assert(after.holders_now(t) =~= v.holders_now(t));
}

/// A block that comes under the next identity changes nothing else.
proof fn lemma_with_block(v: StagingView, t: TablesView, record: CodeBlockRecordView)
    requires
        blocks_staged(v, t),
        blocks_located(v, t),
        originals_kept(v, t),
        t.block_ids.wf(),
        v.block_ids.len() < t.block_ids.room(),
        spans(record.address, record.size as int),
        forall|b: CodeBlockId| #[trigger]
            t.blocks.contains_key(b) ==> t.block_ids.in_use(b.id as int),
    ensures
        ({
            let id = t.block_ids.pending(v.block_ids.len() as int);
            let after = v.with_block(record, id);
            &&& id.id < u32::MAX
            &&& !v.blocks_known(t).contains_key(id)
            &&& blocks_staged(after, t)
            &&& blocks_located(after, t)
            &&& originals_kept(after, t)
            &&& after.blocks_known(t) == v.blocks_known(t).insert(id, record.under(id))
            &&& after.blocks_now(t) == v.blocks_now(t).insert(id, record.under(id))
            &&& after.functions_now(t) == v.functions_now(t)
            &&& after.index_now(t) == v.index_now(t)
            &&& after.holders_now(t) == v.holders_now(t)
        }),
{
    let id = t.block_ids.pending(v.block_ids.len() as int);
    let after = v.with_block(record, id);
    let last = v.block_ids.len() as int;
    assert(after.block_ids[last] == id);
    lemma_next_ids(after.block_ids, t.block_ids);
    assert(!v.block_ids.contains(id)) by {
        if v.block_ids.contains(id) {
            let i = v.block_ids.index_of(id);
            assert(after.block_ids[i].id != after.block_ids[last].id);
        }
    }
    assert forall|other: CodeBlockId| v.block_ids.contains(other) implies #[trigger] after.block_ids.contains(
        other,
    ) by {
        lemma_push_contains(v.block_ids, id, other);
    }
    assert(after.block_ids.contains(id));
    assert forall|other: CodeBlockId| #[trigger] after.block_ids.contains(other) implies after.is_new_block(
        other,
    ) || after.cancelled_blocks.contains(other) by {
        lemma_push_contains(v.block_ids, id, other);
        if other != id {
            assert(v.block_ids.contains(other));
        }
    }
    assert(!t.blocks.contains_key(id));
    assert(!v.blocks.contains_key(id));
    assert(after.blocks_known(t) =~= v.blocks_known(t).insert(id, record.under(id)));
    assert(after.blocks_now(t) =~= v.blocks_now(t).insert(id, record.under(id)));
    assert(after.functions_now(t) =~= v.functions_now(t));
    assert(after.index_now(t) =~= v.index_now(t));
    assert(after.holders_now(t) =~= v.holders_now(t));
    assert forall|a: Address, i: int|
        after.locations.contains_key(a) && 0 <= i < after.locations[a].len() implies after.blocks_known(
        t,
    ).contains_key(#[trigger] after.locations[a][i]) && after.blocks_known(
        t,
    )[after.locations[a][i]].start == a by {
        let other = after.locations[a][i];
        if a == record.address {
            if v.locations.contains_key(a) && i < v.locations[a].len() {
                assert(v.locations[a][i] == other);
            } else {
                assert(other == id);
            }
        } else {
            assert(v.locations[a][i] == other);
        }
    }
    assert forall|a: Address| #[trigger]
        after.locations.contains_key(a) implies after.locations[a].no_duplicates() by {
        if a == record.address && v.locations.contains_key(a) {
            let list = v.locations[a];
            assert(!list.contains(id)) by {
                if list.contains(id) {
                    let i = list.index_of(id);
                    assert(v.blocks_known(t).contains_key(v.locations[a][i]));
                }
            }
            assert forall|i: int, j: int|
                0 <= i < list.push(id).len() && 0 <= j < list.push(id).len() && i
                    != j implies list.push(id)[i] != list.push(id)[j] by {
                if i < list.len() {
                    assert(list.contains(list[i]));
                }
                if j < list.len() {
                    assert(list.contains(list[j]));
                }
            }
        }
    }
    assert forall|other: CodeBlockId| #[trigger]
        after.blocks.contains_key(other) && after.blocks[other].block is Some implies {
        let start = after.blocks[other].block->0.start;
        after.locations.contains_key(start) && after.locations[start].contains(other)
    } by {
        let start = after.blocks[other].block->0.start;
        if other == id {
            assert(start == record.address);
            let list = after.locations[start];
            assert(list[list.len() - 1] == id);
        } else {
            assert(v.blocks.contains_key(other));
            assert(v.locations[start].contains(other));
            if start == record.address {
                lemma_push_contains(v.locations[start], id, other);
            }
        }
    }
}

impl FunctionTableStaging {
    /// Whether the block with an identity is the recorded one, also if it is to go.
    fn known_matches(&self, blocks: &CodeBlockTable, record: &CodeBlockRecord, id: CodeBlockId) -> (same:
        bool)
        requires
            self.parts_wf(),
            blocks.wf(),
            forall|b: CodeBlockId| #[trigger]
                self@.blocks.contains_key(b) ==> (self@.blocks[b].block matches Some(block)
                    ==> block.id == b),
        ensures
            forall|t: TablesView|
                #![trigger self@.is_match(t, record@, id)]
                t.blocks == blocks@ ==> same == self@.is_match(t, record@, id),
    {
        proof {
            blocks.lemma_wf();
        }
        match self.staged_code_blocks.get(&id) {
            Some(staged) => match &staged.block {
                Some(block) => {
                    assert(self@.blocks.contains_key(id));
                    record.matches(block)
                },
                None => match blocks.get_by_id(id) {
                    Some(block) => record.matches(block),
                    None => false,
                },
            },
            None => match blocks.get_by_id(id) {
                Some(block) => record.matches(block),
                None => false,
            },
        }
    }

    /// Keeps a block that was to go.
    fn revive(&mut self, id: CodeBlockId)
        requires
            old(self).parts_wf(),
        ensures
            final(self).parts_wf(),
            final(self)@ == old(self)@.reviving(id),
    {
        if self.is_going(id) {
            self.unstage_block(id);
        }
    }

    /// Finds the block that is the recorded one, or lets it come under the next identity.
    pub fn resolve_block(
        &mut self,
        functions: &FunctionTable,
        blocks: &CodeBlockTable,
        record: &CodeBlockRecord,
    ) -> (id: CodeBlockId)
        requires
            old(self).wf(functions, blocks),
            spans(record.address, record.size as int),
            !old(self)@.has_match(tables(functions, blocks), record@) ==> old(
                self,
            )@.block_ids.len() < blocks.ids().room(),
        ensures
            final(self).wf(functions, blocks),
            id.id < u32::MAX,
            ({
                let t = tables(functions, blocks);
                let v = old(self)@;
                let after = final(self)@;
                &&& after.blocks_now(t) == v.blocks_now(t).insert(id, record@.under(id))
                &&& v.resolves_to(t, record@, id, after)
                &&& after.blocks_known(t) == v.blocks_known(t).insert(id, record@.under(id))
                &&& after.functions_now(t) == v.functions_now(t)
                &&& after.index_now(t) == v.index_now(t)
            }),
    {
        let ghost t = tables(functions, blocks);
        let ghost v = self@;
        proof {
            blocks.lemma_wf();
        }
        let ids: Vec<CodeBlockId> = self.block_locations.ids(record.address());
        let mut i: usize = 0;
        while i < ids.len()
            invariant
                i <= ids@.len(),
                t == tables(functions, blocks),
                self@ == v,
                v == old(self)@,
                self.wf(functions, blocks),
                ids@ == v.located(record.address),
                forall|j: int| 0 <= j < i ==> !v.is_match(t, record@, #[trigger] ids@[j]),
            decreases ids@.len() - i,
        {
            let id: CodeBlockId = ids[i];
            if self.known_matches(blocks, record, id) {
                proof {
                    assert(v.is_match(t, record@, id));
                    lemma_reviving(v, t, id);
                    blocks.lemma_wf();
                    lemma_known_valid(v, t, id);
                }
                self.revive(id);
                assert(self@.blocks_known(t) =~= v.blocks_known(t).insert(id, record@.under(id)));
                return id;
            }
            i = i + 1;
        }
        let staged: &FunctionTableStaging = self;
        let same = |block: &CodeBlock| -> (same: bool)
            ensures
                same == staged@.is_match(tables(functions, blocks), record@, block.id),
            {
                staged.known_matches(blocks, record, block.id())
            };
        let found: Option<CodeBlockId> = match blocks.find_by_range_and_context(
            record.address_range(),
            record.context(),
            same,
        ) {
            Some(block) => Some(block.id()),
            None => None,
        };
        match found {
            Some(id) => {
                proof {
                    assert(v.is_match(t, record@, id));
                    lemma_reviving(v, t, id);
                    lemma_known_valid(v, t, id);
                }
                self.revive(id);
                assert(self@.blocks_known(t) =~= v.blocks_known(t).insert(id, record@.under(id)));
                id
            },
            None => {
                proof {
                    assert forall|other: CodeBlockId| !(#[trigger] v.is_match(t, record@, other)) by {
                        if v.is_match(t, record@, other) {
                            if v.blocks.contains_key(other) && v.blocks[other].block is Some {
                                assert(v.locations[record.address].contains(other));
                                let j = v.locations[record.address].index_of(other);
                                assert(ids@[j] == other);
                            } else {
                                let block = blocks.lemma_shown(other);
                                assert(block@ == record@.under(other));
                                assert(block@.range() == span_range(
                                    record.address,
                                    record.size as int,
                                ));
                                assert(blocks.stores(block));
                            }
                        }
                    }
                    assert(!v.has_match(t, record@));
                    lemma_with_block(v, t, record@);
                }
                let id: CodeBlockId = blocks.pending_id(self.block_reservations.len());
                self.block_reservations.push(id);
                let address: Address = record.address();
                let block: CodeBlock = record.clone().materialise(id);
                self.staged_code_blocks.insert(
                    id,
                    StagedCodeBlockRecord { block: Some(block), is_new: true },
                );
                self.block_locations.insert(address, id);
                assert(self@ =~= v.with_block(record@, id));
                id
            },
        }
    }
}

/// A block that there is or will be has an identity.
proof fn lemma_known_valid(v: StagingView, t: TablesView, id: CodeBlockId)
    requires
        blocks_staged(v, t),
        t.block_ids.wf(),
        forall|b: CodeBlockId| #[trigger] t.blocks.contains_key(b) ==> b.id < u32::MAX,
        v.blocks_known(t).contains_key(id),
    ensures
        id.id < u32::MAX,
{
    if v.blocks.contains_key(id) && v.blocks[id].block is Some {
        lemma_next_ids(v.block_ids, t.block_ids);
        let i = v.block_ids.index_of(id);
        assert(v.block_ids[i] == id);
    }
}

/// Whether recorded blocks have been found or staged under identities, one after the other.
pub open spec fn resolved_in_turn(
    v: StagingView,
    t: TablesView,
    records: Seq<CodeBlockRecord>,
    ids: Seq<CodeBlockId>,
    after: StagingView,
) -> bool
    decreases records.len(),
{
    if records.len() == 0 {
        ids.len() == 0 && after == v
    } else {
        ids.len() == records.len() && exists|middle: StagingView|
            resolved_in_turn(v, t, records.drop_last(), ids.drop_last(), middle)
                && #[trigger] middle.resolves_to(t, records.last()@, ids.last(), after)
    }
}

/// Whether recorded blocks have been found or staged under identities.
pub open spec fn resolves(
    v: StagingView,
    after: StagingView,
    t: TablesView,
    records: Seq<CodeBlockRecord>,
    ids: Seq<CodeBlockId>,
) -> bool {
    &&& ids.len() == records.len()
    &&& after == (StagingView {
        blocks: after.blocks,
        locations: after.locations,
        block_ids: after.block_ids,
        ..v
    })
    &&& forall|i: int|
        0 <= i < ids.len() ==> (#[trigger] ids[i]).id < u32::MAX && after.blocks_now(
            t,
        ).contains_key(ids[i]) && after.blocks_now(t)[ids[i]] == records[i]@.under(ids[i])
    &&& forall|b: CodeBlockId|
        !ids.contains(b) ==> (#[trigger] after.blocks_now(t).contains_key(b) == v.blocks_now(
            t,
        ).contains_key(b)) && after.blocks_now(t)[b] == v.blocks_now(t)[b]
    &&& v.block_ids.len() <= after.block_ids.len() <= v.block_ids.len() + ids.len()
    &&& forall|i: int|
        0 <= i < v.block_ids.len() ==> #[trigger] after.block_ids[i] == v.block_ids[i]
    &&& forall|b: CodeBlockId| #[trigger]
        v.blocks_known(t).contains_key(b) ==> after.blocks_known(t).contains_key(b)
            && after.blocks_known(t)[b] == v.blocks_known(t)[b]
    &&& forall|b: CodeBlockId| #[trigger]
        after.blocks_known(t).contains_key(b) && !v.blocks_known(t).contains_key(b)
            ==> !v.block_ids.contains(b)
    &&& forall|i: int|
        0 <= i < ids.len() && v.has_match(t, records[i]@) ==> v.blocks_known(t).contains_key(
            #[trigger] ids[i],
        )
}

/// Whether each block that came in addition is a recorded one that there was none for.
spec fn only_needed(
    v: StagingView,
    after: StagingView,
    t: TablesView,
    records: Seq<CodeBlockRecord>,
) -> bool {
    forall|b: CodeBlockId| #[trigger]
        after.blocks_known(t).contains_key(b) && !v.blocks_known(t).contains_key(b)
            ==> is_needed(v, after, t, records, b)
}

spec fn is_needed(
    v: StagingView,
    after: StagingView,
    t: TablesView,
    records: Seq<CodeBlockRecord>,
    b: CodeBlockId,
) -> bool {
    exists|k: int|
        0 <= k < records.len() && after.blocks_known(t)[b] == (#[trigger] records[k])@.under(b)
            && !v.has_match(t, records[k]@)
}

impl FunctionTableStaging {
    /// Finds or stages the recorded blocks.
    fn resolve_blocks(
        &mut self,
        functions: &FunctionTable,
        blocks: &CodeBlockTable,
        records: &Vec<CodeBlockRecord>,
    ) -> (ids: Vec<CodeBlockId>)
        requires
            old(self).wf(functions, blocks),
            forall|i: int|
                0 <= i < records@.len() ==> spans(
                    (#[trigger] records@[i]).address,
                    records@[i].size as int,
                ),
            old(self)@.block_ids.len() + records@.len() <= blocks.ids().room(),
        ensures
            final(self).wf(functions, blocks),
            resolves(old(self)@, final(self)@, tables(functions, blocks), records@, ids@),
            resolved_in_turn(
                old(self)@,
                tables(functions, blocks),
                records@,
                ids@,
                final(self)@,
            ),
            final(self)@.functions_now(tables(functions, blocks)) == old(self)@.functions_now(
                tables(functions, blocks),
            ),
            final(self)@.index_now(tables(functions, blocks)) == old(self)@.index_now(
                tables(functions, blocks),
            ),
    {
        let ghost t = tables(functions, blocks);
        let ghost v = self@;
        let mut ids: Vec<CodeBlockId> = Vec::new();
        let mut i: usize = 0;
        while i < records.len()
            invariant
                i <= records@.len(),
                t == tables(functions, blocks),
                self.wf(functions, blocks),
                forall|k: int|
                    0 <= k < records@.len() ==> spans(
                        (#[trigger] records@[k]).address,
                        records@[k].size as int,
                    ),
                v.block_ids.len() + records@.len() <= blocks.ids().room(),
                resolves(v, self@, t, records@.take(i as int), ids@),
                resolved_in_turn(v, t, records@.take(i as int), ids@, self@),
                only_needed(v, self@, t, records@.take(i as int)),
                self@.functions_now(t) == v.functions_now(t),
                self@.index_now(t) == v.index_now(t),
            decreases records@.len() - i,
        {
            let ghost s = self@;
            let ghost done = ids@;
            let ghost less = records@.take(i as int);
            let ghost more = records@.take(i + 1);
            let ghost record = records@[i as int]@;
            let id: CodeBlockId = self.resolve_block(functions, blocks, &records[i]);
            ids.push(id);
            proof {
                let after = self@;
                blocks.lemma_wf();
                assert(more =~= less.push(records@[i as int]));
                assert(more.drop_last() =~= less);
                assert(ids@.drop_last() =~= done);
                assert(s.resolves_to(t, more.last()@, ids@.last(), after));
                assert forall|k: int| 0 <= k < i implies more[k] == less[k] by {}
                assert forall|b: CodeBlockId| #[trigger]
                    ids@.contains(b) <==> done.contains(b) || b == id by {
                    lemma_push_contains(done, id, b);
                }
                assert forall|k: int| 0 <= k < ids@.len() implies (#[trigger] ids@[k]).id < u32::MAX
                    && after.blocks_now(t).contains_key(ids@[k]) && after.blocks_now(t)[ids@[k]]
                    == more[k]@.under(ids@[k]) by {
                    if k < i {
                        assert(ids@[k] == done[k]);
                        assert(s.blocks_now(t)[done[k]] == less[k]@.under(done[k]));
                        if ids@[k] == id {
                            assert(s.blocks_known(t)[id] == s.blocks_now(t)[id]);
                            if s.has_match(t, record) {
                                assert(s.is_match(t, record, id));
                            } else {
                                lemma_awaited(s, t, s.block_ids.len() as int);
                            }
                        }
                    }
                }
                assert forall|b: CodeBlockId| !ids@.contains(b) implies (#[trigger] after.blocks_now(
                    t,
                ).contains_key(b) == v.blocks_now(t).contains_key(b)) && after.blocks_now(t)[b]
                    == v.blocks_now(t)[b] by {
                    assert(!done.contains(b));
                    assert(s.blocks_now(t).contains_key(b) == v.blocks_now(t).contains_key(b));
                }
                assert forall|b: CodeBlockId| #[trigger]
                    v.blocks_known(t).contains_key(b) implies after.blocks_known(t).contains_key(b)
                    && after.blocks_known(t)[b] == v.blocks_known(t)[b] by {
                    assert(s.blocks_known(t).contains_key(b));
                    if b == id {
                        if s.has_match(t, record) {
                            assert(s.is_match(t, record, id));
                        } else {
                            lemma_awaited(s, t, s.block_ids.len() as int);
                        }
                    }
                }
                assert forall|b: CodeBlockId| #[trigger]
                    after.blocks_known(t).contains_key(b) && !v.blocks_known(t).contains_key(
                        b,
                    ) implies !v.block_ids.contains(b) by {
                    if !s.blocks_known(t).contains_key(b) && v.block_ids.contains(b) {
                        assert(b == id);
                        lemma_next_ids(after.block_ids, t.block_ids);
                        let k = v.block_ids.index_of(b);
                        assert(v.block_ids[k] == b);
                        assert(after.block_ids[k] == b);
                        let last = s.block_ids.len() as int;
                        assert(after.block_ids[last] == b);
                        assert(after.block_ids[k].id != after.block_ids[last].id);
                    }
                }
                assert forall|k: int|
                    0 <= k < ids@.len() && v.has_match(t, more[k]@) implies v.blocks_known(
                    t,
                ).contains_key(#[trigger] ids@[k]) by {
                    if k < i {
                        assert(ids@[k] == done[k]);
                        assert(v.has_match(t, less[k]@));
                    } else {
                        let other = choose|other: CodeBlockId| #[trigger]
                            v.is_match(t, record, other);
                        assert(s.blocks_known(t).contains_key(other));
                        assert(s.is_match(t, record, other));
                        assert(s.has_match(t, record));
                        if !v.blocks_known(t).contains_key(id) {
                            assert(s.blocks_known(t).contains_key(id));
                            assert(is_needed(v, s, t, less, id));
                            let m = choose|m: int|
                                0 <= m < less.len() && s.blocks_known(t)[id] == (
                                #[trigger] less[m])@.under(id) && !v.has_match(t, less[m]@);
                            lemma_under_injective(less[m]@, record, id);
                        }
                    }
                }
                assert forall|b: CodeBlockId| #[trigger]
                    after.blocks_known(t).contains_key(b) && !v.blocks_known(t).contains_key(
                        b,
                    ) implies is_needed(v, after, t, more, b) by {
                    if s.blocks_known(t).contains_key(b) {
                        assert(is_needed(v, s, t, less, b));
                        let m = choose|m: int|
                            0 <= m < less.len() && s.blocks_known(t)[b] == (
                            #[trigger] less[m])@.under(b) && !v.has_match(t, less[m]@);
                        assert(more[m] == less[m]);
                        assert(after.blocks_known(t)[b] == s.blocks_known(t)[b]) by {
                            if b == id && s.has_match(t, record) {
                                assert(s.is_match(t, record, id));
                            }
                        }
                    } else {
                        assert(b == id);
                        assert(!s.has_match(t, record));
                        if v.has_match(t, record) {
                            let other = choose|other: CodeBlockId| #[trigger]
                                v.is_match(t, record, other);
                            assert(s.is_match(t, record, other));
                        }
                        assert(more[i as int]@ == record);
                    }
                }
            }
            i = i + 1;
        }
        assert(records@.take(i as int) =~= records@);
        ids
    }
}

/// A block that is still to be handed out is not one that there is or will be.
proof fn lemma_awaited(v: StagingView, t: TablesView, at: int)
    requires
        blocks_staged(v, t),
        v.block_ids.len() <= at < t.block_ids.room(),
        t.block_ids.wf(),
        forall|b: CodeBlockId| #[trigger]
            t.blocks.contains_key(b) ==> t.block_ids.in_use(b.id as int),
    ensures
        !v.blocks_known(t).contains_key(t.block_ids.pending(at)),
{
    let id = t.block_ids.pending(at);
    let ids = Seq::new((at + 1) as nat, |i: int| t.block_ids.pending(i));
    lemma_next_ids(ids, t.block_ids);
    assert(ids[at] == id);
    if v.blocks.contains_key(id) && v.blocks[id].block is Some {
        let i = v.block_ids.index_of(id);
        assert(v.block_ids[i] == id);
        assert(ids[i] == id);
        assert(ids[i].id != ids[at].id);
    }
}

/// Records of one block are the same record.
proof fn lemma_under_injective(a: CodeBlockRecordView, b: CodeBlockRecordView, id: CodeBlockId)
    requires
        a.under(id) == b.under(id),
    ensures
        a == b,
{
}

/// Whether a function is the recorded one, made of some blocks.
pub open spec fn is_materialised(record: FunctionRecord, function: FunctionView, id: FunctionId) -> bool {
    let ids = member_ids(function.blocks);
    &&& function.blocks == record_members(record, ids)
    &&& sorts(function.edges, record_edges(record, ids))
    &&& function == (FunctionView {
        entry_block: match record.entry_block {
            Some(i) => ids[i as int],
            None => CodeBlockId::none(),
        },
        blocks: function.blocks,
        edges: function.edges,
        properties: record.properties,
        origin: record.origin,
        confidence: record.confidence,
        input_revision: record.input_revision,
        tail_call_sites: record.tail_call_sites@,
        ..blank_function(id, record.entry, record.name)
    })
}

impl FunctionTableStaging {
    /// Looks up the blocks of the table that begin where recorded blocks do.
    pub fn load_existing_block_locations(
        &mut self,
        functions: &FunctionTable,
        blocks: &CodeBlockTable,
        record: &FunctionRecord,
    )
        requires
            old(self).wf(functions, blocks),
        ensures
            final(self).wf(functions, blocks),
            final(self)@ == (StagingView { locations: final(self)@.locations, ..old(self)@ }),
            forall|a: Address| #[trigger]
                final(self)@.locations.contains_key(a) <==> old(self)@.locations.contains_key(a)
                    || (record_begins(record.blocks@, a) && some_begins(blocks@, a)),
            forall|a: Address| #[trigger]
                old(self)@.locations.contains_key(a) ==> final(self)@.locations[a] == old(
                    self,
                )@.locations[a],
            forall|a: Address, id: CodeBlockId|
                final(self)@.locations.contains_key(a) && !old(self)@.locations.contains_key(a)
                    ==> (#[trigger] final(self)@.locations[a].contains(id) <==> blocks@.contains_key(
                    id,
                ) && blocks@[id].start == a),
    {
        let ghost t = tables(functions, blocks);
        let ghost v = self@;
        let mut starts: Vec<Address> = Vec::new();
        let mut i: usize = 0;
        while i < record.blocks.len()
            invariant
                i <= record.blocks@.len(),
                self@ == v,
                forall|a: Address| #[trigger]
                    starts@.contains(a) <==> record_begins(record.blocks@.take(i as int), a)
                        && !v.locations.contains_key(a),
            decreases record.blocks@.len() - i,
        {
            let address: Address = record.blocks[i].address();
            let ghost before = starts@;
            if !self.block_locations.contains(address) {
                starts.push(address);
            }
            proof {
                let (less, more) = (record.blocks@.take(i as int), record.blocks@.take(i + 1));
                assert forall|a: Address| #[trigger]
                    starts@.contains(a) <==> record_begins(more, a) && !v.locations.contains_key(
                        a,
                    ) by {
                    lemma_push_contains(before, address, a);
                    assert(before.contains(a) <==> record_begins(less, a)
                        && !v.locations.contains_key(a));
                    if record_begins(less, a) {
                        let k = choose|k: int|
                            0 <= k < less.len() && (#[trigger] less[k]).address == a;
                        assert(more[k].address == a);
                    }
                    if record_begins(more, a) {
                        let k = choose|k: int|
                            0 <= k < more.len() && (#[trigger] more[k]).address == a;
                        if k < i {
                            assert(less[k].address == a);
                        }
                    }
                    assert(more[i as int].address == address);
                }
            }
            i = i + 1;
        }
        assert(record.blocks@.take(i as int) =~= record.blocks@);
        let sorted: Vec<Address> = sort_keys(&starts);
        proof {
            assert forall|x: int, y: int|
                0 <= x < sorted@.len() && 0 <= y < sorted@.len() && x != y implies sorted@[x]
                != sorted@[y] by {
                if x < y {
                    assert(sorted@[x].rank() < sorted@[y].rank());
                } else {
                    assert(sorted@[y].rank() < sorted@[x].rank());
                }
            }
        }
        let located: CodeBlockIdsByStart = blocks.get_ids_by_address(&sorted);
        self.block_locations.append(&located);
        proof {
            let after = self@;
            blocks.lemma_wf();
            assert(after =~= (StagingView { locations: after.locations, ..v }));
            assert(after.blocks_known(t) =~= v.blocks_known(t));
            assert(after.functions_now(t) =~= v.functions_now(t));
            assert(after.index_now(t) =~= v.index_now(t));
            assert forall|a: Address| #[trigger] after.locations.contains_key(a) implies (
            after.locations[a] == if v.locations.contains_key(a) {
                v.locations[a]
            } else {
                located@[a]
            }) by {
                if v.locations.contains_key(a) {
                    assert(!starts@.contains(a));
                    assert(!located@.contains_key(a));
                    assert(after.locations[a] =~= v.locations[a]);
                } else {
                    assert(after.locations[a] =~= located@[a]);
                }
            }
            assert forall|a: Address| #[trigger] v.locations.contains_key(a) implies after.locations[a]
                == v.locations[a] by {
                assert(after.locations.contains_key(a));
            }
            assert forall|a: Address, k: int|
                after.locations.contains_key(a) && 0 <= k < after.locations[a].len() implies after.blocks_known(
                t,
            ).contains_key(#[trigger] after.locations[a][k]) && after.blocks_known(
                t,
            )[after.locations[a][k]].start == a by {
                let id = after.locations[a][k];
                if v.locations.contains_key(a) {
                    assert(v.locations[a][k] == id);
                } else {
                    assert(located@[a].contains(id));
                    if v.blocks.contains_key(id) && v.blocks[id].block is Some {
                        lemma_next_ids(v.block_ids, t.block_ids);
                        let m = v.block_ids.index_of(id);
                        assert(v.block_ids[m] == id);
                        blocks.lemma_wf();
                    }
                }
            }
            assert(blocks_located(after, t));
        }
    }

    /// Stages the function that was recorded, with its blocks.
    pub fn stage_materialisation(
        &mut self,
        functions: &FunctionTable,
        blocks: &CodeBlockTable,
        record: FunctionRecord,
    ) -> (changed: StagedFunctionChangeRecord)
        requires
            old(self).wf(functions, blocks),
            record.wf(),
            forall|i: int|
                0 <= i < record.blocks@.len() ==> spans(
                    (#[trigger] record.blocks@[i]).address,
                    record.blocks@[i].size as int,
                ),
            old(self)@.block_ids.len() + record.blocks@.len() <= blocks.ids().room(),
            !old(self)@.index_now(tables(functions, blocks)).contains_key(record.entry) ==> old(
                self,
            )@.function_ids.len() < functions.ids().room(),
        ensures
            final(self).wf(functions, blocks),
            ({
                let t = tables(functions, blocks);
                let v = old(self)@;
                let after = final(self)@;
                let id = v.target(t, record.entry);
                let staged = after.functions_now(t)[id];
                let earlier = v.previous(t, record.entry);
                &&& after.function_ids == v.with_claim(t, record.entry).function_ids
                &&& after.cancelled_functions == v.cancelled_functions
                &&& cancels(v, after)
                &&& exists|resolved: StagingView|
                    {
                        &&& #[trigger] resolved_in_turn(
                            v.with_claim(t, record.entry),
                            t,
                            record.blocks@,
                            member_ids(staged.blocks),
                            resolved,
                        )
                        &&& after == resolved.with_change(
                            t,
                            staged,
                            earlier,
                            earlier is Some ==> v.is_new_function(id),
                            changed.affected_blocks@,
                        )
                    }
                &&& is_materialised(record, staged, id)
                &&& after.functions_now(t) == v.functions_now(t).insert(id, staged)
                &&& after.index_now(t) == v.index_now(t).insert(record.entry, id)
                &&& forall|i: int|
                    0 <= i < record.blocks@.len() ==> after.blocks_now(t).contains_key(
                        (#[trigger] staged.blocks[i]).1,
                    ) && after.blocks_now(t)[staged.blocks[i].1] == record.blocks@[i]@.under(
                        staged.blocks[i].1,
                    )
                &&& forall|i: int|
                    0 <= i < record.blocks@.len() && v.has_match(t, record.blocks@[i]@)
                        ==> v.blocks_known(t).contains_key((#[trigger] staged.blocks[i]).1)
                &&& forall|b: CodeBlockId|
                    !lists_block(staged.blocks, b) ==> (#[trigger] after.blocks_now(t).contains_key(
                        b,
                    ) == (v.blocks_now(t).contains_key(b) && !(lists_block(
                        blocks_of_option(earlier),
                        b,
                    ) && is_idle(after.functions_now(t), b)))) && (after.blocks_now(
                        t,
                    ).contains_key(b) ==> after.blocks_now(t)[b] == v.blocks_now(t)[b])
                &&& changed.id == id
                &&& changed.replaces_existing == (earlier is Some && !v.is_new_function(id))
                &&& changed.call_targets == record.call_targets
                &&& changed.coverage == record.coverage
                &&& changed.references == record.references
                &&& changed.previous_coverage.wf()
                &&& forall|a: Address| #[trigger]
                    changed.previous_coverage@.contains(a) <==> covered(
                        v.blocks_now(t),
                        blocks_of_option(earlier),
                        a,
                    )
                &&& sorts(
                    changed.affected_blocks@,
                    member_ids(blocks_of_option(earlier)) + member_ids(staged.blocks),
                )
            }),
    {
        let ghost t = tables(functions, blocks);
        let ghost v = self@;
        let ghost given = record;
        let mut record: FunctionRecord = record;
        let entry: Address = record.entry();
        let previous: Option<Function> = self.function_by_address(functions, blocks, entry);
        let (id, is_new): (FunctionId, bool) = self.claim(functions, blocks, &previous, entry);
        let ghost claimed = self@;
        let call_targets: SortedSet<Address> = record.take_call_targets();
        let coverage: AddressRangeSet = record.take_coverage();
        let references: Vec<Reference> = record.take_references();
        let ids: Vec<CodeBlockId> = self.resolve_blocks(functions, blocks, &record.blocks);
        let ghost resolved = self@;
        let function: Function = record.materialise(id, &ids);
        let changed = StagedFunctionChangeRecord {
            affected_blocks: Vec::new(),
            call_targets,
            coverage,
            id,
            previous_coverage: AddressRangeSet::new(),
            references,
            replaces_existing: !is_new,
        };
        let ghost staged = function@;
        proof {
            assert(claimed.blocks_now(t) =~= v.blocks_now(t));
            assert(claimed.blocks_known(t) =~= v.blocks_known(t));
            assert(claimed.functions_now(t) =~= v.functions_now(t));
            assert(claimed.index_now(t) =~= v.index_now(t));
            assert(member_ids(staged.blocks) =~= ids@);
            assert(record_members(given, ids@) =~= record_members(record, ids@));
            assert(is_materialised(given, staged, id));
            assert forall|b: CodeBlockId| #[trigger]
                lists_block(staged.blocks, b) <==> ids@.contains(b) by {
                lemma_member_ids(staged.blocks, b);
            }
            assert forall|b: CodeBlockId| lists_block(function.blocks@, b) implies #[trigger] resolved.blocks_known(
                t,
            ).contains_key(b) by {
                assert(ids@.contains(b));
                let i = ids@.index_of(b);
                assert(resolved.blocks_now(t).contains_key(ids@[i]));
            }
            assert(resolved.takes_change(t, staged, option_view(previous), is_new)) by {
                assert(claimed.takes_change(t, staged, option_view(previous), is_new));
            }
        }
        let changed: StagedFunctionChangeRecord = self.stage_change(
            functions,
            blocks,
            function,
            previous,
            is_new,
            changed,
        );
        proof {
            let after = self@;
            let earlier = v.previous(t, entry);
            assert(after.functions_now(t)[id] == staged);
            assert(resolved_in_turn(claimed, t, given.blocks@, member_ids(staged.blocks), resolved));
            blocks.lemma_wf();
            assert forall|b: CodeBlockId| ids@.contains(b) implies #[trigger] after.blocks_now(
                t,
            ).contains_key(b) by {
                assert(lists_block(staged.blocks, b));
                let i = ids@.index_of(b);
                assert(resolved.blocks_now(t).contains_key(ids@[i]));
            }
            lemma_materialised_cancels(v, resolved, after, t, ids@);
            let previous_blocks = blocks_of_option(earlier);
            blocks.lemma_wf();
            assert forall|b: CodeBlockId| lists_block(previous_blocks, b) implies (
            #[trigger] resolved.blocks_now(t).contains_key(b) == v.blocks_now(t).contains_key(b))
                && (v.blocks_now(t).contains_key(b) ==> resolved.blocks_now(t)[b] == v.blocks_now(
                t,
            )[b]) by {
                lemma_listed_known(v, t, v.index_now(t)[entry], b);
                if ids@.contains(b) {
                    let i = ids@.index_of(b);
                    assert(ids@[i] == b);
                    assert(resolved.blocks_known(t)[b] == resolved.blocks_now(t)[b]);
                    if !v.blocks_known(t).contains_key(b) {
                        lemma_only_reserved(v, resolved, t, b);
                    }
                }
            }
            assert forall|a: Address| #[trigger]
                changed.previous_coverage@.contains(a) <==> covered(
                    v.blocks_now(t),
                    previous_blocks,
                    a,
                ) by {
                lemma_same_covered(v.blocks_now(t), resolved.blocks_now(t), previous_blocks, a);
            }
            assert forall|i: int| 0 <= i < given.blocks@.len() implies after.blocks_now(
                t,
            ).contains_key((#[trigger] staged.blocks[i]).1) && after.blocks_now(
                t,
            )[staged.blocks[i].1] == given.blocks@[i]@.under(staged.blocks[i].1) by {
                assert(staged.blocks[i].1 == ids@[i]);
                assert(lists_block(staged.blocks, ids@[i]));
                assert(resolved.blocks_now(t).contains_key(ids@[i]));
                assert(resolved.blocks_known(t).contains_key(ids@[i]));
                assert(resolved.blocks_known(t)[ids@[i]] == resolved.blocks_now(t)[ids@[i]]);
            }
            assert forall|i: int|
                0 <= i < given.blocks@.len() && v.has_match(
                    t,
                    given.blocks@[i]@,
                ) implies v.blocks_known(t).contains_key((#[trigger] staged.blocks[i]).1) by {
                assert(staged.blocks[i].1 == ids@[i]);
                let other = choose|other: CodeBlockId| #[trigger]
                    v.is_match(t, given.blocks@[i]@, other);
                assert(claimed.is_match(t, given.blocks@[i]@, other));
                assert(claimed.has_match(t, given.blocks@[i]@));
            }
            assert forall|b: CodeBlockId| !lists_block(staged.blocks, b) implies (
            #[trigger] after.blocks_now(t).contains_key(b) == (v.blocks_now(t).contains_key(b) && !(
            lists_block(blocks_of_option(earlier), b) && is_idle(after.functions_now(t), b)))) && (
            after.blocks_now(t).contains_key(b) ==> after.blocks_now(t)[b] == v.blocks_now(
                t,
            )[b]) by {
                assert(!ids@.contains(b));
                assert(resolved.blocks_now(t).contains_key(b) == v.blocks_now(t).contains_key(b));
                if resolved.blocks_now(t).contains_key(b) {
                    assert(resolved.blocks_known(t)[b] == resolved.blocks_now(t)[b]);
                }
            }
        }
        changed
    }
}

/// The identities that are cancelled when recorded blocks have been found or staged and idle
/// ones have gone are those of blocks that were staged before.
proof fn lemma_materialised_cancels(
    v: StagingView,
    resolved: StagingView,
    after: StagingView,
    t: TablesView,
    ids: Seq<CodeBlockId>,
)
    requires
        blocks_staged(v, t),
        blocks_staged(resolved, t),
        blocks_staged(after, t),
        t.block_ids.wf(),
        forall|b: CodeBlockId| #[trigger]
            t.blocks.contains_key(b) ==> t.block_ids.in_use(b.id as int),
        resolved.cancelled_blocks == v.cancelled_blocks,
        after.block_ids == resolved.block_ids,
        v.block_ids.len() <= resolved.block_ids.len(),
        forall|i: int|
            0 <= i < v.block_ids.len() ==> #[trigger] resolved.block_ids[i] == v.block_ids[i],
        forall|b: CodeBlockId|
            !ids.contains(b) ==> (#[trigger] resolved.blocks_now(t).contains_key(b)
                == v.blocks_now(t).contains_key(b)),
        forall|b: CodeBlockId| #[trigger]
            resolved.blocks_known(t).contains_key(b) && !v.blocks_known(t).contains_key(b)
                ==> !v.block_ids.contains(b),
        forall|b: CodeBlockId| ids.contains(b) ==> #[trigger] after.blocks_now(t).contains_key(b),
        forall|b: CodeBlockId| #[trigger]
            after.blocks_now(t).contains_key(b) ==> resolved.blocks_known(t).contains_key(b),
    ensures
        cancels(v, after),
{
    lemma_next_ids(resolved.block_ids, t.block_ids);
    assert forall|id: CodeBlockId| #[trigger] v.block_ids.contains(id) implies after.block_ids.contains(
        id,
    ) && (after.blocks_now(t).contains_key(id) ==> v.blocks_known(t).contains_key(id)) by {
        let i = v.block_ids.index_of(id);
        assert(resolved.block_ids[i] == id);
        if after.blocks_now(t).contains_key(id) {
            assert(resolved.blocks_known(t).contains_key(id));
        }
    }
    assert forall|id: CodeBlockId| #[trigger]
        after.block_ids.contains(id) && !v.block_ids.contains(id) implies after.is_new_block(id) by {
        let i = resolved.block_ids.index_of(id);
        assert(resolved.block_ids[i] == id);
        assert(!t.blocks.contains_key(id));
        assert(resolved.block_ids.contains(id));
        assert(resolved.is_new_block(id));
        assert(resolved.blocks_now(t).contains_key(id));
        if !ids.contains(id) {
            assert(v.blocks_now(t).contains_key(id));
        }
        assert(after.blocks_now(t).contains_key(id));
    }
    lemma_cancels(v, after, t);
}

/// A block that a function will have is not to go.
pub proof fn lemma_listed_known(v: StagingView, t: TablesView, function: FunctionId, b: CodeBlockId)
    requires
        blocks_staged(v, t),
        holders_agree(v.holders_now(t), v.functions_now(t)),
        v.functions_now(t).contains_key(function),
        lists_block(v.functions_now(t)[function].blocks, b),
    ensures
        v.blocks_now(t).contains_key(b) == v.blocks_known(t).contains_key(b),
        v.blocks_now(t).contains_key(b) ==> v.blocks_now(t)[b] == v.blocks_known(t)[b],
{
    assert(held(v.holders_now(t), b).contains(function));
}

/// A block that comes in addition was still to be handed out.
proof fn lemma_only_reserved(v: StagingView, after: StagingView, t: TablesView, b: CodeBlockId)
    requires
        blocks_staged(v, t),
        blocks_staged(after, t),
        none_awaited(v, t),
        v.block_ids.len() <= after.block_ids.len(),
        forall|i: int|
            0 <= i < v.block_ids.len() ==> #[trigger] after.block_ids[i] == v.block_ids[i],
        !v.blocks_known(t).contains_key(b),
        after.blocks_known(t).contains_key(b),
    ensures
        v.block_ids.contains(b) || is_idle(v.functions_now(t), b),
{
    let i = after.block_ids.index_of(b);
    assert(after.block_ids[i] == b);
    if i < v.block_ids.len() {
        assert(v.block_ids[i] == b);
    } else {
        assert(t.block_ids.pending(i) == b);
    }
}

/// What lies in members depends on the members alone.
proof fn lemma_same_covered(
    a: Map<CodeBlockId, CodeBlockView>,
    b: Map<CodeBlockId, CodeBlockView>,
    members: Seq<(Address, CodeBlockId)>,
    address: Address,
)
    requires
        forall|id: CodeBlockId|
            lists_block(members, id) ==> (#[trigger] b.contains_key(id) == a.contains_key(id)) && (
            a.contains_key(id) ==> b[id] == a[id]),
    ensures
        covered(a, members, address) <==> covered(b, members, address),
{
    if covered(a, members, address) {
        let i = choose|i: int|
            0 <= i < members.len() && a.contains_key((#[trigger] members[i]).1)
                && a[members[i].1].range().holds(address);
        assert(lists_block(members, members[i].1));
        assert(b.contains_key(members[i].1));
    }
    if covered(b, members, address) {
        let i = choose|i: int|
            0 <= i < members.len() && b.contains_key((#[trigger] members[i]).1)
                && b[members[i].1].range().holds(address);
        assert(lists_block(members, members[i].1));
    }
}

/// Whether one of the recorded blocks begins at an address.
pub open spec fn record_begins(records: Seq<CodeBlockRecord>, address: Address) -> bool {
    exists|i: int| 0 <= i < records.len() && (#[trigger] records[i]).address == address
}

/// The functions once one of them is another or is no more.
pub open spec fn with_function(
    functions: Map<FunctionId, FunctionView>,
    id: FunctionId,
    function: Option<FunctionView>,
) -> Map<FunctionId, FunctionView> {
    match function {
        Some(function) => functions.insert(id, function),
        None => functions.remove(id),
    }
}

/// What entries lead to once a function is no more.
pub open spec fn with_entry(
    index: Map<Address, FunctionId>,
    entry: Address,
    id: FunctionId,
    stays: bool,
) -> Map<Address, FunctionId> {
    if stays {
        index.insert(entry, id)
    } else {
        index.remove(entry)
    }
}

impl FunctionTableStaging {
    /// Lets a function with the same entry and blocks take the place of one that will be there,
    /// or none.
    fn stage_function(
        &mut self,
        functions: &FunctionTable,
        blocks: &CodeBlockTable,
        id: FunctionId,
        previous: &Function,
        function: Option<Function>,
    )
        requires
            old(self).wf(functions, blocks),
            old(self)@.functions_now(tables(functions, blocks)).contains_key(id),
            previous@ == old(self)@.functions_now(tables(functions, blocks))[id],
            function matches Some(f) ==> f.id == id && f.entry == previous.entry && f.blocks@
                == previous.blocks@ && f@.wf(),
        ensures
            final(self).parts_wf(),
            ({
                let t = tables(functions, blocks);
                let v = old(self)@;
                let after = final(self)@;
                let now = with_function(v.functions_now(t), id, option_view(function));
                &&& blocks_staged(after, t)
                &&& blocks_located(after, t)
                &&& originals_kept(after, t)
                &&& after.functions == v.functions.insert(
                    id,
                    StagedFunctionView {
                        function: option_view(function),
                        is_new: v.is_new_function(id),
                    },
                )
                &&& after.function_ids == v.function_ids
                &&& after.cancelled_functions == v.cancelled_functions
                &&& after.block_ids == v.block_ids
                &&& cancels(v, after)
                &&& after == v.with_replacement(t, id, previous@, option_view(function))
                &&& after.functions_now(t) == now
                &&& after.index_now(t) == with_entry(
                    v.index_now(t),
                    previous.entry,
                    id,
                    function is Some,
                )
                &&& found_by_entry(after.index_now(t), now)
                &&& holders_agree(after.holders_now(t), now)
                &&& after.blocks_now(t) == v.blocks_after(
                    t,
                    previous.blocks@,
                    blocks_of_option(option_view(function)),
                    now,
                )
                &&& none_awaited(after, t)
            }),
    {
        let ghost t = tables(functions, blocks);
        let ghost v = self@;
        let ghost given = option_view(function);
        let ghost members = blocks_of_option(given);
        let ghost before = previous.blocks@;
        let ghost now = with_function(v.functions_now(t), id, given);
        let entry: Address = previous.entry();
        proof {
            functions.lemma_sound();
            blocks.lemma_wf();
            assert(v.functions_now(t)[id].id == id);
            assert(v.index_now(t)[entry] == id);
        }
        self.drop_members(functions, blocks, previous.blocks.as_slice(), id);
        let ghost dropped = self@;
        let ghost mut joined = self@;
        match &function {
            Some(function) => {
                self.add_members(functions, blocks, function.blocks.as_slice(), id);
                proof {
                    joined = self@;
                }
                self.stage_entry(entry, Some(id));
            },
            None => {
                self.stage_entry(entry, None);
            },
        }
        let ghost added = self@;
        proof {
            assert(dropped.blocks_now(t) =~= v.blocks_now(t));
            assert(dropped.blocks_known(t) =~= v.blocks_known(t));
            assert forall|b: CodeBlockId, f: FunctionId| #[trigger]
                held(added.holders_now(t), b).contains(f) <==> (held(v.holders_now(t), b).contains(
                    f,
                ) && !(f == id && lists_block(before, b))) || (f == id && lists_block(members, b)) by {
                assert(held(dropped.holders_now(t), b).contains(f) <==> held(
                    v.holders_now(t),
                    b,
                ).contains(f) && !(f == id && lists_block(before, b)));
                assert(added.holders_now(t) == joined.holders_now(t));
                if given is Some {
                    assert(held(joined.holders_now(t), b).contains(f) <==> held(
                        dropped.holders_now(t),
                        b,
                    ).contains(f) || (f == id && lists_block(members, b)));
                }
            }
        }
        let is_new: bool = self.new_function(id);
        self.stage_record(id, StagedFunctionRecord { function, is_new });
        let ghost staged = self@;
        let ids: Vec<CodeBlockId> = ids_of(previous.blocks.as_slice());
        self.drop_idle(functions, blocks, &ids);
        proof {
            let after = self@;
            lemma_idle_dropped(joined, staged, t, ids@);
            assert(after =~= v.with_replacement(t, id, previous@, given));
            assert(staged.holders_now(t) == added.holders_now(t));
            assert(staged.blocks_now(t) =~= added.blocks_now(t));
            assert(staged.functions_now(t) =~= now);
            assert(after.functions_now(t) =~= now);
            assert(after.index_now(t) =~= with_entry(v.index_now(t), entry, id, given is Some));
            assert forall|b: CodeBlockId, f: FunctionId| #[trigger]
                held(after.holders_now(t), b).contains(f) <==> now.contains_key(f) && lists_block(
                    now[f].blocks,
                    b,
                ) by {
                assert(held(after.holders_now(t), b) == held(staged.holders_now(t), b));
                assert(held(added.holders_now(t), b).contains(f) <==> (held(
                    v.holders_now(t),
                    b,
                ).contains(f) && !(f == id && lists_block(before, b))) || (f == id && lists_block(
                    members,
                    b,
                )));
                assert(held(v.holders_now(t), b).contains(f) <==> v.functions_now(t).contains_key(f)
                    && lists_block(v.functions_now(t)[f].blocks, b));
            }
            assert forall|other: FunctionId| #[trigger] now.contains_key(other) implies now[other].id
                == other && after.index_now(t).contains_key(now[other].entry) && after.index_now(
                t,
            )[now[other].entry] == other by {
                if other != id {
                    assert(v.functions_now(t).contains_key(other));
                }
            }
            assert forall|e: Address| #[trigger] after.index_now(t).contains_key(e) implies now.contains_key(
                after.index_now(t)[e],
            ) && now[after.index_now(t)[e]].entry == e by {
                if e != entry {
                    assert(v.index_now(t).contains_key(e));
                }
            }
            assert forall|b: CodeBlockId| #[trigger]
                after.blocks_now(t).contains_key(b) <==> v.blocks_after(
                    t,
                    before,
                    members,
                    now,
                ).contains_key(b) by {
                lemma_idle(after.holders_now(t), now, b);
                lemma_member_ids(before, b);
                assert(held(after.holders_now(t), b) == held(staged.holders_now(t), b));
                if lists_block(members, b) {
                    assert(held(added.holders_now(t), b).contains(id));
                }
                assert(staged.blocks_now(t).contains_key(b) <==> if lists_block(members, b) {
                    v.blocks_known(t).contains_key(b)
                } else {
                    v.blocks_now(t).contains_key(b)
                });
            }
            assert forall|b: CodeBlockId| #[trigger] after.blocks_now(t).contains_key(b) implies after.blocks_now(
                t,
            )[b] == v.blocks_known(t)[b] by {
                assert(staged.blocks_now(t).contains_key(b));
                assert(staged.blocks_now(t)[b] == after.blocks_now(t)[b]);
            }
            assert(after.blocks_now(t) =~= v.blocks_after(t, before, members, now));
            lemma_cancels(v, after, t);
            assert forall|i: int|
                after.block_ids.len() <= i < t.block_ids.room() implies is_idle(
                now,
                #[trigger] t.block_ids.pending(i),
            ) by {
                let b = t.block_ids.pending(i);
                assert(is_idle(v.functions_now(t), b));
                assert forall|other: FunctionId| #[trigger] now.contains_key(other) implies !lists_block(
                    now[other].blocks,
                    b,
                ) by {
                    assert(v.functions_now(t).contains_key(other));
                }
            }
        }
    }

    /// Gives the function with an entry other properties. The addresses of its blocks come back
    /// where they were not the same before.
    pub fn set_properties(
        &mut self,
        functions: &FunctionTable,
        blocks: &CodeBlockTable,
        entry: Address,
        properties: FunctionProperties,
        input_revision: Revision,
    ) -> (coverage: Option<AddressRangeSet>)
        requires
            old(self).wf(functions, blocks),
        ensures
            final(self).wf(functions, blocks),
            ({
                let t = tables(functions, blocks);
                let v = old(self)@;
                let after = final(self)@;
                let id = v.index_now(t)[entry];
                let function = v.functions_now(t)[id];
                &&& coverage is Some == (v.index_now(t).contains_key(entry) && function.properties
                    != properties)
                &&& match coverage {
                    Some(coverage) => {
                        &&& coverage.wf()
                        &&& forall|a: Address| #[trigger]
                            coverage@.contains(a) <==> covered(v.blocks_now(t), function.blocks, a)
                        &&& after.functions_now(t) == v.functions_now(t).insert(
                            id,
                            FunctionView { properties, input_revision, ..function },
                        )
                        &&& after.index_now(t) == v.index_now(t)
                        &&& after.blocks_now(t) == v.blocks_now(t)
                        &&& after.function_ids == v.function_ids
                        &&& after.block_ids == v.block_ids
                        &&& after.cancelled_functions == v.cancelled_functions
                        &&& after.cancelled_blocks == v.cancelled_blocks
                        &&& after == v.with_replacement(
                            t,
                            id,
                            function,
                            Some(FunctionView { properties, input_revision, ..function }),
                        )
                    },
                    None => after == v,
                }
            }),
    {
        let ghost t = tables(functions, blocks);
        let ghost v = self@;
        let previous: Function = match self.function_by_address(functions, blocks, entry) {
            Some(function) => function,
            None => {
                return None;
            },
        };
        if previous.properties() == properties {
            return None;
        }
        let coverage: AddressRangeSet = self.coverage(
            functions,
            blocks,
            previous.blocks.as_slice(),
        );
        let id: FunctionId = previous.id();
        let mut function: Function = previous.clone();
        function.set_properties(properties);
        function.set_input_revision(input_revision);
        let ghost changed = function@;
        proof {
            assert(v.functions_now(t).contains_key(id));
        }
        self.stage_function(functions, blocks, id, &previous, Some(function));
        proof {
            let after = self@;
            assert(changed == (FunctionView { properties, input_revision, ..previous@ }));
            assert(after.index_now(t) =~= v.index_now(t));
            assert forall|b: CodeBlockId| #[trigger]
                after.blocks_now(t).contains_key(b) <==> v.blocks_now(t).contains_key(b) by {
                if lists_block(changed.blocks, b) {
                    lemma_listed_known(v, t, id, b);
                }
            }
            assert forall|b: CodeBlockId| #[trigger] after.blocks_now(t).contains_key(b) implies after.blocks_now(
                t,
            )[b] == v.blocks_now(t)[b] by {
                if lists_block(changed.blocks, b) {
                    lemma_listed_known(v, t, id, b);
                }
                assert(v.blocks_now(t).contains_key(b));
            }
            assert(after.blocks_now(t) =~= v.blocks_now(t));
            lemma_function_staged(v, after, t, id, changed);
            assert forall|b: CodeBlockId| #[trigger]
                after.cancelled_blocks.contains(b) <==> v.cancelled_blocks.contains(b) by {
                if v.is_new_block(b) {
                    assert(v.blocks_now(t).contains_key(b));
                    assert(after.blocks_now(t).contains_key(b));
                    blocks.lemma_wf();
                    lemma_next_ids(v.block_ids, t.block_ids);
                    let i = v.block_ids.index_of(b);
                    assert(v.block_ids[i] == b);
                }
            }
            assert(after.cancelled_blocks =~= v.cancelled_blocks);
        }
        Some(coverage)
    }

    /// Lets a function go. Blocks that no other function has go with it.
    pub fn remove(
        &mut self,
        functions: &FunctionTable,
        blocks: &CodeBlockTable,
        id: FunctionId,
    ) -> (removed: Option<StagedFunctionRemovalRecord>)
        requires
            old(self).wf(functions, blocks),
        ensures
            final(self).wf(functions, blocks),
            ({
                let t = tables(functions, blocks);
                let v = old(self)@;
                let after = final(self)@;
                let function = v.functions_now(t)[id];
                &&& removed is Some == v.functions_now(t).contains_key(id)
                &&& match removed {
                    Some(record) => {
                        &&& record.function@ == function
                        &&& record.coverage.wf()
                        &&& forall|a: Address| #[trigger]
                            record.coverage@.contains(a) <==> covered(
                                v.blocks_now(t),
                                function.blocks,
                                a,
                            )
                        &&& after.functions_now(t) == v.functions_now(t).remove(id)
                        &&& after.index_now(t) == v.index_now(t).remove(function.entry)
                        &&& after.blocks_now(t) == v.blocks_after(
                            t,
                            function.blocks,
                            Seq::empty(),
                            after.functions_now(t),
                        )
                        &&& after.function_ids == v.function_ids
                        &&& after.block_ids == v.block_ids
                        &&& after.cancelled_functions == (if v.is_new_function(id) {
                            v.cancelled_functions.insert(id)
                        } else {
                            v.cancelled_functions
                        })
                        &&& cancels(v, after)
                        &&& after == (StagingView {
                            functions: after.functions,
                            cancelled_functions: after.cancelled_functions,
                            ..v.with_replacement(t, id, function, None)
                        })
                        &&& after.functions == (if v.is_new_function(id) {
                            v.functions.remove(id)
                        } else {
                            v.functions.insert(
                                id,
                                StagedFunctionView { function: None, is_new: false },
                            )
                        })
                    },
                    None => after == v,
                }
            }),
    {
        let ghost t = tables(functions, blocks);
        let ghost v = self@;
        let function: Function = match self.function_by_id(functions, id) {
            Some(function) => function,
            None => {
                assert(!v.functions_now(t).contains_key(id));
                return None;
            },
        };
        assert(v.functions_now(t).contains_key(id));
        let coverage: AddressRangeSet = self.coverage(
            functions,
            blocks,
            function.blocks.as_slice(),
        );
        self.stage_function(functions, blocks, id, &function, None);
        let ghost staged = self@;
        if self.new_function(id) {
            self.staged_functions.remove(&id);
            self.cancelled_functions.insert(id);
        }
        proof {
            let after = self@;
            functions.lemma_sound();
            if v.is_new_function(id) {
                assert(after =~= (StagingView {
                    functions: staged.functions.remove(id),
                    cancelled_functions: staged.cancelled_functions.insert(id),
                    ..staged
                }));
                lemma_next_ids(v.function_ids, t.function_ids);
                let i = v.function_ids.index_of(id);
                assert(v.function_ids[i] == id);
                assert(!t.functions.contains_key(id));
            }
            assert(after.functions_now(t) =~= staged.functions_now(t));
            assert(after.index_now(t) =~= staged.index_now(t));
            assert(after.blocks_now(t) =~= staged.blocks_now(t));
            assert(after.blocks_known(t) =~= staged.blocks_known(t));
            assert(after.holders_now(t) =~= staged.holders_now(t));
            assert forall|other: FunctionId| #[trigger] after.functions.contains_key(other) implies {
                &&& after.functions[other].function matches Some(f) ==> f.id == other && f.wf()
                &&& after.functions[other].is_new ==> after.functions[other].function is Some
                    && after.function_ids.contains(other) && !after.cancelled_functions.contains(
                    other,
                )
                &&& !after.functions[other].is_new ==> t.functions.contains_key(other) && (
                after.functions[other].function matches Some(f) ==> f.entry
                    == t.functions[other].entry)
            } by {
                if other != id {
                    assert(v.functions.contains_key(other));
                }
            }
            assert(functions_staged(after, t));
            assert(after.functions =~= if v.is_new_function(id) {
                v.functions.remove(id)
            } else {
                v.functions.insert(id, StagedFunctionView { function: None, is_new: false })
            });
            assert(cancels(v, staged));
        }
        Some(StagedFunctionRemovalRecord { coverage, function })
    }
}

/// A function that takes the place of one with its entry is staged as that one was.
proof fn lemma_function_staged(
    v: StagingView,
    after: StagingView,
    t: TablesView,
    id: FunctionId,
    function: FunctionView,
)
    requires
        functions_staged(v, t),
        v.functions_now(t).contains_key(id),
        function.wf(),
        function.id == id,
        function.entry == v.functions_now(t)[id].entry,
        after.functions == v.functions.insert(
            id,
            StagedFunctionView { function: Some(function), is_new: v.is_new_function(id) },
        ),
        after.function_ids == v.function_ids,
        after.cancelled_functions == v.cancelled_functions,
    ensures
        functions_staged(after, t),
{
    assert forall|other: FunctionId| #[trigger] after.functions.contains_key(other) implies {
        &&& after.functions[other].function matches Some(f) ==> f.id == other && f.wf()
        &&& after.functions[other].is_new ==> after.functions[other].function is Some
            && after.function_ids.contains(other) && !after.cancelled_functions.contains(other)
        &&& !after.functions[other].is_new ==> t.functions.contains_key(other) && (
        after.functions[other].function matches Some(f) ==> f.entry == t.functions[other].entry)
    } by {
        if other != id {
            assert(v.functions.contains_key(other));
        }
    }
}

/// What was staged, in pieces.
pub struct StagedParts {
    pub functions: Vec<(FunctionId, StagedFunctionRecord)>,
    pub functions_ordered: bool,
    pub function_ids: Vec<FunctionId>,
    pub cancelled_functions: SortedSet<FunctionId>,
    pub blocks: Vec<(CodeBlockId, StagedCodeBlockRecord)>,
    pub blocks_ordered: bool,
    pub block_ids: Vec<CodeBlockId>,
    pub cancelled_blocks: SortedSet<CodeBlockId>,
    pub by_block: BlockHolders,
    pub original_by_block: BlockHolders,
}

/// Whether a list gives every staged function once.
pub open spec fn lists_functions(
    listed: Seq<(FunctionId, StagedFunctionRecord)>,
    functions: Map<FunctionId, StagedFunctionView>,
) -> bool {
    &&& forall|i: int|
        0 <= i < listed.len() ==> functions.contains_key((#[trigger] listed[i]).0)
            && functions[listed[i].0] == listed[i].1@
    &&& forall|i: int, j: int|
        0 <= i < j < listed.len() ==> (#[trigger] listed[i]).0 != (#[trigger] listed[j]).0
    &&& forall|id: FunctionId| #[trigger]
        functions.contains_key(id) ==> exists|i: int|
            0 <= i < listed.len() && (#[trigger] listed[i]).0 == id
}

/// Whether a list gives every staged block once.
pub open spec fn lists_blocks(
    listed: Seq<(CodeBlockId, StagedCodeBlockRecord)>,
    blocks: Map<CodeBlockId, StagedBlockView>,
) -> bool {
    &&& forall|i: int|
        0 <= i < listed.len() ==> blocks.contains_key((#[trigger] listed[i]).0)
            && blocks[listed[i].0] == listed[i].1@
    &&& forall|i: int, j: int|
        0 <= i < j < listed.len() ==> (#[trigger] listed[i]).0 != (#[trigger] listed[j]).0
    &&& forall|id: CodeBlockId| #[trigger]
        blocks.contains_key(id) ==> exists|i: int|
            0 <= i < listed.len() && (#[trigger] listed[i]).0 == id
}

/// Whether listed identities ascend.
pub open spec fn ids_ascend<T, V>(listed: Seq<(Id<T>, V)>) -> bool {
    forall|i: int, j: int|
        0 <= i < j < listed.len() ==> (#[trigger] listed[i]).0.rank() < (#[trigger]
        listed[j]).0.rank()
}

impl FunctionTableStaging {
    /// Takes apart what was staged.
    pub fn into_parts(self) -> (parts: StagedParts)
        requires
            self.parts_wf(),
        ensures
            lists_functions(parts.functions@, self@.functions),
            parts.functions_ordered ==> ids_ascend(parts.functions@),
            lists_blocks(parts.blocks@, self@.blocks),
            parts.blocks_ordered ==> ids_ascend(parts.blocks@),
            parts.function_ids@ == self@.function_ids,
            parts.cancelled_functions.wf(),
            parts.cancelled_functions@ == self@.cancelled_functions,
            parts.block_ids@ == self@.block_ids,
            parts.cancelled_blocks.wf(),
            parts.cancelled_blocks@ == self@.cancelled_blocks,
            parts.by_block.wf(),
            parts.by_block@ == self@.holders,
            parts.original_by_block.wf(),
            parts.original_by_block@ == self@.original_holders,
    {
        let (functions, functions_ordered): (
            Vec<(FunctionId, StagedFunctionRecord)>,
            bool,
        ) = self.staged_functions.into_entries();
        let (blocks, blocks_ordered): (
            Vec<(CodeBlockId, StagedCodeBlockRecord)>,
            bool,
        ) = self.staged_code_blocks.into_entries();
        proof {
            assert forall|id: FunctionId| #[trigger]
                self@.functions.contains_key(id) implies exists|i: int|
                0 <= i < functions@.len() && (#[trigger] functions@[i]).0 == id by {
                assert(self.staged_functions@.contains_key(id));
            }
            assert forall|id: CodeBlockId| #[trigger]
                self@.blocks.contains_key(id) implies exists|i: int|
                0 <= i < blocks@.len() && (#[trigger] blocks@[i]).0 == id by {
                assert(self.staged_code_blocks@.contains_key(id));
            }
        }
        StagedParts {
            functions,
            functions_ordered,
            function_ids: self.function_reservations,
            cancelled_functions: self.cancelled_functions,
            blocks,
            blocks_ordered,
            block_ids: self.block_reservations,
            cancelled_blocks: self.cancelled_blocks,
            by_block: self.by_block,
            original_by_block: self.original_by_block,
        }
    }
}

impl FunctionTableStaging {
    /// The staged functions, in some order.
    pub fn staged(&self) -> (listed: Vec<(FunctionId, &StagedFunctionRecord)>)
        requires
            self.parts_wf(),
        ensures
            forall|i: int|
                0 <= i < listed@.len() ==> self@.functions.contains_key((#[trigger] listed@[i]).0)
                    && self@.functions[listed@[i].0] == listed@[i].1@,
            forall|i: int, j: int|
                0 <= i < j < listed@.len() ==> (#[trigger] listed@[i]).0 != (#[trigger]
                listed@[j]).0,
            forall|id: FunctionId| #[trigger]
                self@.functions.contains_key(id) ==> exists|i: int|
                    0 <= i < listed@.len() && (#[trigger] listed@[i]).0 == id,
    {
        let listed: Vec<(FunctionId, &StagedFunctionRecord)> = self.staged_functions.iter();
        proof {
            assert forall|id: FunctionId| #[trigger]
                self@.functions.contains_key(id) implies exists|i: int|
                0 <= i < listed@.len() && (#[trigger] listed@[i]).0 == id by {
                assert(self.staged_functions@.contains_key(id));
            }
        }
        listed
    }

    /// The functions that will be listed for a block.
    pub fn holders_of(&self, functions: &FunctionTable, block: CodeBlockId) -> (set: IdSet<
        FunctionEntity,
    >)
        ensures
            forall|t: TablesView|
                #![trigger self@.holders_now(t)]
                t.holders == functions.holders() ==> set@ == held(self@.holders_now(t), block),
    {
        match self.by_block.get(block) {
            Some(set) => set.clone(),
            None => functions.get_by_block_id(block),
        }
    }
}

} // verus!
