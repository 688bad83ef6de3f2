//! Staged changes that are ready to be published.
use vstd::prelude::*;

use crate::address::{offsets, Address, AddressRange, RawAddress};
use crate::block::{CodeBlock, CodeBlockId, CodeBlockView};
use crate::body::{lemma_add_contains, lemma_push_contains};
use crate::block_holders::{held, BlockHolders};
use crate::block_table::{batch_fits, in_batch, CodeBlockTable};
use crate::function::{Function, FunctionId, FunctionView};
use crate::function_table::{found_by_entry, holders_agree, merged, FunctionTable};
use crate::id::{hands_out, lemma_given_back, lemma_given_back_in_parts, slots, Id};
use crate::keyed_table::reindexed;
use crate::order::{ascending, lower_bound, Ranked, SortedSet};
use crate::staging::{
    ids_ascend, lemma_next_ids, lists_blocks, lists_functions, next_ids, option_view, tables,
    FunctionTableStaging, StagedBlockView, StagedCodeBlockRecord, StagedFunctionRecord,
    StagedFunctionView, StagedParts, StagingView, TablesView,
};
use crate::types::AddressSpaceId;

verus! {

/// The place of a new block in a batch: by the range, and by the identity where ranges are the
/// same.
#[derive(Debug, Clone, Copy)]
pub struct BatchKey {
    pub space: AddressSpaceId,
    pub start: RawAddress,
    pub end: RawAddress,
    pub id: CodeBlockId,
}

impl Ranked for BatchKey {
    open spec fn rank(self) -> int {
        ((self.space.0 * offsets() + self.start.0) * offsets() + self.end.0) * offsets()
            + self.id.rank()
    }

    proof fn lemma_rank_injective(a: Self, b: Self) {
        assert(0 <= a.id.rank() < offsets());
        assert(0 <= b.id.rank() < offsets());
        Id::lemma_rank_injective(a.id, b.id);
    }

    fn precedes(&self, other: &Self) -> (before: bool) {
        assert(0 <= self.id.rank() < offsets());
        assert(0 <= other.id.rank() < offsets());
        if self.space.0 != other.space.0 {
            return self.space.0 < other.space.0;
        }
        if self.start.0 != other.start.0 {
            return self.start.0 < other.start.0;
        }
        if self.end.0 != other.end.0 {
            return self.end.0 < other.end.0;
        }
        self.id.precedes(&other.id)
    }
}

/// Whether keyed items stand in the order of their keys.
pub open spec fn keys_ascend<K: Ranked + Copy, V>(items: Seq<(K, V)>) -> bool {
    forall|i: int, j: int|
        0 <= i < j < items.len() ==> (#[trigger] items[i]).0.rank() < (#[trigger]
        items[j]).0.rank()
}

/// Puts keyed items in the order of their keys, which are distinct.
pub fn sort_items<K: Ranked + Copy, V>(items: Vec<(K, V)>) -> (sorted: Vec<(K, V)>)
    requires
        forall|i: int, j: int|
            0 <= i < j < items@.len() ==> (#[trigger] items@[i]).0 != (#[trigger] items@[j]).0,
    ensures
        sorted@.len() == items@.len(),
        keys_ascend(sorted@),
        forall|item: (K, V)| #[trigger] sorted@.contains(item) <==> items@.contains(item),
{
    let ghost all = items@;
    let mut items: Vec<(K, V)> = items;
    let mut sorted: Vec<(K, V)> = Vec::new();
    let mut keys: Vec<K> = Vec::new();
    while items.len() > 0
        invariant
            forall|i: int, j: int|
                0 <= i < j < all.len() ==> (#[trigger] all[i]).0 != (#[trigger] all[j]).0,
            items@.len() + sorted@.len() == all.len(),
            items@ == all.take(items@.len() as int),
            keys@.len() == sorted@.len(),
            forall|k: int| 0 <= k < keys@.len() ==> #[trigger] keys@[k] == sorted@[k].0,
            ascending(keys@),
            forall|item: (K, V)| #[trigger]
                sorted@.contains(item) <==> all.skip(items@.len() as int).contains(item),
        decreases items@.len(),
    {
        let ghost n = items@.len() - 1;
        let ghost before = sorted@;
        match items.pop() {
            Some((key, value)) => {
                assert(all[n] == (key, value));
                let at: usize = lower_bound(keys.as_slice(), &key);
                proof {
                    assert forall|k: int| 0 <= k < keys@.len() implies #[trigger] keys@[k] != key by {
                        assert(sorted@.contains(sorted@[k]));
                        let m = all.skip(n + 1).index_of(sorted@[k]);
                        assert(all.skip(n + 1)[m] == all[n + 1 + m]);
                        assert(all[n].0 != all[n + 1 + m].0);
                    }
                    if at < keys@.len() && keys@[at as int].rank() == key.rank() {
                        K::lemma_rank_injective(keys@[at as int], key);
                    }
                }
                let ghost earlier = keys@;
                keys.insert(at, key);
                sorted.insert(at, (key, value));
                proof {
                    assert forall|i: int, j: int|
                        0 <= i < j < keys@.len() implies (#[trigger] keys@[i]).rank() < (#[trigger]
                    keys@[j]).rank() by {
                        let a = if i < at { i } else { i - 1 };
                        let b = if j < at { j } else { j - 1 };
                        if i != at {
                            assert(keys@[i] == earlier[a]);
                        }
                        if j != at {
                            assert(keys@[j] == earlier[b]);
                        }
                    }
                    assert forall|item: (K, V)| #[trigger]
                        sorted@.contains(item) <==> all.skip(n).contains(item) by {
                        lemma_insert_contains(before, at as int, (key, value), item);
                        assert(before.contains(item) <==> all.skip(n + 1).contains(item));
                        assert(all.skip(n) =~= seq![(key, value)] + all.skip(n + 1));
                        lemma_add_contains(seq![(key, value)], all.skip(n + 1), item);
                        if seq![(key, value)].contains(item) {
                            assert(seq![(key, value)][0] == item);
                        }
                        assert(seq![(key, value)][0] == (key, value));
                        assert(seq![(key, value)].contains((key, value)));
                    }
                }
            },
            None => {},
        }
        assert(items@ =~= all.take(items@.len() as int));
    }
    proof {
        assert(all.skip(0) =~= all);
        assert forall|i: int, j: int| 0 <= i < j < sorted@.len() implies (#[trigger]
        sorted@[i]).0.rank() < (#[trigger] sorted@[j]).0.rank() by {
            assert(keys@[i].rank() < keys@[j].rank());
        }
    }
    sorted
}

/// What a sequence has with one more element somewhere.
proof fn lemma_insert_contains<A>(s: Seq<A>, at: int, added: A, a: A)
    requires
        0 <= at <= s.len(),
    ensures
        s.insert(at, added).contains(a) <==> s.contains(a) || a == added,
{
    let more = s.insert(at, added);
    if s.contains(a) {
        let i = s.index_of(a);
        assert(more[if i < at { i } else { i + 1 }] == a);
    }
    if more.contains(a) {
        let i = more.index_of(a);
        if i < at {
            assert(s[i] == a);
        } else if i > at {
            assert(s[i - 1] == a);
        }
    }
    assert(more[at] == added);
}

/// A block that takes its place, or the range of one that goes.
pub struct PreparedCodeBlockRecord {
    pub block: Option<CodeBlock>,
    pub id: CodeBlockId,
    pub previous: Option<AddressRange>,
}

/// What a prepared block is, apart from how it is stored.
#[verifier::ext_equal]
pub struct PreparedBlockView {
    pub block: Option<CodeBlockView>,
    pub id: CodeBlockId,
    pub previous: Option<AddressRange>,
}

impl View for PreparedCodeBlockRecord {
    type V = PreparedBlockView;

    open spec fn view(&self) -> PreparedBlockView {
        PreparedBlockView {
            block: match self.block {
                Some(block) => Some(block@),
                None => None,
            },
            id: self.id,
            previous: self.previous,
        }
    }
}

impl PreparedCodeBlockRecord {
    pub fn new(id: CodeBlockId, block: Option<CodeBlock>, previous: Option<AddressRange>) -> (record:
        Self)
        ensures
            record.id == id,
            record.block == block,
            record.previous == previous,
    {
        PreparedCodeBlockRecord { block, id, previous }
    }

    pub fn is_addition(&self) -> (r: bool)
        ensures
            r == (self.block is Some && self.previous is None),
    {
        self.block.is_some() && self.previous.is_none()
    }

    pub fn is_removal(&self) -> (r: bool)
        ensures
            r == (self.block is None && self.previous is Some),
    {
        self.block.is_none() && self.previous.is_some()
    }

    pub fn into_block(self) -> (block: Option<CodeBlock>)
        ensures
            block == self.block,
    {
        self.block
    }
}

/// A function that takes its place, or the entry of one that goes.
pub struct PreparedFunctionRecord {
    pub function: Option<Function>,
    pub id: FunctionId,
    pub previous: Option<Address>,
}

/// What a prepared function is, apart from how it is stored.
#[verifier::ext_equal]
pub struct PreparedFunctionView {
    pub function: Option<FunctionView>,
    pub id: FunctionId,
    pub previous: Option<Address>,
}

impl View for PreparedFunctionRecord {
    type V = PreparedFunctionView;

    open spec fn view(&self) -> PreparedFunctionView {
        PreparedFunctionView {
            function: option_view(self.function),
            id: self.id,
            previous: self.previous,
        }
    }
}

/// Changes to the tables that are ready to be published.
pub struct PreparedFunctionBatch {
    pub block_reservations: Vec<CodeBlockId>,
    pub blocks: Vec<PreparedCodeBlockRecord>,
    pub blocks_are_new: bool,
    pub cancelled_blocks: SortedSet<CodeBlockId>,
    pub cancelled_functions: SortedSet<FunctionId>,
    pub function_reservations: Vec<FunctionId>,
    pub functions: Vec<PreparedFunctionRecord>,
    pub by_block: BlockHolders,
    pub original_by_block: BlockHolders,
}

/// Whether something of a staged block has to change in the table.
pub open spec fn block_changes(v: StagingView, t: TablesView, id: CodeBlockId) -> bool {
    v.blocks.contains_key(id) && !(!v.blocks[id].is_new && (if t.blocks.contains_key(id) {
        v.blocks[id].block == Some(t.blocks[id])
    } else {
        v.blocks[id].block is None
    }))
}

/// Whether something of a staged function has to change in the table.
pub open spec fn function_changes(v: StagingView, t: TablesView, id: FunctionId) -> bool {
    v.functions.contains_key(id) && !(!v.functions[id].is_new && (if t.functions.contains_key(id) {
        v.functions[id].function == Some(t.functions[id])
    } else {
        v.functions[id].function is None
    }))
}

/// What is prepared for a staged block.
pub open spec fn prepared_block(v: StagingView, t: TablesView, id: CodeBlockId) -> PreparedBlockView {
    PreparedBlockView {
        block: v.blocks[id].block,
        id,
        previous: if !v.blocks[id].is_new && t.blocks.contains_key(id) {
            Some(t.blocks[id].range())
        } else {
            None
        },
    }
}

/// What is prepared for a staged function.
pub open spec fn prepared_function(v: StagingView, t: TablesView, id: FunctionId) -> PreparedFunctionView {
    PreparedFunctionView {
        function: v.functions[id].function,
        id,
        previous: if !v.functions[id].is_new && t.functions.contains_key(id) {
            Some(t.functions[id].entry)
        } else {
            None
        },
    }
}

/// Whether every staged block is a new one.
pub open spec fn all_new_blocks(v: StagingView) -> bool {
    forall|id: CodeBlockId| #[trigger]
        v.blocks.contains_key(id) ==> v.blocks[id].is_new && v.blocks[id].block is Some
}

/// The place of a block in a batch of new ones.
pub open spec fn batch_key(block: CodeBlockView) -> BatchKey {
    BatchKey {
        space: block.start.space,
        start: block.start.address,
        end: block.range().end,
        id: block.id,
    }
}

/// Whether prepared blocks are those that change, each once: new ones by their ranges, others
/// by their identities.
pub open spec fn prepares_blocks(
    records: Seq<PreparedCodeBlockRecord>,
    v: StagingView,
    t: TablesView,
) -> bool {
    &&& forall|i: int|
        0 <= i < records.len() ==> block_changes(v, t, (#[trigger] records[i]).id) && records[i]@
            == prepared_block(v, t, records[i].id)
    &&& forall|id: CodeBlockId| #[trigger]
        block_changes(v, t, id) ==> exists|i: int|
            0 <= i < records.len() && (#[trigger] records[i]).id == id
    &&& forall|i: int, j: int|
        0 <= i < j < records.len() ==> (#[trigger] records[i]).id != (#[trigger] records[j]).id
            && (if all_new_blocks(v) {
            batch_key(records[i]@.block->0).rank() < batch_key(records[j]@.block->0).rank()
        } else {
            records[i].id.rank() < records[j].id.rank()
        })
}

/// Whether prepared functions are those that change, each once, by their identities.
pub open spec fn prepares_functions(
    records: Seq<PreparedFunctionRecord>,
    v: StagingView,
    t: TablesView,
) -> bool {
    &&& forall|i: int|
        0 <= i < records.len() ==> function_changes(v, t, (#[trigger] records[i]).id)
            && records[i]@ == prepared_function(v, t, records[i].id)
    &&& forall|id: FunctionId| #[trigger]
        function_changes(v, t, id) ==> exists|i: int|
            0 <= i < records.len() && (#[trigger] records[i]).id == id
    &&& forall|i: int, j: int|
        0 <= i < j < records.len() ==> (#[trigger] records[i]).id.rank() < (#[trigger]
        records[j]).id.rank()
}

/// Whether a batch is what has to change for what was staged.
pub open spec fn prepares(batch: PreparedFunctionBatch, v: StagingView, t: TablesView) -> bool {
    &&& prepares_blocks(batch.blocks@, v, t)
    &&& prepares_functions(batch.functions@, v, t)
    &&& batch.blocks_are_new == all_new_blocks(v)
    &&& batch.block_reservations@ == v.block_ids
    &&& batch.function_reservations@ == v.function_ids
    &&& batch.cancelled_blocks.wf()
    &&& batch.cancelled_blocks@ == v.cancelled_blocks
    &&& batch.cancelled_functions.wf()
    &&& batch.cancelled_functions@ == v.cancelled_functions
    &&& batch.by_block.wf()
    &&& batch.by_block@ == v.holders
    &&& batch.original_by_block.wf()
    &&& batch.original_by_block@ == v.original_holders
}

/// Turns a list around.
fn turned<V>(items: Vec<V>) -> (turned: Vec<V>)
    ensures
        turned@ == items@.reverse(),
{
    let ghost all = items@;
    let mut items: Vec<V> = items;
    let mut turned: Vec<V> = Vec::new();
    while items.len() > 0
        invariant
            items@.len() + turned@.len() == all.len(),
            items@ == all.take(items@.len() as int),
            turned@ == all.skip(items@.len() as int).reverse(),
        decreases items@.len(),
    {
        let ghost n = items@.len() - 1;
        match items.pop() {
            Some(item) => {
                turned.push(item);
            },
            None => {},
        }
        assert(items@ =~= all.take(n));
        assert(turned@ =~= all.skip(n).reverse());
    }
    assert(all.skip(0) =~= all);
    turned
}

/// Whether a staged block has to change in the table.
spec fn entry_block_changes(
    entry: (CodeBlockId, StagedCodeBlockRecord),
    blocks: Map<CodeBlockId, CodeBlockView>,
) -> bool {
    !(!entry.1.is_new && (if blocks.contains_key(entry.0) {
        entry.1@.block == Some(blocks[entry.0])
    } else {
        entry.1.block is None
    }))
}

/// What is prepared for a staged block.
spec fn entry_block(
    entry: (CodeBlockId, StagedCodeBlockRecord),
    blocks: Map<CodeBlockId, CodeBlockView>,
) -> PreparedBlockView {
    PreparedBlockView {
        block: entry.1@.block,
        id: entry.0,
        previous: if !entry.1.is_new && blocks.contains_key(entry.0) {
            Some(blocks[entry.0].range())
        } else {
            None
        },
    }
}

/// Whether records are prepared for the entries at some places, and those are the ones that
/// change.
spec fn block_places(
    places: Seq<int>,
    records: Seq<PreparedCodeBlockRecord>,
    entries: Seq<(CodeBlockId, StagedCodeBlockRecord)>,
    blocks: Map<CodeBlockId, CodeBlockView>,
) -> bool {
    &&& places.len() == records.len()
    &&& forall|k: int|
        0 <= k < places.len() ==> 0 <= #[trigger] places[k] < entries.len() && records[k]@
            == entry_block(entries[places[k]], blocks) && entry_block_changes(
            entries[places[k]],
            blocks,
        )
    &&& forall|k: int, m: int|
        0 <= k < m < places.len() ==> #[trigger] places[k] < #[trigger] places[m]
    &&& forall|j: int|
        0 <= j < entries.len() && entry_block_changes(#[trigger] entries[j], blocks)
            ==> places.contains(j)
}

/// Prepares the staged blocks that change.
fn prepare_blocks(
    entries: Vec<(CodeBlockId, StagedCodeBlockRecord)>,
    blocks: &CodeBlockTable,
) -> (records: Vec<PreparedCodeBlockRecord>)
    requires
        blocks.wf(),
    ensures
        exists|places: Seq<int>| #[trigger] block_places(places, records@, entries@, blocks@),
{
    let ghost all = entries@;
    let ghost n = all.len() as int;
    let mut rest: Vec<(CodeBlockId, StagedCodeBlockRecord)> = turned(entries);
    let mut records: Vec<PreparedCodeBlockRecord> = Vec::new();
    let ghost mut places: Seq<int> = Seq::empty();
    let ghost mut done: int = 0;
    assert(all.take(0) =~= Seq::empty());
    assert(all.skip(0) =~= all);
    while rest.len() > 0
        invariant
            blocks.wf(),
            n == all.len(),
            0 <= done <= n,
            rest@.len() == n - done,
            rest@ == all.skip(done).reverse(),
            block_places(places, records@, all.take(done), blocks@),
        decreases rest@.len(),
    {
        let ghost before = records@;
        let ghost earlier = places;
        assert(rest@.last() == all[done]);
        match rest.pop() {
            Some((id, record)) => {
                let ghost entry = (id, record);
                assert(entry == all[done]);
                let StagedCodeBlockRecord { block, is_new } = record;
                let previous: Option<&CodeBlock> = if is_new {
                    None
                } else {
                    blocks.get_by_id(id)
                };
                let unchanged: bool = match (&block, previous) {
                    (Some(block), Some(previous)) => block.same(previous),
                    (None, None) => !is_new,
                    _ => false,
                };
                assert(unchanged == !entry_block_changes(entry, blocks@));
                if !unchanged {
                    proof {
                        blocks.lemma_wf();
                    }
                    let previous: Option<AddressRange> = match previous {
                        Some(previous) => Some(previous.address_range()),
                        None => None,
                    };
                    records.push(PreparedCodeBlockRecord::new(id, block, previous));
                    proof {
                        places = places.push(done);
                    }
                }
                proof {
                    let less = all.take(done);
                    let more = all.take(done + 1);
                    assert forall|k: int| 0 <= k < places.len() implies 0 <= #[trigger] places[k]
                        < more.len() && records@[k]@ == entry_block(more[places[k]], blocks@)
                        && entry_block_changes(more[places[k]], blocks@) by {
                        if k < earlier.len() {
                            assert(places[k] == earlier[k]);
                            assert(more[places[k]] == less[earlier[k]]);
                            assert(records@[k] == before[k]);
                        } else {
                            assert(more[done] == entry);
                        }
                    }
                    assert forall|j: int|
                        0 <= j < more.len() && entry_block_changes(
                            #[trigger] more[j],
                            blocks@,
                        ) implies places.contains(j) by {
                        if j < done {
                            assert(less[j] == more[j]);
                            assert(earlier.contains(j));
                            let k = earlier.index_of(j);
                            assert(places[k] == j);
                        } else {
                            assert(more[j] == entry);
                            assert(places[places.len() - 1] == j);
                        }
                    }
                }
            },
            None => {},
        }
        proof {
            assert(rest@ =~= all.skip(done + 1).reverse());
            done = done + 1;
        }
    }
    proof {
        assert(all.take(done) =~= all);
        assert(block_places(places, records@, all, blocks@));
    }
    records
}

/// Whether a staged function has to change in the table.
spec fn entry_function_changes(
    entry: (FunctionId, StagedFunctionRecord),
    functions: Map<FunctionId, FunctionView>,
) -> bool {
    !(!entry.1.is_new && (if functions.contains_key(entry.0) {
        entry.1@.function == Some(functions[entry.0])
    } else {
        entry.1.function is None
    }))
}

/// What is prepared for a staged function.
spec fn entry_function(
    entry: (FunctionId, StagedFunctionRecord),
    functions: Map<FunctionId, FunctionView>,
) -> PreparedFunctionView {
    PreparedFunctionView {
        function: entry.1@.function,
        id: entry.0,
        previous: if !entry.1.is_new && functions.contains_key(entry.0) {
            Some(functions[entry.0].entry)
        } else {
            None
        },
    }
}

/// Whether records are prepared for the entries at some places, and those are the ones that
/// change.
spec fn function_places(
    places: Seq<int>,
    records: Seq<PreparedFunctionRecord>,
    entries: Seq<(FunctionId, StagedFunctionRecord)>,
    functions: Map<FunctionId, FunctionView>,
) -> bool {
    &&& places.len() == records.len()
    &&& forall|k: int|
        0 <= k < places.len() ==> 0 <= #[trigger] places[k] < entries.len() && records[k]@
            == entry_function(entries[places[k]], functions) && entry_function_changes(
            entries[places[k]],
            functions,
        )
    &&& forall|k: int, m: int|
        0 <= k < m < places.len() ==> #[trigger] places[k] < #[trigger] places[m]
    &&& forall|j: int|
        0 <= j < entries.len() && entry_function_changes(#[trigger] entries[j], functions)
            ==> places.contains(j)
}

/// Prepares the staged functions that change.
fn prepare_functions(
    entries: Vec<(FunctionId, StagedFunctionRecord)>,
    functions: &FunctionTable,
) -> (records: Vec<PreparedFunctionRecord>)
    requires
        functions.sound(),
    ensures
        exists|places: Seq<int>| #[trigger] function_places(places, records@, entries@, functions@),
{
    let ghost all = entries@;
    let ghost n = all.len() as int;
    let mut rest: Vec<(FunctionId, StagedFunctionRecord)> = turned(entries);
    let mut records: Vec<PreparedFunctionRecord> = Vec::new();
    let ghost mut places: Seq<int> = Seq::empty();
    let ghost mut done: int = 0;
    assert(all.take(0) =~= Seq::empty());
    assert(all.skip(0) =~= all);
    while rest.len() > 0
        invariant
            functions.sound(),
            n == all.len(),
            0 <= done <= n,
            rest@.len() == n - done,
            rest@ == all.skip(done).reverse(),
            function_places(places, records@, all.take(done), functions@),
        decreases rest@.len(),
    {
        let ghost before = records@;
        let ghost earlier = places;
        assert(rest@.last() == all[done]);
        match rest.pop() {
            Some((id, record)) => {
                let ghost entry = (id, record);
                assert(entry == all[done]);
                let StagedFunctionRecord { function, is_new } = record;
                let previous: Option<&Function> = if is_new {
                    None
                } else {
                    functions.get_by_id(id)
                };
                let unchanged: bool = match (&function, previous) {
                    (Some(function), Some(previous)) => function.same(previous),
                    (None, None) => !is_new,
                    _ => false,
                };
                assert(unchanged == !entry_function_changes(entry, functions@));
                if !unchanged {
                    let previous: Option<Address> = match previous {
                        Some(previous) => Some(previous.entry()),
                        None => None,
                    };
                    records.push(PreparedFunctionRecord { function, id, previous });
                    proof {
                        places = places.push(done);
                    }
                }
                proof {
                    let less = all.take(done);
                    let more = all.take(done + 1);
                    assert forall|k: int| 0 <= k < places.len() implies 0 <= #[trigger] places[k]
                        < more.len() && records@[k]@ == entry_function(more[places[k]], functions@)
                        && entry_function_changes(more[places[k]], functions@) by {
                        if k < earlier.len() {
                            assert(places[k] == earlier[k]);
                            assert(more[places[k]] == less[earlier[k]]);
                            assert(records@[k] == before[k]);
                        } else {
                            assert(more[done] == entry);
                        }
                    }
                    assert forall|j: int|
                        0 <= j < more.len() && entry_function_changes(
                            #[trigger] more[j],
                            functions@,
                        ) implies places.contains(j) by {
                        if j < done {
                            assert(less[j] == more[j]);
                            assert(earlier.contains(j));
                            let k = earlier.index_of(j);
                            assert(places[k] == j);
                        } else {
                            assert(more[j] == entry);
                            assert(places[places.len() - 1] == j);
                        }
                    }
                }
            },
            None => {},
        }
        proof {
            assert(rest@ =~= all.skip(done + 1).reverse());
            done = done + 1;
        }
    }
    proof {
        assert(all.take(done) =~= all);
        assert(function_places(places, records@, all, functions@));
    }
    records
}

/// Whether every listed block is a new one.
fn are_new(entries: &Vec<(CodeBlockId, StagedCodeBlockRecord)>) -> (new: bool)
    ensures
        new == forall|i: int|
            0 <= i < entries@.len() ==> (#[trigger] entries@[i]).1.is_new
                && entries@[i].1.block is Some,
{
    let mut i: usize = 0;
    while i < entries.len()
        invariant
            i <= entries@.len(),
            forall|k: int|
                0 <= k < i ==> (#[trigger] entries@[k]).1.is_new && entries@[k].1.block is Some,
        decreases entries@.len() - i,
    {
        if !entries[i].1.is_new || entries[i].1.block.is_none() {
            assert(!(entries@[i as int].1.is_new && entries@[i as int].1.block is Some));
            return false;
        }
        i = i + 1;
    }
    true
}

/// Puts new blocks in the order of their ranges.
fn sort_new_blocks(entries: Vec<(CodeBlockId, StagedCodeBlockRecord)>) -> (sorted: Vec<
    (CodeBlockId, StagedCodeBlockRecord),
>)
    requires
        forall|i: int|
            0 <= i < entries@.len() ==> ((#[trigger] entries@[i]).1.block matches Some(b)
                && b@.fits() && b.id == entries@[i].0),
        forall|i: int, j: int|
            0 <= i < j < entries@.len() ==> (#[trigger] entries@[i]).0 != (#[trigger]
            entries@[j]).0,
    ensures
        forall|entry: (CodeBlockId, StagedCodeBlockRecord)| #[trigger]
            sorted@.contains(entry) <==> entries@.contains(entry),
        forall|i: int, j: int|
            0 <= i < j < sorted@.len() ==> batch_key((#[trigger] sorted@[i]).1.block->0@).rank()
                < batch_key((#[trigger] sorted@[j]).1.block->0@).rank(),
{
    let ghost all = entries@;
    let mut entries: Vec<(CodeBlockId, StagedCodeBlockRecord)> = entries;
    let mut keyed: Vec<(BatchKey, (CodeBlockId, StagedCodeBlockRecord))> = Vec::new();
    while entries.len() > 0
        invariant
            forall|i: int|
                0 <= i < all.len() ==> ((#[trigger] all[i]).1.block matches Some(b) && b@.fits()
                    && b.id == all[i].0),
            entries@.len() + keyed@.len() == all.len(),
            entries@ == all.take(entries@.len() as int),
            forall|k: int|
                0 <= k < keyed@.len() ==> (#[trigger] keyed@[k]).1 == all[all.len() - 1 - k]
                    && keyed@[k].0 == batch_key(keyed@[k].1.1.block->0@),
        decreases entries@.len(),
    {
        let ghost n = entries@.len() - 1;
        match entries.pop() {
            Some((id, record)) => {
                assert(all[n] == (id, record));
                match &record.block {
                    Some(block) => {
                        let key = BatchKey {
                            space: block.space(),
                            start: block.address().raw_address(),
                            end: block.last_address().raw_address(),
                            id,
                        };
                        assert(key == batch_key(block@));
                        keyed.push((key, (id, record)));
                    },
                    None => {},
                }
            },
            None => {},
        }
        assert(entries@ =~= all.take(entries@.len() as int));
    }
    proof {
        assert forall|i: int, j: int| 0 <= i < j < keyed@.len() implies (#[trigger] keyed@[i]).0 != (
        #[trigger] keyed@[j]).0 by {
            let (a, b) = (all.len() - 1 - i, all.len() - 1 - j);
            assert(all[b].0 != all[a].0);
            assert(keyed@[i].0.id == all[a].0);
            assert(keyed@[j].0.id == all[b].0);
        }
    }
    let ordered: Vec<(BatchKey, (CodeBlockId, StagedCodeBlockRecord))> = sort_items(keyed);
    let ghost listed = ordered@;
    proof {
        assert forall|k: int| 0 <= k < listed.len() implies (#[trigger] listed[k]).0 == batch_key(
            listed[k].1.1.block->0@,
        ) && all.contains(listed[k].1) by {
            assert(listed.contains(listed[k]));
            let m = keyed@.index_of(listed[k]);
            assert(keyed@[m] == listed[k]);
            assert(all[all.len() - 1 - m] == listed[k].1);
        }
    }
    let mut rest: Vec<(BatchKey, (CodeBlockId, StagedCodeBlockRecord))> = turned(ordered);
    let mut sorted: Vec<(CodeBlockId, StagedCodeBlockRecord)> = Vec::new();
    assert(listed.skip(0) =~= listed);
    while rest.len() > 0
        invariant
            rest@.len() + sorted@.len() == listed.len(),
            rest@ == listed.skip(sorted@.len() as int).reverse(),
            forall|k: int| 0 <= k < sorted@.len() ==> #[trigger] sorted@[k] == listed[k].1,
        decreases rest@.len(),
    {
        let ghost n = sorted@.len() as int;
        assert(rest@.last() == listed[n]);
        match rest.pop() {
            Some((key, entry)) => {
                sorted.push(entry);
            },
            None => {},
        }
        assert(rest@ =~= listed.skip(n + 1).reverse());
    }
    proof {
        assert forall|entry: (CodeBlockId, StagedCodeBlockRecord)| #[trigger]
            sorted@.contains(entry) <==> all.contains(entry) by {
            if sorted@.contains(entry) {
                let k = sorted@.index_of(entry);
                assert(listed[k].1 == entry);
            }
            if all.contains(entry) {
                let i = all.index_of(entry);
                let item = keyed@[all.len() - 1 - i];
                assert(item.1 == entry);
                assert(keyed@.contains(item));
                assert(listed.contains(item));
                let k = listed.index_of(item);
                assert(sorted@[k] == entry);
            }
        }
        assert forall|i: int, j: int| 0 <= i < j < sorted@.len() implies batch_key(
            (#[trigger] sorted@[i]).1.block->0@,
        ).rank() < batch_key((#[trigger] sorted@[j]).1.block->0@).rank() by {
            assert(listed[i].0.rank() < listed[j].0.rank());
        }
    }
    sorted
}

/// Whether listed blocks are the staged ones, as far as one list is a rearranged other.
proof fn lemma_rearranged_blocks(
    a: Seq<(CodeBlockId, StagedCodeBlockRecord)>,
    b: Seq<(CodeBlockId, StagedCodeBlockRecord)>,
    blocks: Map<CodeBlockId, StagedBlockView>,
)
    requires
        lists_blocks(a, blocks),
        forall|entry: (CodeBlockId, StagedCodeBlockRecord)| #[trigger]
            b.contains(entry) <==> a.contains(entry),
        forall|i: int, j: int|
            0 <= i < j < b.len() ==> (#[trigger] b[i]).0 != (#[trigger] b[j]).0,
    ensures
        lists_blocks(b, blocks),
{
    assert forall|i: int| 0 <= i < b.len() implies blocks.contains_key((#[trigger] b[i]).0)
        && blocks[b[i].0] == b[i].1@ by {
        assert(b.contains(b[i]));
        let k = a.index_of(b[i]);
        assert(a[k] == b[i]);
    }
    assert forall|id: CodeBlockId| #[trigger] blocks.contains_key(id) implies exists|i: int|
        0 <= i < b.len() && (#[trigger] b[i]).0 == id by {
        let k = choose|k: int| 0 <= k < a.len() && (#[trigger] a[k]).0 == id;
        assert(a.contains(a[k]));
        assert(b.contains(a[k]));
        let i = b.index_of(a[k]);
        assert(b[i].0 == id);
    }
}

/// Whether listed functions are the staged ones, as far as one list is a rearranged other.
proof fn lemma_rearranged_functions(
    a: Seq<(FunctionId, StagedFunctionRecord)>,
    b: Seq<(FunctionId, StagedFunctionRecord)>,
    functions: Map<FunctionId, StagedFunctionView>,
)
    requires
        lists_functions(a, functions),
        forall|entry: (FunctionId, StagedFunctionRecord)| #[trigger]
            b.contains(entry) <==> a.contains(entry),
        ids_ascend(b),
    ensures
        lists_functions(b, functions),
{
    assert forall|i: int| 0 <= i < b.len() implies functions.contains_key((#[trigger] b[i]).0)
        && functions[b[i].0] == b[i].1@ by {
        assert(b.contains(b[i]));
        let k = a.index_of(b[i]);
        assert(a[k] == b[i]);
    }
    assert forall|id: FunctionId| #[trigger] functions.contains_key(id) implies exists|i: int|
        0 <= i < b.len() && (#[trigger] b[i]).0 == id by {
        let k = choose|k: int| 0 <= k < a.len() && (#[trigger] a[k]).0 == id;
        assert(a.contains(a[k]));
        assert(b.contains(a[k]));
        let i = b.index_of(a[k]);
        assert(b[i].0 == id);
    }
}

impl FunctionTableStaging {
    /// Works out what has to change in the tables.
    pub fn prepare(self, functions: &FunctionTable, blocks: &CodeBlockTable) -> (batch:
        PreparedFunctionBatch)
        requires
            self.wf(functions, blocks),
        ensures
            prepares(batch, self@, tables(functions, blocks)),
    {
        let ghost t = tables(functions, blocks);
        let ghost v = self@;
        let StagedParts {
            functions: staged_functions,
            functions_ordered,
            function_ids,
            cancelled_functions,
            blocks: staged_blocks,
            blocks_ordered,
            block_ids,
            cancelled_blocks,
            by_block,
            original_by_block,
        } = self.into_parts();
        let ghost listed = staged_blocks@;
        let blocks_are_new: bool = are_new(&staged_blocks);
        proof {
            if blocks_are_new {
                assert forall|id: CodeBlockId| #[trigger] v.blocks.contains_key(id) implies v.blocks[id].is_new
                    && v.blocks[id].block is Some by {
                    let i = choose|i: int| 0 <= i < listed.len() && (#[trigger] listed[i]).0 == id;
                    assert(listed[i].1.is_new);
                }
            } else {
                let i = choose|i: int|
                    0 <= i < listed.len() && !((#[trigger] listed[i]).1.is_new
                        && listed[i].1.block is Some);
                assert(v.blocks.contains_key(listed[i].0));
            }
            assert(blocks_are_new == all_new_blocks(v));
            if blocks_are_new {
                assert forall|i: int| 0 <= i < listed.len() implies ((#[trigger] listed[i]).1.block matches Some(
                    b,
                ) && b@.fits() && b.id == listed[i].0) by {
                    assert(v.blocks.contains_key(listed[i].0));
                }
            }
        }
        let block_entries: Vec<(CodeBlockId, StagedCodeBlockRecord)> = if blocks_are_new {
            sort_new_blocks(staged_blocks)
        } else if !blocks_ordered {
            sort_items(staged_blocks)
        } else {
            staged_blocks
        };
        proof {
            if blocks_are_new {
                assert forall|i: int, j: int| 0 <= i < j < block_entries@.len() implies (#[trigger]
                block_entries@[i]).0 != (#[trigger] block_entries@[j]).0 by {
                    assert(block_entries@.contains(block_entries@[i]));
                    assert(block_entries@.contains(block_entries@[j]));
                    let a = listed.index_of(block_entries@[i]);
                    let b = listed.index_of(block_entries@[j]);
                    assert(listed[a] == block_entries@[i]);
                    assert(listed[b] == block_entries@[j]);
                    if block_entries@[i].0 == block_entries@[j].0 {
                        assert(a == b);
                        assert(batch_key(block_entries@[i].1.block->0@).rank() < batch_key(
                            block_entries@[j].1.block->0@,
                        ).rank());
                    }
                }
            } else {
                assert forall|i: int, j: int| 0 <= i < j < block_entries@.len() implies (#[trigger]
                block_entries@[i]).0 != (#[trigger] block_entries@[j]).0 by {
                    assert(block_entries@[i].0.rank() < block_entries@[j].0.rank());
                }
            }
            lemma_rearranged_blocks(listed, block_entries@, v.blocks);
        }
        let block_records: Vec<PreparedCodeBlockRecord> = prepare_blocks(block_entries, blocks);
        let ghost listed_functions = staged_functions@;
        let function_entries: Vec<(FunctionId, StagedFunctionRecord)> = if !functions_ordered {
            sort_items(staged_functions)
        } else {
            staged_functions
        };
        proof {
            lemma_rearranged_functions(listed_functions, function_entries@, v.functions);
        }
        let function_records: Vec<PreparedFunctionRecord> = prepare_functions(
            function_entries,
            functions,
        );
        proof {
            let places = choose|places: Seq<int>| #[trigger]
                block_places(places, block_records@, block_entries@, blocks@);
            lemma_prepares_blocks(places, block_records@, block_entries@, v, t);
            let function_at = choose|places: Seq<int>| #[trigger]
                function_places(places, function_records@, function_entries@, functions@);
            lemma_prepares_functions(function_at, function_records@, function_entries@, v, t);
        }
        PreparedFunctionBatch {
            block_reservations: block_ids,
            blocks: block_records,
            blocks_are_new,
            cancelled_blocks,
            cancelled_functions,
            function_reservations: function_ids,
            functions: function_records,
            by_block,
            original_by_block,
        }
    }
}

/// Records for the places that change are the prepared blocks.
proof fn lemma_prepares_blocks(
    places: Seq<int>,
    records: Seq<PreparedCodeBlockRecord>,
    entries: Seq<(CodeBlockId, StagedCodeBlockRecord)>,
    v: StagingView,
    t: TablesView,
)
    requires
        block_places(places, records, entries, t.blocks),
        lists_blocks(entries, v.blocks),
        all_new_blocks(v) ==> forall|i: int, j: int|
            0 <= i < j < entries.len() ==> batch_key((#[trigger] entries[i]).1.block->0@).rank()
                < batch_key((#[trigger] entries[j]).1.block->0@).rank(),
        !all_new_blocks(v) ==> ids_ascend(entries),
    ensures
        prepares_blocks(records, v, t),
{
    assert forall|j: int| 0 <= j < entries.len() implies #[trigger] entry_block(
        entries[j],
        t.blocks,
    ) == prepared_block(v, t, entries[j].0) && entry_block_changes(entries[j], t.blocks)
        == block_changes(v, t, entries[j].0) by {
        assert(v.blocks.contains_key(entries[j].0));
    }
    assert forall|i: int| 0 <= i < records.len() implies block_changes(
        v,
        t,
        (#[trigger] records[i]).id,
    ) && records[i]@ == prepared_block(v, t, records[i].id) by {
        let j = places[i];
        assert(records[i]@ == entry_block(entries[j], t.blocks));
        assert(records[i]@.id == entries[j].0);
    }
    assert forall|id: CodeBlockId| #[trigger] block_changes(v, t, id) implies exists|i: int|
        0 <= i < records.len() && (#[trigger] records[i]).id == id by {
        let j = choose|j: int| 0 <= j < entries.len() && (#[trigger] entries[j]).0 == id;
        assert(entry_block(entries[j], t.blocks) == prepared_block(v, t, id));
        assert(places.contains(j));
        let i = places.index_of(j);
        assert(places[i] == j);
        assert(records[i]@.id == id);
    }
    assert forall|i: int, j: int| 0 <= i < j < records.len() implies (#[trigger] records[i]).id != (
    #[trigger] records[j]).id && (if all_new_blocks(v) {
        batch_key(records[i]@.block->0).rank() < batch_key(records[j]@.block->0).rank()
    } else {
        records[i].id.rank() < records[j].id.rank()
    }) by {
        let (a, b) = (places[i], places[j]);
        assert(a < b);
        assert(records[i]@ == entry_block(entries[a], t.blocks));
        assert(records[j]@ == entry_block(entries[b], t.blocks));
        assert(records[i]@.id == entries[a].0);
        assert(records[j]@.id == entries[b].0);
        assert(v.blocks.contains_key(entries[a].0));
        assert(v.blocks.contains_key(entries[b].0));
    }
}

/// Records for the places that change are the prepared functions.
proof fn lemma_prepares_functions(
    places: Seq<int>,
    records: Seq<PreparedFunctionRecord>,
    entries: Seq<(FunctionId, StagedFunctionRecord)>,
    v: StagingView,
    t: TablesView,
)
    requires
        function_places(places, records, entries, t.functions),
        lists_functions(entries, v.functions),
        ids_ascend(entries),
    ensures
        prepares_functions(records, v, t),
{
    assert forall|j: int| 0 <= j < entries.len() implies #[trigger] entry_function(
        entries[j],
        t.functions,
    ) == prepared_function(v, t, entries[j].0) && entry_function_changes(entries[j], t.functions)
        == function_changes(v, t, entries[j].0) by {
        assert(v.functions.contains_key(entries[j].0));
    }
    assert forall|i: int| 0 <= i < records.len() implies function_changes(
        v,
        t,
        (#[trigger] records[i]).id,
    ) && records[i]@ == prepared_function(v, t, records[i].id) by {
        let j = places[i];
        assert(records[i]@ == entry_function(entries[j], t.functions));
        assert(records[i]@.id == entries[j].0);
    }
    assert forall|id: FunctionId| #[trigger] function_changes(v, t, id) implies exists|i: int|
        0 <= i < records.len() && (#[trigger] records[i]).id == id by {
        let j = choose|j: int| 0 <= j < entries.len() && (#[trigger] entries[j]).0 == id;
        assert(entry_function(entries[j], t.functions) == prepared_function(v, t, id));
        assert(places.contains(j));
        let i = places.index_of(j);
        assert(places[i] == j);
        assert(records[i]@.id == id);
    }
    assert forall|i: int, j: int| 0 <= i < j < records.len() implies (#[trigger] records[i]).id.rank()
        < (#[trigger] records[j]).id.rank() by {
        let (a, b) = (places[i], places[j]);
        assert(a < b);
        assert(records[i]@ == entry_function(entries[a], t.functions));
        assert(records[j]@ == entry_function(entries[b], t.functions));
        assert(records[i]@.id == entries[a].0);
        assert(records[j]@.id == entries[b].0);
    }
}

/// Whether the slots of identities are distinct.
spec fn slots_differ<T>(ids: Seq<Id<T>>) -> bool {
    forall|i: int, j: int|
        0 <= i < j < ids.len() ==> (#[trigger] ids[i]).id != (#[trigger] ids[j]).id
}

/// Identities in one list with one slot are the same.
proof fn lemma_same_slot<T>(ids: Seq<Id<T>>, a: Id<T>, b: Id<T>)
    requires
        slots_differ(ids),
        ids.contains(a),
        ids.contains(b),
        a.id == b.id,
    ensures
        a == b,
{
    let i = ids.index_of(a);
    let j = ids.index_of(b);
    assert(ids[i] == a && ids[j] == b);
    if i < j {
        assert(ids[i].id != ids[j].id);
    } else if j < i {
        assert(ids[j].id != ids[i].id);
    }
}

/// Whether the identities that are not cancelled wait for their blocks.
spec fn blocks_wait(table: &CodeBlockTable, ids: Seq<CodeBlockId>, cancelled: Seq<CodeBlockId>) -> bool {
    forall|id: CodeBlockId| #[trigger]
        ids.contains(id) && !cancelled.contains(id) ==> table.reserved(id.id as int)
}

/// Whether the identities that are not cancelled wait for their functions.
spec fn functions_wait(
    table: &FunctionTable,
    ids: Seq<FunctionId>,
    cancelled: Seq<FunctionId>,
) -> bool {
    forall|id: FunctionId| #[trigger]
        ids.contains(id) && !cancelled.contains(id) ==> table.reserved(id.id as int)
}

/// The identities of the blocks that go, in the order in which they do.
pub open spec fn blocks_given_back(records: Seq<PreparedCodeBlockRecord>) -> Seq<CodeBlockId>
    decreases records.len(),
{
    if records.len() == 0 {
        Seq::empty()
    } else if records.last().block is None {
        blocks_given_back(records.drop_last()).push(records.last().id)
    } else {
        blocks_given_back(records.drop_last())
    }
}

/// The identities of the functions that go, in the order in which they do.
pub open spec fn functions_given_back(records: Seq<PreparedFunctionRecord>) -> Seq<FunctionId>
    decreases records.len(),
{
    if records.len() == 0 {
        Seq::empty()
    } else if records.last().function is None {
        functions_given_back(records.drop_last()).push(records.last().id)
    } else {
        functions_given_back(records.drop_last())
    }
}

/// Hands out the identities of blocks and takes back those that were cancelled.
fn reserve_blocks(
    blocks: &mut CodeBlockTable,
    reservations: &Vec<CodeBlockId>,
    cancelled: &SortedSet<CodeBlockId>,
)
    requires
        old(blocks).wf(),
        cancelled.wf(),
        next_ids(reservations@, old(blocks).ids()),
        forall|id: CodeBlockId| #[trigger]
            cancelled@.contains(id) ==> reservations@.contains(id) && id.generation < u32::MAX - 1,
    ensures
        final(blocks).wf(),
        final(blocks)@ == old(blocks)@,
        blocks_wait(final(blocks), reservations@, cancelled.items@),
        hands_out(
            final(blocks).ids(),
            old(blocks).ids(),
            reservations@.len() as int,
            cancelled.items@,
        ),
        forall|slot: int| #[trigger]
            final(blocks).ids().in_use(slot) ==> old(blocks).ids().in_use(slot) || exists|i: int|
                0 <= i < reservations@.len() && (#[trigger] reservations@[i]).id == slot,
{
    let ghost before = *blocks;
    proof {
        before.lemma_wf();
        lemma_next_ids(reservations@, before.ids());
    }
    blocks.publish_reservations(reservations);
    let ghost handed = *blocks;
    let mut i: usize = 0;
    proof {
        assert forall|id: CodeBlockId| #[trigger] reservations@.contains(id) implies blocks.reserved(
            id.id as int,
        ) by {
            let k = reservations@.index_of(id);
            assert(reservations@[k] == id);
        }
    }
    while i < cancelled.items.len()
        invariant
            i <= cancelled.items@.len(),
            cancelled.wf(),
            blocks.wf(),
            blocks@ == before@,
            slots_differ(reservations@),
            forall|id: CodeBlockId| #[trigger]
                cancelled@.contains(id) ==> reservations@.contains(id) && id.generation < u32::MAX
                    - 1,
            blocks_wait(blocks, reservations@, cancelled.items@.take(i as int)),
            hands_out(
                blocks.ids(),
                before.ids(),
                reservations@.len() as int,
                cancelled.items@.take(i as int),
            ),
            forall|slot: int| #[trigger]
                blocks.ids().in_use(slot) ==> handed.ids().in_use(slot),
        decreases cancelled.items@.len() - i,
    {
        let ghost earlier = *blocks;
        let id: CodeBlockId = cancelled.items[i];
        proof {
            assert(cancelled.items@.contains(id));
            assert(cancelled@.contains(id));
            assert(!cancelled.items@.take(i as int).contains(id)) by {
                if cancelled.items@.take(i as int).contains(id) {
                    let k = cancelled.items@.take(i as int).index_of(id);
                    assert(cancelled.items@[k].rank() < cancelled.items@[i as int].rank());
                }
            }
        }
        blocks.publish_release(id);
        proof {
            let more = cancelled.items@.take(i + 1);
            assert(more =~= cancelled.items@.take(i as int).push(id));
            lemma_given_back(
                blocks.ids(),
                earlier.ids(),
                before.ids(),
                reservations@.len() as int,
                cancelled.items@.take(i as int),
                id,
            );
            assert forall|other: CodeBlockId| #[trigger]
                reservations@.contains(other) && !more.contains(other) implies blocks.reserved(
                other.id as int,
            ) by {
                lemma_push_contains(cancelled.items@.take(i as int), id, other);
                assert(earlier.reserved(other.id as int));
                if other.id == id.id {
                    lemma_same_slot(reservations@, other, id);
                }
            }
        }
        i = i + 1;
    }
    assert(cancelled.items@.take(i as int) =~= cancelled.items@);
}

/// Hands out the identities of functions and takes back those that were cancelled.
fn reserve_functions(
    functions: &mut FunctionTable,
    reservations: &Vec<FunctionId>,
    cancelled: &SortedSet<FunctionId>,
)
    requires
        old(functions).sound(),
        cancelled.wf(),
        next_ids(reservations@, old(functions).ids()),
        forall|id: FunctionId| #[trigger]
            cancelled@.contains(id) ==> reservations@.contains(id) && id.generation < u32::MAX - 1,
    ensures
        final(functions).sound(),
        final(functions)@ == old(functions)@,
        final(functions).index() == old(functions).index(),
        final(functions).holders() == old(functions).holders(),
        functions_wait(final(functions), reservations@, cancelled.items@),
        hands_out(
            final(functions).ids(),
            old(functions).ids(),
            reservations@.len() as int,
            cancelled.items@,
        ),
{
    let ghost before = *functions;
    proof {
        before.lemma_sound();
        lemma_next_ids(reservations@, before.ids());
    }
    functions.publish_reservations(reservations);
    let mut i: usize = 0;
    proof {
        assert forall|id: FunctionId| #[trigger] reservations@.contains(id) implies functions.reserved(
            id.id as int,
        ) by {
            let k = reservations@.index_of(id);
            assert(reservations@[k] == id);
        }
    }
    while i < cancelled.items.len()
        invariant
            i <= cancelled.items@.len(),
            cancelled.wf(),
            functions.sound(),
            functions@ == before@,
            functions.index() == before.index(),
            functions.holders() == before.holders(),
            slots_differ(reservations@),
            forall|id: FunctionId| #[trigger]
                cancelled@.contains(id) ==> reservations@.contains(id) && id.generation < u32::MAX
                    - 1,
            functions_wait(functions, reservations@, cancelled.items@.take(i as int)),
            hands_out(
                functions.ids(),
                before.ids(),
                reservations@.len() as int,
                cancelled.items@.take(i as int),
            ),
        decreases cancelled.items@.len() - i,
    {
        let ghost earlier = *functions;
        let id: FunctionId = cancelled.items[i];
        proof {
            assert(cancelled.items@.contains(id));
            assert(cancelled@.contains(id));
            assert(!cancelled.items@.take(i as int).contains(id)) by {
                if cancelled.items@.take(i as int).contains(id) {
                    let k = cancelled.items@.take(i as int).index_of(id);
                    assert(cancelled.items@[k].rank() < cancelled.items@[i as int].rank());
                }
            }
        }
        functions.publish_release(id);
        proof {
            let more = cancelled.items@.take(i + 1);
            assert(more =~= cancelled.items@.take(i as int).push(id));
            lemma_given_back(
                functions.ids(),
                earlier.ids(),
                before.ids(),
                reservations@.len() as int,
                cancelled.items@.take(i as int),
                id,
            );
            assert forall|other: FunctionId| #[trigger]
                reservations@.contains(other) && !more.contains(other) implies functions.reserved(
                other.id as int,
            ) by {
                lemma_push_contains(cancelled.items@.take(i as int), id, other);
                assert(earlier.reserved(other.id as int));
                if other.id == id.id {
                    lemma_same_slot(reservations@, other, id);
                }
            }
        }
        i = i + 1;
    }
    assert(cancelled.items@.take(i as int) =~= cancelled.items@);
}

/// The blocks once prepared ones have taken their places.
pub open spec fn blocks_published(
    blocks: Map<CodeBlockId, CodeBlockView>,
    records: Seq<PreparedCodeBlockRecord>,
) -> Map<CodeBlockId, CodeBlockView>
    decreases records.len(),
{
    if records.len() == 0 {
        blocks
    } else {
        let before = blocks_published(blocks, records.drop_last());
        match records.last()@.block {
            Some(block) => before.insert(records.last().id, block),
            None => before.remove(records.last().id),
        }
    }
}

/// The functions once prepared ones have taken their places.
pub open spec fn functions_published(
    functions: Map<FunctionId, FunctionView>,
    records: Seq<PreparedFunctionRecord>,
) -> Map<FunctionId, FunctionView>
    decreases records.len(),
{
    if records.len() == 0 {
        functions
    } else {
        let before = functions_published(functions, records.drop_last());
        match records.last()@.function {
            Some(function) => before.insert(records.last().id, function),
            None => before.remove(records.last().id),
        }
    }
}

/// What entries lead to once prepared functions have taken their places, one after another.
pub open spec fn index_published(
    index: Map<Address, FunctionId>,
    records: Seq<PreparedFunctionRecord>,
) -> Map<Address, FunctionId>
    decreases records.len(),
{
    if records.len() == 0 {
        index
    } else {
        let before = index_published(index, records.drop_last());
        let last = records.last()@;
        match last.function {
            Some(function) => reindexed(before, last.previous, function.entry, last.id),
            None => before.remove(last.previous->0),
        }
    }
}

/// Whether a prepared block can take its place.
pub open spec fn block_publishable(
    record: PreparedBlockView,
    blocks: Map<CodeBlockId, CodeBlockView>,
    reservations: Seq<CodeBlockId>,
    cancelled: Set<CodeBlockId>,
) -> bool {
    match record.block {
        Some(block) => {
            &&& block.id == record.id
            &&& block.fits()
            &&& reservations.contains(record.id)
            &&& !cancelled.contains(record.id)
        },
        None => {
            &&& blocks.contains_key(record.id)
            &&& record.previous == Some(blocks[record.id].range())
            &&& record.id.generation < u32::MAX - 1
        },
    }
}

/// Whether a prepared function can take its place.
pub open spec fn function_publishable(
    record: PreparedFunctionView,
    functions: Map<FunctionId, FunctionView>,
    reservations: Seq<FunctionId>,
    cancelled: Set<FunctionId>,
) -> bool {
    match record.function {
        Some(function) => {
            &&& function.id == record.id
            &&& function.wf()
            &&& (reservations.contains(record.id) && !cancelled.contains(record.id))
                || functions.contains_key(record.id)
        },
        None => {
            &&& functions.contains_key(record.id)
            &&& record.previous is Some
            &&& record.id.generation < u32::MAX - 1
        },
    }
}

/// Whether a batch can be published to tables.
pub open spec fn publishable(
    batch: PreparedFunctionBatch,
    functions: &FunctionTable,
    blocks: &CodeBlockTable,
) -> bool {
    &&& functions.sound()
    &&& blocks.wf()
    &&& next_ids(batch.function_reservations@, functions.ids())
    &&& next_ids(batch.block_reservations@, blocks.ids())
    &&& batch.cancelled_blocks.wf()
    &&& batch.cancelled_functions.wf()
    &&& batch.by_block.wf()
    &&& forall|id: CodeBlockId| #[trigger]
        batch.cancelled_blocks@.contains(id) ==> batch.block_reservations@.contains(id)
            && id.generation < u32::MAX - 1
    &&& forall|id: FunctionId| #[trigger]
        batch.cancelled_functions@.contains(id) ==> batch.function_reservations@.contains(id)
            && id.generation < u32::MAX - 1
    &&& forall|i: int|
        0 <= i < batch.blocks@.len() ==> block_publishable(
            (#[trigger] batch.blocks@[i])@,
            blocks@,
            batch.block_reservations@,
            batch.cancelled_blocks@,
        )
    &&& forall|i: int, j: int|
        0 <= i < j < batch.blocks@.len() ==> (#[trigger] batch.blocks@[i]).id != (#[trigger]
        batch.blocks@[j]).id
    &&& batch.blocks_are_new ==> forall|i: int|
        0 <= i < batch.blocks@.len() ==> (#[trigger] batch.blocks@[i]).block is Some
    &&& forall|i: int|
        0 <= i < batch.functions@.len() ==> function_publishable(
            (#[trigger] batch.functions@[i])@,
            functions@,
            batch.function_reservations@,
            batch.cancelled_functions@,
        )
    &&& forall|i: int, j: int|
        0 <= i < j < batch.functions@.len() ==> (#[trigger] batch.functions@[i]).id != (#[trigger]
        batch.functions@[j]).id
}

/// Whether an identity waits for its function.
spec fn functions_waiting(
    table: FunctionTable,
    ids: Seq<FunctionId>,
    cancelled: Seq<FunctionId>,
    id: FunctionId,
) -> bool {
    ids.contains(id) && !cancelled.contains(id) && table.reserved(id.id as int)
}

/// Whether an identity waits for its block.
spec fn blocks_waiting(
    table: CodeBlockTable,
    ids: Seq<CodeBlockId>,
    cancelled: Seq<CodeBlockId>,
    id: CodeBlockId,
) -> bool {
    ids.contains(id) && !cancelled.contains(id) && table.reserved(id.id as int)
}

/// Lets prepared functions take their places.
fn publish_functions(
    functions: &mut FunctionTable,
    records: Vec<PreparedFunctionRecord>,
    reservations: &Vec<FunctionId>,
    cancelled: &SortedSet<FunctionId>,
)
    requires
        old(functions).sound(),
        functions_wait(old(functions), reservations@, cancelled.items@),
        cancelled.wf(),
        slots_differ(reservations@),
        forall|i: int|
            0 <= i < reservations@.len() ==> (#[trigger] reservations@[i]).id < u32::MAX,
        forall|i: int|
            0 <= i < records@.len() ==> function_publishable(
                (#[trigger] records@[i])@,
                old(functions)@,
                reservations@,
                cancelled@,
            ),
        forall|i: int, j: int|
            0 <= i < j < records@.len() ==> (#[trigger] records@[i]).id != (#[trigger]
            records@[j]).id,
    ensures
        final(functions).sound(),
        final(functions)@ == functions_published(old(functions)@, records@),
        final(functions).index() == index_published(old(functions).index(), records@),
        final(functions).holders() == old(functions).holders(),
        hands_out(
            final(functions).ids(),
            old(functions).ids(),
            0,
            functions_given_back(records@),
        ),
{
    let ghost before = *functions;
    let ghost all = records@;
    let ghost mut done: int = 0;
    let mut rest: Vec<PreparedFunctionRecord> = turned(records);
    assert(all.skip(0) =~= all);
    assert(all.take(0) =~= Seq::empty());
    proof {
        before.lemma_sound();
        assert forall|i: int| 0 <= i < all.len() implies (#[trigger] all[i]).id.id < u32::MAX && (
        functions_waiting(before, reservations@, cancelled.items@, all[i].id)
            || before@.contains_key(all[i].id)) by {
            let id = all[i].id;
            assert(all[i]@.id == id);
            if !before@.contains_key(id) {
                assert(reservations@.contains(id));
                let k = reservations@.index_of(id);
                assert(reservations@[k] == id);
                assert(cancelled@.contains(id) == cancelled.items@.contains(id));
            }
        }
        assert forall|i: int, j: int| 0 <= i < j < all.len() implies (#[trigger] all[i]).id.id != (
        #[trigger] all[j]).id.id by {
            let (a, b) = (all[i].id, all[j].id);
            assert(functions_waiting(before, reservations@, cancelled.items@, a)
                || before@.contains_key(a));
            assert(functions_waiting(before, reservations@, cancelled.items@, b)
                || before@.contains_key(b));
            if a.id == b.id && !before@.contains_key(a) && !before@.contains_key(b) {
                lemma_same_slot(reservations@, a, b);
            }
        }
    }
    while rest.len() > 0
        invariant
            0 <= done <= all.len(),
            rest@.len() == all.len() - done,
            rest@ == all.skip(done).reverse(),
            functions.sound(),
            cancelled.wf(),
            slots_differ(reservations@),
            forall|i: int|
                0 <= i < reservations@.len() ==> (#[trigger] reservations@[i]).id < u32::MAX,
            forall|i: int|
                0 <= i < all.len() ==> function_publishable(
                    (#[trigger] all[i])@,
                    before@,
                    reservations@,
                    cancelled@,
                ),
            forall|i: int, j: int|
                0 <= i < j < all.len() ==> (#[trigger] all[i]).id != (#[trigger] all[j]).id,
            forall|i: int|
                done <= i < all.len() ==> (#[trigger] all[i]).id.id < u32::MAX && (
                functions.reserved(all[i].id.id as int) || functions@.contains_key(all[i].id)) && (
                before@.contains_key(all[i].id) ==> functions@.contains_key(all[i].id)),
            forall|i: int, j: int|
                0 <= i < j < all.len() ==> (#[trigger] all[i]).id.id != (#[trigger] all[j]).id.id,
            functions@ == functions_published(before@, all.take(done)),
            functions.index() == index_published(before.index(), all.take(done)),
            functions.holders() == before.holders(),
            hands_out(functions.ids(), before.ids(), 0, functions_given_back(all.take(done))),
        decreases rest@.len(),
    {
        let ghost earlier = *functions;
        assert(rest@.last() == all[done]);
        match rest.pop() {
            Some(record) => {
                let ghost view = record@;
                assert(record == all[done]);
                let PreparedFunctionRecord { function, id, previous } = record;
                match function {
                    Some(function) => {
                        functions.publish_upsert(function, previous);
                    },
                    None => {
                        match previous {
                            Some(entry) => {
                                functions.publish_remove(id, entry);
                            },
                            None => {},
                        }
                    },
                }
                proof {
                    let more = all.take(done + 1);
                    assert(more.drop_last() =~= all.take(done));
                    assert(more.last() == all[done]);
                    if all[done].function is None {
                        lemma_given_back(
                            functions.ids(),
                            earlier.ids(),
                            before.ids(),
                            0,
                            functions_given_back(all.take(done)),
                            id,
                        );
                    }
                    assert forall|i: int| done + 1 <= i < all.len() implies (#[trigger] all[i]).id.id
                        < u32::MAX && (functions.reserved(all[i].id.id as int)
                        || functions@.contains_key(all[i].id)) && (before@.contains_key(all[i].id)
                        ==> functions@.contains_key(all[i].id)) by {
                        assert(all[done].id.id != all[i].id.id);
                        if earlier.reserved(all[i].id.id as int) {
                            assert forall|other: FunctionId| #[trigger]
                                functions@.contains_key(other) implies other.id != all[i].id.id by {
                                if other != id {
                                    assert(earlier@.contains_key(other));
                                }
                            }
                        }
                    }
                }
            },
            None => {},
        }
        proof {
            assert(rest@ =~= all.skip(done + 1).reverse());
            done = done + 1;
        }
    }
    assert(all.take(done) =~= all);
}

/// What stands under each identity once prepared blocks have taken their places.
proof fn lemma_blocks_published(
    blocks: Map<CodeBlockId, CodeBlockView>,
    records: Seq<PreparedCodeBlockRecord>,
)
    requires
        forall|i: int, j: int|
            0 <= i < j < records.len() ==> (#[trigger] records[i]).id != (#[trigger] records[j]).id,
    ensures
        forall|i: int|
            0 <= i < records.len() ==> match (#[trigger] records[i])@.block {
                Some(block) => blocks_published(blocks, records).contains_key(records[i].id)
                    && blocks_published(blocks, records)[records[i].id] == block,
                None => !blocks_published(blocks, records).contains_key(records[i].id),
            },
        forall|id: CodeBlockId|
            (forall|i: int| 0 <= i < records.len() ==> (#[trigger] records[i]).id != id) ==> (
            #[trigger] blocks_published(blocks, records).contains_key(id) == blocks.contains_key(
                id,
            )) && blocks_published(blocks, records)[id] == blocks[id],
    decreases records.len(),
{
    if records.len() > 0 {
        let rest = records.drop_last();
        let last = records.len() - 1;
        lemma_blocks_published(blocks, rest);
        let before = blocks_published(blocks, rest);
        let after = blocks_published(blocks, records);
        assert forall|i: int| 0 <= i < records.len() implies match (#[trigger] records[i])@.block {
            Some(block) => after.contains_key(records[i].id) && after[records[i].id] == block,
            None => !after.contains_key(records[i].id),
        } by {
            if i < last {
                assert(rest[i] == records[i]);
                assert(records[i].id != records[last].id);
            }
        }
        assert forall|id: CodeBlockId|
            (forall|i: int| 0 <= i < records.len() ==> (#[trigger] records[i]).id != id) implies (
        #[trigger] after.contains_key(id) == blocks.contains_key(id)) && after[id]
            == blocks[id] by {
            assert forall|i: int| 0 <= i < rest.len() implies (#[trigger] rest[i]).id != id by {
                assert(rest[i] == records[i]);
            }
            assert(records[last].id != id);
            assert(before.contains_key(id) == blocks.contains_key(id));
        }
    }
}

/// What stands under each identity once prepared functions have taken their places.
proof fn lemma_functions_published(
    functions: Map<FunctionId, FunctionView>,
    records: Seq<PreparedFunctionRecord>,
)
    requires
        forall|i: int, j: int|
            0 <= i < j < records.len() ==> (#[trigger] records[i]).id != (#[trigger] records[j]).id,
    ensures
        forall|i: int|
            0 <= i < records.len() ==> match (#[trigger] records[i])@.function {
                Some(function) => functions_published(functions, records).contains_key(
                    records[i].id,
                ) && functions_published(functions, records)[records[i].id] == function,
                None => !functions_published(functions, records).contains_key(records[i].id),
            },
        forall|id: FunctionId|
            (forall|i: int| 0 <= i < records.len() ==> (#[trigger] records[i]).id != id) ==> (
            #[trigger] functions_published(functions, records).contains_key(id)
                == functions.contains_key(id)) && functions_published(functions, records)[id]
                == functions[id],
    decreases records.len(),
{
    if records.len() > 0 {
        let rest = records.drop_last();
        let last = records.len() - 1;
        lemma_functions_published(functions, rest);
        let before = functions_published(functions, rest);
        let after = functions_published(functions, records);
        assert forall|i: int| 0 <= i < records.len() implies match (#[trigger] records[i])@.function {
            Some(function) => after.contains_key(records[i].id) && after[records[i].id] == function,
            None => !after.contains_key(records[i].id),
        } by {
            if i < last {
                assert(rest[i] == records[i]);
                assert(records[i].id != records[last].id);
            }
        }
        assert forall|id: FunctionId|
            (forall|i: int| 0 <= i < records.len() ==> (#[trigger] records[i]).id != id) implies (
        #[trigger] after.contains_key(id) == functions.contains_key(id)) && after[id]
            == functions[id] by {
            assert forall|i: int| 0 <= i < rest.len() implies (#[trigger] rest[i]).id != id by {
                assert(rest[i] == records[i]);
            }
            assert(records[last].id != id);
            assert(before.contains_key(id) == functions.contains_key(id));
        }
    }
}

/// Nothing is given back where all blocks are new.
proof fn lemma_none_given_back(records: Seq<PreparedCodeBlockRecord>)
    requires
        forall|i: int| 0 <= i < records.len() ==> (#[trigger] records[i]).block is Some,
    ensures
        blocks_given_back(records) == Seq::<CodeBlockId>::empty(),
    decreases records.len(),
{
    if records.len() > 0 {
        assert(records.last() == records[records.len() - 1]);
        lemma_none_given_back(records.drop_last());
    }
}

/// Lets prepared blocks take their places.
fn publish_blocks(
    blocks: &mut CodeBlockTable,
    records: Vec<PreparedCodeBlockRecord>,
    new: bool,
    reservations: &Vec<CodeBlockId>,
    cancelled: &SortedSet<CodeBlockId>,
)
    requires
        old(blocks).wf(),
        blocks_wait(old(blocks), reservations@, cancelled.items@),
        cancelled.wf(),
        slots_differ(reservations@),
        forall|i: int|
            0 <= i < reservations@.len() ==> (#[trigger] reservations@[i]).id < u32::MAX,
        forall|i: int|
            0 <= i < records@.len() ==> block_publishable(
                (#[trigger] records@[i])@,
                old(blocks)@,
                reservations@,
                cancelled@,
            ),
        forall|i: int, j: int|
            0 <= i < j < records@.len() ==> (#[trigger] records@[i]).id != (#[trigger]
            records@[j]).id,
        new ==> forall|i: int|
            0 <= i < records@.len() ==> (#[trigger] records@[i]).block is Some,
    ensures
        final(blocks).wf(),
        final(blocks)@ == blocks_published(old(blocks)@, records@),
        hands_out(final(blocks).ids(), old(blocks).ids(), 0, blocks_given_back(records@)),
{
    let ghost before = *blocks;
    let ghost all = records@;
    let ghost mut done: int = 0;
    let mut rest: Vec<PreparedCodeBlockRecord> = turned(records);
    assert(all.skip(0) =~= all);
    assert(all.take(0) =~= Seq::empty());
    proof {
        before.lemma_wf();
        assert forall|i: int| 0 <= i < all.len() implies (#[trigger] all[i]).id.id < u32::MAX && (
        if all[i].block is Some {
            blocks_waiting(before, reservations@, cancelled.items@, all[i].id)
        } else {
            before@.contains_key(all[i].id)
        }) by {
            let id = all[i].id;
            assert(all[i]@.id == id);
            if all[i].block is Some {
                assert(all[i]@.block is Some);
                assert(reservations@.contains(id));
                let k = reservations@.index_of(id);
                assert(reservations@[k] == id);
                assert(cancelled@.contains(id) == cancelled.items@.contains(id));
            }
        }
        assert forall|i: int, j: int| 0 <= i < j < all.len() implies (#[trigger] all[i]).id.id != (
        #[trigger] all[j]).id.id by {
            let (a, b) = (all[i].id, all[j].id);
            if a.id == b.id && all[i].block is Some && all[j].block is Some {
                lemma_same_slot(reservations@, a, b);
            }
        }
    }
    if new {
        let mut batch: Vec<CodeBlock> = Vec::new();
        while rest.len() > 0
            invariant
                0 <= done <= all.len(),
                rest@.len() == all.len() - done,
                rest@ == all.skip(done).reverse(),
                batch@.len() == done,
                forall|i: int| 0 <= i < all.len() ==> (#[trigger] all[i]).block is Some,
                forall|i: int| 0 <= i < done ==> all[i].block == Some(#[trigger] batch@[i]),
            decreases rest@.len(),
        {
            assert(rest@.last() == all[done]);
            match rest.pop() {
                Some(record) => match record.into_block() {
                    Some(block) => {
                        batch.push(block);
                    },
                    None => {},
                },
                None => {},
            }
            proof {
                assert(rest@ =~= all.skip(done + 1).reverse());
                done = done + 1;
            }
        }
        let ghost listed = batch@;
        proof {
            assert forall|i: int| 0 <= i < listed.len() implies (#[trigger] listed[i])@.fits()
                && listed[i].id.id < u32::MAX && listed[i].id == all[i].id && before.reserved(
                listed[i].id.id as int,
            ) by {
                assert(all[i]@.block == Some(listed[i]@));
                assert(block_publishable(all[i]@, before@, reservations@, cancelled@));
                assert(blocks_waiting(before, reservations@, cancelled.items@, all[i].id));
            }
            assert(batch_fits(listed)) by {
                assert forall|i: int, j: int| 0 <= i < j < listed.len() implies (#[trigger]
                listed[i]).id.id != (#[trigger] listed[j]).id.id by {
                    assert(all[i].id.id != all[j].id.id);
                }
            }
        }
        blocks.publish_batch(batch);
        proof {
            lemma_blocks_published(before@, all);
            let after = blocks_published(before@, all);
            assert forall|id: CodeBlockId| #[trigger]
                blocks@.contains_key(id) <==> after.contains_key(id) by {
                if in_batch(listed, id) {
                    let i = choose|i: int| 0 <= i < listed.len() && (#[trigger] listed[i]).id == id;
                    assert(all[i]@.block == Some(listed[i]@));
                } else {
                    assert forall|i: int| 0 <= i < all.len() implies (#[trigger] all[i]).id != id by {
                        assert(listed[i].id == all[i].id);
                    }
                }
            }
            assert forall|id: CodeBlockId| #[trigger] blocks@.contains_key(id) implies blocks@[id]
                == after[id] by {
                if in_batch(listed, id) {
                    let i = choose|i: int| 0 <= i < listed.len() && (#[trigger] listed[i]).id == id;
                    assert(all[i]@.block == Some(listed[i]@));
                } else {
                    assert forall|i: int| 0 <= i < all.len() implies (#[trigger] all[i]).id != id by {
                        assert(listed[i].id == all[i].id);
                    }
                    assert(before@.contains_key(id));
                }
            }
            assert(blocks@ =~= after);
            lemma_none_given_back(all);
        }
        return;
    }
    while rest.len() > 0
        invariant
            0 <= done <= all.len(),
            rest@.len() == all.len() - done,
            rest@ == all.skip(done).reverse(),
            blocks.wf(),
            forall|i: int|
                0 <= i < all.len() ==> block_publishable(
                    (#[trigger] all[i])@,
                    before@,
                    reservations@,
                    cancelled@,
                ),
            forall|i: int|
                done <= i < all.len() ==> (#[trigger] all[i]).id.id < u32::MAX && (
                if all[i].block is Some {
                    blocks.reserved(all[i].id.id as int)
                } else {
                    blocks@.contains_key(all[i].id) && blocks@[all[i].id] == before@[all[i].id]
                }),
            forall|i: int, j: int|
                0 <= i < j < all.len() ==> (#[trigger] all[i]).id.id != (#[trigger] all[j]).id.id,
            blocks@ == blocks_published(before@, all.take(done)),
            hands_out(blocks.ids(), before.ids(), 0, blocks_given_back(all.take(done))),
        decreases rest@.len(),
    {
        let ghost earlier = *blocks;
        assert(rest@.last() == all[done]);
        match rest.pop() {
            Some(record) => {
                assert(record == all[done]);
                let PreparedCodeBlockRecord { block, id, previous } = record;
                match block {
                    Some(block) => {
                        blocks.publish_upsert(block);
                    },
                    None => {
                        match previous {
                            Some(range) => {
                                blocks.publish_remove(id, range);
                            },
                            None => {},
                        }
                    },
                }
                proof {
                    let more = all.take(done + 1);
                    assert(more.drop_last() =~= all.take(done));
                    assert(more.last() == all[done]);
                    if all[done].block is None {
                        lemma_given_back(
                            blocks.ids(),
                            earlier.ids(),
                            before.ids(),
                            0,
                            blocks_given_back(all.take(done)),
                            id,
                        );
                    }
                    assert forall|i: int| done + 1 <= i < all.len() implies (#[trigger] all[i]).id.id
                        < u32::MAX && (if all[i].block is Some {
                        blocks.reserved(all[i].id.id as int)
                    } else {
                        blocks@.contains_key(all[i].id) && blocks@[all[i].id]
                            == before@[all[i].id]
                    }) by {
                        assert(all[done].id.id != all[i].id.id);
                        if earlier.reserved(all[i].id.id as int) {
                            assert forall|other: CodeBlockId| #[trigger]
                                blocks@.contains_key(other) implies other.id != all[i].id.id by {
                                if other != id {
                                    assert(earlier@.contains_key(other));
                                }
                            }
                        }
                    }
                }
            },
            None => {},
        }
        proof {
            assert(rest@ =~= all.skip(done + 1).reverse());
            done = done + 1;
        }
    }
    assert(all.take(done) =~= all);
}

impl PreparedFunctionBatch {
    /// Makes the changes.
    pub fn publish(self, functions: &mut FunctionTable, blocks: &mut CodeBlockTable)
        requires
            publishable(self, old(functions), old(blocks)),
        ensures
            final(functions).sound(),
            final(functions)@ == functions_published(old(functions)@, self.functions@),
            final(functions).index() == index_published(old(functions).index(), self.functions@),
            final(functions).holders() == merged(old(functions).holders(), self.by_block@),
            final(blocks).wf(),
            final(blocks)@ == blocks_published(old(blocks)@, self.blocks@),
            hands_out(
                final(functions).ids(),
                old(functions).ids(),
                self.function_reservations@.len() as int,
                self.cancelled_functions.items@ + functions_given_back(self.functions@),
            ),
            hands_out(
                final(blocks).ids(),
                old(blocks).ids(),
                self.block_reservations@.len() as int,
                self.cancelled_blocks.items@ + blocks_given_back(self.blocks@),
            ),
    {
        let ghost function_ids = functions.ids();
        let ghost block_ids = blocks.ids();
        let ghost batch = self;
        let PreparedFunctionBatch {
            block_reservations,
            blocks: block_records,
            blocks_are_new,
            cancelled_blocks,
            cancelled_functions,
            function_reservations,
            functions: function_records,
            by_block,
            original_by_block,
        } = self;
        proof {
            functions.lemma_sound();
            blocks.lemma_wf();
            lemma_next_ids(function_reservations@, functions.ids());
            lemma_next_ids(block_reservations@, blocks.ids());
        }
        reserve_functions(functions, &function_reservations, &cancelled_functions);
        reserve_blocks(blocks, &block_reservations, &cancelled_blocks);
        let ghost functions_handed = functions.ids();
        let ghost blocks_handed = blocks.ids();
        publish_blocks(
            blocks,
            block_records,
            blocks_are_new,
            &block_reservations,
            &cancelled_blocks,
        );
        publish_functions(
            functions,
            function_records,
            &function_reservations,
            &cancelled_functions,
        );
        functions.publish_membership(by_block);
        proof {
            lemma_given_back_in_parts(
                functions.ids(),
                functions_handed,
                function_ids,
                function_reservations@.len() as int,
                cancelled_functions.items@,
                functions_given_back(batch.functions@),
            );
            lemma_given_back_in_parts(
                blocks.ids(),
                blocks_handed,
                block_ids,
                block_reservations@.len() as int,
                cancelled_blocks.items@,
                blocks_given_back(batch.blocks@),
            );
        }
    }
}

/// Whether a prepared function with an entry is put into its place.
pub open spec fn puts_at(record: PreparedFunctionView, entry: Address) -> bool {
    record.function matches Some(function) && function.entry == entry
}

/// Whether the function with an entry is taken out.
pub open spec fn takes_from(record: PreparedFunctionView, entry: Address) -> bool {
    record.function is None && record.previous == Some(entry)
}

/// Whether no function is put at an entry before the one that leaves the entry is taken out.
pub open spec fn is_orderly(records: Seq<PreparedFunctionRecord>) -> bool {
    forall|i: int, j: int, entry: Address|
        0 <= i < j < records.len() && #[trigger] puts_at(records[i]@, entry) ==> !(
        #[trigger] takes_from(records[j]@, entry))
}

/// What an entry leads to once prepared functions have taken their places in good order.
proof fn lemma_index_published(
    index: Map<Address, FunctionId>,
    records: Seq<PreparedFunctionRecord>,
    entry: Address,
)
    requires
        is_orderly(records),
        forall|i: int|
            0 <= i < records.len() ==> match (#[trigger] records[i])@.function {
                Some(function) => records[i].previous is None || records[i].previous == Some(
                    function.entry,
                ),
                None => records[i].previous is Some,
            },
        forall|i: int, j: int, e: Address|
            0 <= i < j < records.len() && #[trigger] puts_at(records[i]@, e) ==> !(
            #[trigger] puts_at(records[j]@, e)),
    ensures
        forall|i: int|
            0 <= i < records.len() && puts_at((#[trigger] records[i])@, entry) ==> index_published(
                index,
                records,
            ).contains_key(entry) && index_published(index, records)[entry] == records[i].id,
        (forall|i: int| 0 <= i < records.len() ==> !puts_at((#[trigger] records[i])@, entry)) && (
        exists|i: int| 0 <= i < records.len() && takes_from((#[trigger] records[i])@, entry))
            ==> !index_published(index, records).contains_key(entry),
        (forall|i: int|
            0 <= i < records.len() ==> !puts_at((#[trigger] records[i])@, entry) && !takes_from(
                records[i]@,
                entry,
            )) ==> index_published(index, records).contains_key(entry) == index.contains_key(entry)
            && index_published(index, records)[entry] == index[entry],
    decreases records.len(),
{
    if records.len() > 0 {
        let rest = records.drop_last();
        let last = records.len() - 1;
        assert forall|i: int| 0 <= i < rest.len() implies rest[i] == records[i] by {}
        assert(is_orderly(rest)) by {
            assert forall|i: int, j: int, e: Address|
                0 <= i < j < rest.len() && #[trigger] puts_at(rest[i]@, e) implies !(
            #[trigger] takes_from(rest[j]@, e)) by {
                assert(puts_at(records[i]@, e));
                assert(!takes_from(records[j]@, e));
            }
        }
        assert forall|i: int, j: int, e: Address|
            0 <= i < j < rest.len() && #[trigger] puts_at(rest[i]@, e) implies !(
        #[trigger] puts_at(rest[j]@, e)) by {
            assert(puts_at(records[i]@, e));
            assert(!puts_at(records[j]@, e));
        }
        lemma_index_published(index, rest, entry);
        let before = index_published(index, rest);
        let after = index_published(index, records);
        assert(records[last] == records.last());
        assert forall|i: int|
            0 <= i < records.len() && puts_at((#[trigger] records[i])@, entry) implies after.contains_key(
            entry,
        ) && after[entry] == records[i].id by {
            if i < last {
                assert(puts_at(rest[i]@, entry));
                assert(!puts_at(records[last]@, entry));
                assert(!takes_from(records[last]@, entry));
            }
        }
        if (forall|i: int| 0 <= i < records.len() ==> !puts_at((#[trigger] records[i])@, entry)) && (
        exists|i: int| 0 <= i < records.len() && takes_from((#[trigger] records[i])@, entry)) {
            assert forall|i: int| 0 <= i < rest.len() implies !puts_at(
                (#[trigger] rest[i])@,
                entry,
            ) by {
                assert(!puts_at(records[i]@, entry));
            }
            assert(!puts_at(records[last]@, entry));
            let i = choose|i: int|
                0 <= i < records.len() && takes_from((#[trigger] records[i])@, entry);
            if i < last {
                assert(takes_from(rest[i]@, entry));
            }
        }
        if forall|i: int|
            0 <= i < records.len() ==> !puts_at((#[trigger] records[i])@, entry) && !takes_from(
                records[i]@,
                entry,
            ) {
            assert forall|i: int| 0 <= i < rest.len() implies !puts_at(
                (#[trigger] rest[i])@,
                entry,
            ) && !takes_from(rest[i]@, entry) by {
                assert(!puts_at(records[i]@, entry));
            }
            assert(!puts_at(records[last]@, entry) && !takes_from(records[last]@, entry));
        }
    }
}

/// Whether the generations of the identities that are given back have not come to their end.
pub open spec fn can_give_back(v: StagingView) -> bool {
    &&& forall|id: CodeBlockId| #[trigger]
        v.cancelled_blocks.contains(id) ==> id.generation < u32::MAX - 1
    &&& forall|id: FunctionId| #[trigger]
        v.cancelled_functions.contains(id) ==> id.generation < u32::MAX - 1
    &&& forall|id: CodeBlockId| #[trigger]
        v.blocks.contains_key(id) && v.blocks[id].block is None ==> id.generation < u32::MAX - 1
    &&& forall|id: FunctionId| #[trigger]
        v.functions.contains_key(id) && v.functions[id].function is None ==> id.generation
            < u32::MAX - 1
}

/// The functions become what staging said they would be.
proof fn lemma_functions_become(
    v: StagingView,
    t: TablesView,
    records: Seq<PreparedFunctionRecord>,
)
    requires
        prepares_functions(records, v, t),
    ensures
        functions_published(t.functions, records) == v.functions_now(t),
        forall|i: int, j: int|
            0 <= i < j < records.len() ==> (#[trigger] records[i]).id != (#[trigger]
            records[j]).id,
{
    assert forall|i: int, j: int| 0 <= i < j < records.len() implies (#[trigger] records[i]).id != (
    #[trigger] records[j]).id by {
        assert(records[i].id.rank() < records[j].id.rank());
    }
    lemma_functions_published(t.functions, records);
    let after = functions_published(t.functions, records);
    let now = v.functions_now(t);
    assert forall|id: FunctionId| #[trigger] after.contains_key(id) <==> now.contains_key(id) by {
        if function_changes(v, t, id) {
            let i = choose|i: int| 0 <= i < records.len() && (#[trigger] records[i]).id == id;
            assert(records[i]@ == prepared_function(v, t, id));
        } else {
            assert forall|i: int| 0 <= i < records.len() implies (#[trigger] records[i]).id != id by {
                assert(function_changes(v, t, records[i].id));
            }
        }
    }
    assert forall|id: FunctionId| #[trigger] after.contains_key(id) implies after[id] == now[id] by {
        if function_changes(v, t, id) {
            let i = choose|i: int| 0 <= i < records.len() && (#[trigger] records[i]).id == id;
            assert(records[i]@ == prepared_function(v, t, id));
        } else {
            assert forall|i: int| 0 <= i < records.len() implies (#[trigger] records[i]).id != id by {
                assert(function_changes(v, t, records[i].id));
            }
        }
    }
    assert(after =~= now);
}

/// The blocks become what staging said they would be.
proof fn lemma_blocks_become(
    v: StagingView,
    t: TablesView,
    block_records: Seq<PreparedCodeBlockRecord>,
)
    requires
        prepares_blocks(block_records, v, t),
    ensures
        blocks_published(t.blocks, block_records) == v.blocks_now(t),
{
    lemma_blocks_published(t.blocks, block_records);
    let blocks_after = blocks_published(t.blocks, block_records);
    let blocks_now = v.blocks_now(t);
    assert forall|id: CodeBlockId| #[trigger]
        blocks_after.contains_key(id) <==> blocks_now.contains_key(id) by {
        if block_changes(v, t, id) {
            let i = choose|i: int|
                0 <= i < block_records.len() && (#[trigger] block_records[i]).id == id;
            assert(block_records[i]@ == prepared_block(v, t, id));
        } else {
            assert forall|i: int| 0 <= i < block_records.len() implies (
            #[trigger] block_records[i]).id != id by {
                assert(block_changes(v, t, block_records[i].id));
            }
        }
    }
    assert forall|id: CodeBlockId| #[trigger] blocks_after.contains_key(id) implies blocks_after[id]
        == blocks_now[id] by {
        if block_changes(v, t, id) {
            let i = choose|i: int|
                0 <= i < block_records.len() && (#[trigger] block_records[i]).id == id;
            assert(block_records[i]@ == prepared_block(v, t, id));
        } else {
            assert forall|i: int| 0 <= i < block_records.len() implies (
            #[trigger] block_records[i]).id != id by {
                assert(block_changes(v, t, block_records[i].id));
            }
        }
    }
    assert(blocks_after =~= blocks_now);
}

/// What was prepared can be published, and publishing it makes the tables what staging said
/// they would be: the functions, the blocks and what blocks are listed with.
#[verifier::rlimit(40)]
pub proof fn law_publishing_keeps_promise(
    staging: FunctionTableStaging,
    functions: FunctionTable,
    blocks: CodeBlockTable,
    batch: PreparedFunctionBatch,
)
    requires
        staging.wf(&functions, &blocks),
        prepares(batch, staging@, tables(&functions, &blocks)),
        can_give_back(staging@),
    ensures
        publishable(batch, &functions, &blocks),
        functions_published(functions@, batch.functions@) == staging@.functions_now(
            tables(&functions, &blocks),
        ),
        blocks_published(blocks@, batch.blocks@) == staging@.blocks_now(
            tables(&functions, &blocks),
        ),
        forall|block: CodeBlockId| #[trigger]
            held(merged(functions.holders(), batch.by_block@), block) == held(
                staging@.holders_now(tables(&functions, &blocks)),
                block,
            ),
        holders_agree(
            merged(functions.holders(), batch.by_block@),
            functions_published(functions@, batch.functions@),
        ),
{
    let t = tables(&functions, &blocks);
    let v = staging@;
    functions.lemma_sound();
    blocks.lemma_wf();
    lemma_next_ids(v.function_ids, t.function_ids);
    lemma_next_ids(v.block_ids, t.block_ids);
    let records = batch.functions@;
    lemma_functions_become(v, t, records);
    lemma_blocks_become(v, t, batch.blocks@);
    let after = functions_published(t.functions, records);
    let block_records = batch.blocks@;
    assert forall|i: int| 0 <= i < block_records.len() implies block_publishable(
        (#[trigger] block_records[i])@,
        t.blocks,
        v.block_ids,
        v.cancelled_blocks,
    ) by {
        let id = block_records[i].id;
        assert(block_changes(v, t, id));
        assert(v.blocks.contains_key(id));
    }
    assert forall|i: int| 0 <= i < records.len() implies function_publishable(
        (#[trigger] records[i])@,
        t.functions,
        v.function_ids,
        v.cancelled_functions,
    ) by {
        let id = records[i].id;
        assert(function_changes(v, t, id));
        assert(v.functions.contains_key(id));
    }
    if batch.blocks_are_new {
        assert forall|i: int| 0 <= i < block_records.len() implies (
        #[trigger] block_records[i]).block is Some by {
            let id = block_records[i].id;
            assert(block_changes(v, t, id));
            assert(v.blocks.contains_key(id));
            assert(block_records[i]@.block is Some);
        }
    }
    let lists = merged(functions.holders(), batch.by_block@);
    assert forall|block: CodeBlockId| #[trigger] held(lists, block) == held(
        v.holders_now(t),
        block,
    ) by {}
    assert forall|block: CodeBlockId, id: FunctionId| #[trigger]
        held(lists, block).contains(id) <==> after.contains_key(id) && crate::function::lists_block(
            after[id].blocks,
            block,
        ) by {
        assert(held(lists, block) == held(v.holders_now(t), block));
    }
}

/// Where no function is put at an entry before the one that leaves it is taken out, the entries
/// lead to what staging said after publishing.
pub proof fn law_published_entries_lead_to_functions(
    staging: FunctionTableStaging,
    functions: FunctionTable,
    blocks: CodeBlockTable,
    batch: PreparedFunctionBatch,
)
    requires
        staging.wf(&functions, &blocks),
        prepares(batch, staging@, tables(&functions, &blocks)),
        is_orderly(batch.functions@),
    ensures
        index_published(functions.index(), batch.functions@) == staging@.index_now(
            tables(&functions, &blocks),
        ),
        found_by_entry(
            index_published(functions.index(), batch.functions@),
            staging@.functions_now(tables(&functions, &blocks)),
        ),
{
    let t = tables(&functions, &blocks);
    let v = staging@;
    let records = batch.functions@;
    let now = v.functions_now(t);
    functions.lemma_sound();
    lemma_next_ids(v.function_ids, t.function_ids);
    assert forall|i: int| 0 <= i < records.len() implies match (#[trigger] records[i])@.function {
        Some(function) => (records[i].previous is None || records[i].previous == Some(
            function.entry,
        )) && now.contains_key(records[i].id) && now[records[i].id] == function,
        None => records[i].previous == Some(t.functions[records[i].id].entry)
            && t.functions.contains_key(records[i].id) && !now.contains_key(records[i].id),
    } by {
        let id = records[i].id;
        assert(function_changes(v, t, id));
        assert(v.functions.contains_key(id));
        assert(records[i]@ == prepared_function(v, t, id));
    }
    assert forall|i: int, j: int, e: Address|
        0 <= i < j < records.len() && #[trigger] puts_at(records[i]@, e) implies !(
    #[trigger] puts_at(records[j]@, e)) by {
        assert(records[i].id.rank() < records[j].id.rank());
        if puts_at(records[j]@, e) {
            assert(now.contains_key(records[i].id) && now.contains_key(records[j].id));
        }
    }
    let after = index_published(t.index, records);
    let index = v.index_now(t);
    assert forall|entry: Address|
        (#[trigger] after.contains_key(entry) == index.contains_key(entry)) && (index.contains_key(
            entry,
        ) ==> after[entry] == index[entry]) by {
        lemma_index_published(t.index, records, entry);
        if exists|i: int| 0 <= i < records.len() && puts_at((#[trigger] records[i])@, entry) {
            let i = choose|i: int|
                0 <= i < records.len() && puts_at((#[trigger] records[i])@, entry);
            assert(now.contains_key(records[i].id));
        } else if index.contains_key(entry) {
            let id = index[entry];
            assert(now.contains_key(id));
            if function_changes(v, t, id) {
                let i = choose|i: int| 0 <= i < records.len() && (#[trigger] records[i]).id == id;
                assert(puts_at(records[i]@, entry));
            }
            assert(t.functions.contains_key(id) && t.functions[id].entry == entry);
            assert forall|i: int| 0 <= i < records.len() implies !takes_from(
                (#[trigger] records[i])@,
                entry,
            ) by {
                if takes_from(records[i]@, entry) {
                    assert(t.functions.contains_key(records[i].id));
                    assert(t.index[entry] == records[i].id);
                    assert(t.index[entry] == id);
                }
            }
        } else if t.index.contains_key(entry) {
            let id = t.index[entry];
            assert(t.functions.contains_key(id));
            if now.contains_key(id) {
                assert(now[id].entry == entry);
            }
            assert(v.functions.contains_key(id) && v.functions[id].function is None);
            assert(function_changes(v, t, id));
            let i = choose|i: int| 0 <= i < records.len() && (#[trigger] records[i]).id == id;
            assert(takes_from(records[i]@, entry));
        } else {
            assert forall|i: int| 0 <= i < records.len() implies !takes_from(
                (#[trigger] records[i])@,
                entry,
            ) by {
                if takes_from(records[i]@, entry) {
                    assert(t.functions.contains_key(records[i].id));
                }
            }
        }
    }
    assert(after =~= index);
}

} // verus!
