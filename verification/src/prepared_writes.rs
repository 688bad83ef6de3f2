//! What a prepared batch writes where tables are stored.
use vstd::prelude::*;

use crate::address::{offsets, Address, AddressRange};
use crate::block::CodeBlockId;
use crate::block_buckets::BlockRangeChange;
use crate::block_holders::{held, BlockHolders};
use crate::codec::{be, capacity, lemma_be_pair, lemma_take_parts, KeyCodec};
use crate::function::{FunctionEntity, FunctionId};
use crate::id::{Id, IdSet};
use crate::order::{ascending, Ranked, SortedSet};
use crate::prepared::{PreparedCodeBlockRecord, PreparedFunctionRecord};
use crate::reference::lemma_pair_parts;

verus! {

/// That a function is made of a block: the block, then the function.
#[derive(Debug, Clone, Copy)]
pub struct FunctionBlockKey {
    pub block: CodeBlockId,
    pub function: FunctionId,
}

impl Ranked for FunctionBlockKey {
    open spec fn rank(self) -> int {
        self.block.rank() * offsets() + self.function.rank()
    }

    proof fn lemma_rank_injective(a: Self, b: Self) {
        CodeBlockId::lemma_rank_injective(a.block, b.block);
        FunctionId::lemma_rank_injective(a.function, b.function);
    }

    fn precedes(&self, other: &Self) -> (before: bool) {
        self.block.precedes(&other.block) || (!other.block.precedes(&self.block)
            && self.function.precedes(&other.function))
    }
}

/// The bytes of a key are those of its parts.
proof fn lemma_function_block_bytes(key: FunctionBlockKey)
    ensures
        be(16, key.rank()) == be(8, key.block.rank()) + be(8, key.function.rank()),
{
    reveal_with_fuel(capacity, 9);
    lemma_be_pair(8, 8, key.block.rank(), key.function.rank());
}

impl KeyCodec for FunctionBlockKey {
    open spec fn width() -> nat {
        16
    }

    proof fn lemma_rank_fits(key: Self) {
        reveal_with_fuel(capacity, 17);
    }

    fn encode(&self, output: &mut Vec<u8>) {
        let ghost before = output@;
        self.block.encode(output);
        self.function.encode(output);
        proof {
            assert(Self::width() == 16);
            lemma_function_block_bytes(*self);
            assert(output@ =~= before + (be(8, self.block.rank()) + be(8, self.function.rank())));
        }
    }

    fn decode(input: &mut &[u8]) -> (key: Option<Self>) {
        let ghost before = input@;
        let block: CodeBlockId = match CodeBlockId::decode(input) {
            Some(block) => block,
            None => {
                proof {
                    assert forall|k: FunctionBlockKey|
                        before.len() < 16 || #[trigger] be(16, k.rank()) != before.take(16) by {
                        lemma_function_block_bytes(k);
                        if before.len() >= 16 && be(16, k.rank()) == before.take(16) {
                            lemma_pair_parts(8, 8, k.block.rank(), k.function.rank(), before);
                        }
                    }
                }
                return None;
            },
        };
        match FunctionId::decode(input) {
            Some(function) => {
                let key = FunctionBlockKey { block, function };
                proof {
                    lemma_function_block_bytes(key);
                    lemma_take_parts(before, 8, 8);
                }
                Some(key)
            },
            None => {
                proof {
                    assert forall|k: FunctionBlockKey|
                        before.len() < 16 || #[trigger] be(16, k.rank()) != before.take(16) by {
                        lemma_function_block_bytes(k);
                        if before.len() >= 16 && be(16, k.rank()) == before.take(16) {
                            lemma_pair_parts(8, 8, k.block.rank(), k.function.rank(), before);
                        }
                    }
                }
                None
            },
        }
    }
}

impl FunctionBlockKey {
    /// The first key of a block.
    pub fn first(block: CodeBlockId) -> (key: Self)
        ensures
            key.block == block,
            forall|other: FunctionBlockKey|
                other.block == block ==> key.rank() <= #[trigger] other.rank(),
    {
        FunctionBlockKey { block, function: Id::with_generation(0, 0) }
    }
}

/// What is written about functions: where they are entered, and which blocks they are made of.
#[derive(Debug, Clone, Copy)]
pub enum FunctionIndexWrite {
    InsertEntry { entry: Address, id: FunctionId },
    RemoveEntry(Address),
    InsertBlock(FunctionBlockKey),
    RemoveBlock(FunctionBlockKey),
}

/// What is written for a function about its entry.
pub open spec fn entry_writes(record: PreparedFunctionRecord) -> Seq<FunctionIndexWrite> {
    let left = match record.previous {
        Some(previous) => if record.function matches Some(function) && function.entry == previous {
            Seq::empty()
        } else {
            seq![FunctionIndexWrite::RemoveEntry(previous)]
        },
        None => Seq::empty(),
    };
    let entered = match record.function {
        Some(function) => seq![
            FunctionIndexWrite::InsertEntry { entry: function.entry, id: record.id },
        ],
        None => Seq::empty(),
    };
    left + entered
}

/// What is written for functions about their entries, one after another.
pub open spec fn all_entry_writes(records: Seq<PreparedFunctionRecord>) -> Seq<FunctionIndexWrite>
    decreases records.len(),
{
    if records.len() == 0 {
        Seq::empty()
    } else {
        all_entry_writes(records.drop_last()) + entry_writes(records.last())
    }
}

/// Whether a write is called for where the functions of some blocks change.
pub open spec fn is_holder_write(
    write: FunctionIndexWrite,
    now: Map<CodeBlockId, Set<FunctionId>>,
    before: Map<CodeBlockId, Set<FunctionId>>,
) -> bool {
    match write {
        FunctionIndexWrite::InsertBlock(key) => now.contains_key(key.block)
            && now[key.block].contains(key.function) && !held(before, key.block).contains(
            key.function,
        ),
        FunctionIndexWrite::RemoveBlock(key) => now.contains_key(key.block)
            && !now[key.block].contains(key.function) && held(before, key.block).contains(
            key.function,
        ),
        _ => false,
    }
}

/// Whether writes are those that are called for, each once. In what order they come is open.
pub open spec fn are_holder_writes(
    writes: Seq<FunctionIndexWrite>,
    now: Map<CodeBlockId, Set<FunctionId>>,
    before: Map<CodeBlockId, Set<FunctionId>>,
) -> bool {
    &&& writes.no_duplicates()
    &&& forall|write: FunctionIndexWrite| #[trigger]
        writes.contains(write) <==> is_holder_write(write, now, before)
}

/// What is to be written about the entries of functions.
pub fn append_entry_writes(records: &Vec<PreparedFunctionRecord>) -> (writes: Vec<
    FunctionIndexWrite,
>)
    ensures
        writes@ == all_entry_writes(records@),
{
    let mut writes: Vec<FunctionIndexWrite> = Vec::new();
    let mut i: usize = 0;
    assert(records@.take(0) =~= Seq::empty());
    while i < records.len()
        invariant
            i <= records@.len(),
            writes@ == all_entry_writes(records@.take(i as int)),
        decreases records@.len() - i,
    {
        let record: &PreparedFunctionRecord = &records[i];
        let ghost before = writes@;
        if let Some(previous) = record.previous {
            let stays: bool = match &record.function {
                Some(function) => function.entry() == previous,
                None => false,
            };
            if !stays {
                writes.push(FunctionIndexWrite::RemoveEntry(previous));
            }
        }
        if let Some(function) = &record.function {
            writes.push(
                FunctionIndexWrite::InsertEntry { entry: function.entry(), id: record.id },
            );
        }
        proof {
            assert(writes@ =~= before + entry_writes(*record));
            assert(records@.take(i + 1).drop_last() =~= records@.take(i as int));
        }
        i = i + 1;
    }
    assert(records@.take(i as int) =~= records@);
    writes
}

/// Adds a write for each function of a block that is in one set and not in another.
fn push_holder_writes(
    writes: &mut Vec<FunctionIndexWrite>,
    block: CodeBlockId,
    functions: &IdSet<FunctionEntity>,
    others: &IdSet<FunctionEntity>,
    insert: bool,
)
    requires
        old(writes)@.no_duplicates(),
        forall|function: FunctionId|
            !old(writes)@.contains(#[trigger] holder_write(block, function, insert)),
    ensures
        final(writes)@.no_duplicates(),
        forall|write: FunctionIndexWrite| #[trigger]
            final(writes)@.contains(write) <==> old(writes)@.contains(write) || exists|
                function: FunctionId,
            |
                #[trigger] holder_write(block, function, insert) == write && functions@.contains(
                    function,
                ) && !others@.contains(function),
{
    let ids: Vec<FunctionId> = functions.iter();
    let ghost before = writes@;
    let mut i: usize = 0;
    while i < ids.len()
        invariant
            i <= ids@.len(),
            ids@.no_duplicates(),
            writes@.no_duplicates(),
            forall|function: FunctionId|
                !before.contains(#[trigger] holder_write(block, function, insert)),
            forall|write: FunctionIndexWrite| #[trigger]
                writes@.contains(write) <==> before.contains(write) || exists|k: int|
                    0 <= k < i && holder_write(block, #[trigger] ids@[k], insert) == write
                        && !others@.contains(ids@[k]),
        decreases ids@.len() - i,
    {
        let function: FunctionId = ids[i];
        let ghost now = writes@;
        let ghost own = holder_write(block, function, insert);
        proof {
            if now.contains(own) {
                let k = choose|k: int|
                    0 <= k < i && holder_write(block, #[trigger] ids@[k], insert) == own
                        && !others@.contains(ids@[k]);
                assert(ids@[k] == ids@[i as int]);
            }
        }
        if !others.contains(function) {
            let key = FunctionBlockKey { block, function };
            if insert {
                writes.push(FunctionIndexWrite::InsertBlock(key));
            } else {
                writes.push(FunctionIndexWrite::RemoveBlock(key));
            }
            assert(writes@ =~= now.push(own));
        }
        proof {
            assert forall|write: FunctionIndexWrite| #[trigger]
                writes@.contains(write) <==> before.contains(write) || exists|k: int|
                    0 <= k < i + 1 && holder_write(block, #[trigger] ids@[k], insert) == write
                        && !others@.contains(ids@[k]) by {
                lemma_push_has(now, own, write);
                if now.contains(write) && !before.contains(write) {
                    let k = choose|k: int|
                        0 <= k < i && holder_write(block, #[trigger] ids@[k], insert) == write
                            && !others@.contains(ids@[k]);
                    assert(0 <= k < i + 1);
                }
                if exists|k: int|
                    0 <= k < i + 1 && holder_write(block, #[trigger] ids@[k], insert) == write
                        && !others@.contains(ids@[k]) {
                    let k = choose|k: int|
                        0 <= k < i + 1 && holder_write(block, #[trigger] ids@[k], insert) == write
                            && !others@.contains(ids@[k]);
                    if k < i {
                        assert(now.contains(write));
                    } else {
                        assert(write == own);
                    }
                }
                if write == own && !others@.contains(function) {
                    assert(holder_write(block, ids@[i as int], insert) == write);
                }
            }
        }
        i = i + 1;
    }
    proof {
        assert forall|write: FunctionIndexWrite| #[trigger]
            writes@.contains(write) <==> before.contains(write) || exists|function: FunctionId|
                #[trigger] holder_write(block, function, insert) == write && functions@.contains(
                    function,
                ) && !others@.contains(function) by {
            if writes@.contains(write) && !before.contains(write) {
                let k = choose|k: int|
                    0 <= k < i && holder_write(block, #[trigger] ids@[k], insert) == write
                        && !others@.contains(ids@[k]);
                assert(ids@.contains(ids@[k]));
                assert(holder_write(block, ids@[k], insert) == write);
            }
            if exists|function: FunctionId|
                #[trigger] holder_write(block, function, insert) == write && functions@.contains(
                    function,
                ) && !others@.contains(function) {
                let function = choose|function: FunctionId|
                    #[trigger] holder_write(block, function, insert) == write
                        && functions@.contains(function) && !others@.contains(function);
                assert(ids@.contains(function));
                let k = ids@.index_of(function);
                assert(ids@[k] == function);
            }
        }
    }
}

/// The write about a block and a function.
pub open spec fn holder_write(
    block: CodeBlockId,
    function: FunctionId,
    insert: bool,
) -> FunctionIndexWrite {
    if insert {
        FunctionIndexWrite::InsertBlock(FunctionBlockKey { block, function })
    } else {
        FunctionIndexWrite::RemoveBlock(FunctionBlockKey { block, function })
    }
}

proof fn lemma_push_has<A>(seen: Seq<A>, last: A, a: A)
    ensures
        seen.push(last).contains(a) <==> seen.contains(a) || a == last,
{
    if seen.contains(a) {
        assert(seen.push(last)[seen.index_of(a)] == a);
    }
    assert(seen.push(last)[seen.len() as int] == last);
    if seen.push(last).contains(a) && a != last {
        let i = seen.push(last).index_of(a);
        assert(seen[i] == a);
    }
}

/// The block that a write is about, if it is about one.
spec fn about_block(write: FunctionIndexWrite) -> Option<CodeBlockId> {
    match write {
        FunctionIndexWrite::InsertBlock(key) => Some(key.block),
        FunctionIndexWrite::RemoveBlock(key) => Some(key.block),
        _ => None,
    }
}

/// What is to be written about which functions are made of which blocks.
pub fn append_holder_writes(now: &BlockHolders, before: &BlockHolders) -> (writes: Vec<
    FunctionIndexWrite,
>)
    requires
        now.wf(),
        before.wf(),
    ensures
        are_holder_writes(writes@, now@, before@),
{
    let blocks: Vec<CodeBlockId> = now.blocks();
    let mut writes: Vec<FunctionIndexWrite> = Vec::new();
    let mut i: usize = 0;
    while i < blocks.len()
        invariant
            i <= blocks@.len(),
            blocks@.no_duplicates(),
            forall|block: CodeBlockId| #[trigger]
                blocks@.contains(block) <==> now@.contains_key(block),
            writes@.no_duplicates(),
            forall|write: FunctionIndexWrite| #[trigger]
                writes@.contains(write) <==> is_holder_write(write, now@, before@) && exists|k: int|
                    0 <= k < i && about_block(write) == Some(#[trigger] blocks@[k]),
        decreases blocks@.len() - i,
    {
        let block: CodeBlockId = blocks[i];
        let ghost start = writes@;
        proof {
            assert(blocks@.contains(block));
            assert forall|write: FunctionIndexWrite|
                about_block(write) == Some(block) implies !#[trigger] start.contains(write) by {
                if start.contains(write) {
                    let k = choose|k: int|
                        0 <= k < i && about_block(write) == Some(#[trigger] blocks@[k]);
                    assert(blocks@[k] == blocks@[i as int]);
                }
            }
        }
        let previous: IdSet<FunctionEntity> = before.get_or_empty(block);
        if let Some(functions) = now.get(block) {
            push_holder_writes(&mut writes, block, &previous, functions, false);
            let ghost middle = writes@;
            proof {
                assert forall|function: FunctionId| !middle.contains(
                    #[trigger] holder_write(block, function, true),
                ) by {
                    let write = holder_write(block, function, true);
                    if middle.contains(write) {
                        assert(!start.contains(write));
                        let other = choose|other: FunctionId|
                            #[trigger] holder_write(block, other, false) == write
                                && previous@.contains(other) && !functions@.contains(other);
                        assert(false);
                    }
                }
            }
            push_holder_writes(&mut writes, block, functions, &previous, true);
            proof {
                assert forall|write: FunctionIndexWrite| #[trigger]
                    writes@.contains(write) <==> is_holder_write(write, now@, before@) && exists|
                        k: int,
                    |
                        0 <= k < i + 1 && about_block(write) == Some(#[trigger] blocks@[k]) by {
                    if start.contains(write) {
                        let k = choose|k: int|
                            0 <= k < i && about_block(write) == Some(#[trigger] blocks@[k]);
                        assert(0 <= k < i + 1);
                    }
                    if writes@.contains(write) && !start.contains(write) {
                        assert(about_block(write) == Some(blocks@[i as int]));
                    }
                    if is_holder_write(write, now@, before@) && exists|k: int|
                        0 <= k < i + 1 && about_block(write) == Some(#[trigger] blocks@[k]) {
                        let k = choose|k: int|
                            0 <= k < i + 1 && about_block(write) == Some(#[trigger] blocks@[k]);
                        if k < i {
                            assert(start.contains(write));
                        } else {
                            match write {
                                FunctionIndexWrite::InsertBlock(key) => {
                                    assert(holder_write(block, key.function, true) == write);
                                },
                                FunctionIndexWrite::RemoveBlock(key) => {
                                    assert(holder_write(block, key.function, false) == write);
                                    assert(middle.contains(write));
                                },
                                _ => {},
                            }
                        }
                    }
                }
            }
        }
        i = i + 1;
    }
    proof {
        assert forall|write: FunctionIndexWrite| #[trigger]
            writes@.contains(write) <==> is_holder_write(write, now@, before@) by {
            if is_holder_write(write, now@, before@) {
                let block = about_block(write)->0;
                assert(blocks@.contains(block));
                let k = blocks@.index_of(block);
                assert(about_block(write) == Some(blocks@[k]));
            }
        }
    }
    writes
}

/// How the identities of a table change with a batch.
#[derive(Debug)]
pub struct TableTransition<T> {
    pub added: usize,
    pub removed: usize,
    pub releases: Vec<Id<T>>,
}

/// How many functions are new.
pub open spec fn functions_added(records: Seq<PreparedFunctionRecord>) -> int
    decreases records.len(),
{
    if records.len() == 0 {
        0
    } else {
        functions_added(records.drop_last()) + if records.last().function is Some
            && records.last().previous is None {
            1int
        } else {
            0int
        }
    }
}

/// How many functions go.
pub open spec fn functions_removed(records: Seq<PreparedFunctionRecord>) -> int
    decreases records.len(),
{
    if records.len() == 0 {
        0
    } else {
        functions_removed(records.drop_last()) + if records.last().function is None {
            1int
        } else {
            0int
        }
    }
}

/// The identities of the functions that go and were there.
pub open spec fn functions_released(records: Seq<PreparedFunctionRecord>) -> Seq<FunctionId>
    decreases records.len(),
{
    if records.len() == 0 {
        Seq::empty()
    } else {
        let before = functions_released(records.drop_last());
        if records.last().function is None && records.last().previous is Some {
            before.push(records.last().id)
        } else {
            before
        }
    }
}

/// How the identities of functions change with a batch: those that were cancelled and those
/// that go are handed back.
pub fn function_transition(
    records: &Vec<PreparedFunctionRecord>,
    cancelled: &SortedSet<FunctionId>,
) -> (transition: TableTransition<FunctionEntity>)
    requires
        cancelled.wf(),
    ensures
        transition.added == functions_added(records@),
        transition.removed == functions_removed(records@),
        transition.releases@ == cancelled.items@ + functions_released(records@),
{
    let mut added: usize = 0;
    let mut removed: usize = 0;
    let mut releases: Vec<FunctionId> = Vec::new();
    let mut k: usize = 0;
    while k < cancelled.items.len()
        invariant
            k <= cancelled.items@.len(),
            releases@ == cancelled.items@.take(k as int),
        decreases cancelled.items@.len() - k,
    {
        releases.push(cancelled.items[k]);
        k = k + 1;
        assert(releases@ =~= cancelled.items@.take(k as int));
    }
    let mut i: usize = 0;
    proof {
        assert(cancelled.items@.take(k as int) =~= cancelled.items@);
        assert(records@.take(0) =~= Seq::empty());
        assert(releases@ =~= cancelled.items@ + functions_released(records@.take(0)));
    }
    while i < records.len()
        invariant
            i <= records@.len(),
            added <= i,
            removed <= i,
            added == functions_added(records@.take(i as int)),
            removed == functions_removed(records@.take(i as int)),
            releases@ == cancelled.items@ + functions_released(records@.take(i as int)),
        decreases records@.len() - i,
    {
        let record: &PreparedFunctionRecord = &records[i];
        let ghost before = releases@;
        assert(records@.take(i + 1).drop_last() =~= records@.take(i as int));
        match &record.function {
            Some(_) => {
                if record.previous.is_none() {
                    added = added + 1;
                }
            },
            None => {
                removed = removed + 1;
                if record.previous.is_some() {
                    releases.push(record.id);
                }
            },
        }
        assert(releases@ =~= cancelled.items@ + functions_released(records@.take(i + 1)));
        i = i + 1;
    }
    assert(records@.take(i as int) =~= records@);
    TableTransition { added, removed, releases }
}

/// Where the block of a record comes to lie.
pub open spec fn record_range(record: PreparedCodeBlockRecord) -> Option<AddressRange> {
    match record.block {
        Some(block) => Some(block@.range()),
        None => None,
    }
}

/// The changes of where blocks lie that records make.
pub open spec fn record_changes(records: Seq<PreparedCodeBlockRecord>) -> Seq<BlockRangeChange> {
    records.map_values(
        |record: PreparedCodeBlockRecord|
            BlockRangeChange {
                id: record.id,
                previous: record.previous,
                range: record_range(record),
            },
    )
}

/// The changes of where blocks lie that records make.
pub fn range_changes(records: &Vec<PreparedCodeBlockRecord>) -> (changes: Vec<BlockRangeChange>)
    requires
        forall|i: int|
            0 <= i < records@.len() ==> ((#[trigger] records@[i]).block matches Some(block)
                ==> block@.fits()),
    ensures
        changes@ == record_changes(records@),
{
    let mut changes: Vec<BlockRangeChange> = Vec::new();
    let mut i: usize = 0;
    while i < records.len()
        invariant
            i <= records@.len(),
            forall|k: int|
                0 <= k < records@.len() ==> ((#[trigger] records@[k]).block matches Some(block)
                    ==> block@.fits()),
            changes@ == record_changes(records@.take(i as int)),
        decreases records@.len() - i,
    {
        let record: &PreparedCodeBlockRecord = &records[i];
        assert(records@[i as int].block matches Some(block) ==> block@.fits());
        let range: Option<AddressRange> = match &record.block {
            Some(block) => Some(block.address_range()),
            None => None,
        };
        changes.push(BlockRangeChange { id: record.id, previous: record.previous, range });
        i = i + 1;
        assert(changes@ =~= record_changes(records@.take(i as int)));
    }
    assert(records@.take(i as int) =~= records@);
    changes
}

/// How many blocks are new.
pub open spec fn blocks_added(changes: Seq<BlockRangeChange>) -> int
    decreases changes.len(),
{
    if changes.len() == 0 {
        0
    } else {
        blocks_added(changes.drop_last()) + if changes.last().range is Some
            && changes.last().previous is None {
            1int
        } else {
            0int
        }
    }
}

/// How many blocks go.
pub open spec fn blocks_removed(changes: Seq<BlockRangeChange>) -> int
    decreases changes.len(),
{
    if changes.len() == 0 {
        0
    } else {
        blocks_removed(changes.drop_last()) + if changes.last().range is None {
            1int
        } else {
            0int
        }
    }
}

/// Whether a block goes.
pub open spec fn block_goes(changes: Seq<BlockRangeChange>, id: CodeBlockId) -> bool {
    exists|i: int|
        0 <= i < changes.len() && (#[trigger] changes[i]).id == id && changes[i].range is None
}

/// How the identities of blocks change with a batch: those that were cancelled and those that
/// go are handed back, in order.
pub fn block_transition(changes: &Vec<BlockRangeChange>, cancelled: &SortedSet<CodeBlockId>) -> (
transition: TableTransition<crate::block::CodeBlockEntity>)
    requires
        cancelled.wf(),
    ensures
        transition.added == blocks_added(changes@),
        transition.removed == blocks_removed(changes@),
        ascending(transition.releases@),
        forall|id: CodeBlockId| #[trigger]
            transition.releases@.contains(id) <==> cancelled@.contains(id) || block_goes(
                changes@,
                id,
            ),
{
    let mut added: usize = 0;
    let mut removed: usize = 0;
    let mut releases: SortedSet<CodeBlockId> = cancelled.duplicate();
    let mut i: usize = 0;
    assert(changes@.take(0) =~= Seq::empty());
    while i < changes.len()
        invariant
            i <= changes@.len(),
            added <= i,
            removed <= i,
            added == blocks_added(changes@.take(i as int)),
            removed == blocks_removed(changes@.take(i as int)),
            releases.wf(),
            forall|id: CodeBlockId| #[trigger]
                releases@.contains(id) <==> cancelled@.contains(id) || block_goes(
                    changes@.take(i as int),
                    id,
                ),
        decreases changes@.len() - i,
    {
        let change: BlockRangeChange = changes[i];
        let ghost seen = changes@.take(i as int);
        let ghost more = changes@.take(i + 1);
        let ghost before = releases@;
        assert(more.drop_last() =~= seen);
        match change.range {
            Some(_) => {
                if change.previous.is_none() {
                    added = added + 1;
                }
            },
            None => {
                removed = removed + 1;
                releases.insert(change.id);
            },
        }
        proof {
            assert forall|id: CodeBlockId| #[trigger] releases@.contains(id) <==> cancelled@.contains(
                id,
            ) || block_goes(more, id) by {
                if block_goes(seen, id) {
                    let k = choose|k: int|
                        0 <= k < seen.len() && (#[trigger] seen[k]).id == id && seen[k].range is None;
                    assert(more[k] == seen[k]);
                }
                if block_goes(more, id) {
                    let k = choose|k: int|
                        0 <= k < more.len() && (#[trigger] more[k]).id == id && more[k].range is None;
                    if k < i {
                        assert(seen[k] == more[k]);
                    }
                }
                assert(more[i as int] == change);
            }
        }
        i = i + 1;
    }
    proof {
        assert(changes@.take(i as int) =~= changes@);
        assert forall|id: CodeBlockId| #[trigger] releases.items@.contains(id) <==> cancelled@.contains(
            id,
        ) || block_goes(changes@, id) by {
            assert(releases@.contains(id) <==> releases.items@.contains(id));
        }
    }
    TableTransition { added, removed, releases: releases.items }
}

/// What a store holds of which functions are made of which blocks after a write.
pub open spec fn holders_written(
    stored: Set<FunctionBlockKey>,
    write: FunctionIndexWrite,
) -> Set<FunctionBlockKey> {
    match write {
        FunctionIndexWrite::InsertBlock(key) => stored.insert(key),
        FunctionIndexWrite::RemoveBlock(key) => stored.remove(key),
        _ => stored,
    }
}

/// The same after writes, one after another.
pub open spec fn all_holders_written(
    stored: Set<FunctionBlockKey>,
    writes: Seq<FunctionIndexWrite>,
) -> Set<FunctionBlockKey>
    decreases writes.len(),
{
    if writes.len() == 0 {
        stored
    } else {
        holders_written(all_holders_written(stored, writes.drop_last()), writes.last())
    }
}

/// What writes that speak of each key once leave of a key.
pub proof fn lemma_holders_written(
    stored: Set<FunctionBlockKey>,
    writes: Seq<FunctionIndexWrite>,
    key: FunctionBlockKey,
)
    requires
        !(writes.contains(FunctionIndexWrite::InsertBlock(key)) && writes.contains(
            FunctionIndexWrite::RemoveBlock(key),
        )),
    ensures
        all_holders_written(stored, writes).contains(key) <==> writes.contains(
            FunctionIndexWrite::InsertBlock(key),
        ) || (stored.contains(key) && !writes.contains(FunctionIndexWrite::RemoveBlock(key))),
    decreases writes.len(),
{
    if writes.len() > 0 {
        let front = writes.drop_last();
        assert(writes =~= front.push(writes.last()));
        lemma_push_has(front, writes.last(), FunctionIndexWrite::InsertBlock(key));
        lemma_push_has(front, writes.last(), FunctionIndexWrite::RemoveBlock(key));
        lemma_holders_written(stored, front, key);
    }
}

/// Once the writes are made, a store lists for the blocks of a batch the functions that the
/// batch says, and for all others those that it listed.
pub proof fn law_holder_writes_reach_batch(
    stored: Set<FunctionBlockKey>,
    writes: Seq<FunctionIndexWrite>,
    now: Map<CodeBlockId, Set<FunctionId>>,
    before: Map<CodeBlockId, Set<FunctionId>>,
    key: FunctionBlockKey,
)
    requires
        are_holder_writes(writes, now, before),
        now.contains_key(key.block) ==> (stored.contains(key) <==> held(before, key.block).contains(
            key.function,
        )),
    ensures
        all_holders_written(stored, writes).contains(key) <==> if now.contains_key(key.block) {
            now[key.block].contains(key.function)
        } else {
            stored.contains(key)
        },
{
    assert(writes.contains(FunctionIndexWrite::InsertBlock(key)) <==> is_holder_write(
        FunctionIndexWrite::InsertBlock(key),
        now,
        before,
    ));
    assert(writes.contains(FunctionIndexWrite::RemoveBlock(key)) <==> is_holder_write(
        FunctionIndexWrite::RemoveBlock(key),
        now,
        before,
    ));
    lemma_holders_written(stored, writes, key);
}

} // verus!
