//! What a change to one entry of a stored table writes.
use vstd::prelude::*;

use crate::address::Address;
use crate::block::CodeBlockId;
use crate::function::{lists_block, Function, FunctionEntity, FunctionId, FunctionView};
use crate::function_table::FunctionTableError;
use crate::id::Id;
use crate::prepared_writes::{
    all_holders_written, holder_write, lemma_holders_written, FunctionBlockKey, FunctionIndexWrite,
};
use crate::problem::{Problem, ProblemEntity, ProblemId, ProblemKey, ProblemKind, ProblemScope};
use crate::problem_table::{makes_problem, ProblemTableError};
use crate::staging::{blocks_of_option, lemma_member_ids, member_ids};
use crate::stored_ids::{IdWrite, PersistentIdAllocator};
use crate::switch::{Switch, SwitchEntity, SwitchId};
use crate::switch_table::{makes_switch, SwitchTableError};
use crate::types::{lemma_filter_none, lemma_filter_step};

verus! {

/// What is written of the entry itself: that it stands under its identity, or that nothing does.
#[derive(Debug)]
pub enum EntryWrite<T> {
    Insert(Id<T>),
    Remove(Id<T>),
}

/// What a change to one entry writes, all together and in this order: the entry, what leads to
/// a function, and how identities are handed out from now on.
#[derive(Debug)]
pub struct EntryWrites<T> {
    pub entry: EntryWrite<T>,
    pub index: Vec<FunctionIndexWrite>,
    pub ids: Vec<IdWrite>,
}

/// Whether these are the writes of an entry that is put under an identity. A new one takes the
/// identity.
pub open spec fn is_insertion<T>(
    allocator: PersistentIdAllocator<T>,
    id: Id<T>,
    is_new: bool,
    index: Seq<FunctionIndexWrite>,
    writes: EntryWrites<T>,
) -> bool {
    &&& writes.entry == EntryWrite::Insert(id)
    &&& writes.index@ == index
    &&& if is_new {
        allocator.writes_transition(seq![id], Seq::empty(), 1, 0, writes.ids@)
    } else {
        writes.ids@ == Seq::<IdWrite>::empty()
    }
}

/// Whether these are the writes of an entry that goes and gives its identity back.
pub open spec fn is_removal<T>(
    allocator: PersistentIdAllocator<T>,
    id: Id<T>,
    index: Seq<FunctionIndexWrite>,
    writes: EntryWrites<T>,
) -> bool {
    &&& writes.entry == EntryWrite::Remove(id)
    &&& writes.index@ == index
    &&& allocator.writes_transition(Seq::empty(), seq![id], 0, 1, writes.ids@)
}

/// What is not among others.
pub open spec fn missing_from(others: Seq<CodeBlockId>) -> spec_fn(CodeBlockId) -> bool {
    |block: CodeBlockId| !others.contains(block)
}

/// The writes about blocks and a function, in the order of the blocks.
pub open spec fn block_writes(
    blocks: Seq<CodeBlockId>,
    function: FunctionId,
    insert: bool,
) -> Seq<FunctionIndexWrite> {
    blocks.map_values(|block: CodeBlockId| holder_write(block, function, insert))
}

/// What is written about a function that is put in place of a previous one or of none: where it
/// is entered, the blocks that it has no more, and those that it had not.
pub open spec fn function_inserted(
    id: FunctionId,
    function: FunctionView,
    previous: Option<FunctionView>,
) -> Seq<FunctionIndexWrite> {
    let own = member_ids(function.blocks);
    let earlier = member_ids(blocks_of_option(previous));
    seq![FunctionIndexWrite::InsertEntry { entry: function.entry, id }] + block_writes(
        earlier.filter(missing_from(own)),
        id,
        false,
    ) + block_writes(own.filter(missing_from(earlier)), id, true)
}

/// What is written about a function that goes: its entry, and its blocks.
pub open spec fn function_removed(id: FunctionId, function: FunctionView) -> Seq<
    FunctionIndexWrite,
> {
    seq![FunctionIndexWrite::RemoveEntry(function.entry)] + block_writes(
        member_ids(function.blocks),
        id,
        false,
    )
}

/// The identity under which an entry is put: that of a previous one, or the next.
pub open spec fn target<T>(allocator: PersistentIdAllocator<T>, previous: Option<Id<T>>) -> Id<T> {
    match previous {
        Some(id) => id,
        None => allocator.pending(0),
    }
}

/// Whether another entry can be counted and gets an identity, if it is a new one.
pub open spec fn takes_entry<T>(allocator: PersistentIdAllocator<T>, is_new: bool) -> bool {
    allocator.wf() && (is_new ==> allocator.room() > 0 && allocator.state.live < usize::MAX)
}

/// The writes of an entry that is put under an identity, with what leads to it.
fn insertion<T>(
    allocator: &PersistentIdAllocator<T>,
    id: Id<T>,
    is_new: bool,
    index: Vec<FunctionIndexWrite>,
) -> (writes: EntryWrites<T>)
    requires
        takes_entry(*allocator, is_new),
        is_new ==> id == allocator.pending(0),
    ensures
        is_insertion(*allocator, id, is_new, index@, writes),
{
    let ids: Vec<IdWrite> = if is_new {
        proof {
            allocator.lemma_pending_fits();
        }
        let mut reservations: Vec<Id<T>> = Vec::new();
        reservations.push(id);
        assert(reservations@ =~= seq![id]);
        allocator.append_transition(&reservations, &Vec::new(), 1, 0)
    } else {
        Vec::new()
    };
    EntryWrites { entry: EntryWrite::Insert(id), index, ids }
}

/// The writes of an entry that goes, with what led to it.
fn removal<T>(
    allocator: &PersistentIdAllocator<T>,
    id: Id<T>,
    index: Vec<FunctionIndexWrite>,
) -> (writes: EntryWrites<T>)
    requires
        allocator.wf(),
        allocator.state.live > 0,
        id.id < u32::MAX,
        id.generation < u32::MAX - 1,
    ensures
        is_removal(*allocator, id, index@, writes),
{
    let mut releases: Vec<Id<T>> = Vec::new();
    releases.push(id);
    assert(releases@ =~= seq![id]);
    let ids: Vec<IdWrite> = allocator.append_transition(&Vec::new(), &releases, 0, 1);
    EntryWrites { entry: EntryWrite::Remove(id), index, ids }
}

/// Adds the writes about those blocks of a function that another does not have.
fn push_block_writes(
    writes: &mut Vec<FunctionIndexWrite>,
    function: &Function,
    other: Option<&Function>,
    id: FunctionId,
    insert: bool,
)
    ensures
        final(writes)@ == old(writes)@ + block_writes(
            member_ids(function.blocks@).filter(
                missing_from(
                    match other {
                        Some(other) => member_ids(other.blocks@),
                        None => Seq::empty(),
                    },
                ),
            ),
            id,
            insert,
        ),
{
    let ghost before = writes@;
    let ghost all = member_ids(function.blocks@);
    let ghost others = match other {
        Some(other) => member_ids(other.blocks@),
        None => Seq::empty(),
    };
    let ghost keep = missing_from(others);
    let mut i: usize = 0;
    proof {
        lemma_filter_none(all, keep);
        assert(writes@ =~= before + block_writes(all.take(0).filter(keep), id, insert));
    }
    while i < function.blocks.len()
        invariant
            i <= function.blocks@.len(),
            all == member_ids(function.blocks@),
            others == match other {
                Some(other) => member_ids(other.blocks@),
                None => Seq::empty(),
            },
            keep == missing_from(others),
            writes@ == before + block_writes(all.take(i as int).filter(keep), id, insert),
        decreases function.blocks@.len() - i,
    {
        let block: CodeBlockId = function.blocks[i].1;
        proof {
            lemma_filter_step(all, i as int, keep);
            assert(all[i as int] == block);
            if other is Some {
                lemma_member_ids(other->0.blocks@, block);
            }
        }
        let had: bool = match other {
            Some(other) => other.lists(block),
            None => false,
        };
        if !had {
            let key = FunctionBlockKey { block, function: id };
            if insert {
                writes.push(FunctionIndexWrite::InsertBlock(key));
            } else {
                writes.push(FunctionIndexWrite::RemoveBlock(key));
            }
        }
        assert(writes@ =~= before + block_writes(all.take(i + 1).filter(keep), id, insert));
        i = i + 1;
    }
    assert(all.take(i as int) =~= all);
}

/// A previous function that may not be there, apart from how it is stored.
pub open spec fn previous_view(previous: Option<&Function>) -> Option<FunctionView> {
    match previous {
        Some(previous) => Some(previous@),
        None => None,
    }
}

/// Makes a function for an entry, under the identity of the one that was there or the next, and
/// says what is to be written. The function that was there comes from the store.
pub fn insert_function_with<
    R,
    F: FnOnce(FunctionId, Address) -> Result<(Function, R), FunctionTableError>,
>(
    allocator: &PersistentIdAllocator<FunctionEntity>,
    previous: Option<&Function>,
    address: Address,
    f: F,
) -> (r: Result<(Function, R, EntryWrites<FunctionEntity>), FunctionTableError>)
    requires
        takes_entry(*allocator, previous is None),
        call_requires(f, (function_target(*allocator, previous), address)),
    ensures
        ({
            let id = function_target(*allocator, previous);
            match r {
                Ok((function, value, writes)) => {
                    &&& call_ensures(
                        f,
                        (id, address),
                        Ok::<(Function, R), FunctionTableError>((function, value)),
                    )
                    &&& function.entry == address
                    &&& is_insertion(
                        *allocator,
                        id,
                        previous is None,
                        function_inserted(id, function@, previous_view(previous)),
                        writes,
                    )
                },
                Err(error) => call_ensures(
                    f,
                    (id, address),
                    Err::<(Function, R), FunctionTableError>(error),
                ) || (error is AddressMismatch && exists|function: Function, value: R|
                    #[trigger] call_ensures(
                        f,
                        (id, address),
                        Ok::<(Function, R), FunctionTableError>((function, value)),
                    ) && function.entry != address),
            }
        }),
{
    let id: FunctionId = match previous {
        Some(previous) => previous.id(),
        None => allocator.pending_id(0),
    };
    let (function, value): (Function, R) = match f(id, address) {
        Ok(made) => made,
        Err(error) => {
            return Err(error);
        },
    };
    if function.entry() != address {
        return Err(FunctionTableError::AddressMismatch);
    }
    let mut index: Vec<FunctionIndexWrite> = Vec::new();
    index.push(FunctionIndexWrite::InsertEntry { entry: address, id });
    match previous {
        Some(previous) => {
            push_block_writes(&mut index, previous, Some(&function), id, false);
        },
        None => {
            proof {
                lemma_filter_none(
                    Seq::<CodeBlockId>::empty(),
                    missing_from(member_ids(function.blocks@)),
                );
                assert(member_ids(Seq::empty()) =~= Seq::<CodeBlockId>::empty());
                assert(Seq::<CodeBlockId>::empty().take(0) =~= Seq::empty());
            }
        },
    }
    push_block_writes(&mut index, &function, previous, id, true);
    proof {
        assert(member_ids(Seq::empty()) =~= Seq::<CodeBlockId>::empty());
        assert(index@ =~= function_inserted(id, function@, previous_view(previous)));
    }
    let writes: EntryWrites<FunctionEntity> = insertion(allocator, id, previous.is_none(), index);
    Ok((function, value, writes))
}

/// The identity under which a function is put: that of the one that was there, or the next.
pub open spec fn function_target(
    allocator: PersistentIdAllocator<FunctionEntity>,
    previous: Option<&Function>,
) -> FunctionId {
    target(
        allocator,
        match previous {
            Some(previous) => Some(previous.id),
            None => None,
        },
    )
}

/// What is to be written where a function goes.
pub fn remove_function(
    allocator: &PersistentIdAllocator<FunctionEntity>,
    function: &Function,
) -> (writes: EntryWrites<FunctionEntity>)
    requires
        allocator.wf(),
        allocator.state.live > 0,
        function.id.id < u32::MAX,
        function.id.generation < u32::MAX - 1,
    ensures
        is_removal(*allocator, function.id, function_removed(function.id, function@), writes),
{
    let id: FunctionId = function.id();
    let mut index: Vec<FunctionIndexWrite> = Vec::new();
    index.push(FunctionIndexWrite::RemoveEntry(function.entry()));
    push_block_writes(&mut index, function, None, id, false);
    proof {
        lemma_all_kept(member_ids(function.blocks@), missing_from(Seq::empty()));
        assert(index@ =~= function_removed(id, function@));
    }
    removal(allocator, id, index)
}

/// A selection that keeps everything changes nothing.
proof fn lemma_all_kept(ids: Seq<CodeBlockId>, keep: spec_fn(CodeBlockId) -> bool)
    requires
        forall|i: int| 0 <= i < ids.len() ==> keep(#[trigger] ids[i]),
    ensures
        ids.filter(keep) == ids,
    decreases ids.len(),
{
    reveal(Seq::filter);
    if ids.len() > 0 {
        let rest = ids.drop_last();
        assert forall|i: int| 0 <= i < rest.len() implies keep(#[trigger] rest[i]) by {
            assert(rest[i] == ids[i]);
        }
        lemma_all_kept(rest, keep);
        assert(keep(ids[ids.len() - 1]));
        assert(ids =~= rest.push(ids.last()));
    }
}

/// Makes a switch for a branch, under the identity of the one that was there or the next, and
/// says what is to be written.
pub fn insert_switch<F: FnOnce(SwitchId, Address) -> Result<Switch, SwitchTableError>>(
    allocator: &PersistentIdAllocator<SwitchEntity>,
    existing: Option<SwitchId>,
    branch: Address,
    f: F,
) -> (r: Result<(Switch, EntryWrites<SwitchEntity>), SwitchTableError>)
    requires
        takes_entry(*allocator, existing is None),
        call_requires(f, (target(*allocator, existing), branch)),
    ensures
        ({
            let id = target(*allocator, existing);
            match r {
                Ok((switch, writes)) => {
                    &&& makes_switch(f, id, branch, switch)
                    &&& switch.branch == branch
                    &&& is_insertion(*allocator, id, existing is None, Seq::empty(), writes)
                },
                Err(error) => call_ensures(
                    f,
                    (id, branch),
                    Err::<Switch, SwitchTableError>(error),
                ) || (error is AddressMismatch && exists|switch: Switch|
                    #[trigger] makes_switch(f, id, branch, switch) && switch.branch != branch),
            }
        }),
{
    let id: SwitchId = match existing {
        Some(id) => id,
        None => allocator.pending_id(0),
    };
    let switch: Switch = match f(id, branch) {
        Ok(switch) => switch,
        Err(error) => {
            return Err(error);
        },
    };
    assert(makes_switch(f, id, branch, switch));
    if switch.branch() != branch {
        return Err(SwitchTableError::AddressMismatch);
    }
    let writes: EntryWrites<SwitchEntity> = insertion(
        allocator,
        id,
        existing.is_none(),
        Vec::new(),
    );
    Ok((switch, writes))
}

/// What is to be written where a switch goes.
pub fn remove_switch(allocator: &PersistentIdAllocator<SwitchEntity>, id: SwitchId) -> (writes:
    EntryWrites<SwitchEntity>)
    requires
        allocator.wf(),
        allocator.state.live > 0,
        id.id < u32::MAX,
        id.generation < u32::MAX - 1,
    ensures
        is_removal(*allocator, id, Seq::empty(), writes),
{
    removal(allocator, id, Vec::new())
}

/// Makes a problem for a scope, under the identity of the one that was there or the next, and
/// says what is to be written.
pub fn insert_problem<F: FnOnce(ProblemId, ProblemScope) -> Result<Problem, ProblemTableError>>(
    allocator: &PersistentIdAllocator<ProblemEntity>,
    existing: Option<ProblemId>,
    scope: ProblemScope,
    kind: ProblemKind,
    f: F,
) -> (r: Result<(Problem, EntryWrites<ProblemEntity>), ProblemTableError>)
    requires
        takes_entry(*allocator, existing is None),
        call_requires(f, (target(*allocator, existing), scope)),
    ensures
        ({
            let id = target(*allocator, existing);
            let key = ProblemKey { scope, kind };
            match r {
                Ok((problem, writes)) => {
                    &&& makes_problem(f, id, scope, problem)
                    &&& problem.filed() == key
                    &&& is_insertion(*allocator, id, existing is None, Seq::empty(), writes)
                },
                Err(error) => call_ensures(
                    f,
                    (id, scope),
                    Err::<Problem, ProblemTableError>(error),
                ) || (error is KeyMismatch && exists|problem: Problem|
                    #[trigger] makes_problem(f, id, scope, problem) && problem.filed() != key),
            }
        }),
{
    let id: ProblemId = match existing {
        Some(id) => id,
        None => allocator.pending_id(0),
    };
    let problem: Problem = match f(id, scope) {
        Ok(problem) => problem,
        Err(error) => {
            return Err(error);
        },
    };
    assert(makes_problem(f, id, scope, problem));
    if problem.key() != ProblemKey::scoped(scope, kind) {
        return Err(ProblemTableError::KeyMismatch);
    }
    let writes: EntryWrites<ProblemEntity> = insertion(
        allocator,
        id,
        existing.is_none(),
        Vec::new(),
    );
    Ok((problem, writes))
}

/// What is to be written where a problem goes.
pub fn remove_problem(allocator: &PersistentIdAllocator<ProblemEntity>, id: ProblemId) -> (writes:
    EntryWrites<ProblemEntity>)
    requires
        allocator.wf(),
        allocator.state.live > 0,
        id.id < u32::MAX,
        id.generation < u32::MAX - 1,
    ensures
        is_removal(*allocator, id, Seq::empty(), writes),
{
    removal(allocator, id, Vec::new())
}

/// What a store holds of where functions are entered after a write.
pub open spec fn entries_written(
    stored: Map<Address, FunctionId>,
    write: FunctionIndexWrite,
) -> Map<Address, FunctionId> {
    match write {
        FunctionIndexWrite::InsertEntry { entry, id } => stored.insert(entry, id),
        FunctionIndexWrite::RemoveEntry(entry) => stored.remove(entry),
        _ => stored,
    }
}

/// The same after writes, one after another.
pub open spec fn all_entries_written(
    stored: Map<Address, FunctionId>,
    writes: Seq<FunctionIndexWrite>,
) -> Map<Address, FunctionId>
    decreases writes.len(),
{
    if writes.len() == 0 {
        stored
    } else {
        entries_written(all_entries_written(stored, writes.drop_last()), writes.last())
    }
}

/// Writes about blocks leave the entries.
proof fn lemma_entries_kept(
    stored: Map<Address, FunctionId>,
    first: FunctionIndexWrite,
    rest: Seq<FunctionIndexWrite>,
)
    requires
        forall|i: int|
            0 <= i < rest.len() ==> (#[trigger] rest[i]) is InsertBlock || rest[i] is RemoveBlock,
    ensures
        all_entries_written(stored, seq![first] + rest) == entries_written(stored, first),
    decreases rest.len(),
{
    let all = seq![first] + rest;
    reveal_with_fuel(all_entries_written, 2);
    if rest.len() == 0 {
        assert(all =~= seq![first]);
        assert(all.drop_last() =~= Seq::empty());
    } else {
        assert(all.drop_last() =~= seq![first] + rest.drop_last());
        assert(all.last() == rest.last());
        assert(rest[rest.len() - 1] is InsertBlock || rest[rest.len() - 1] is RemoveBlock);
        lemma_entries_kept(stored, first, rest.drop_last());
    }
}

/// Which writes about a block and a function are among those about some blocks and a function.
proof fn lemma_block_writes(blocks: Seq<CodeBlockId>, id: FunctionId, insert: bool, key: FunctionBlockKey)
    ensures
        block_writes(blocks, id, insert).contains(FunctionIndexWrite::InsertBlock(key)) <==> insert
            && key.function == id && blocks.contains(key.block),
        block_writes(blocks, id, insert).contains(FunctionIndexWrite::RemoveBlock(key)) <==> !insert
            && key.function == id && blocks.contains(key.block),
{
    let writes = block_writes(blocks, id, insert);
    if writes.contains(FunctionIndexWrite::InsertBlock(key)) {
        let i = writes.index_of(FunctionIndexWrite::InsertBlock(key));
        assert(holder_write(blocks[i], id, insert) == FunctionIndexWrite::InsertBlock(key));
    }
    if writes.contains(FunctionIndexWrite::RemoveBlock(key)) {
        let i = writes.index_of(FunctionIndexWrite::RemoveBlock(key));
        assert(holder_write(blocks[i], id, insert) == FunctionIndexWrite::RemoveBlock(key));
    }
    if key.function == id && blocks.contains(key.block) {
        let i = blocks.index_of(key.block);
        assert(writes[i] == holder_write(key.block, id, insert));
    }
}

/// What two sequences have together.
proof fn lemma_joined<A>(a: Seq<A>, b: Seq<A>, x: A)
    ensures
        (a + b).contains(x) <==> a.contains(x) || b.contains(x),
{
    if a.contains(x) {
        assert((a + b)[a.index_of(x)] == x);
    }
    if b.contains(x) {
        assert((a + b)[a.len() + b.index_of(x)] == x);
    }
    if (a + b).contains(x) {
        let i = (a + b).index_of(x);
        if i < a.len() {
            assert(a[i] == x);
        } else {
            assert(b[i - a.len()] == x);
        }
    }
}

/// What a selection keeps.
proof fn lemma_kept(ids: Seq<CodeBlockId>, keep: spec_fn(CodeBlockId) -> bool, id: CodeBlockId)
    ensures
        ids.filter(keep).contains(id) <==> ids.contains(id) && keep(id),
    decreases ids.len(),
{
    reveal(Seq::filter);
    if ids.len() > 0 {
        let rest = ids.drop_last();
        lemma_kept(rest, keep, id);
        lemma_joined(rest, seq![ids.last()], id);
        assert(ids =~= rest + seq![ids.last()]);
        assert(seq![ids.last()].contains(id) <==> id == ids.last()) by {
            assert(seq![ids.last()][0] == ids.last());
        }
        if keep(ids.last()) {
            lemma_joined(rest.filter(keep), seq![ids.last()], id);
            assert(rest.filter(keep).push(ids.last()) =~= rest.filter(keep) + seq![ids.last()]);
        }
    }
}

/// Once a function is written in place of a previous one, its entry leads to it, it is listed
/// for its blocks and for no others, and nothing is changed about other functions.
pub proof fn law_written_function_is_listed(
    entries: Map<Address, FunctionId>,
    stored: Set<FunctionBlockKey>,
    id: FunctionId,
    function: FunctionView,
    previous: Option<FunctionView>,
    key: FunctionBlockKey,
)
    requires
        key.function == id ==> (stored.contains(key) <==> lists_block(
            blocks_of_option(previous),
            key.block,
        )),
    ensures
        all_entries_written(entries, function_inserted(id, function, previous)) == entries.insert(
            function.entry,
            id,
        ),
        all_holders_written(stored, function_inserted(id, function, previous)).contains(key) <==> if key.function
            == id {
            lists_block(function.blocks, key.block)
        } else {
            stored.contains(key)
        },
{
    let own = member_ids(function.blocks);
    let earlier = member_ids(blocks_of_option(previous));
    let first = FunctionIndexWrite::InsertEntry { entry: function.entry, id };
    let left = earlier.filter(missing_from(own));
    let come = own.filter(missing_from(earlier));
    let (a, b) = (block_writes(left, id, false), block_writes(come, id, true));
    let writes = function_inserted(id, function, previous);
    assert(writes =~= seq![first] + (a + b));
    lemma_entries_kept(entries, first, a + b);
    lemma_member_ids(function.blocks, key.block);
    lemma_member_ids(blocks_of_option(previous), key.block);
    lemma_kept(earlier, missing_from(own), key.block);
    lemma_kept(own, missing_from(earlier), key.block);
    lemma_block_writes(left, id, false, key);
    lemma_block_writes(come, id, true, key);
    lemma_listing_writes(first, a + b, key);
    lemma_joined(a, b, FunctionIndexWrite::InsertBlock(key));
    lemma_joined(a, b, FunctionIndexWrite::RemoveBlock(key));
    lemma_holders_written(stored, writes, key);
}

/// A write about an entry is none about a block.
proof fn lemma_listing_writes(
    first: FunctionIndexWrite,
    rest: Seq<FunctionIndexWrite>,
    key: FunctionBlockKey,
)
    requires
        first is InsertEntry || first is RemoveEntry,
    ensures
        (seq![first] + rest).contains(FunctionIndexWrite::InsertBlock(key)) <==> rest.contains(
            FunctionIndexWrite::InsertBlock(key),
        ),
        (seq![first] + rest).contains(FunctionIndexWrite::RemoveBlock(key)) <==> rest.contains(
            FunctionIndexWrite::RemoveBlock(key),
        ),
{
    lemma_joined(seq![first], rest, FunctionIndexWrite::InsertBlock(key));
    lemma_joined(seq![first], rest, FunctionIndexWrite::RemoveBlock(key));
}

/// Once it is written that a function goes, its entry leads nowhere, it is listed for no block,
/// and nothing is changed about other functions.
pub proof fn law_written_removal_leaves_nothing(
    entries: Map<Address, FunctionId>,
    stored: Set<FunctionBlockKey>,
    id: FunctionId,
    function: FunctionView,
    key: FunctionBlockKey,
)
    requires
        key.function == id ==> (stored.contains(key) <==> lists_block(function.blocks, key.block)),
    ensures
        all_entries_written(entries, function_removed(id, function)) == entries.remove(
            function.entry,
        ),
        all_holders_written(stored, function_removed(id, function)).contains(key) <==> key.function
            != id && stored.contains(key),
{
    let own = member_ids(function.blocks);
    let first = FunctionIndexWrite::RemoveEntry(function.entry);
    let rest = block_writes(own, id, false);
    lemma_entries_kept(entries, first, rest);
    lemma_member_ids(function.blocks, key.block);
    lemma_block_writes(own, id, false, key);
    lemma_listing_writes(first, rest, key);
    lemma_holders_written(stored, function_removed(id, function), key);
}

} // verus!
