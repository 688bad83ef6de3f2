//! The table of switches: found by their branches, listed for the functions that own them.
use vstd::prelude::*;

use crate::address::Address;
use crate::function::FunctionId;
use crate::id::{hands_out, IdAllocator};
use crate::keyed_table::{
    changed_in_place, key_is_free, keyed, lists_entries, KeyedTable, TableEntry,
};
use crate::order::{ascending, cursor_bound, spans_keys, KeyBound, SortedMap, SortedSet};
use crate::call_graph::behind;
use crate::switch::{Switch, SwitchEntity, SwitchId};

verus! {

/// Why a switch was not put into the table.
#[derive(Debug)]
pub enum SwitchTableError {
    AddressMismatch,
    Other(String),
    Storage(String),
}

impl SwitchTableError {
    pub fn other(error: String) -> (r: Self)
        ensures
            r == SwitchTableError::Other(error),
    {
        SwitchTableError::Other(error)
    }

    pub fn other_with(message: String) -> (r: Self)
        ensures
            r == SwitchTableError::Other(message),
    {
        SwitchTableError::Other(message)
    }
}

/// Switches are found by their branches.
impl TableEntry<SwitchEntity, Address> for Switch {
    open spec fn ident(&self) -> SwitchId {
        self.id
    }

    open spec fn own_key(&self) -> Address {
        self.branch
    }

    fn entry_id(&self) -> (id: SwitchId) {
        self.id
    }

    fn entry_key(&self) -> (key: Address) {
        self.branch
    }
}

/// For each function the branches of its switches.
pub type BranchLists = Map<FunctionId, Set<Address>>;

/// The branches listed for a function: none where nothing is listed.
pub open spec fn branches_under(lists: BranchLists, function: FunctionId) -> Set<Address> {
    if lists.contains_key(function) {
        lists[function]
    } else {
        Set::empty()
    }
}

/// The lists with a branch added for a function.
pub open spec fn branch_linked(lists: BranchLists, function: FunctionId, branch: Address) -> BranchLists {
    lists.insert(function, branches_under(lists, function).insert(branch))
}

/// The lists with a branch taken from a function, which is listed no more if it was the last.
pub open spec fn branch_unlinked(lists: BranchLists, function: FunctionId, branch: Address) -> BranchLists {
    let rest = branches_under(lists, function).remove(branch);
    if rest == Set::<Address>::empty() {
        lists.remove(function)
    } else {
        lists.insert(function, rest)
    }
}

/// The lists with a branch moved from one function, or from none, to another.
pub open spec fn branch_moved(
    lists: BranchLists,
    previous: Option<FunctionId>,
    function: FunctionId,
    branch: Address,
) -> BranchLists {
    match previous {
        Some(previous) => branch_linked(branch_unlinked(lists, previous, branch), function, branch),
        None => branch_linked(lists, function, branch),
    }
}

/// Whether a function is listed only where it has a branch.
pub open spec fn no_empty_list(lists: BranchLists) -> bool {
    forall|function: FunctionId| #[trigger]
        lists.contains_key(function) ==> lists[function] != Set::<Address>::empty()
}

/// Whether a function owns a switch at a branch.
pub open spec fn owns_branch(
    switches: Map<SwitchId, Switch>,
    function: FunctionId,
    branch: Address,
) -> bool {
    exists|id: SwitchId| #[trigger]
        switches.contains_key(id) && switches[id].function == function && switches[id].branch
            == branch
}

/// Whether functions are listed with the branches of their switches, and with no others.
pub open spec fn lists_agree(lists: BranchLists, switches: Map<SwitchId, Switch>) -> bool {
    &&& no_empty_list(lists)
    &&& forall|function: FunctionId, branch: Address| #[trigger]
        branches_under(lists, function).contains(branch) <==> owns_branch(
            switches,
            function,
            branch,
        )
}

/// Sets of branches, by function.
pub struct FunctionBranches {
    pub sets: SortedMap<FunctionId, SortedSet<Address>>,
}

impl View for FunctionBranches {
    type V = BranchLists;

    open spec fn view(&self) -> BranchLists {
        Map::new(
            |function: FunctionId| self.sets@.contains_key(function),
            |function: FunctionId| self.sets@[function]@,
        )
    }
}

impl FunctionBranches {
    pub open spec fn wf(&self) -> bool {
        &&& self.sets.wf()
        &&& forall|function: FunctionId| #[trigger]
            self.sets@.contains_key(function) ==> self.sets@[function].wf()
    }

    pub fn new() -> (lists: Self)
        ensures
            lists.wf(),
            lists@ == BranchLists::empty(),
    {
        let lists = FunctionBranches { sets: SortedMap::new() };
        assert(lists@ =~= BranchLists::empty());
        lists
    }

    /// The branches listed for a function in their order.
    pub fn branches(&self, function: FunctionId) -> (branches: Vec<Address>)
        requires
            self.wf(),
        ensures
            ascending(branches@),
            branches@.to_set() == branches_under(self@, function),
    {
        match self.sets.get(&function) {
            Some(set) => {
                let copy: SortedSet<Address> = set.duplicate();
                proof {
                    assert(copy.items@.to_set() =~= copy@);
                }
                copy.items
            },
            None => {
                let none: Vec<Address> = Vec::new();
                assert(none@.to_set() =~= Set::<Address>::empty());
                none
            },
        }
    }

    /// Lists a branch for a function.
    pub fn link(&mut self, function: FunctionId, branch: Address)
        requires
            old(self).wf(),
        ensures
            final(self).wf(),
            final(self)@ == branch_linked(old(self)@, function, branch),
    {
        let ghost before = self@;
        let mut set: SortedSet<Address> = match self.sets.get(&function) {
            Some(set) => set.duplicate(),
            None => SortedSet::new(),
        };
        set.insert(branch);
        self.sets.insert(function, set);
        assert(self@ =~= branch_linked(before, function, branch));
    }

    /// Takes a branch from the list of a function.
    pub fn unlink(&mut self, function: FunctionId, branch: Address)
        requires
            old(self).wf(),
        ensures
            final(self).wf(),
            final(self)@ == branch_unlinked(old(self)@, function, branch),
    {
        let ghost before = self@;
        let mut set: SortedSet<Address> = match self.sets.get(&function) {
            Some(set) => set.duplicate(),
            None => {
                proof {
                    assert(branches_under(before, function).remove(branch) =~= Set::<
                        Address,
                    >::empty());
                    assert(self@ =~= branch_unlinked(before, function, branch));
                }
                return ;
            },
        };
        set.remove(&branch);
        if set.is_empty() {
            self.sets.remove(&function);
        } else {
            self.sets.insert(function, set);
        }
        assert(self@ =~= branch_unlinked(before, function, branch));
    }
}

/// Moving a branch to a function keeps the lists right when the switch moves with it.
proof fn lemma_moved_agrees(
    lists: BranchLists,
    switches: Map<SwitchId, Switch>,
    switch: Switch,
)
    requires
        lists_agree(lists, switches),
        forall|id: SwitchId| #[trigger]
            switches.contains_key(id) && id != switch.id ==> switches[id].branch != switch.branch,
        switches.contains_key(switch.id) ==> switches[switch.id].branch == switch.branch,
    ensures
        lists_agree(
            branch_moved(
                lists,
                if switches.contains_key(switch.id) {
                    Some(switches[switch.id].function)
                } else {
                    None
                },
                switch.function,
                switch.branch,
            ),
            switches.insert(switch.id, switch),
        ),
{
    let id = switch.id;
    let branch = switch.branch;
    let previous = if switches.contains_key(id) {
        Some(switches[id].function)
    } else {
        None
    };
    let moved = branch_moved(lists, previous, switch.function, branch);
    let after = switches.insert(id, switch);
    assert forall|function: FunctionId, b: Address| #[trigger]
        branches_under(moved, function).contains(b) <==> owns_branch(after, function, b) by {
        assert(branches_under(lists, function).contains(b) <==> owns_branch(switches, function, b));
        if b == branch {
            if owns_branch(switches, function, b) {
                let other = choose|other: SwitchId| #[trigger]
                    switches.contains_key(other) && switches[other].function == function
                        && switches[other].branch == b;
                assert(other == id);
            }
            if function == switch.function {
                assert(after.contains_key(id));
            }
            if owns_branch(after, function, b) {
                let other = choose|other: SwitchId| #[trigger]
                    after.contains_key(other) && after[other].function == function
                        && after[other].branch == b;
                if other != id {
                    assert(switches.contains_key(other));
                }
            }
        } else {
            if owns_branch(switches, function, b) {
                let other = choose|other: SwitchId| #[trigger]
                    switches.contains_key(other) && switches[other].function == function
                        && switches[other].branch == b;
                assert(after.contains_key(other));
            }
            if owns_branch(after, function, b) {
                let other = choose|other: SwitchId| #[trigger]
                    after.contains_key(other) && after[other].function == function
                        && after[other].branch == b;
                assert(switches.contains_key(other));
            }
        }
        lemma_under_moved(lists, previous, switch.function, branch, function, b);
    }
    assert forall|function: FunctionId| #[trigger] moved.contains_key(function) implies moved[function]
        != Set::<Address>::empty() by {
        if function == switch.function {
            assert(moved[function].contains(branch));
        }
    }
}

/// What is listed once a branch has moved.
proof fn lemma_under_moved(
    lists: BranchLists,
    previous: Option<FunctionId>,
    function: FunctionId,
    branch: Address,
    other: FunctionId,
    b: Address,
)
    ensures
        branches_under(branch_moved(lists, previous, function, branch), other).contains(b) <==> {
            ||| other == function && b == branch
            ||| branches_under(lists, other).contains(b) && !(previous == Some(other) && b == branch)
        },
{
    match previous {
        Some(previous) => {
            lemma_under_unlinked(lists, previous, branch, other, b);
        },
        None => {},
    }
}

/// What is listed once a branch is taken away.
proof fn lemma_under_unlinked(
    lists: BranchLists,
    function: FunctionId,
    branch: Address,
    other: FunctionId,
    b: Address,
)
    ensures
        branches_under(branch_unlinked(lists, function, branch), other).contains(b)
            <==> branches_under(lists, other).contains(b) && !(other == function && b == branch),
{
    let rest = branches_under(lists, function).remove(branch);
    if other == function {
        assert(rest.contains(b) <==> branches_under(lists, other).contains(b) && b != branch);
    }
}

/// Taking a switch out keeps the lists right when its branch is taken from its function.
proof fn lemma_removed_agrees(
    lists: BranchLists,
    switches: Map<SwitchId, Switch>,
    id: SwitchId,
)
    requires
        lists_agree(lists, switches),
        switches.contains_key(id),
        forall|other: SwitchId| #[trigger]
            switches.contains_key(other) && other != id ==> switches[other].branch
                != switches[id].branch,
    ensures
        lists_agree(
            branch_unlinked(lists, switches[id].function, switches[id].branch),
            switches.remove(id),
        ),
{
    let switch = switches[id];
    let moved = branch_unlinked(lists, switch.function, switch.branch);
    let after = switches.remove(id);
    assert forall|function: FunctionId, b: Address| #[trigger]
        branches_under(moved, function).contains(b) <==> owns_branch(after, function, b) by {
        assert(branches_under(lists, function).contains(b) <==> owns_branch(switches, function, b));
        lemma_under_unlinked(lists, switch.function, switch.branch, function, b);
        if owns_branch(switches, function, b) {
            let other = choose|other: SwitchId| #[trigger]
                switches.contains_key(other) && switches[other].function == function
                    && switches[other].branch == b;
            if other != id {
                assert(after.contains_key(other));
            }
        }
        if owns_branch(after, function, b) {
            let other = choose|other: SwitchId| #[trigger]
                after.contains_key(other) && after[other].function == function
                    && after[other].branch == b;
            assert(switches.contains_key(other));
        }
    }
}

/// Switches under identities, found by their branches and listed for their functions.
pub struct SwitchTable {
    table: KeyedTable<SwitchEntity, Address, Switch>,
    by_function: FunctionBranches,
}

impl View for SwitchTable {
    type V = Map<SwitchId, Switch>;

    closed spec fn view(&self) -> Map<SwitchId, Switch> {
        self.table@
    }
}

/// What one call of a function that makes a switch may give.
pub open spec fn makes_switch<F: FnOnce(SwitchId, Address) -> Result<Switch, SwitchTableError>>(
    f: F,
    id: SwitchId,
    branch: Address,
    switch: Switch,
) -> bool {
    call_ensures(f, (id, branch), Ok::<Switch, SwitchTableError>(switch))
}

impl SwitchTable {
    /// The switches stand under their identities.
    pub closed spec fn sound(&self) -> bool {
        self.table.sound() && self.by_function.wf()
    }

    /// The switches are found by their branches and listed for their functions.
    pub open spec fn wf(&self) -> bool {
        &&& self.sound()
        &&& keyed(self.index(), self@)
        &&& lists_agree(self.lists(), self@)
    }

    /// What is found by each branch.
    pub closed spec fn index(&self) -> Map<Address, SwitchId> {
        self.table.index()
    }

    /// The branches that are listed for each function.
    pub closed spec fn lists(&self) -> BranchLists {
        self.by_function@
    }

    /// What hands out the identities.
    pub closed spec fn ids(&self) -> IdAllocator<SwitchEntity> {
        self.table.ids()
    }

    /// Whether a slot is handed out and no switch stands in it.
    pub open spec fn reserved(&self, slot: int) -> bool {
        &&& self.ids().in_use(slot)
        &&& forall|id: SwitchId| #[trigger] self@.contains_key(id) ==> id.id != slot
    }

    /// The identity under which a switch at a branch stands or will stand.
    pub open spec fn target(&self, branch: Address) -> SwitchId {
        if self.index().contains_key(branch) {
            self.index()[branch]
        } else {
            self.ids().pending(0)
        }
    }

    pub fn new() -> (table: Self)
        ensures
            table.wf(),
            table@ == Map::<SwitchId, Switch>::empty(),
            table.index() == Map::<Address, SwitchId>::empty(),
            table.lists() == BranchLists::empty(),
            table.ids().free_ids@ == Seq::<SwitchId>::empty(),
            table.ids().next_index == 0,
    {
        SwitchTable { table: KeyedTable::new(), by_function: FunctionBranches::new() }
    }

    pub fn new_transient() -> (table: Self)
        ensures
            table.wf(),
            table@ == Map::<SwitchId, Switch>::empty(),
            table.index() == Map::<Address, SwitchId>::empty(),
            table.lists() == BranchLists::empty(),
            table.ids().free_ids@ == Seq::<SwitchId>::empty(),
            table.ids().next_index == 0,
    {
        SwitchTable::new()
    }

    /// The identity that the allocator hands out after `offset` others.
    pub fn pending_id(&self, offset: usize) -> (id: SwitchId)
        requires
            self.sound(),
            offset < self.ids().room(),
        ensures
            id == self.ids().pending(offset as int),
    {
        self.table.pending_id(offset)
    }

    pub fn get_by_id(&self, id: SwitchId) -> (switch: Option<&Switch>)
        requires
            self.sound(),
        ensures
            switch is Some == self@.contains_key(id),
            switch matches Some(s) ==> *s == self@[id],
    {
        self.table.get_by_id(id)
    }

    pub fn get_by_branch(&self, branch: Address) -> (switch: Option<&Switch>)
        requires
            self.sound(),
        ensures
            switch is Some == (self.index().contains_key(branch) && self@.contains_key(
                self.index()[branch],
            )),
            switch matches Some(s) ==> *s == self@[self.index()[branch]],
    {
        self.table.get_by_key(branch)
    }

    pub fn contains(&self, branch: Address) -> (found: bool)
        requires
            self.sound(),
        ensures
            found == self.index().contains_key(branch),
    {
        self.table.contains_key(branch)
    }

    /// The branches of all switches in their order.
    pub fn branches(&self) -> (branches: Vec<Address>)
        requires
            self.sound(),
        ensures
            ascending(branches@),
            branches@.to_set() == self.index().dom(),
    {
        self.table.keys()
    }

    /// The branches of the switches of a function in their order.
    pub fn branches_of_function(&self, function: FunctionId) -> (branches: Vec<Address>)
        requires
            self.sound(),
        ensures
            ascending(branches@),
            branches@.to_set() == branches_under(self.lists(), function),
    {
        self.by_function.branches(function)
    }

    /// The switches in the order of their slots.
    pub fn iter(&self) -> (listed: Vec<&Switch>)
        requires
            self.sound(),
        ensures
            lists_entries(listed@, self@),
    {
        self.table.iter()
    }

    pub fn is_empty(&self) -> (empty: bool)
        requires
            self.sound(),
        ensures
            empty == (self.index() == Map::<Address, SwitchId>::empty()),
    {
        self.table.is_empty()
    }

    pub fn len(&self) -> (len: usize)
        requires
            self.sound(),
        ensures
            self.index().dom().finite(),
            len == self.index().dom().len(),
    {
        self.table.len()
    }

    /// The switches in the order of their branches, from behind `after` on.
    pub fn entries_after(&self, after: Option<Address>) -> (listed: Vec<&Switch>)
        requires
            self.wf(),
        ensures
            forall|i: int|
                0 <= i < listed@.len() ==> self@.contains_key((#[trigger] listed@[i]).id)
                    && *listed@[i] == self@[listed@[i].id],
            spans_keys(
                switch_branches(listed@),
                self.index().dom(),
                behind(after),
                KeyBound::Unbounded,
            ),
    {
        let keys: Vec<Address> = self.table.keys_between(cursor_bound(after), KeyBound::Unbounded);
        let mut listed: Vec<&Switch> = Vec::new();
        let mut i: usize = 0;
        while i < keys.len()
            invariant
                i <= keys@.len(),
                self.wf(),
                spans_keys(keys@, self.index().dom(), behind(after), KeyBound::Unbounded),
                listed@.len() == i,
                forall|k: int|
                    0 <= k < i ==> self@.contains_key((#[trigger] listed@[k]).id) && *listed@[k]
                        == self@[listed@[k].id] && listed@[k].branch == keys@[k],
            decreases keys@.len() - i,
        {
            assert(keys@.contains(keys@[i as int]));
            assert(self.index().contains_key(keys@[i as int]));
            if let Some(switch) = self.get_by_branch(keys[i]) {
                listed.push(switch);
            }
            i = i + 1;
        }
        assert(switch_branches(listed@) =~= keys@);
        listed
    }

    /// Takes out of the allocator what it has already promised.
    pub fn publish_reservations(&mut self, reservations: &Vec<SwitchId>)
        requires
            old(self).sound(),
            reservations@.len() <= old(self).ids().room(),
            forall|i: int|
                0 <= i < reservations@.len() ==> #[trigger] reservations@[i] == old(
                    self).ids().pending(i),
        ensures
            final(self).sound(),
            final(self)@ == old(self)@,
            final(self).index() == old(self).index(),
            final(self).lists() == old(self).lists(),
            final(self).ids().room() == old(self).ids().room() - reservations@.len(),
            forall|slot: int| #[trigger]
                final(self).ids().in_use(slot) <==> old(self).ids().in_use(slot) || exists|i: int|
                    0 <= i < reservations@.len() && (#[trigger] reservations@[i]).id == slot,
            hands_out(
                final(self).ids(),
                old(self).ids(),
                reservations@.len() as int,
                Seq::empty(),
            ),
            forall|i: int|
                0 <= i < reservations@.len() ==> final(self).reserved(
                    (#[trigger] reservations@[i]).id as int,
                ),
    {
        self.table.publish_reservations(reservations);
        proof {
            assert forall|i: int| 0 <= i < reservations@.len() implies self.reserved(
                (#[trigger] reservations@[i]).id as int,
            ) by {
                assert(self.table.reserved(reservations@[i].id as int));
            }
        }
    }

    /// Hands an identity back that nothing stands under.
    pub fn publish_release(&mut self, id: SwitchId)
        requires
            old(self).sound(),
            old(self).reserved(id.id as int),
            id.generation < u32::MAX - 1,
        ensures
            final(self).sound(),
            final(self)@ == old(self)@,
            final(self).index() == old(self).index(),
            final(self).lists() == old(self).lists(),
            final(self).ids().free_ids@ == old(self).ids().free_ids@.push(id.successor()),
            final(self).ids().next_index == old(self).ids().next_index,
    {
        proof {
            assert forall|other: SwitchId| #[trigger] self.table@.contains_key(other) implies other.id
                != id.id by {
                assert(self@.contains_key(other));
            }
        }
        self.table.publish_release(id);
    }

    /// Puts a switch under its identity, which was handed out. `previous_function` is the
    /// function for which the branch was listed.
    pub fn publish_upsert(&mut self, switch: Switch, previous_function: Option<FunctionId>)
        requires
            old(self).sound(),
            switch.id.id < u32::MAX,
            old(self).reserved(switch.id.id as int) || old(self)@.contains_key(switch.id),
        ensures
            final(self).sound(),
            final(self)@ == old(self)@.insert(switch.id, switch),
            final(self).index() == old(self).index().insert(switch.branch, switch.id),
            final(self).lists() == branch_moved(
                old(self).lists(),
                previous_function,
                switch.function,
                switch.branch,
            ),
            final(self).ids() == old(self).ids(),
            old(self).wf() && key_is_free(old(self)@, switch.id, switch.branch) && (if old(
                self,
            )@.contains_key(switch.id) {
                &&& old(self)@[switch.id].branch == switch.branch
                &&& previous_function == Some(old(self)@[switch.id].function)
            } else {
                previous_function is None
            }) ==> final(self).wf(),
    {
        let ghost before = *self;
        let function: FunctionId = switch.function();
        let branch: Address = switch.branch();
        let ghost own = switch;
        if let Some(previous) = previous_function {
            self.by_function.unlink(previous, branch);
        }
        self.by_function.link(function, branch);
        self.table.publish_upsert(switch, None);
        proof {
            assert(before.table.reserved(own.id.id as int) == before.reserved(own.id.id as int));
            let sane = before.wf() && key_is_free(before@, own.id, own.branch) && (if before@.contains_key(own.id) {
                &&& before@[own.id].branch == own.branch
                &&& previous_function == Some(before@[own.id].function)
            } else {
                previous_function is None
            });
            if sane {
                lemma_moved_agrees(before.lists(), before@, own);
                assert forall|key: Address| #[trigger] self.index().contains_key(key) implies self@.contains_key(self.index()[key]) && self@[self.index()[key]].branch == key by {
                    if key != own.branch {
                        assert(before.index().contains_key(key));
                        if before.index()[key] == own.id {
                            assert(before@[own.id].branch == key);
                        }
                    }
                }
                assert forall|id: SwitchId| #[trigger] self@.contains_key(id) implies self@[id].id == id && self.index().contains_key(self@[id].branch) && self.index()[self@[id].branch] == id by {
                    if id != own.id {
                        assert(before@.contains_key(id));
                    }
                }
                assert(keyed(self.index(), self@));
            }
        }
    }

    /// Takes a switch out and hands its identity back.
    pub fn publish_remove(&mut self, id: SwitchId, function: FunctionId, branch: Address)
        requires
            old(self).sound(),
            old(self)@.contains_key(id),
            id.generation < u32::MAX - 1,
        ensures
            final(self).sound(),
            final(self)@ == old(self)@.remove(id),
            final(self).index() == old(self).index().remove(branch),
            final(self).lists() == branch_unlinked(old(self).lists(), function, branch),
            final(self).ids().free_ids@ == old(self).ids().free_ids@.push(id.successor()),
            final(self).ids().next_index == old(self).ids().next_index,
            old(self).wf() && old(self)@[id].function == function && old(self)@[id].branch
                == branch ==> final(self).wf(),
    {
        let ghost before = *self;
        self.by_function.unlink(function, branch);
        self.table.publish_remove(id, branch);
        proof {
            if before.wf() && before@[id].function == function && before@[id].branch == branch {
                assert forall|other: SwitchId| #[trigger]
                    before@.contains_key(other) && other != id implies before@[other].branch
                    != branch by {}
                lemma_removed_agrees(before.lists(), before@, id);
                assert forall|key: Address| #[trigger] self.index().contains_key(key) implies self@.contains_key(self.index()[key]) && self@[self.index()[key]].branch == key by {
                    assert(before.index().contains_key(key));
                }
                assert forall|other: SwitchId| #[trigger] self@.contains_key(other) implies self@[other].id == other && self.index().contains_key(self@[other].branch) && self.index()[self@[other].branch] == other by {
                    assert(before@.contains_key(other));
                }
                assert(keyed(self.index(), self@));
            }
        }
    }

    /// Makes a switch for a branch and puts it in place of the one with that branch, if there
    /// is one.
    pub fn insert<F: FnOnce(SwitchId, Address) -> Result<Switch, SwitchTableError>>(
        &mut self,
        branch: Address,
        f: F,
    ) -> (r: Result<SwitchId, SwitchTableError>)
        requires
            old(self).wf(),
            !old(self).index().contains_key(branch) ==> old(self).ids().room() > 0,
            call_requires(f, (old(self).target(branch), branch)),
            forall|switch: Switch| #[trigger]
                makes_switch(f, old(self).target(branch), branch, switch) ==> switch.id == old(
                    self).target(branch),
        ensures
            final(self).wf(),
            match r {
                Ok(id) => id == old(self).target(branch) && exists|switch: Switch|
                    {
                        &&& #[trigger] makes_switch(f, id, branch, switch)
                        &&& switch.branch == branch
                        &&& final(self)@ == old(self)@.insert(id, switch)
                        &&& final(self).index() == old(self).index().insert(branch, id)
                        &&& final(self).lists() == branch_moved(
                            old(self).lists(),
                            if old(self).index().contains_key(branch) {
                                Some(old(self)@[id].function)
                            } else {
                                None
                            },
                            switch.function,
                            branch,
                        )
                        &&& old(self).index().contains_key(branch) ==> final(self).ids() == old(
                            self,
                        ).ids()
                        &&& !old(self).index().contains_key(branch) ==> hands_out(
                            final(self).ids(),
                            old(self).ids(),
                            1,
                            Seq::empty(),
                        )
                    },
                Err(error) => {
                    &&& *final(self) == *old(self)
                    &&& call_ensures(
                        f,
                        (old(self).target(branch), branch),
                        Err::<Switch, SwitchTableError>(error),
                    ) || (error is AddressMismatch && exists|switch: Switch|
                        #[trigger] makes_switch(f, old(self).target(branch), branch, switch)
                            && switch.branch != branch)
                },
            },
    {
        let ghost before = *self;
        let existing: Option<SwitchId> = self.table.id_by_key(branch);
        let id: SwitchId = match existing {
            Some(id) => id,
            None => self.table.pending_id(0),
        };
        assert(id == self.target(branch));
        let switch: Switch = match f(id, branch) {
            Ok(switch) => switch,
            Err(error) => {
                return Err(error);
            },
        };
        assert(makes_switch(f, id, branch, switch));
        if switch.branch() != branch {
            return Err(SwitchTableError::AddressMismatch);
        }
        let ghost own = switch;
        proof {
            before.table.lemma_sound();
            assert forall|other: SwitchId| #[trigger]
                before@.contains_key(other) && other != id implies before@[other].branch
                != branch by {}
        }
        let function: FunctionId = switch.function();
        if existing.is_some() {
            assert(before@.contains_key(id) && before@[id].branch == branch);
            let previous: Switch = self.table.replace_entry(switch);
            self.by_function.unlink(previous.function(), branch);
            self.by_function.link(function, branch);
            assert(self.index() =~= before.index().insert(branch, id));
        } else {
            self.table.add_entry(switch);
            self.by_function.link(function, branch);
        }
        proof {
            lemma_moved_agrees(before.lists(), before@, own);
            assert forall|key: Address| #[trigger] self.index().contains_key(key) implies self@.contains_key(self.index()[key]) && self@[self.index()[key]].branch == key by {
                if key != branch {
                    assert(before.index().contains_key(key));
                    assert(before.index()[key] != id) by {
                        if before.index()[key] == id {
                            assert(before@.contains_key(id));
                        }
                    }
                }
            }
            assert forall|other: SwitchId| #[trigger] self@.contains_key(other) implies self@[other].id == other && self.index().contains_key(self@[other].branch) && self.index()[self@[other].branch] == other by {
                if other != id {
                    assert(before@.contains_key(other));
                }
            }
            assert(keyed(self.index(), self@));
        }
        Ok(id)
    }

    /// Lets `f` change the switch with an identity, if it is there. Where it comes to belong to
    /// another function, it is listed for that one.
    pub fn modify_by_id<R, F: FnOnce(&mut Switch) -> R>(&mut self, id: SwitchId, f: F) -> (r: Option<
        R,
    >)
        requires
            old(self).sound(),
            forall|e: &mut Switch|
                old(self)@.contains_key(id) && *e == old(self)@[id] ==> #[trigger] call_requires(
                    f,
                    (e,),
                ),
        ensures
            r is Some == old(self)@.contains_key(id),
            r is None ==> *final(self) == *old(self),
            final(self).ids() == old(self).ids(),
            final(self).index() == old(self).index(),
            r matches Some(value) ==> exists|e: &mut Switch|
                {
                    &&& #[trigger] call_ensures(f, (e,), value)
                    &&& *e == old(self)@[id]
                    &&& final(self).lists() == if final(e).function == old(self)@[id].function {
                        old(self).lists()
                    } else {
                        branch_moved(
                            old(self).lists(),
                            Some(old(self)@[id].function),
                            final(e).function,
                            old(self)@[id].branch,
                        )
                    }
                    &&& final(e).id.id == id.id ==> final(self).sound()
                    &&& final(self)@ == changed_in_place(old(self)@, id, *final(e))
                    &&& old(self).wf() && final(e).id == id && final(e).branch == old(
                        self,
                    )@[id].branch ==> final(self).wf()
                },
    {
        let ghost before = *self;
        let ghost mut last: Switch = arbitrary();
        let (made, previous, branch, function): (R, FunctionId, Address, FunctionId) =
            match self.table.get_mut(id) {
            Some(switch) => {
                let previous: FunctionId = switch.function;
                let branch: Address = switch.branch;
                let value: R = f(switch);
                let function: FunctionId = switch.function;
                proof {
                    last = *switch;
                }
                assert(exists|e: &mut Switch|
                    #[trigger] call_ensures(f, (e,), value) && *e == before@[id] && *final(e)
                        == last);
                (value, previous, branch, function)
            },
            None => {
                return None;
            },
        };
        if function != previous {
            self.by_function.unlink(previous, branch);
            self.by_function.link(function, branch);
        }
        let r: Option<R> = Some(made);
        proof {
            let value = r->0;
            let e = choose|e: &mut Switch|
                #[trigger] call_ensures(f, (e,), value) && *e == before@[id] && *final(e) == last;
            assert(call_ensures(f, (e,), value));
            assert(*e == before@[id]);
            assert(last.id.id == id.id ==> self.sound());
            assert(self@ == changed_in_place(before@, id, last));
            assert(self.lists() == if last.function == before@[id].function {
                before.lists()
            } else {
                branch_moved(
                    before.lists(),
                    Some(before@[id].function),
                    last.function,
                    before@[id].branch,
                )
            });
            if before.wf() && last.id == id && last.branch == before@[id].branch {
                assert forall|other: SwitchId| #[trigger]
                    before@.contains_key(other) && other != id implies before@[other].branch
                    != last.branch by {}
                lemma_moved_agrees(before.lists(), before@, last);
                if last.function == before@[id].function {
                    lemma_same_owner(before.lists(), before@, last);
                }
                assert(keyed(self.index(), self@)) by {
                    assert forall|key: Address| #[trigger] self.index().contains_key(key) implies self@.contains_key(self.index()[key]) && self@[self.index()[key]].branch == key by {
                        assert(before.index().contains_key(key));
                    }
                    assert forall|other: SwitchId| #[trigger] self@.contains_key(other) implies self@[other].id == other && self.index().contains_key(self@[other].branch) && self.index()[self@[other].branch] == other by {
                        assert(before@.contains_key(other));
                    }
                }
                assert(self.wf());
            }
            assert(*final(e) == last);
        }
        r
    }

    /// Lets `f` change the switch at a branch, if it is there.
    pub fn modify_by_branch<R, F: FnOnce(&mut Switch) -> R>(&mut self, branch: Address, f: F) -> (r:
        Option<R>)
        requires
            old(self).sound(),
            forall|e: &mut Switch|
                old(self).index().contains_key(branch) && old(self)@.contains_key(
                    old(self).index()[branch],
                ) && *e == old(self)@[old(self).index()[branch]] ==> #[trigger] call_requires(
                    f,
                    (e,),
                ),
        ensures
            r is Some == (old(self).index().contains_key(branch) && old(self)@.contains_key(
                old(self).index()[branch],
            )),
            r is None ==> *final(self) == *old(self),
            final(self).ids() == old(self).ids(),
            final(self).index() == old(self).index(),
            r matches Some(value) ==> exists|e: &mut Switch|
                {
                    let id = old(self).index()[branch];
                    &&& #[trigger] call_ensures(f, (e,), value)
                    &&& *e == old(self)@[id]
                    &&& final(self).lists() == if final(e).function == old(self)@[id].function {
                        old(self).lists()
                    } else {
                        branch_moved(
                            old(self).lists(),
                            Some(old(self)@[id].function),
                            final(e).function,
                            old(self)@[id].branch,
                        )
                    }
                    &&& final(e).id.id == id.id ==> final(self).sound()
                    &&& final(self)@ == changed_in_place(old(self)@, id, *final(e))
                    &&& old(self).wf() && final(e).id == id && final(e).branch == old(
                        self,
                    )@[id].branch ==> final(self).wf()
                },
    {
        match self.table.id_by_key(branch) {
            Some(id) => self.modify_by_id(id, f),
            None => None,
        }
    }

    /// Takes out the switch with an identity, if it is there, and says whether it was.
    pub fn remove_by_id(&mut self, id: SwitchId) -> (removed: bool)
        requires
            old(self).sound(),
            old(self)@.contains_key(id) ==> id.generation < u32::MAX - 1,
        ensures
            final(self).sound(),
            removed == old(self)@.contains_key(id),
            !removed ==> *final(self) == *old(self),
            final(self)@ == old(self)@.remove(id),
            removed ==> {
                let switch = old(self)@[id];
                &&& final(self).index() == old(self).index().remove(switch.branch)
                &&& final(self).lists() == branch_unlinked(
                    old(self).lists(),
                    switch.function,
                    switch.branch,
                )
                &&& hands_out(final(self).ids(), old(self).ids(), 0, seq![id])
            },
            old(self).wf() ==> final(self).wf(),
    {
        let ghost before = *self;
        let switch: Switch = match self.table.remove_by_id(id) {
            Some(switch) => switch,
            None => {
                return false;
            },
        };
        self.by_function.unlink(switch.function(), switch.branch());
        proof {
            if before.wf() {
                assert forall|other: SwitchId| #[trigger]
                    before@.contains_key(other) && other != id implies before@[other].branch
                    != before@[id].branch by {}
                lemma_removed_agrees(before.lists(), before@, id);
            }
        }
        true
    }

    /// Takes out the switch at a branch, if it is there, and says whether it was.
    pub fn remove_by_branch(&mut self, branch: Address) -> (removed: bool)
        requires
            old(self).wf(),
            old(self).index().contains_key(branch) ==> old(self).index()[branch].generation
                < u32::MAX - 1,
        ensures
            final(self).wf(),
            removed == old(self).index().contains_key(branch),
            !removed ==> *final(self) == *old(self),
            removed ==> {
                let id = old(self).index()[branch];
                &&& final(self)@ == old(self)@.remove(id)
                &&& final(self).index() == old(self).index().remove(branch)
                &&& final(self).lists() == branch_unlinked(
                    old(self).lists(),
                    old(self)@[id].function,
                    branch,
                )
                &&& hands_out(final(self).ids(), old(self).ids(), 0, seq![id])
            },
    {
        match self.table.id_by_key(branch) {
            Some(id) => self.remove_by_id(id),
            None => false,
        }
    }

    /// The switch with an identity. A table in memory never fails.
    pub fn try_get_by_id(&self, id: SwitchId) -> (r: Result<Option<&Switch>, SwitchTableError>)
        requires
            self.sound(),
        ensures
            r is Ok,
            r->Ok_0 is Some == self@.contains_key(id),
            r->Ok_0 matches Some(s) ==> *s == self@[id],
    {
        Ok(self.get_by_id(id))
    }

    /// The switch at a branch. A table in memory never fails.
    pub fn try_get_by_branch(&self, branch: Address) -> (r: Result<
        Option<&Switch>,
        SwitchTableError,
    >)
        requires
            self.sound(),
        ensures
            r is Ok,
            r->Ok_0 is Some == (self.index().contains_key(branch) && self@.contains_key(
                self.index()[branch],
            )),
            r->Ok_0 matches Some(s) ==> *s == self@[self.index()[branch]],
    {
        Ok(self.get_by_branch(branch))
    }

    /// Lets `f` change the switch with an identity, if it is there. A table in memory never fails.
    pub fn try_modify_by_id<R, F: FnOnce(&mut Switch) -> R>(&mut self, id: SwitchId, f: F) -> (r: Result<
        Option<R>,
        SwitchTableError,
    >)
        requires
            old(self).sound(),
            forall|e: &mut Switch|
                old(self)@.contains_key(id) && *e == old(self)@[id] ==> #[trigger] call_requires(
                    f,
                    (e,),
                ),
        ensures
            r is Ok,
            r->Ok_0 is Some == old(self)@.contains_key(id),
            r->Ok_0 is None ==> *final(self) == *old(self),
            final(self).ids() == old(self).ids(),
            final(self).index() == old(self).index(),
            r->Ok_0 matches Some(value) ==> exists|e: &mut Switch|
                {
                    &&& #[trigger] call_ensures(f, (e,), value)
                    &&& *e == old(self)@[id]
                    &&& final(self).lists() == if final(e).function == old(self)@[id].function {
                        old(self).lists()
                    } else {
                        branch_moved(
                            old(self).lists(),
                            Some(old(self)@[id].function),
                            final(e).function,
                            old(self)@[id].branch,
                        )
                    }
                    &&& final(e).id.id == id.id ==> final(self).sound()
                    &&& final(self)@ == changed_in_place(old(self)@, id, *final(e))
                    &&& old(self).wf() && final(e).id == id && final(e).branch == old(
                        self,
                    )@[id].branch ==> final(self).wf()
                },
    {
        Ok(self.modify_by_id(id, f))
    }

    /// Lets `f` change the switch at a branch, if it is there. A table in memory never fails.
    pub fn try_modify_by_branch<R, F: FnOnce(&mut Switch) -> R>(&mut self, branch: Address, f: F) -> (r: Result<
        Option<R>,
        SwitchTableError,
    >)
        requires
            old(self).sound(),
            forall|e: &mut Switch|
                old(self).index().contains_key(branch) && old(self)@.contains_key(
                    old(self).index()[branch],
                ) && *e == old(self)@[old(self).index()[branch]] ==> #[trigger] call_requires(
                    f,
                    (e,),
                ),
        ensures
            r is Ok,
            r->Ok_0 is Some == (old(self).index().contains_key(branch) && old(self)@.contains_key(
                old(self).index()[branch],
            )),
            r->Ok_0 is None ==> *final(self) == *old(self),
            final(self).ids() == old(self).ids(),
            final(self).index() == old(self).index(),
            r->Ok_0 matches Some(value) ==> exists|e: &mut Switch|
                {
                    let id = old(self).index()[branch];
                    &&& #[trigger] call_ensures(f, (e,), value)
                    &&& *e == old(self)@[id]
                    &&& final(self).lists() == if final(e).function == old(self)@[id].function {
                        old(self).lists()
                    } else {
                        branch_moved(
                            old(self).lists(),
                            Some(old(self)@[id].function),
                            final(e).function,
                            old(self)@[id].branch,
                        )
                    }
                    &&& final(e).id.id == id.id ==> final(self).sound()
                    &&& final(self)@ == changed_in_place(old(self)@, id, *final(e))
                    &&& old(self).wf() && final(e).id == id && final(e).branch == old(
                        self,
                    )@[id].branch ==> final(self).wf()
                },
    {
        Ok(self.modify_by_branch(branch, f))
    }

    /// Takes a switch out and says whether it was there. A table in memory never fails.
    pub fn try_remove_by_id(&mut self, id: SwitchId) -> (r: Result<bool, SwitchTableError>)
        requires
            old(self).sound(),
            old(self)@.contains_key(id) ==> id.generation < u32::MAX - 1,
        ensures
            r is Ok,
            final(self).sound(),
            r->Ok_0 == old(self)@.contains_key(id),
            !(r->Ok_0) ==> *final(self) == *old(self),
            final(self)@ == old(self)@.remove(id),
            r->Ok_0 ==> {
                let switch = old(self)@[id];
                &&& final(self).index() == old(self).index().remove(switch.branch)
                &&& final(self).lists() == branch_unlinked(
                    old(self).lists(),
                    switch.function,
                    switch.branch,
                )
                &&& hands_out(final(self).ids(), old(self).ids(), 0, seq![id])
            },
            old(self).wf() ==> final(self).wf(),
    {
        Ok(self.remove_by_id(id))
    }

    /// Takes the switch at a branch out and says whether it was there. A table in memory never
    /// fails.
    pub fn try_remove_by_branch(&mut self, branch: Address) -> (r: Result<bool, SwitchTableError>)
        requires
            old(self).wf(),
            old(self).index().contains_key(branch) ==> old(self).index()[branch].generation
                < u32::MAX - 1,
        ensures
            r is Ok,
            final(self).wf(),
            r->Ok_0 == old(self).index().contains_key(branch),
            !(r->Ok_0) ==> *final(self) == *old(self),
            r->Ok_0 ==> {
                let id = old(self).index()[branch];
                &&& final(self)@ == old(self)@.remove(id)
                &&& final(self).index() == old(self).index().remove(branch)
                &&& final(self).lists() == branch_unlinked(
                    old(self).lists(),
                    old(self)@[id].function,
                    branch,
                )
                &&& hands_out(final(self).ids(), old(self).ids(), 0, seq![id])
            },
    {
        Ok(self.remove_by_branch(branch))
    }
}

/// The branches of switches.
pub open spec fn switch_branches(switches: Seq<&Switch>) -> Seq<Address> {
    switches.map_values(|switch: &Switch| switch.branch)
}

/// A switch that stays with its function leaves the lists right as they are.
proof fn lemma_same_owner(lists: BranchLists, switches: Map<SwitchId, Switch>, switch: Switch)
    requires
        lists_agree(lists, switches),
        switches.contains_key(switch.id),
        switches[switch.id].branch == switch.branch,
        switches[switch.id].function == switch.function,
    ensures
        lists_agree(lists, switches.insert(switch.id, switch)),
{
    let after = switches.insert(switch.id, switch);
    assert forall|function: FunctionId, b: Address| #[trigger]
        branches_under(lists, function).contains(b) <==> owns_branch(after, function, b) by {
        assert(branches_under(lists, function).contains(b) <==> owns_branch(switches, function, b));
        if owns_branch(switches, function, b) {
            let other = choose|other: SwitchId| #[trigger]
                switches.contains_key(other) && switches[other].function == function
                    && switches[other].branch == b;
            assert(after.contains_key(other));
        }
        if owns_branch(after, function, b) {
            let other = choose|other: SwitchId| #[trigger]
                after.contains_key(other) && after[other].function == function
                    && after[other].branch == b;
            assert(switches.contains_key(other));
        }
    }
}

/// In a table that is in order, the branches listed for a function are those of its switches.
pub proof fn law_branches_belong_to_owner(table: SwitchTable, id: SwitchId)
    requires
        table.wf(),
        table@.contains_key(id),
    ensures
        branches_under(table.lists(), table@[id].function).contains(table@[id].branch),
        forall|function: FunctionId| #[trigger]
            branches_under(table.lists(), function).contains(table@[id].branch) ==> function
                == table@[id].function,
{
    let switch = table@[id];
    assert(owns_branch(table@, switch.function, switch.branch));
    assert forall|function: FunctionId| #[trigger]
        branches_under(table.lists(), function).contains(switch.branch) implies function
        == switch.function by {
        assert(owns_branch(table@, function, switch.branch));
        let other = choose|other: SwitchId| #[trigger]
            table@.contains_key(other) && table@[other].function == function
                && table@[other].branch == switch.branch;
        assert(table.index()[switch.branch] == other);
        assert(table.index()[switch.branch] == id);
    }
}

/// A branch that is moved is listed for its new function and no more for the previous one. No
/// other branch is concerned, and no function stays listed without a branch.
pub proof fn law_moved_branch_changes_owner(
    lists: BranchLists,
    previous: Option<FunctionId>,
    function: FunctionId,
    branch: Address,
    other_function: FunctionId,
    other: Address,
)
    requires
        no_empty_list(lists),
    ensures
        branches_under(branch_moved(lists, previous, function, branch), function).contains(branch),
        previous matches Some(p) ==> (p != function ==> !branches_under(
            branch_moved(lists, previous, function, branch),
            p,
        ).contains(branch)),
        other != branch ==> (branches_under(
            branch_moved(lists, previous, function, branch),
            other_function,
        ).contains(other) <==> branches_under(lists, other_function).contains(other)),
        other_function != function && previous != Some(other_function) ==> branches_under(
            branch_moved(lists, previous, function, branch),
            other_function,
        ) == branches_under(lists, other_function),
        no_empty_list(branch_moved(lists, previous, function, branch)),
        !branches_under(branch_unlinked(lists, function, branch), function).contains(branch),
        no_empty_list(branch_unlinked(lists, function, branch)),
{
    let middle = match previous {
        Some(p) => branch_unlinked(lists, p, branch),
        None => lists,
    };
    let after = branch_moved(lists, previous, function, branch);
    if previous is Some {
        let p = previous->0;
        let rest = branches_under(lists, p).remove(branch);
        assert(rest.contains(other) <==> branches_under(lists, p).contains(other) && other
            != branch);
        if rest == Set::<Address>::empty() {
            assert(!rest.contains(other));
        }
    }
    assert(after[function].contains(branch));
    assert forall|f: FunctionId| #[trigger] after.contains_key(f) implies after[f] != Set::<
        Address,
    >::empty() by {
        if f == function {
            assert(!Set::<Address>::empty().contains(branch));
        } else {
            assert(middle.contains_key(f));
        }
    }
}

} // verus!
