//! The table of problems, found by what they are about and their kind.
use vstd::prelude::*;

use crate::address::{Address, AddressRange};
use crate::call_graph::behind;
use crate::id::{hands_out, lemma_given_back, IdAllocator};
use crate::keyed_table::{
    changed_in_place, key_is_free, keyed, lists_entries, KeyedTable, TableEntry,
};
use crate::order::{ascending, cursor_bound, spans_keys, KeyBound, Ranked};
use crate::problem::{Problem, ProblemEntity, ProblemId, ProblemKey, ProblemKind, ProblemScope};
use crate::types::Revision;

verus! {

/// Why a problem was not put into the table.
#[derive(Debug)]
pub enum ProblemTableError {
    KeyMismatch,
    Other(String),
    Storage(String),
}

impl ProblemTableError {
    pub fn other(error: String) -> (r: Self)
        ensures
            r == ProblemTableError::Other(error),
    {
        ProblemTableError::Other(error)
    }

    pub fn other_with(message: String) -> (r: Self)
        ensures
            r == ProblemTableError::Other(message),
    {
        ProblemTableError::Other(message)
    }
}

impl TableEntry<ProblemEntity, ProblemKey> for Problem {
    open spec fn ident(&self) -> ProblemId {
        self.id
    }

    open spec fn own_key(&self) -> ProblemKey {
        self.filed()
    }

    fn entry_id(&self) -> (id: ProblemId) {
        self.id
    }

    fn entry_key(&self) -> (key: ProblemKey) {
        self.key()
    }
}

/// The key of a problem at an address.
pub open spec fn at_address(address: Address, kind: ProblemKind) -> ProblemKey {
    ProblemKey { scope: ProblemScope::Address(address), kind }
}

/// What one call of a function that makes a problem may give.
pub open spec fn makes_problem<
    F: FnOnce(ProblemId, ProblemScope) -> Result<Problem, ProblemTableError>,
>(f: F, id: ProblemId, scope: ProblemScope, problem: Problem) -> bool {
    call_ensures(f, (id, scope), Ok::<Problem, ProblemTableError>(problem))
}

/// What problems are found by.
pub open spec fn problem_keys(problems: Seq<&Problem>) -> Seq<ProblemKey> {
    problems.map_values(|problem: &Problem| problem.filed())
}

/// Problems under identities, found by their keys.
pub struct ProblemTable {
    table: KeyedTable<ProblemEntity, ProblemKey, Problem>,
}

impl View for ProblemTable {
    type V = Map<ProblemId, Problem>;

    closed spec fn view(&self) -> Map<ProblemId, Problem> {
        self.table@
    }
}

impl ProblemTable {
    /// The problems stand under their identities.
    pub closed spec fn sound(&self) -> bool {
        self.table.sound()
    }

    /// The problems are found by their keys.
    pub open spec fn wf(&self) -> bool {
        self.sound() && keyed(self.index(), self@)
    }

    /// What is found by each key.
    pub closed spec fn index(&self) -> Map<ProblemKey, ProblemId> {
        self.table.index()
    }

    /// What hands out the identities.
    pub closed spec fn ids(&self) -> IdAllocator<ProblemEntity> {
        self.table.ids()
    }

    /// Whether a slot is handed out and no problem stands in it.
    pub open spec fn reserved(&self, slot: int) -> bool {
        &&& self.ids().in_use(slot)
        &&& forall|id: ProblemId| #[trigger] self@.contains_key(id) ==> id.id != slot
    }

    /// The identity under which a problem with a key stands or will stand.
    pub open spec fn target(&self, key: ProblemKey) -> ProblemId {
        if self.index().contains_key(key) {
            self.index()[key]
        } else {
            self.ids().pending(0)
        }
    }

    pub fn new() -> (table: Self)
        ensures
            table.wf(),
            table@ == Map::<ProblemId, Problem>::empty(),
            table.index() == Map::<ProblemKey, ProblemId>::empty(),
            table.ids().free_ids@ == Seq::<ProblemId>::empty(),
            table.ids().next_index == 0,
    {
        ProblemTable { table: KeyedTable::new() }
    }

    pub fn new_transient() -> (table: Self)
        ensures
            table.wf(),
            table@ == Map::<ProblemId, Problem>::empty(),
            table.index() == Map::<ProblemKey, ProblemId>::empty(),
            table.ids().free_ids@ == Seq::<ProblemId>::empty(),
            table.ids().next_index == 0,
    {
        ProblemTable::new()
    }

    /// The identity that the allocator hands out after `offset` others.
    pub fn pending_id(&self, offset: usize) -> (id: ProblemId)
        requires
            self.sound(),
            offset < self.ids().room(),
        ensures
            id == self.ids().pending(offset as int),
    {
        self.table.pending_id(offset)
    }

    pub fn get_by_id(&self, id: ProblemId) -> (problem: Option<&Problem>)
        requires
            self.sound(),
        ensures
            problem is Some == self@.contains_key(id),
            problem matches Some(p) ==> *p == self@[id],
    {
        self.table.get_by_id(id)
    }

    pub fn get_by_key(&self, key: ProblemKey) -> (problem: Option<&Problem>)
        requires
            self.sound(),
        ensures
            problem is Some == (self.index().contains_key(key) && self@.contains_key(
                self.index()[key],
            )),
            problem matches Some(p) ==> *p == self@[self.index()[key]],
    {
        self.table.get_by_key(key)
    }

    pub fn get(&self, address: Address, kind: ProblemKind) -> (problem: Option<&Problem>)
        requires
            self.wf(),
        ensures
            problem is Some == self.index().contains_key(at_address(address, kind)),
            problem matches Some(p) ==> *p == self@[self.index()[at_address(address, kind)]],
    {
        self.get_by_key(ProblemKey::new(address, kind))
    }

    pub fn get_scoped(&self, scope: ProblemScope, kind: ProblemKind) -> (problem: Option<&Problem>)
        requires
            self.wf(),
        ensures
            problem is Some == self.index().contains_key(ProblemKey { scope, kind }),
            problem matches Some(p) ==> *p == self@[self.index()[ProblemKey { scope, kind }]],
    {
        self.get_by_key(ProblemKey::scoped(scope, kind))
    }

    /// Whether there is a problem at an address.
    pub fn contains(&self, address: Address) -> (found: bool)
        requires
            self.sound(),
        ensures
            found == exists|kind: ProblemKind| #[trigger]
                self.index().contains_key(at_address(address, kind)),
    {
        let start = ProblemKey::new(address, ProblemKind::minimum());
        let end = ProblemKey::new(address, ProblemKind::maximum());
        let keys: Vec<ProblemKey> = self.table.keys_between(
            KeyBound::Included(start),
            KeyBound::Included(end),
        );
        let found: bool = keys.len() > 0;
        proof {
            if found {
                let key = keys@[0];
                assert(keys@.contains(key));
                lemma_between_addresses(address, address, key);
                assert(key == at_address(address, key.kind));
                assert(self.index().contains_key(at_address(address, key.kind)));
            } else if exists|kind: ProblemKind| #[trigger]
                self.index().contains_key(at_address(address, kind)) {
                let kind = choose|kind: ProblemKind| #[trigger]
                    self.index().contains_key(at_address(address, kind));
                lemma_between_addresses(address, address, at_address(address, kind));
                assert(keys@.contains(at_address(address, kind)));
            }
        }
        found
    }

    /// Whether there is a problem of one of the kinds at an address.
    pub fn contains_any(&self, address: Address, kinds: &[ProblemKind]) -> (found: bool)
        requires
            self.wf(),
        ensures
            found == exists|i: int|
                0 <= i < kinds@.len() && self.index().contains_key(
                    at_address(address, #[trigger] kinds@[i]),
                ),
    {
        let mut i: usize = 0;
        while i < kinds.len()
            invariant
                i <= kinds@.len(),
                self.wf(),
                forall|k: int|
                    0 <= k < i ==> !self.index().contains_key(
                        at_address(address, #[trigger] kinds@[k]),
                    ),
            decreases kinds@.len() - i,
        {
            if self.get(address, kinds[i]).is_some() {
                return true;
            }
            i = i + 1;
        }
        false
    }

    /// The keys in their order.
    pub fn keys(&self) -> (keys: Vec<ProblemKey>)
        requires
            self.sound(),
        ensures
            ascending(keys@),
            keys@.to_set() == self.index().dom(),
    {
        self.table.keys()
    }

    /// The keys of the problems at addresses of a range, in their order.
    pub fn address_keys_in(&self, range: AddressRange) -> (keys: Vec<ProblemKey>)
        requires
            self.sound(),
        ensures
            ascending(keys@),
            forall|key: ProblemKey| #[trigger]
                keys@.contains(key) <==> self.index().contains_key(key)
                    && (key.scope matches ProblemScope::Address(address) && range.holds(address)),
    {
        if range.is_empty() {
            return Vec::new();
        }
        let start: Address = range.start_address();
        let end: Address = range.end_address();
        let keys: Vec<ProblemKey> = self.table.keys_between(
            KeyBound::Included(ProblemKey::new(start, ProblemKind::minimum())),
            KeyBound::Included(ProblemKey::new(end, ProblemKind::maximum())),
        );
        proof {
            assert forall|key: ProblemKey| #[trigger]
                keys@.contains(key) <==> self.index().contains_key(key)
                    && (key.scope matches ProblemScope::Address(address) && range.holds(
                    address,
                )) by {
                lemma_between_addresses(start, end, key);
            }
        }
        keys
    }

    /// The problems in the order of their slots.
    pub fn iter(&self) -> (listed: Vec<&Problem>)
        requires
            self.sound(),
        ensures
            lists_entries(listed@, self@),
    {
        self.table.iter()
    }

    /// The problems in the order of their keys, from behind `after` on.
    pub fn entries_after(&self, after: Option<ProblemKey>) -> (listed: Vec<&Problem>)
        requires
            self.wf(),
        ensures
            forall|i: int|
                0 <= i < listed@.len() ==> self@.contains_key((#[trigger] listed@[i]).id)
                    && *listed@[i] == self@[listed@[i].id],
            spans_keys(
                problem_keys(listed@),
                self.index().dom(),
                behind(after),
                KeyBound::Unbounded,
            ),
    {
        let keys: Vec<ProblemKey> = self.table.keys_between(
            cursor_bound(after),
            KeyBound::Unbounded,
        );
        let mut listed: Vec<&Problem> = Vec::new();
        let mut i: usize = 0;
        while i < keys.len()
            invariant
                i <= keys@.len(),
                self.wf(),
                spans_keys(keys@, self.index().dom(), behind(after), KeyBound::Unbounded),
                listed@.len() == i,
                forall|k: int|
                    0 <= k < i ==> self@.contains_key((#[trigger] listed@[k]).id) && *listed@[k]
                        == self@[listed@[k].id] && listed@[k].filed() == keys@[k],
            decreases keys@.len() - i,
        {
            assert(keys@.contains(keys@[i as int]));
            assert(self.index().contains_key(keys@[i as int]));
            if let Some(problem) = self.get_by_key(keys[i]) {
                listed.push(problem);
            }
            i = i + 1;
        }
        assert(problem_keys(listed@) =~= keys@);
        listed
    }

    pub fn is_empty(&self) -> (empty: bool)
        requires
            self.sound(),
        ensures
            empty == (self.index() == Map::<ProblemKey, ProblemId>::empty()),
    {
        self.table.is_empty()
    }

    pub fn len(&self) -> (len: usize)
        requires
            self.sound(),
        ensures
            self.index().dom().finite(),
            len == self.index().dom().len(),
    {
        self.table.len()
    }

    /// Puts a problem under its identity. A new one takes the identity that the allocator hands
    /// out next.
    pub fn publish_upsert(&mut self, problem: Problem, is_new: bool)
        requires
            old(self).sound(),
            problem.id.id < u32::MAX,
            if is_new {
                old(self).ids().room() > 0 && problem.id == old(self).ids().pending(0)
            } else {
                old(self).reserved(problem.id.id as int) || old(self)@.contains_key(problem.id)
            },
        ensures
            final(self).sound(),
            final(self)@ == old(self)@.insert(problem.id, problem),
            final(self).index() == old(self).index().insert(problem.filed(), problem.id),
            !is_new ==> final(self).ids() == old(self).ids(),
            is_new ==> hands_out(final(self).ids(), old(self).ids(), 1, Seq::empty()),
            old(self).wf() && key_is_free(old(self)@, problem.id, problem.filed()) && (old(
                self,
            )@.contains_key(problem.id) ==> old(self)@[problem.id].filed() == problem.filed())
                ==> final(self).wf(),
    {
        let ghost before = *self;
        if is_new {
            self.table.add_entry(problem);
        } else {
            proof {
                if before.reserved(problem.id.id as int) {
                    assert forall|other: ProblemId| #[trigger]
                        self.table@.contains_key(other) implies other.id != problem.id.id by {
                        assert(before@.contains_key(other));
                    }
                    assert(self.table.reserved(problem.id.id as int));
                }
            }
            self.table.publish_upsert(problem, None);
        }
        proof {
            if before.wf() && key_is_free(before@, problem.id, problem.filed()) && (
            before@.contains_key(problem.id) ==> before@[problem.id].filed() == problem.filed()) {
                lemma_keyed_insert(before.index(), before@, problem);
            }
        }
    }

    /// Takes out the problem with a key, if it is there.
    pub fn publish_remove(&mut self, key: ProblemKey)
        requires
            old(self).wf(),
            old(self).index().contains_key(key) ==> old(self).index()[key].generation < u32::MAX
                - 1,
        ensures
            final(self).wf(),
            final(self).index() == old(self).index().remove(key),
            final(self)@ == if old(self).index().contains_key(key) {
                old(self)@.remove(old(self).index()[key])
            } else {
                old(self)@
            },
            !old(self).index().contains_key(key) ==> *final(self) == *old(self),
            old(self).index().contains_key(key) ==> hands_out(
                final(self).ids(),
                old(self).ids(),
                0,
                seq![old(self).index()[key]],
            ),
    {
        let ghost before = *self;
        match self.table.id_by_key(key) {
            Some(id) => {
                self.table.publish_remove(id, key);
                proof {
                    lemma_given_back(self.ids(), before.ids(), before.ids(), 0, Seq::empty(), id);
                    lemma_keyed_remove(before.index(), before@, id);
                }
            },
            None => {
                assert(self.index() =~= before.index().remove(key));
            },
        }
    }

    /// Makes a problem for a scope and puts it in place of the one with its key, if there is
    /// one.
    pub fn insert_with<F: FnOnce(ProblemId, ProblemScope) -> Result<Problem, ProblemTableError>>(
        &mut self,
        scope: ProblemScope,
        kind: ProblemKind,
        f: F,
    ) -> (r: Result<ProblemId, ProblemTableError>)
        requires
            old(self).wf(),
            ({
                let key = ProblemKey { scope, kind };
                let target = old(self).target(key);
                &&& !old(self).index().contains_key(key) ==> old(self).ids().room() > 0
                &&& call_requires(f, (target, scope))
                &&& forall|problem: Problem| #[trigger]
                    makes_problem(f, target, scope, problem) ==> problem.id == target
            }),
        ensures
            final(self).wf(),
            ({
                let key = ProblemKey { scope, kind };
                let target = old(self).target(key);
                match r {
                    Ok(id) => id == target && exists|problem: Problem|
                        {
                            &&& #[trigger] makes_problem(f, target, scope, problem)
                            &&& problem.filed() == key
                            &&& final(self)@ == old(self)@.insert(target, problem)
                            &&& final(self).index() == old(self).index().insert(key, target)
                            &&& old(self).index().contains_key(key) ==> final(self).ids() == old(
                                self,
                            ).ids()
                            &&& !old(self).index().contains_key(key) ==> hands_out(
                                final(self).ids(),
                                old(self).ids(),
                                1,
                                Seq::empty(),
                            )
                        },
                    Err(error) => {
                        &&& *final(self) == *old(self)
                        &&& call_ensures(
                            f,
                            (target, scope),
                            Err::<Problem, ProblemTableError>(error),
                        ) || (error is KeyMismatch && exists|problem: Problem|
                            #[trigger] makes_problem(f, target, scope, problem) && problem.filed()
                                != key)
                    },
                }
            }),
    {
        let ghost before = *self;
        let key = ProblemKey::scoped(scope, kind);
        let existing: Option<ProblemId> = self.table.id_by_key(key);
        let id: ProblemId = match existing {
            Some(id) => id,
            None => self.table.pending_id(0),
        };
        assert(id == self.target(key));
        let problem: Problem = match f(id, scope) {
            Ok(problem) => problem,
            Err(error) => {
                return Err(error);
            },
        };
        assert(makes_problem(f, id, scope, problem));
        if problem.key() != key {
            return Err(ProblemTableError::KeyMismatch);
        }
        proof {
            before.table.lemma_sound();
            assert forall|other: ProblemId| #[trigger]
                before@.contains_key(other) && other != id implies before@[other].filed()
                != key by {}
        }
        if existing.is_some() {
            assert(before@.contains_key(id) && before@[id].filed() == key);
            self.table.replace_entry(problem);
            assert(self.index() =~= before.index().insert(key, id));
        } else {
            self.table.add_entry(problem);
        }
        proof {
            lemma_keyed_insert(before.index(), before@, problem);
        }
        Ok(id)
    }

    /// Notes that a problem was met at an address.
    pub fn insert(&mut self, address: Address, kind: ProblemKind, observed_revision: Revision) -> (r:
        Result<ProblemId, ProblemTableError>)
        requires
            old(self).wf(),
            !old(self).index().contains_key(at_address(address, kind)) ==> old(self).ids().room()
                > 0,
        ensures
            final(self).wf(),
            r == Ok::<ProblemId, ProblemTableError>(old(self).target(at_address(address, kind))),
            is_noted(old(self), final(self), at_address(address, kind), observed_revision),
    {
        self.insert_scoped(ProblemScope::Address(address), kind, observed_revision)
    }

    /// Notes that a problem was met: one that is there was met again, any other is new.
    pub fn insert_scoped(
        &mut self,
        scope: ProblemScope,
        kind: ProblemKind,
        observed_revision: Revision,
    ) -> (r: Result<ProblemId, ProblemTableError>)
        requires
            old(self).wf(),
            !old(self).index().contains_key(ProblemKey { scope, kind }) ==> old(self).ids().room()
                > 0,
        ensures
            final(self).wf(),
            r == Ok::<ProblemId, ProblemTableError>(old(self).target(ProblemKey { scope, kind })),
            is_noted(old(self), final(self), ProblemKey { scope, kind }, observed_revision),
    {
        let ghost before = *self;
        let key = ProblemKey::scoped(scope, kind);
        let present: Option<Problem> = match self.get_by_key(key) {
            Some(problem) => Some(*problem),
            None => None,
        };
        proof {
            before.table.lemma_sound();
        }
        if let Some(problem) = present {
            let mut problem = problem;
            problem.record_attempt(observed_revision);
            assert(before.index().contains_key(key));
            assert(before@.contains_key(before.index()[key]));
            self.table.replace_entry(problem);
            proof {
                lemma_keyed_insert(before.index(), before@, problem);
                assert(before.index().insert(key, problem.id) =~= before.index());
            }
            return Ok(problem.id);
        }
        assert(!before.index().contains_key(key));
        let id: ProblemId = self.table.pending_id(0);
        let problem = Problem::new_scoped(id, scope, kind, observed_revision);
        self.table.add_entry(problem);
        proof {
            assert forall|other: ProblemId| #[trigger]
                before@.contains_key(other) && other != id implies before@[other].filed()
                != key by {}
            lemma_keyed_insert(before.index(), before@, problem);
        }
        Ok(id)
    }

    /// Lets `f` change the problem with an identity, if it is there.
    pub fn modify_by_id<R, F: FnOnce(&mut Problem) -> R>(&mut self, id: ProblemId, f: F) -> (r: Option<
        R,
    >)
        requires
            old(self).sound(),
            forall|e: &mut Problem|
                old(self)@.contains_key(id) && *e == old(self)@[id] ==> #[trigger] call_requires(
                    f,
                    (e,),
                ),
        ensures
            r is Some == old(self)@.contains_key(id),
            r is None ==> *final(self) == *old(self),
            final(self).ids() == old(self).ids(),
            final(self).index() == old(self).index(),
            r matches Some(value) ==> exists|e: &mut Problem|
                {
                    &&& #[trigger] call_ensures(f, (e,), value)
                    &&& *e == old(self)@[id]
                    &&& final(e).id.id == id.id ==> final(self).sound()
                    &&& final(self)@ == changed_in_place(old(self)@, id, *final(e))
                },
    {
        let ghost before = *self;
        let r: Option<R> = self.table.modify_by_id(id, f);
        proof {
            if r is Some {
                let value = r->0;
                let e = choose|e: &mut Problem|
                    {
                        &&& #[trigger] call_ensures(f, (e,), value)
                        &&& *e == before.table@[id]
                        &&& final(e).ident().id == id.id ==> self.table.sound()
                        &&& self.table@ == changed_in_place(before.table@, id, *final(e))
                    };
                assert(call_ensures(f, (e,), value));
            }
        }
        r
    }

    /// Takes out the problem with an identity, if it is there, and says whether it was.
    pub fn remove_by_id(&mut self, id: ProblemId) -> (removed: bool)
        requires
            old(self).sound(),
            old(self)@.contains_key(id) ==> id.generation < u32::MAX - 1,
        ensures
            final(self).sound(),
            removed == old(self)@.contains_key(id),
            !removed ==> *final(self) == *old(self),
            final(self)@ == old(self)@.remove(id),
            removed ==> {
                &&& final(self).index() == old(self).index().remove(old(self)@[id].filed())
                &&& hands_out(final(self).ids(), old(self).ids(), 0, seq![id])
            },
            old(self).wf() ==> final(self).wf(),
    {
        self.table.remove_by_id(id).is_some()
    }

    pub fn remove(&mut self, address: Address, kind: ProblemKind) -> (removed: bool)
        requires
            old(self).wf(),
            old(self).index().contains_key(at_address(address, kind)) ==> old(
                self,
            ).index()[at_address(address, kind)].generation < u32::MAX - 1,
        ensures
            final(self).wf(),
            removed == old(self).index().contains_key(at_address(address, kind)),
            !removed ==> *final(self) == *old(self),
            removed ==> {
                let id = old(self).index()[at_address(address, kind)];
                &&& final(self)@ == old(self)@.remove(id)
                &&& final(self).index() == old(self).index().remove(at_address(address, kind))
                &&& hands_out(final(self).ids(), old(self).ids(), 0, seq![id])
            },
    {
        self.remove_by_key(ProblemKey::new(address, kind))
    }

    pub fn remove_by_key(&mut self, key: ProblemKey) -> (removed: bool)
        requires
            old(self).wf(),
            old(self).index().contains_key(key) ==> old(self).index()[key].generation < u32::MAX
                - 1,
        ensures
            final(self).wf(),
            removed == old(self).index().contains_key(key),
            !removed ==> *final(self) == *old(self),
            removed ==> {
                let id = old(self).index()[key];
                &&& final(self)@ == old(self)@.remove(id)
                &&& final(self).index() == old(self).index().remove(key)
                &&& hands_out(final(self).ids(), old(self).ids(), 0, seq![id])
            },
    {
        match self.table.id_by_key(key) {
            Some(id) => self.remove_by_id(id),
            None => false,
        }
    }

    /// The problem with an identity. A table in memory never fails.
    pub fn try_get_by_id(&self, id: ProblemId) -> (r: Result<Option<&Problem>, ProblemTableError>)
        requires
            self.sound(),
        ensures
            r is Ok,
            r->Ok_0 is Some == self@.contains_key(id),
            r->Ok_0 matches Some(p) ==> *p == self@[id],
    {
        Ok(self.get_by_id(id))
    }

    /// The problem of a kind at an address. A table in memory never fails.
    pub fn try_get(&self, address: Address, kind: ProblemKind) -> (r: Result<
        Option<&Problem>,
        ProblemTableError,
    >)
        requires
            self.wf(),
        ensures
            r is Ok,
            r->Ok_0 is Some == self.index().contains_key(at_address(address, kind)),
            r->Ok_0 matches Some(p) ==> *p == self@[self.index()[at_address(address, kind)]],
    {
        self.try_get_key(ProblemKey::new(address, kind))
    }

    /// The problem under a key. A table in memory never fails.
    pub fn try_get_key(&self, key: ProblemKey) -> (r: Result<Option<&Problem>, ProblemTableError>)
        requires
            self.wf(),
        ensures
            r is Ok,
            r->Ok_0 is Some == self.index().contains_key(key),
            r->Ok_0 matches Some(p) ==> *p == self@[self.index()[key]],
    {
        Ok(self.get_by_key(key))
    }

    /// Lets `f` change the problem with an identity, if it is there. A table in memory never
    /// fails.
    pub fn try_modify_by_id<R, F: FnOnce(&mut Problem) -> R>(&mut self, id: ProblemId, f: F) -> (r:
        Result<Option<R>, ProblemTableError>)
        requires
            old(self).sound(),
            forall|e: &mut Problem|
                old(self)@.contains_key(id) && *e == old(self)@[id] ==> #[trigger] call_requires(
                    f,
                    (e,),
                ),
        ensures
            r is Ok,
            r->Ok_0 is Some == old(self)@.contains_key(id),
            r->Ok_0 is None ==> *final(self) == *old(self),
            final(self).ids() == old(self).ids(),
            final(self).index() == old(self).index(),
            r->Ok_0 matches Some(value) ==> exists|e: &mut Problem|
                {
                    &&& #[trigger] call_ensures(f, (e,), value)
                    &&& *e == old(self)@[id]
                    &&& final(e).id.id == id.id ==> final(self).sound()
                    &&& final(self)@ == changed_in_place(old(self)@, id, *final(e))
                },
    {
        Ok(self.modify_by_id(id, f))
    }

    /// Takes out the problem of a kind at an address. A table in memory never fails.
    pub fn try_remove(&mut self, address: Address, kind: ProblemKind) -> (r: Result<
        bool,
        ProblemTableError,
    >)
        requires
            old(self).wf(),
            old(self).index().contains_key(at_address(address, kind)) ==> old(
                self,
            ).index()[at_address(address, kind)].generation < u32::MAX - 1,
        ensures
            final(self).wf(),
            r == Ok::<bool, ProblemTableError>(
                old(self).index().contains_key(at_address(address, kind)),
            ),
            r->Ok_0 == false ==> *final(self) == *old(self),
            r->Ok_0 == true ==> {
                let id = old(self).index()[at_address(address, kind)];
                &&& final(self)@ == old(self)@.remove(id)
                &&& final(self).index() == old(self).index().remove(at_address(address, kind))
                &&& hands_out(final(self).ids(), old(self).ids(), 0, seq![id])
            },
    {
        self.try_remove_key(ProblemKey::new(address, kind))
    }

    /// Takes out the problem under a key. A table in memory never fails.
    pub fn try_remove_key(&mut self, key: ProblemKey) -> (r: Result<bool, ProblemTableError>)
        requires
            old(self).wf(),
            old(self).index().contains_key(key) ==> old(self).index()[key].generation < u32::MAX
                - 1,
        ensures
            final(self).wf(),
            r == Ok::<bool, ProblemTableError>(old(self).index().contains_key(key)),
            r->Ok_0 == false ==> *final(self) == *old(self),
            r->Ok_0 == true ==> {
                let id = old(self).index()[key];
                &&& final(self)@ == old(self)@.remove(id)
                &&& final(self).index() == old(self).index().remove(key)
                &&& hands_out(final(self).ids(), old(self).ids(), 0, seq![id])
            },
    {
        Ok(self.remove_by_key(key))
    }
}

/// Whether a table differs from another by a note that a problem was met.
pub open spec fn is_noted(
    before: &ProblemTable,
    after: &ProblemTable,
    key: ProblemKey,
    revision: Revision,
) -> bool {
    let id = before.target(key);
    if before.index().contains_key(key) {
        &&& after@ == before@.insert(id, before@[id].met_again(revision))
        &&& after.index() == before.index()
        &&& after.ids() == before.ids()
    } else {
        &&& after@ == before@.insert(id, Problem::fresh(id, key.scope, key.kind, revision))
        &&& after.index() == before.index().insert(key, id)
        &&& hands_out(after.ids(), before.ids(), 1, Seq::empty())
    }
}

/// Keys between those of two addresses are those of the addresses between.
proof fn lemma_between_addresses(start: Address, end: Address, key: ProblemKey)
    ensures
        at_address(start, ProblemKind::AnalysisCoverageInvalidated).rank() <= key.rank()
            && key.rank() <= at_address(end, ProblemKind::WorkCausesMerged).rank() <==> (
        key.scope matches ProblemScope::Address(address) && start.rank() <= address.rank()
            && address.rank() <= end.rank()),
        start == end ==> (at_address(start, ProblemKind::AnalysisCoverageInvalidated).rank()
            <= key.rank() && key.rank() <= at_address(end, ProblemKind::WorkCausesMerged).rank()
            <==> key.scope == ProblemScope::Address(start)),
{
    match key.scope {
        ProblemScope::Address(address) => {
            if address.rank() == start.rank() {
                Address::lemma_rank_injective(address, start);
            }
        },
        _ => {},
    }
}

/// Putting a problem in place keeps the problems found by their keys.
proof fn lemma_keyed_insert(
    index: Map<ProblemKey, ProblemId>,
    problems: Map<ProblemId, Problem>,
    problem: Problem,
)
    requires
        keyed(index, problems),
        key_is_free(problems, problem.id, problem.filed()),
        problems.contains_key(problem.id) ==> problems[problem.id].filed() == problem.filed(),
    ensures
        keyed(index.insert(problem.filed(), problem.id), problems.insert(problem.id, problem)),
{
    let places = index.insert(problem.filed(), problem.id);
    let after = problems.insert(problem.id, problem);
    assert forall|key: ProblemKey| #[trigger] places.contains_key(key) implies after.contains_key(
        places[key],
    ) && after[places[key]].own_key() == key by {
        if key != problem.filed() {
            assert(index.contains_key(key));
        }
    }
    assert forall|id: ProblemId| #[trigger] after.contains_key(id) implies after[id].ident() == id
        && places.contains_key(after[id].own_key()) && places[after[id].own_key()] == id by {
        if id != problem.id {
            assert(problems.contains_key(id));
        }
    }
}

/// Taking a problem out keeps the others found by their keys.
proof fn lemma_keyed_remove(
    index: Map<ProblemKey, ProblemId>,
    problems: Map<ProblemId, Problem>,
    id: ProblemId,
)
    requires
        keyed(index, problems),
        problems.contains_key(id),
    ensures
        keyed(index.remove(problems[id].filed()), problems.remove(id)),
{
    let places = index.remove(problems[id].filed());
    let after = problems.remove(id);
    assert forall|key: ProblemKey| #[trigger] places.contains_key(key) implies after.contains_key(
        places[key],
    ) && after[places[key]].own_key() == key by {
        assert(index.contains_key(key));
    }
    assert forall|other: ProblemId| #[trigger] after.contains_key(other) implies after[other].ident()
        == other && places.contains_key(after[other].own_key()) && places[after[other].own_key()]
        == other by {
        assert(problems.contains_key(other));
    }
}

/// Noting a problem a second time keeps when it was first seen and its identity.
pub proof fn law_noting_again_keeps_first(
    first: ProblemTable,
    second: ProblemTable,
    third: ProblemTable,
    key: ProblemKey,
    a: Revision,
    b: Revision,
)
    requires
        first.wf(),
        second.wf(),
        !first.index().contains_key(key),
        is_noted(&first, &second, key, a),
        is_noted(&second, &third, key, b),
    ensures
        second.target(key) == first.target(key),
        third@[first.target(key)].first_seen == a,
        third@[first.target(key)].last_seen == b,
        third@[first.target(key)].attempt_count == 2,
{
}

/// Noting a problem makes the table one longer where the problem was not there, and leaves its
/// length otherwise. A new problem has been met once, at the revision; one that was there has
/// been met once more, as far as that is counted, and keeps when it was first seen. Other
/// problems stay as they were.
pub proof fn law_noting_counts_problem(
    before: ProblemTable,
    after: ProblemTable,
    key: ProblemKey,
    revision: Revision,
    other: ProblemId,
)
    requires
        before.wf(),
        !before.index().contains_key(key) ==> before.ids().room() > 0,
        is_noted(&before, &after, key, revision),
    ensures
        before.index().dom().finite(),
        after.index().dom().finite(),
        after.index().contains_key(key),
        after.index()[key] == before.target(key),
        after@.contains_key(before.target(key)),
        ({
            let now = after@[before.target(key)];
            if before.index().contains_key(key) {
                let earlier = before@[before.target(key)];
                &&& after.index().dom().len() == before.index().dom().len()
                &&& now.attempt_count == if earlier.attempt_count == u8::MAX {
                    u8::MAX as int
                } else {
                    earlier.attempt_count + 1
                }
                &&& now.last_seen == revision
                &&& now.first_seen == earlier.first_seen
                &&& now.observed_revision == earlier.observed_revision
            } else {
                &&& !before@.contains_key(before.target(key))
                &&& after.index().dom().len() == before.index().dom().len() + 1
                &&& now.attempt_count == 1
                &&& now.first_seen == revision
                &&& now.last_seen == revision
                &&& now.observed_revision == revision
            }
        }),
        other != before.target(key) ==> after@.contains_key(other) == before@.contains_key(other)
            && after@[other] == before@[other],
{
    before.table.lemma_sound();
    let id = before.target(key);
    if before.index().contains_key(key) {
        assert(before@.contains_key(id));
    } else {
        assert(after.index().dom() =~= before.index().dom().insert(key));
        before.ids().lemma_pending_free();
        assert(!before@.contains_key(id));
    }
}

} // verus!
