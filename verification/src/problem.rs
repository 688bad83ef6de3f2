//! Problems that were met: of what kind, where, and when.
use vstd::prelude::*;

use crate::address::{offsets, Address, AddressRange};
use crate::address_set::{are_ranges_of, law_ranges_determined, some_holds, AddressRangeSet};
use crate::id::Id;
use crate::order::Ranked;
use crate::reference::addresses;
use crate::types::{AddressSpaceId, Revision};

verus! {

/// Marks the identities of problems.
#[derive(Debug)]
pub struct ProblemEntity;

pub type ProblemId = Id<ProblemEntity>;

/// What went wrong.
#[derive(Debug, Clone, Copy, PartialEq, Eq, PartialOrd, Ord, Hash, Structural)]
pub enum ProblemKind {
    AnalysisCoverageInvalidated,
    AvoidedBytes,
    CannotCreateFunction,
    ChangeIndexCollapsed,
    DecodeFailed,
    FunctionTooLarge,
    HinderedByAssertedFact,
    PassFailed,
    PendingWorkCollapsed,
    ReadSetCollapsed,
    RetryBudgetExhausted,
    SwitchBoundExceeded,
    SwitchUnresolved,
    Unknown,
    WorkCausesMerged,
}

/// Whether a problem is about how the analysis went or about what it found.
#[derive(Debug, Clone, Copy, PartialEq, Eq, PartialOrd, Ord, Hash, Structural)]
pub enum ProblemClass {
    Operational,
    Semantic,
}

impl Default for ProblemKind {
    fn default() -> (kind: Self)
        ensures
            kind is Unknown,
    {
        ProblemKind::Unknown
    }
}

impl ProblemKind {
    /// The place of the kind among all kinds.
    pub open spec fn number(self) -> int {
        match self {
            ProblemKind::AnalysisCoverageInvalidated => 0,
            ProblemKind::AvoidedBytes => 1,
            ProblemKind::CannotCreateFunction => 2,
            ProblemKind::ChangeIndexCollapsed => 3,
            ProblemKind::DecodeFailed => 4,
            ProblemKind::FunctionTooLarge => 5,
            ProblemKind::HinderedByAssertedFact => 6,
            ProblemKind::PassFailed => 7,
            ProblemKind::PendingWorkCollapsed => 8,
            ProblemKind::ReadSetCollapsed => 9,
            ProblemKind::RetryBudgetExhausted => 10,
            ProblemKind::SwitchBoundExceeded => 11,
            ProblemKind::SwitchUnresolved => 12,
            ProblemKind::Unknown => 13,
            ProblemKind::WorkCausesMerged => 14,
        }
    }

    fn place(self) -> (place: u8)
        ensures
            place == self.number(),
    {
        match self {
            ProblemKind::AnalysisCoverageInvalidated => 0,
            ProblemKind::AvoidedBytes => 1,
            ProblemKind::CannotCreateFunction => 2,
            ProblemKind::ChangeIndexCollapsed => 3,
            ProblemKind::DecodeFailed => 4,
            ProblemKind::FunctionTooLarge => 5,
            ProblemKind::HinderedByAssertedFact => 6,
            ProblemKind::PassFailed => 7,
            ProblemKind::PendingWorkCollapsed => 8,
            ProblemKind::ReadSetCollapsed => 9,
            ProblemKind::RetryBudgetExhausted => 10,
            ProblemKind::SwitchBoundExceeded => 11,
            ProblemKind::SwitchUnresolved => 12,
            ProblemKind::Unknown => 13,
            ProblemKind::WorkCausesMerged => 14,
        }
    }

    /// Whether the kind is about how the analysis went.
    pub open spec fn is_operational(self) -> bool {
        ||| self is AnalysisCoverageInvalidated
        ||| self is ChangeIndexCollapsed
        ||| self is PendingWorkCollapsed
        ||| self is ReadSetCollapsed
        ||| self is RetryBudgetExhausted
        ||| self is WorkCausesMerged
    }

    pub fn class(self) -> (class: ProblemClass)
        ensures
            class is Operational == self.is_operational(),
    {
        match self {
            ProblemKind::AnalysisCoverageInvalidated
            | ProblemKind::ChangeIndexCollapsed
            | ProblemKind::PendingWorkCollapsed
            | ProblemKind::ReadSetCollapsed
            | ProblemKind::RetryBudgetExhausted
            | ProblemKind::WorkCausesMerged => ProblemClass::Operational,
            _ => ProblemClass::Semantic,
        }
    }

    /// The first of all kinds.
    pub fn minimum() -> (kind: Self)
        ensures
            kind.number() == 0,
    {
        ProblemKind::AnalysisCoverageInvalidated
    }

    /// The last of all kinds.
    pub fn maximum() -> (kind: Self)
        ensures
            kind.number() == 14,
    {
        ProblemKind::WorkCausesMerged
    }
}

/// What a problem is about.
#[derive(Debug, Clone, Copy, PartialEq, Eq, PartialOrd, Ord, Hash, Structural)]
pub enum ProblemScope {
    Address(Address),
    AddressSpace(AddressSpaceId),
    Global,
    Range(AddressRange),
}

impl Default for ProblemScope {
    fn default() -> (scope: Self)
        ensures
            scope is Global,
    {
        ProblemScope::Global
    }
}

impl Ranked for ProblemScope {
    open spec fn rank(self) -> int {
        match self {
            ProblemScope::Address(address) => address.rank(),
            ProblemScope::AddressSpace(space) => addresses() + space.0,
            ProblemScope::Global => addresses() + 0x1_0000,
            ProblemScope::Range(range) => addresses() + 0x1_0001 + (range.space.0 * offsets()
                + range.start.0) * offsets() + range.end.0,
        }
    }

    proof fn lemma_rank_injective(a: Self, b: Self) {
    }

    fn precedes(&self, other: &Self) -> (before: bool) {
        match (self, other) {
            (ProblemScope::Address(a), ProblemScope::Address(b)) => a.precedes(b),
            (ProblemScope::Address(_), _) => true,
            (ProblemScope::AddressSpace(_), ProblemScope::Address(_)) => false,
            (ProblemScope::AddressSpace(a), ProblemScope::AddressSpace(b)) => a.0 < b.0,
            (ProblemScope::AddressSpace(_), _) => true,
            (ProblemScope::Global, ProblemScope::Range(_)) => true,
            (ProblemScope::Global, _) => false,
            (ProblemScope::Range(a), ProblemScope::Range(b)) => a.space.0 < b.space.0 || (a.space.0
                == b.space.0 && (a.start.0 < b.start.0 || (a.start.0 == b.start.0 && a.end.0
                < b.end.0))),
            (ProblemScope::Range(_), _) => false,
        }
    }
}

/// What a problem with given runs of addresses is about.
pub open spec fn scope_of_runs(ranges: Seq<AddressRange>) -> ProblemScope {
    if ranges.len() == 0 {
        ProblemScope::Global
    } else if ranges.len() == 1 {
        ProblemScope::Range(ranges[0])
    } else if forall|i: int| 0 <= i < ranges.len() ==> (#[trigger] ranges[i]).space == ranges[0].space {
        ProblemScope::AddressSpace(ranges[0].space)
    } else {
        ProblemScope::Global
    }
}

impl ProblemScope {
    /// Whether an address is one that the problem is about.
    pub open spec fn concerns(self, address: Address) -> bool {
        match self {
            ProblemScope::Address(a) => a == address,
            ProblemScope::AddressSpace(space) => address.space == space,
            ProblemScope::Global => true,
            ProblemScope::Range(range) => range.holds(address),
        }
    }

    /// The one space that a problem is about, if it is about one.
    pub open spec fn one_space(self) -> Option<AddressSpaceId> {
        match self {
            ProblemScope::Address(address) => Some(address.space),
            ProblemScope::AddressSpace(space) => Some(space),
            ProblemScope::Global => None,
            ProblemScope::Range(range) => Some(range.space),
        }
    }

    /// What a problem about two scopes is about.
    pub open spec fn joined(self, other: Self) -> Self {
        if self == other {
            self
        } else if self.one_space() is Some && self.one_space() == other.one_space() {
            ProblemScope::AddressSpace(self.one_space()->0)
        } else {
            ProblemScope::Global
        }
    }

    /// What a problem with given addresses is about: their one run, their one space, or
    /// everything.
    pub fn for_regions(regions: &AddressRangeSet) -> (scope: Self)
        requires
            regions.wf(),
        ensures
            exists|ranges: Seq<AddressRange>| #[trigger]
                are_ranges_of(ranges, regions@) && scope == scope_of_runs(ranges),
    {
        let ranges: Vec<AddressRange> = regions.ranges();
        assert(are_ranges_of(ranges@, regions@));
        if ranges.len() == 0 {
            return ProblemScope::Global;
        }
        if ranges.len() == 1 {
            return ProblemScope::Range(ranges[0]);
        }
        let space: AddressSpaceId = ranges[0].space();
        let mut i: usize = 1;
        while i < ranges.len()
            invariant
                1 <= i <= ranges@.len(),
                are_ranges_of(ranges@, regions@),
                ranges@.len() >= 2,
                space == ranges@[0].space,
                forall|k: int| 0 <= k < i ==> (#[trigger] ranges@[k]).space == space,
            decreases ranges@.len() - i,
        {
            if ranges[i].space() != space {
                assert(ranges@[i as int].space != ranges@[0].space);
                return ProblemScope::Global;
            }
            i = i + 1;
        }
        ProblemScope::AddressSpace(space)
    }

    pub fn address(self) -> (address: Option<Address>)
        ensures
            address == match self {
                ProblemScope::Address(address) => Some(address),
                _ => None,
            },
    {
        match self {
            ProblemScope::Address(address) => Some(address),
            ProblemScope::Global | ProblemScope::AddressSpace(_) | ProblemScope::Range(_) => None,
        }
    }

    pub fn range(self) -> (range: Option<AddressRange>)
        ensures
            range == match self {
                ProblemScope::Address(address) => Some(
                    AddressRange {
                        space: address.space,
                        start: address.address,
                        end: address.address,
                    },
                ),
                ProblemScope::Range(range) => Some(range),
                _ => None,
            },
    {
        match self {
            ProblemScope::Address(address) => Some(AddressRange::point(address)),
            ProblemScope::Range(range) => Some(range),
            ProblemScope::Global | ProblemScope::AddressSpace(_) => None,
        }
    }

    fn space_of(self) -> (space: Option<AddressSpaceId>)
        ensures
            space == self.one_space(),
    {
        match self {
            ProblemScope::AddressSpace(space) => Some(space),
            ProblemScope::Address(address) => Some(address.space()),
            ProblemScope::Range(range) => Some(range.space()),
            ProblemScope::Global => None,
        }
    }

    /// What a problem about two scopes is about.
    pub fn covering(self, other: Self) -> (scope: Self)
        ensures
            scope == self.joined(other),
    {
        if self == other {
            return self;
        }
        match (self.space_of(), other.space_of()) {
            (Some(left), Some(right)) => {
                if left == right {
                    ProblemScope::AddressSpace(left)
                } else {
                    ProblemScope::Global
                }
            },
            _ => ProblemScope::Global,
        }
    }
}

/// The scope that covers two scopes concerns all that either does, whichever comes first.
pub proof fn law_covering_takes_both(a: ProblemScope, b: ProblemScope, address: Address)
    ensures
        a.concerns(address) || b.concerns(address) ==> a.joined(b).concerns(address),
        a.joined(b) == b.joined(a),
        a.joined(a) == a,
{
}

/// The scope of regions concerns all their addresses.
pub proof fn law_scope_concerns_regions(
    ranges: Seq<AddressRange>,
    regions: Set<Address>,
    address: Address,
)
    requires
        are_ranges_of(ranges, regions),
        regions.contains(address),
    ensures
        scope_of_runs(ranges).concerns(address),
{
    assert(some_holds(ranges, address));
    let i = choose|i: int| 0 <= i < ranges.len() && (#[trigger] ranges[i]).holds(address);
    assert(ranges[i].holds(address));
}

/// What a problem is found by.
#[derive(Debug, Clone, Copy, PartialEq, Eq, PartialOrd, Ord, Hash, Structural)]
pub struct ProblemKey {
    pub scope: ProblemScope,
    pub kind: ProblemKind,
}

impl Ranked for ProblemKey {
    open spec fn rank(self) -> int {
        self.scope.rank() * 15 + self.kind.number()
    }

    proof fn lemma_rank_injective(a: Self, b: Self) {
        ProblemScope::lemma_rank_injective(a.scope, b.scope);
        assert(a.kind.number() == b.kind.number());
    }

    fn precedes(&self, other: &Self) -> (before: bool) {
        self.scope.precedes(&other.scope) || (!other.scope.precedes(&self.scope)
            && self.kind.place() < other.kind.place())
    }
}

impl ProblemKey {
    pub fn new(address: Address, kind: ProblemKind) -> (key: Self)
        ensures
            key == (ProblemKey { scope: ProblemScope::Address(address), kind }),
    {
        ProblemKey::scoped(ProblemScope::Address(address), kind)
    }

    pub fn scoped(scope: ProblemScope, kind: ProblemKind) -> (key: Self)
        ensures
            key == (ProblemKey { scope, kind }),
    {
        ProblemKey { scope, kind }
    }

    pub fn scope(&self) -> (scope: ProblemScope)
        ensures
            scope == self.scope,
    {
        self.scope
    }

    pub fn address(&self) -> (address: Option<Address>)
        ensures
            address == match self.scope {
                ProblemScope::Address(address) => Some(address),
                _ => None,
            },
    {
        self.scope.address()
    }

    pub fn kind(&self) -> (kind: ProblemKind)
        ensures
            kind == self.kind,
    {
        self.kind
    }
}

/// A problem that was met, when first, when last, and how often.
#[derive(Debug, Clone, Copy)]
pub struct Problem {
    pub id: ProblemId,
    pub scope: ProblemScope,
    pub kind: ProblemKind,
    pub observed_revision: Revision,
    pub attempt_count: u8,
    pub first_seen: Revision,
    pub last_seen: Revision,
}

impl Problem {
    /// What the problem is found by.
    pub open spec fn filed(self) -> ProblemKey {
        ProblemKey { scope: self.scope, kind: self.kind }
    }

    /// The problem when it is first met.
    pub open spec fn fresh(
        id: ProblemId,
        scope: ProblemScope,
        kind: ProblemKind,
        revision: Revision,
    ) -> Problem {
        Problem {
            id,
            scope,
            kind,
            observed_revision: revision,
            attempt_count: 1,
            first_seen: revision,
            last_seen: revision,
        }
    }

    /// The problem once it is met again.
    pub open spec fn met_again(self, revision: Revision) -> Problem {
        Problem {
            attempt_count: if self.attempt_count == u8::MAX {
                u8::MAX
            } else {
                (self.attempt_count + 1) as u8
            },
            last_seen: revision,
            ..self
        }
    }

    pub fn new(
        id: ProblemId,
        address: Address,
        kind: ProblemKind,
        observed_revision: Revision,
    ) -> (problem: Self)
        ensures
            problem == Problem::fresh(id, ProblemScope::Address(address), kind, observed_revision),
    {
        Problem::new_scoped(id, ProblemScope::Address(address), kind, observed_revision)
    }

    pub fn new_scoped(
        id: ProblemId,
        scope: ProblemScope,
        kind: ProblemKind,
        observed_revision: Revision,
    ) -> (problem: Self)
        ensures
            problem == Problem::fresh(id, scope, kind, observed_revision),
    {
        Problem {
            id,
            scope,
            kind,
            observed_revision,
            attempt_count: 1,
            first_seen: observed_revision,
            last_seen: observed_revision,
        }
    }

    pub fn with_id(self, id: ProblemId) -> (problem: Self)
        ensures
            problem == (Problem { id, ..self }),
    {
        Problem { id, ..self }
    }

    pub fn set_id(&mut self, id: ProblemId)
        ensures
            *final(self) == (Problem { id, ..*old(self) }),
    {
        self.id = id;
    }

    pub fn id(&self) -> (id: ProblemId)
        ensures
            id == self.id,
    {
        self.id
    }

    pub fn scope(&self) -> (scope: ProblemScope)
        ensures
            scope == self.scope,
    {
        self.scope
    }

    pub fn address(&self) -> (address: Option<Address>)
        ensures
            address == match self.scope {
                ProblemScope::Address(address) => Some(address),
                _ => None,
            },
    {
        self.scope.address()
    }

    pub fn kind(&self) -> (kind: ProblemKind)
        ensures
            kind == self.kind,
    {
        self.kind
    }

    pub fn observed_revision(&self) -> (revision: Revision)
        ensures
            revision == self.observed_revision,
    {
        self.observed_revision
    }

    pub fn attempt_count(&self) -> (count: u8)
        ensures
            count == self.attempt_count,
    {
        self.attempt_count
    }

    pub fn first_seen(&self) -> (revision: Revision)
        ensures
            revision == self.first_seen,
    {
        self.first_seen
    }

    pub fn last_seen(&self) -> (revision: Revision)
        ensures
            revision == self.last_seen,
    {
        self.last_seen
    }

    pub fn set_observed_revision(&mut self, observed_revision: Revision)
        ensures
            *final(self) == (Problem { observed_revision, ..*old(self) }),
    {
        self.observed_revision = observed_revision;
    }

    pub fn set_last_seen(&mut self, last_seen: Revision)
        ensures
            *final(self) == (Problem { last_seen, ..*old(self) }),
    {
        self.last_seen = last_seen;
    }

    pub fn key(&self) -> (key: ProblemKey)
        ensures
            key == self.filed(),
    {
        ProblemKey::scoped(self.scope, self.kind)
    }

    /// Notes that the problem was met again.
    pub fn record_attempt(&mut self, observed_revision: Revision)
        ensures
            *final(self) == old(self).met_again(observed_revision),
    {
        if self.attempt_count < u8::MAX {
            self.attempt_count = self.attempt_count + 1;
        }
        self.last_seen = observed_revision;
    }
}

/// The scope that covers two scopes in one space concerns no other space.
pub proof fn law_covering_stays_in_space(
    a: ProblemScope,
    b: ProblemScope,
    space: AddressSpaceId,
    x: Address,
    y: Address,
    address: Address,
)
    requires
        a.concerns(x),
        b.concerns(y),
        forall|z: Address| #[trigger] a.concerns(z) ==> z.space == space,
        forall|z: Address| #[trigger] b.concerns(z) ==> z.space == space,
        a.joined(b).concerns(address),
    ensures
        address.space == space,
{
    assert(x.space == space);
    assert(y.space == space);
    let far = Address {
        space: AddressSpaceId(if space.0 == 0 {
            1
        } else {
            0
        }),
        address: address.address,
    };
    assert(!a.concerns(far));
    assert(!b.concerns(far));
}

/// The scope of regions is no wider than it must be: of one run of addresses it concerns
/// nothing else, and of regions in one space no other space.
pub proof fn law_scope_of_regions_is_narrow(
    regions: AddressRangeSet,
    scope: ProblemScope,
    range: AddressRange,
    address: Address,
)
    requires
        call_ensures(ProblemScope::for_regions, (&regions,), scope),
        scope.concerns(address),
        range.start.0 <= range.end.0,
    ensures
        (forall|a: Address| #[trigger] regions@.contains(a) <==> range.holds(a)) ==> range.holds(
            address,
        ),
        (forall|a: Address| #[trigger] regions@.contains(a) ==> a.space == range.space)
            && regions@ != Set::<Address>::empty() ==> address.space == range.space,
{
    let ranges = choose|ranges: Seq<AddressRange>| #[trigger]
        are_ranges_of(ranges, regions@) && scope == scope_of_runs(ranges);
    if forall|a: Address| #[trigger] regions@.contains(a) <==> range.holds(a) {
        let one = seq![range];
        assert forall|a: Address| #[trigger] regions@.contains(a) <==> some_holds(one, a) by {
            assert(one[0] == range);
            if some_holds(one, a) {
                let i = choose|i: int| 0 <= i < one.len() && (#[trigger] one[i]).holds(a);
                assert(i == 0);
            }
        }
        assert(are_ranges_of(one, regions@));
        law_ranges_determined(one, ranges, regions@);
    }
    if (forall|a: Address| #[trigger] regions@.contains(a) ==> a.space == range.space) && regions@
        != Set::<Address>::empty() {
        if ranges.len() == 0 {
            assert(regions@ =~= Set::<Address>::empty()) by {
                assert forall|a: Address| !#[trigger] regions@.contains(a) by {
                    assert(regions@.contains(a) <==> some_holds(ranges, a));
                }
            }
        } else {
            assert forall|i: int| 0 <= i < ranges.len() implies (#[trigger] ranges[i]).space
                == range.space by {
                let a = Address { space: ranges[i].space, address: ranges[i].start };
                assert(ranges[i].holds(a));
                assert(some_holds(ranges, a));
                assert(regions@.contains(a));
            }
        }
    }
}

/// A problem is about how the analysis went where something was given up to go on: coverage
/// invalidated, a set or an index collapsed, a budget used up or causes merged. All other
/// problems are about what is analysed.
pub proof fn law_operational_problems_are_of_the_analysis(kind: ProblemKind, class: ProblemClass)
    requires
        call_ensures(ProblemKind::class, (kind,), class),
    ensures
        class is Semantic <==> match kind {
            ProblemKind::AnalysisCoverageInvalidated => false,
            ProblemKind::ChangeIndexCollapsed => false,
            ProblemKind::PendingWorkCollapsed => false,
            ProblemKind::ReadSetCollapsed => false,
            ProblemKind::RetryBudgetExhausted => false,
            ProblemKind::WorkCausesMerged => false,
            ProblemKind::AvoidedBytes => true,
            ProblemKind::CannotCreateFunction => true,
            ProblemKind::DecodeFailed => true,
            ProblemKind::FunctionTooLarge => true,
            ProblemKind::HinderedByAssertedFact => true,
            ProblemKind::PassFailed => true,
            ProblemKind::SwitchBoundExceeded => true,
            ProblemKind::SwitchUnresolved => true,
            ProblemKind::Unknown => true,
        },
{
}

} // verus!
