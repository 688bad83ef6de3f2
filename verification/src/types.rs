//! Plain values that the rest of the library is built from.
use vstd::prelude::*;

use crate::codec::{capacity, lemma_value_be, put_be, take_be, KeyCodec};
use crate::order::Ranked;

verus! {

/// Copies a vector of plain values.
pub fn copy_values<T: Copy>(values: &Vec<T>) -> (copy: Vec<T>)
    ensures
        copy@ == values@,
{
    let mut copy: Vec<T> = Vec::new();
    let mut i: usize = 0;
    while i < values.len()
        invariant
            i <= values@.len(),
            copy@ == values@.take(i as int),
        decreases values@.len() - i,
    {
        copy.push(values[i]);
        i = i + 1;
        assert(copy@ =~= values@.take(i as int));
    }
    assert(copy@ =~= values@);
    copy
}

/// What is kept of a sequence is what of it is to be kept.
pub proof fn lemma_filter_holds<T>(s: Seq<T>, keep: spec_fn(T) -> bool, t: T)
    ensures
        s.filter(keep).contains(t) <==> s.contains(t) && keep(t),
    decreases s.len(),
{
    reveal(Seq::filter);
    if s.len() > 0 {
        let rest = s.drop_last();
        let before = rest.filter(keep);
        lemma_filter_holds(rest, keep, t);
        assert(s =~= rest.push(s.last()));
        assert(rest.push(s.last()).contains(t) <==> rest.contains(t) || t == s.last()) by {
            if rest.contains(t) {
                assert(s[rest.index_of(t)] == t);
            }
            assert(s[s.len() - 1] == s.last());
            if s.contains(t) && t != s.last() {
                assert(rest[s.index_of(t)] == t);
            }
        }
        let all = s.filter(keep);
        if keep(s.last()) {
            assert(all == before.push(s.last()));
            if before.contains(t) {
                assert(all[before.index_of(t)] == t);
            }
            assert(all[all.len() - 1] == s.last());
            if all.contains(t) && t != s.last() {
                assert(before[all.index_of(t)] == t);
            }
        }
    }
}

/// Filtering nothing leaves nothing.
pub proof fn lemma_filter_none<T>(s: Seq<T>, keep: spec_fn(T) -> bool)
    ensures
        s.take(0).filter(keep) == Seq::<T>::empty(),
{
    reveal(Seq::filter);
    assert(s.take(0).filter(keep) =~= Seq::<T>::empty());
}

/// Filtering one more element adds it or leaves it out.
pub proof fn lemma_filter_step<T>(s: Seq<T>, i: int, keep: spec_fn(T) -> bool)
    requires
        0 <= i < s.len(),
    ensures
        s.take(i + 1).filter(keep) == if keep(s[i]) {
            s.take(i).filter(keep).push(s[i])
        } else {
            s.take(i).filter(keep)
        },
{
    reveal(Seq::filter);
    assert(s.take(i + 1).drop_last() =~= s.take(i));
    assert(s.take(i + 1).last() == s[i]);
}

impl Ranked for u32 {
    open spec fn rank(self) -> int {
        self as int
    }

    proof fn lemma_rank_injective(a: Self, b: Self) {
    }

    fn precedes(&self, other: &Self) -> (before: bool) {
        *self < *other
    }
}

impl Ranked for u64 {
    open spec fn rank(self) -> int {
        self as int
    }

    proof fn lemma_rank_injective(a: Self, b: Self) {
    }

    fn precedes(&self, other: &Self) -> (before: bool) {
        *self < *other
    }
}

/// An address space.
#[derive(Debug, Clone, Copy, PartialEq, Eq, PartialOrd, Ord, Hash, Structural)]
pub struct AddressSpaceId(pub u16);

impl AddressSpaceId {
    pub fn new(id: u16) -> (space: Self)
        ensures
            space.0 == id,
    {
        AddressSpaceId(id)
    }
}

impl Default for AddressSpaceId {
    fn default() -> (space: Self)
        ensures
            space.0 == 0,
    {
        AddressSpaceId(0)
    }
}

impl From<u16> for AddressSpaceId {
    fn from(id: u16) -> (space: Self) {
        AddressSpaceId(id)
    }
}

impl vstd::std_specs::convert::FromSpecImpl<u16> for AddressSpaceId {
    open spec fn obeys_from_spec() -> bool {
        true
    }

    open spec fn from_spec(id: u16) -> Self {
        AddressSpaceId(id)
    }
}

impl From<u8> for AddressSpaceId {
    fn from(id: u8) -> (space: Self) {
        AddressSpaceId(id as u16)
    }
}

impl vstd::std_specs::convert::FromSpecImpl<u8> for AddressSpaceId {
    open spec fn obeys_from_spec() -> bool {
        true
    }

    open spec fn from_spec(id: u8) -> Self {
        AddressSpaceId(id as u16)
    }
}

impl Ranked for AddressSpaceId {
    open spec fn rank(self) -> int {
        self.0 as int
    }

    proof fn lemma_rank_injective(a: Self, b: Self) {
    }

    fn precedes(&self, other: &Self) -> (before: bool) {
        self.0 < other.0
    }
}

impl KeyCodec for AddressSpaceId {
    open spec fn width() -> nat {
        2
    }

    proof fn lemma_rank_fits(key: Self) {
        reveal_with_fuel(capacity, 3);
    }

    fn encode(&self, output: &mut Vec<u8>) {
        let value: u64 = self.0 as u64;
        assert(value == self.rank());
        put_be(output, 2, value);
        assert(Self::width() == 2);
    }

    fn decode(input: &mut &[u8]) -> (key: Option<Self>) {
        let ghost before = input@;
        match take_be(input, 2) {
            Some(value) => {
                proof {
                    lemma_value_be(before.take(2));
                    reveal_with_fuel(capacity, 3);
                }
                Some(AddressSpaceId(value as u16))
            },
            None => None,
        }
    }
}

/// The state of a project that a fact was derived from.
#[derive(Debug, Clone, Copy, PartialEq, Eq, PartialOrd, Ord, Hash, Structural)]
pub struct Revision(pub u64);

impl Revision {
    pub fn new(revision: u64) -> (r: Self)
        ensures
            r.0 == revision,
    {
        Revision(revision)
    }
}

impl Default for Revision {
    fn default() -> (r: Self)
        ensures
            r.0 == 0,
    {
        Revision(0)
    }
}

/// How sure an analysis is of a fact, from least to most.
#[derive(Debug, Clone, Copy, PartialEq, Eq, PartialOrd, Ord, Hash, Structural)]
pub enum Confidence {
    Uncertain,
    SomewhatCertain,
    Certain,
}

impl Confidence {
    /// The place of the level among the levels.
    pub open spec fn level(self) -> int {
        match self {
            Confidence::Uncertain => 0,
            Confidence::SomewhatCertain => 1,
            Confidence::Certain => 2,
        }
    }

    pub fn certain() -> (c: Self)
        ensures
            c == Confidence::Certain,
    {
        Confidence::Certain
    }

    pub fn somewhat_certain() -> (c: Self)
        ensures
            c == Confidence::SomewhatCertain,
    {
        Confidence::SomewhatCertain
    }

    pub fn uncertain() -> (c: Self)
        ensures
            c == Confidence::Uncertain,
    {
        Confidence::Uncertain
    }

    /// Whether this level is strictly above `other`.
    pub fn exceeds(&self, other: &Self) -> (above: bool)
        ensures
            above == (self.level() > other.level()),
    {
        match (*self, *other) {
            (Confidence::Certain, Confidence::SomewhatCertain) => true,
            (Confidence::Certain, Confidence::Uncertain) => true,
            (Confidence::SomewhatCertain, Confidence::Uncertain) => true,
            _ => false,
        }
    }
}

/// Values assigned to the variables of a decoding context.
#[derive(Debug)]
pub struct ContextSet {
    pub assignments: Vec<(u32, u64)>,
}

impl View for ContextSet {
    type V = Seq<(u32, u64)>;

    open spec fn view(&self) -> Seq<(u32, u64)> {
        self.assignments@
    }
}

/// The assignments after `variable` is set to `value`: the assignment that it has is
/// replaced where it stands, and where it has none one is added at the end.
pub open spec fn assigned(context: Seq<(u32, u64)>, variable: u32, value: u64) -> Seq<(u32, u64)>
    decreases context.len(),
{
    if context.len() == 0 {
        seq![(variable, value)]
    } else if context.first().0 == variable {
        context.update(0, (variable, value))
    } else {
        seq![context.first()] + assigned(context.drop_first(), variable, value)
    }
}

/// The assignments after those of `other` are made one after the other.
pub open spec fn merged(context: Seq<(u32, u64)>, other: Seq<(u32, u64)>) -> Seq<(u32, u64)>
    decreases other.len(),
{
    if other.len() == 0 {
        context
    } else {
        let (variable, value) = other.last();
        assigned(merged(context, other.drop_last()), variable, value)
    }
}

/// The value of `variable`, if it has one.
pub open spec fn assignment(context: Seq<(u32, u64)>, variable: u32) -> Option<u64>
    decreases context.len(),
{
    if context.len() == 0 {
        None
    } else if context.first().0 == variable {
        Some(context.first().1)
    } else {
        assignment(context.drop_first(), variable)
    }
}

/// Setting a variable gives it the value and leaves every other variable as it was.
pub proof fn law_assignment_sets_one_variable(
    context: Seq<(u32, u64)>,
    variable: u32,
    value: u64,
    other: u32,
)
    ensures
        assignment(assigned(context, variable, value), variable) == Some(value),
        other != variable ==> assignment(assigned(context, variable, value), other) == assignment(
            context,
            other,
        ),
    decreases context.len(),
{
    let after = assigned(context, variable, value);
    if context.len() == 0 {
        assert(after.first() == (variable, value));
        assert(after.drop_first() =~= Seq::<(u32, u64)>::empty());
        assert(assignment(after.drop_first(), other) == None::<u64>);
    } else if context.first().0 == variable {
        assert(after.first() == (variable, value));
        assert(after.drop_first() =~= context.drop_first());
    } else {
        law_assignment_sets_one_variable(context.drop_first(), variable, value, other);
        assert(after.first() == context.first());
        assert(after.drop_first() =~= assigned(context.drop_first(), variable, value));
    }
}

impl ContextSet {
    pub fn new() -> (context: Self)
        ensures
            context@ == Seq::<(u32, u64)>::empty(),
    {
        ContextSet { assignments: Vec::new() }
    }

    /// Sets `variable` to `value`.
    pub fn assign(&mut self, variable: u32, value: u64)
        ensures
            final(self)@ == assigned(old(self)@, variable, value),
    {
        let ghost before = self@;
        let mut i: usize = 0;
        assert(before.skip(0) =~= before);
        assert(before.take(0) + assigned(before, variable, value) =~= assigned(
            before,
            variable,
            value,
        ));
        while i < self.assignments.len()
            invariant
                i <= self@.len(),
                before == old(self)@,
                self@ == before,
                assigned(before, variable, value) == before.take(i as int) + assigned(
                    before.skip(i as int),
                    variable,
                    value,
                ),
            decreases self@.len() - i,
        {
            let ghost rest = before.skip(i as int);
            assert(rest.first() == before[i as int]);
            if self.assignments[i].0 == variable {
                self.assignments.set(i, (variable, value));
                assert(self@ =~= before.take(i as int) + rest.update(0, (variable, value)));
                return ;
            }
            assert(rest.drop_first() =~= before.skip(i + 1));
            assert(before.take(i as int) + (seq![rest.first()] + assigned(
                rest.drop_first(),
                variable,
                value,
            )) =~= before.take(i + 1) + assigned(before.skip(i + 1), variable, value));
            i = i + 1;
        }
        self.assignments.push((variable, value));
        assert(before.skip(i as int) =~= Seq::empty());
        assert(self@ =~= before.take(i as int) + seq![(variable, value)]);
    }

    /// The value of `variable`, if it has one.
    pub fn get(&self, variable: u32) -> (value: Option<u64>)
        ensures
            value == assignment(self@, variable),
    {
        let mut i: usize = 0;
        assert(self@.skip(0) =~= self@);
        while i < self.assignments.len()
            invariant
                i <= self@.len(),
                assignment(self@, variable) == assignment(self@.skip(i as int), variable),
            decreases self@.len() - i,
        {
            assert(self@.skip(i as int).first() == self@[i as int]);
            assert(self@.skip(i as int).drop_first() =~= self@.skip(i + 1));
            if self.assignments[i].0 == variable {
                return Some(self.assignments[i].1);
            }
            i = i + 1;
        }
        assert(self@.skip(i as int).len() == 0);
        None
    }

    /// Makes the assignments of `other` on top of these.
    pub fn merge(&mut self, other: &ContextSet)
        ensures
            final(self)@ == merged(old(self)@, other@),
    {
        let ghost before = self@;
        let mut i: usize = 0;
        assert(other@.take(0) =~= Seq::empty());
        while i < other.assignments.len()
            invariant
                i <= other@.len(),
                self@ == merged(before, other@.take(i as int)),
            decreases other@.len() - i,
        {
            let (variable, value): (u32, u64) = other.assignments[i];
            self.assign(variable, value);
            assert(other@.take(i + 1).drop_last() =~= other@.take(i as int));
            assert(other@.take(i + 1).last() == other@[i as int]);
            i = i + 1;
        }
        assert(other@.take(i as int) =~= other@);
    }

    /// Whether both make the same assignments in the same order.
    pub fn same(&self, other: &ContextSet) -> (same: bool)
        ensures
            same == (self@ == other@),
    {
        if self.assignments.len() != other.assignments.len() {
            return false;
        }
        let mut i: usize = 0;
        while i < self.assignments.len()
            invariant
                i <= self@.len(),
                self@.len() == other@.len(),
                forall|j: int| 0 <= j < i ==> self@[j] == other@[j],
            decreases self@.len() - i,
        {
            let a: (u32, u64) = self.assignments[i];
            let b: (u32, u64) = other.assignments[i];
            if a.0 != b.0 || a.1 != b.1 {
                return false;
            }
            i = i + 1;
        }
        assert(self@ =~= other@);
        true
    }
}

impl Clone for ContextSet {
    fn clone(&self) -> (copy: Self)
        ensures
            copy@ == self@,
    {
        ContextSet { assignments: copy_values(&self.assignments) }
    }
}

impl Default for ContextSet {
    fn default() -> (context: Self)
        ensures
            context@ == Seq::<(u32, u64)>::empty(),
    {
        ContextSet::new()
    }
}

/// A place in a space of the lifted code.
#[derive(Debug, Clone, Copy, PartialEq, Eq, Structural)]
pub struct Varnode {
    pub space: u32,
    pub offset: u64,
    pub size: u32,
}

/// What the library reads of a processor language: its default space and the highest offset
/// there, the space of its constants, and how its instructions are aligned.
#[derive(Debug, Clone, Copy, PartialEq, Eq, Structural)]
pub struct Language {
    pub default_space: u32,
    pub constant_space: u32,
    pub highest: u64,
    pub alignment: usize,
}

impl Language {
    /// Brings an offset into the default space by wrapping round at its end.
    pub fn wrap_offset_in_default_space(&self, offset: u64) -> (wrapped: u64)
        ensures
            wrapped == offset as int % (self.highest + 1),
    {
        if offset <= self.highest {
            proof {
                vstd::arithmetic::div_mod::lemma_small_mod(offset as nat, (self.highest + 1) as nat);
            }
            offset
        } else {
            offset % (self.highest + 1)
        }
    }

    pub fn address_alignment(&self) -> (alignment: usize)
        ensures
            alignment == self.alignment,
    {
        self.alignment
    }

    pub fn in_default_space(&self, varnode: &Varnode) -> (inside: bool)
        ensures
            inside == (varnode.space == self.default_space),
    {
        varnode.space == self.default_space
    }

    pub fn in_constant_space(&self, varnode: &Varnode) -> (inside: bool)
        ensures
            inside == (varnode.space == self.constant_space),
    {
        varnode.space == self.constant_space
    }
}

/// Merging gives each variable the value that it has last in what is merged, and leaves every
/// variable that has none there.
pub proof fn law_merging_takes_last_values(
    context: Seq<(u32, u64)>,
    other: Seq<(u32, u64)>,
    variable: u32,
    last: int,
)
    requires
        -1 <= last < other.len(),
        last >= 0 ==> other[last].0 == variable,
        forall|i: int| last < i < other.len() ==> (#[trigger] other[i]).0 != variable,
    ensures
        assignment(merged(context, other), variable) == if last < 0 {
            assignment(context, variable)
        } else {
            Some(other[last].1)
        },
    decreases other.len(),
{
    if other.len() > 0 {
        let rest = other.drop_last();
        assert(other[other.len() - 1] == other.last());
        law_assignment_sets_one_variable(
            merged(context, rest),
            other.last().0,
            other.last().1,
            variable,
        );
        if last < other.len() - 1 {
            assert forall|i: int| last < i < rest.len() implies (#[trigger] rest[i]).0
                != variable by {
                assert(other[i] == rest[i]);
            }
            law_merging_takes_last_values(context, rest, variable, last);
        }
    }
}

/// A variable has the value of its first assignment, and none if it has no assignment.
pub proof fn law_first_assignment_counts(context: Seq<(u32, u64)>, variable: u32, at: int)
    requires
        0 <= at < context.len(),
        forall|i: int| 0 <= i < at ==> (#[trigger] context[i]).0 != variable,
    ensures
        context[at].0 == variable ==> assignment(context, variable) == Some(context[at].1),
        (forall|i: int| 0 <= i < context.len() ==> (#[trigger] context[i]).0 != variable)
            ==> assignment(context, variable) is None,
    decreases context.len(),
{
    let rest = context.drop_first();
    assert(context[0] == context.first());
    assert forall|i: int| 0 <= i < rest.len() implies #[trigger] rest[i] == context[i + 1] by {}
    if rest.len() > 0 {
        if at > 0 {
            law_first_assignment_counts(rest, variable, at - 1);
        } else if context[0].0 != variable {
            law_first_assignment_counts(rest, variable, 0);
        }
    }
}

} // verus!
