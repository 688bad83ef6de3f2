//! What a reference rests on: someone's word, or the functions it was derived from.
use vstd::prelude::*;

use crate::address::Address;
use crate::anchored::Anchored;
use crate::flags::ReferenceProperties;
use crate::function::FunctionId;
use crate::order::{lemma_ascending_determined, same_keys, Ranked, SortedMap};
use crate::reference::{
    addresses, target_stride, Reference, ReferenceKey, ReferenceKind, ReferenceOrigin,
    ReferenceTarget,
};

verus! {

/// What a reference rests on. What someone stated comes before all else.
#[derive(Debug, Clone, Copy)]
pub enum ReferenceProvenance {
    Asserted,
    Function(FunctionId),
}

impl Ranked for ReferenceProvenance {
    open spec fn rank(self) -> int {
        match self {
            ReferenceProvenance::Asserted => -1,
            ReferenceProvenance::Function(id) => id.rank(),
        }
    }

    proof fn lemma_rank_injective(a: Self, b: Self) {
        match (a, b) {
            (ReferenceProvenance::Function(x), ReferenceProvenance::Function(y)) => {
                FunctionId::lemma_rank_injective(x, y);
            },
            _ => {},
        }
    }

    fn precedes(&self, other: &Self) -> (before: bool) {
        match (self, other) {
            (ReferenceProvenance::Asserted, ReferenceProvenance::Asserted) => false,
            (ReferenceProvenance::Asserted, ReferenceProvenance::Function(_)) => true,
            (ReferenceProvenance::Function(_), ReferenceProvenance::Asserted) => false,
            (ReferenceProvenance::Function(a), ReferenceProvenance::Function(b)) => a.precedes(b),
        }
    }
}

/// The ends of a reference and its kind, first the end that refers.
#[derive(Debug, Clone, Copy, PartialEq, Eq, PartialOrd, Ord, Hash, Structural)]
pub struct ReferenceEntryKey {
    pub from: Address,
    pub target: ReferenceTarget,
    pub kind: ReferenceKind,
}

/// The ends of a reference and its kind, first the end that is referred to.
#[derive(Debug, Clone, Copy, PartialEq, Eq, PartialOrd, Ord, Hash, Structural)]
pub struct InverseReferenceEntryKey {
    pub target: ReferenceTarget,
    pub from: Address,
    pub kind: ReferenceKind,
}

proof fn lemma_target_bounds(target: ReferenceTarget)
    ensures
        0 <= target.rank() < addresses() <= target_stride(),
{
    match target {
        ReferenceTarget::Address(address) => {},
    }
}

fn kind_precedes(a: ReferenceKind, b: ReferenceKind) -> (before: bool)
    ensures
        before == (a.number() < b.number()),
{
    a.is_flow() && b.is_data()
}

impl Ranked for ReferenceEntryKey {
    open spec fn rank(self) -> int {
        (self.from.rank() * target_stride() + self.target.rank()) * 2 + self.kind.number()
    }

    proof fn lemma_rank_injective(a: Self, b: Self) {
        lemma_target_bounds(a.target);
        lemma_target_bounds(b.target);
        Address::lemma_rank_injective(a.from, b.from);
        ReferenceTarget::lemma_rank_injective(a.target, b.target);
    }

    fn precedes(&self, other: &Self) -> (before: bool) {
        proof {
            lemma_target_bounds(self.target);
            lemma_target_bounds(other.target);
        }
        if self.from.precedes(&other.from) {
            return true;
        }
        if other.from.precedes(&self.from) {
            return false;
        }
        if self.target.precedes(&other.target) {
            return true;
        }
        if other.target.precedes(&self.target) {
            return false;
        }
        kind_precedes(self.kind, other.kind)
    }
}

impl Anchored<Address> for ReferenceEntryKey {
    open spec fn anchor(self) -> Address {
        self.from
    }

    proof fn lemma_anchor_order(a: Self, b: Self) {
        lemma_target_bounds(a.target);
        lemma_target_bounds(b.target);
    }

    fn anchor_of(&self) -> (anchor: Address) {
        self.from
    }

    fn first_of(anchor: Address) -> (key: Self) {
        let key = ReferenceEntryKey {
            from: anchor,
            target: ReferenceTarget::minimum(),
            kind: ReferenceKind::Flow,
        };
        proof {
            assert forall|other: ReferenceEntryKey|
                other.anchor() == anchor implies key.rank() <= #[trigger] other.rank() by {
                lemma_target_bounds(other.target);
            }
        }
        key
    }
}

impl Ranked for InverseReferenceEntryKey {
    open spec fn rank(self) -> int {
        (self.target.rank() * addresses() + self.from.rank()) * 2 + self.kind.number()
    }

    proof fn lemma_rank_injective(a: Self, b: Self) {
        lemma_target_bounds(ReferenceTarget::Address(a.from));
        lemma_target_bounds(ReferenceTarget::Address(b.from));
        Address::lemma_rank_injective(a.from, b.from);
        ReferenceTarget::lemma_rank_injective(a.target, b.target);
    }

    fn precedes(&self, other: &Self) -> (before: bool) {
        proof {
            lemma_target_bounds(ReferenceTarget::Address(self.from));
            lemma_target_bounds(ReferenceTarget::Address(other.from));
        }
        if self.target.precedes(&other.target) {
            return true;
        }
        if other.target.precedes(&self.target) {
            return false;
        }
        if self.from.precedes(&other.from) {
            return true;
        }
        if other.from.precedes(&self.from) {
            return false;
        }
        kind_precedes(self.kind, other.kind)
    }
}

impl Anchored<ReferenceTarget> for InverseReferenceEntryKey {
    open spec fn anchor(self) -> ReferenceTarget {
        self.target
    }

    proof fn lemma_anchor_order(a: Self, b: Self) {
        lemma_target_bounds(ReferenceTarget::Address(a.from));
        lemma_target_bounds(ReferenceTarget::Address(b.from));
    }

    fn anchor_of(&self) -> (anchor: ReferenceTarget) {
        self.target
    }

    fn first_of(anchor: ReferenceTarget) -> (key: Self) {
        let key = InverseReferenceEntryKey {
            target: anchor,
            from: Address::minimum(),
            kind: ReferenceKind::Flow,
        };
        proof {
            assert forall|other: InverseReferenceEntryKey|
                other.anchor() == anchor implies key.rank() <= #[trigger] other.rank() by {
                lemma_target_bounds(ReferenceTarget::Address(other.from));
                assert(key.from.rank() <= other.from.rank());
            }
        }
        key
    }
}

impl ReferenceEntryKey {
    /// The same as the target sees it.
    pub open spec fn inverted(self) -> InverseReferenceEntryKey {
        InverseReferenceEntryKey { target: self.target, from: self.from, kind: self.kind }
    }

    /// The two ends without the kind.
    pub open spec fn ends(self) -> ReferenceKey {
        ReferenceKey { from: self.from, target: self.target }
    }

    pub fn new(from: Address, target: ReferenceTarget, kind: ReferenceKind) -> (key: Self)
        ensures
            key == (ReferenceEntryKey { from, target, kind }),
    {
        ReferenceEntryKey { from, target, kind }
    }

    /// What a reference is filed under.
    pub fn of(reference: &Reference) -> (key: Self)
        ensures
            key == entry_key(*reference),
    {
        ReferenceEntryKey {
            from: reference.from(),
            target: reference.target(),
            kind: reference.kind(),
        }
    }

    pub fn inverse(&self) -> (key: InverseReferenceEntryKey)
        ensures
            key == self.inverted(),
    {
        InverseReferenceEntryKey { target: self.target, from: self.from, kind: self.kind }
    }
}

impl InverseReferenceEntryKey {
    /// The same as the referring address sees it.
    pub open spec fn reverted(self) -> ReferenceEntryKey {
        ReferenceEntryKey { from: self.from, target: self.target, kind: self.kind }
    }
}

/// What a reference is filed under.
pub open spec fn entry_key(reference: Reference) -> ReferenceEntryKey {
    ReferenceEntryKey { from: reference.from, target: reference.target, kind: reference.kind }
}

/// What a reference rests on, each with the flags that it gives.
pub type EntryView = Map<ReferenceProvenance, ReferenceProperties>;

/// Whether flags take in those of everything that a reference rests on.
pub open spec fn takes_in_flags(entry: EntryView, bits: u16) -> bool {
    forall|provenance: ReferenceProvenance| #[trigger]
        entry.contains_key(provenance) ==> entry[provenance].bits & bits == entry[provenance].bits
}

/// Whether flags are the fewest that take in those of everything that a reference rests on.
pub open spec fn are_merged_flags(entry: EntryView, bits: u16) -> bool {
    &&& takes_in_flags(entry, bits)
    &&& forall|other: u16| #[trigger] takes_in_flags(entry, other) ==> bits & other == bits
}

/// The flags of everything that a reference rests on together.
pub open spec fn merged_flags_of(entry: EntryView) -> u16 {
    choose|bits: u16| are_merged_flags(entry, bits)
}

/// There is one way to put flags together.
pub proof fn law_merged_flags_determined(entry: EntryView, a: u16, b: u16)
    requires
        are_merged_flags(entry, a),
        are_merged_flags(entry, b),
    ensures
        a == b,
{
    assert(takes_in_flags(entry, b));
    assert(takes_in_flags(entry, a));
    assert(a & b == a);
    assert(b & a == b);
    assert(a == b) by (bit_vector)
        requires
            a & b == a,
            b & a == b,
    ;
}

/// The reference that an entry makes visible: what someone stated hides what was derived.
pub open spec fn visible(key: ReferenceEntryKey, entry: EntryView) -> Option<Reference> {
    if entry.contains_key(ReferenceProvenance::Asserted) {
        Some(
            Reference {
                from: key.from,
                target: key.target,
                kind: key.kind,
                properties: entry[ReferenceProvenance::Asserted],
                origin: ReferenceOrigin::Asserted,
            },
        )
    } else if entry == EntryView::empty() {
        None
    } else {
        Some(
            Reference {
                from: key.from,
                target: key.target,
                kind: key.kind,
                properties: ReferenceProperties { bits: merged_flags_of(entry) },
                origin: ReferenceOrigin::Derived,
            },
        )
    }
}

/// An entry with what it has from one provenance replaced.
pub open spec fn with_provenance(
    entry: EntryView,
    provenance: ReferenceProvenance,
    properties: Option<ReferenceProperties>,
) -> EntryView {
    match properties {
        Some(properties) => entry.insert(provenance, properties),
        None => entry.remove(provenance),
    }
}

/// An entry with flags added to what it has from one provenance.
pub open spec fn with_merged(
    entry: EntryView,
    provenance: ReferenceProvenance,
    properties: ReferenceProperties,
) -> EntryView {
    if entry.contains_key(provenance) {
        entry.insert(
            provenance,
            ReferenceProperties { bits: entry[provenance].bits | properties.bits },
        )
    } else {
        entry.insert(provenance, properties)
    }
}

/// An entry with nothing but what someone stated.
pub open spec fn stated_part(entry: EntryView) -> EntryView {
    entry.restrict(Set::new(|p: ReferenceProvenance| p is Asserted))
}

/// What is filed of a reference under its ends and its kind.
pub struct ReferenceEntry {
    pub provenances: SortedMap<ReferenceProvenance, ReferenceProperties>,
}

impl View for ReferenceEntry {
    type V = EntryView;

    open spec fn view(&self) -> EntryView {
        self.provenances@
    }
}

impl ReferenceEntry {
    pub open spec fn wf(&self) -> bool {
        self.provenances.wf()
    }

    pub fn new(provenance: ReferenceProvenance, properties: ReferenceProperties) -> (entry: Self)
        ensures
            entry.wf(),
            entry@ == EntryView::empty().insert(provenance, properties),
    {
        let mut provenances: SortedMap<ReferenceProvenance, ReferenceProperties> = SortedMap::new();
        provenances.insert(provenance, properties);
        ReferenceEntry { provenances }
    }

    /// Replaces what the entry has from one provenance.
    pub fn set_provenance(
        &mut self,
        provenance: ReferenceProvenance,
        properties: Option<ReferenceProperties>,
    )
        requires
            old(self).wf(),
        ensures
            final(self).wf(),
            final(self)@ == with_provenance(old(self)@, provenance, properties),
    {
        match properties {
            Some(properties) => {
                self.provenances.insert(provenance, properties);
            },
            None => {
                self.provenances.remove(&provenance);
            },
        }
    }

    pub fn has_provenance(&self, provenance: ReferenceProvenance) -> (found: bool)
        requires
            self.wf(),
        ensures
            found == self@.contains_key(provenance),
    {
        self.provenances.contains_key(&provenance)
    }

    pub fn is_empty(&self) -> (empty: bool)
        requires
            self.wf(),
        ensures
            empty == (self@ == EntryView::empty()),
    {
        self.provenances.is_empty()
    }

    /// Adds flags to what the entry has from one provenance.
    pub fn merge_provenance(
        &mut self,
        provenance: ReferenceProvenance,
        properties: ReferenceProperties,
    )
        requires
            old(self).wf(),
        ensures
            final(self).wf(),
            final(self)@ == with_merged(old(self)@, provenance, properties),
    {
        let merged: ReferenceProperties = match self.provenances.get(&provenance) {
            Some(present) => ReferenceProperties { bits: present.bits | properties.bits },
            None => properties,
        };
        self.set_provenance(provenance, Some(merged));
    }

    /// Leaves nothing but what someone stated.
    pub fn clear_derived(&mut self)
        requires
            old(self).wf(),
        ensures
            final(self).wf(),
            final(self)@ == stated_part(old(self)@),
    {
        let ghost before = self@;
        let stated: Option<ReferenceProperties> = match self.provenances.get(
            &ReferenceProvenance::Asserted,
        ) {
            Some(properties) => Some(*properties),
            None => None,
        };
        self.provenances.clear();
        if let Some(properties) = stated {
            self.provenances.insert(ReferenceProvenance::Asserted, properties);
        }
        assert(self@ =~= stated_part(before));
    }

    /// The reference that the entry makes visible.
    pub fn materialise(&self, key: ReferenceEntryKey) -> (reference: Option<Reference>)
        requires
            self.wf(),
        ensures
            reference == visible(key, self@),
    {
        if let Some(properties) = self.provenances.get(&ReferenceProvenance::Asserted) {
            return Some(
                Reference {
                    from: key.from,
                    target: key.target,
                    kind: key.kind,
                    properties: *properties,
                    origin: ReferenceOrigin::Asserted,
                },
            );
        }
        if self.provenances.is_empty() {
            return None;
        }
        let ghost keys = self.provenances.keys@;
        let mut bits: u16 = 0;
        let mut i: usize = 0;
        proof {
            assert forall|other: u16| #[trigger] takes_in_flags(self@, other) implies bits & other
                == bits by {
                assert(0u16 & other == 0u16) by (bit_vector);
            }
        }
        while i < self.provenances.values.len()
            invariant
                i <= self.provenances.values@.len(),
                self.wf(),
                keys == self.provenances.keys@,
                forall|k: int|
                    0 <= k < i ==> (#[trigger] self.provenances.values@[k]).bits & bits
                        == self.provenances.values@[k].bits,
                forall|other: u16| #[trigger]
                    takes_in_flags(self@, other) ==> bits & other == bits,
            decreases self.provenances.values@.len() - i,
        {
            let more: u16 = self.provenances.values[i].bits;
            let ghost before = bits;
            bits = bits | more;
            proof {
                self.provenances.lemma_entry(i as int);
                assert forall|k: int| 0 <= k < i + 1 implies (
                #[trigger] self.provenances.values@[k]).bits & bits
                    == self.provenances.values@[k].bits by {
                    let own = self.provenances.values@[k].bits;
                    if k < i {
                        assert(own & (before | more) == own) by (bit_vector)
                            requires
                                own & before == own,
                        ;
                    } else {
                        assert(more & (before | more) == more) by (bit_vector);
                    }
                }
                assert forall|other: u16| #[trigger] takes_in_flags(self@, other) implies bits
                    & other == bits by {
                    assert(self@.contains_key(keys[i as int]));
                    assert((before | more) & other == (before | more)) by (bit_vector)
                        requires
                            before & other == before,
                            more & other == more,
                    ;
                }
            }
            i = i + 1;
        }
        proof {
            assert forall|provenance: ReferenceProvenance| #[trigger]
                self@.contains_key(provenance) implies self@[provenance].bits & bits
                == self@[provenance].bits by {
                let k = self.provenances.lemma_place(provenance);
                assert(self.provenances.values@[k].bits & bits == self.provenances.values@[k].bits);
            }
            assert(are_merged_flags(self@, bits));
            law_merged_flags_determined(self@, bits, merged_flags_of(self@));
        }
        Some(
            Reference {
                from: key.from,
                target: key.target,
                kind: key.kind,
                properties: ReferenceProperties { bits },
                origin: ReferenceOrigin::Derived,
            },
        )
    }

    /// Whether two entries say the same.
    pub fn same(&self, other: &ReferenceEntry) -> (same: bool)
        requires
            self.wf(),
            other.wf(),
        ensures
            same == (self@ == other@),
    {
        let a = &self.provenances;
        let b = &other.provenances;
        if !same_keys(&a.keys, &b.keys) {
            proof {
                if a@ == b@ {
                    assert forall|key: ReferenceProvenance|
                        a.keys@.contains(key) <==> b.keys@.contains(key) by {
                        assert(a@.contains_key(key) <==> b@.contains_key(key));
                    }
                    lemma_ascending_determined(a.keys@, b.keys@);
                }
            }
            return false;
        }
        let mut i: usize = 0;
        while i < a.values.len()
            invariant
                i <= a.values@.len(),
                *a == self.provenances,
                *b == other.provenances,
                a.wf(),
                b.wf(),
                a.keys@ == b.keys@,
                forall|k: int| 0 <= k < i ==> a.values@[k] == b.values@[k],
            decreases a.values@.len() - i,
        {
            if a.values[i].bits != b.values[i].bits {
                proof {
                    a.lemma_entry(i as int);
                    b.lemma_entry(i as int);
                }
                return false;
            }
            i = i + 1;
        }
        proof {
            assert forall|key: ReferenceProvenance| #[trigger]
                a@.contains_key(key) implies a@[key] == b@[key] by {
                let k = a.lemma_place(key);
                b.lemma_entry(k);
            }
            assert(a@ =~= b@);
        }
        true
    }
}

impl Clone for ReferenceEntry {
    fn clone(&self) -> (copy: Self)
        ensures
            self.wf() ==> copy.wf() && copy@ == self@,
    {
        let mut keys: Vec<ReferenceProvenance> = Vec::new();
        let mut values: Vec<ReferenceProperties> = Vec::new();
        let mut i: usize = 0;
        while i < self.provenances.keys.len()
            invariant
                i <= self.provenances.keys@.len(),
                keys@ == self.provenances.keys@.take(i as int),
            decreases self.provenances.keys@.len() - i,
        {
            keys.push(self.provenances.keys[i]);
            i = i + 1;
            assert(keys@ =~= self.provenances.keys@.take(i as int));
        }
        let mut k: usize = 0;
        while k < self.provenances.values.len()
            invariant
                k <= self.provenances.values@.len(),
                values@ == self.provenances.values@.take(k as int),
            decreases self.provenances.values@.len() - k,
        {
            values.push(self.provenances.values[k]);
            k = k + 1;
            assert(values@ =~= self.provenances.values@.take(k as int));
        }
        let copy = ReferenceEntry { provenances: SortedMap { keys, values } };
        proof {
            assert(keys@ =~= self.provenances.keys@);
            assert(values@ =~= self.provenances.values@);
            if self.wf() {
                assert forall|p: ReferenceProvenance| #[trigger] self@.contains_key(p) implies copy@[p]
                    == self@[p] by {
                    let i = self.provenances.lemma_place(p);
                    copy.provenances.lemma_entry(i);
                }
                assert(copy@ =~= self@);
            }
        }
        copy
    }
}

/// An entry is filed as long as it rests on something, and then makes a reference visible.
pub proof fn law_entry_visible(key: ReferenceEntryKey, entry: EntryView)
    ensures
        visible(key, entry) is Some <==> entry != EntryView::empty(),
        visible(key, entry) matches Some(reference) ==> entry_key(reference) == key,
        visible(key, entry) matches Some(reference) ==> (reference.origin is Asserted
            <==> entry.contains_key(ReferenceProvenance::Asserted)),
{
}

/// Replacing what an entry has from one provenance leaves what it has from all others.
pub proof fn law_provenances_independent(
    entry: EntryView,
    provenance: ReferenceProvenance,
    properties: Option<ReferenceProperties>,
    other: ReferenceProvenance,
)
    requires
        other != provenance,
    ensures
        with_provenance(entry, provenance, properties).get(other) == entry.get(other),
        with_provenance(entry, provenance, properties).get(provenance) == properties,
{
}

} // verus!
