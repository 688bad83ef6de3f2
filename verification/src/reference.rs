//! References from one address to another.
use core::cmp::Ordering;

use vstd::prelude::*;
use vstd::std_specs::convert::IntoSpec;

use crate::address::{lemma_address_capacity, Address};
use crate::codec::{
    be, capacity, lemma_be_len, lemma_be_pair, lemma_be_value, lemma_take_parts, lemma_value_be,
    take_be, KeyCodec,
};
use crate::flags::ReferenceProperties;
use crate::flow::{FlowKind, FlowTarget};
use crate::order::Ranked;

verus! {

/// Whether control or data is referred to.
#[derive(Debug, Clone, Copy, PartialEq, Eq, PartialOrd, Ord, Hash, Structural)]
pub enum ReferenceKind {
    Flow,
    Data,
}

impl ReferenceKind {
    pub fn is_flow(self) -> (r: bool)
        ensures
            r == (self is Flow),
    {
        matches!(self, ReferenceKind::Flow)
    }

    pub fn is_data(self) -> (r: bool)
        ensures
            r == (self is Data),
    {
        matches!(self, ReferenceKind::Data)
    }

    /// The number of the kind in keys.
    pub open spec fn number(self) -> int {
        match self {
            ReferenceKind::Flow => 0,
            ReferenceKind::Data => 1,
        }
    }
}

/// Whether an analysis found the fact or someone stated it.
#[derive(Debug, Clone, Copy, PartialEq, Eq, PartialOrd, Ord, Hash, Structural)]
pub enum ReferenceOrigin {
    Derived,
    Asserted,
}

impl Default for ReferenceOrigin {
    fn default() -> (origin: Self)
        ensures
            origin is Derived,
    {
        ReferenceOrigin::Derived
    }
}

impl ReferenceOrigin {
    pub fn is_derived(self) -> (r: bool)
        ensures
            r == (self is Derived),
    {
        matches!(self, ReferenceOrigin::Derived)
    }

    pub fn is_asserted(self) -> (r: bool)
        ensures
            r == (self is Asserted),
    {
        matches!(self, ReferenceOrigin::Asserted)
    }
}

/// The flags of a reference that a flow of the kind makes.
pub open spec fn flow_properties(kind: FlowKind) -> u16 {
    match kind {
        FlowKind::Branch => ReferenceProperties::JUMP,
        FlowKind::CBranch => ReferenceProperties::JUMP | ReferenceProperties::CONDITIONAL,
        FlowKind::IBranch => ReferenceProperties::JUMP | ReferenceProperties::COMPUTED,
        FlowKind::Fall => ReferenceProperties::FALL_THROUGH,
        FlowKind::Call => ReferenceProperties::CALL,
        FlowKind::ICall => ReferenceProperties::CALL | ReferenceProperties::COMPUTED,
        FlowKind::ServiceCall => ReferenceProperties::CALL,
        FlowKind::Return => ReferenceProperties::TERMINAL,
        FlowKind::SwitchBranch => ReferenceProperties::JUMP | ReferenceProperties::COMPUTED,
        FlowKind::SwitchCall => ReferenceProperties::CALL | ReferenceProperties::COMPUTED,
        FlowKind::TailCallBranch => ReferenceProperties::CALL | ReferenceProperties::JUMP
            | ReferenceProperties::TERMINAL,
    }
}

impl ReferenceProperties {
    pub fn from_flow(kind: FlowKind) -> (properties: Self)
        ensures
            properties.bits == flow_properties(kind),
    {
        let bits: u16 = match kind {
            FlowKind::Branch => ReferenceProperties::JUMP,
            FlowKind::CBranch => ReferenceProperties::JUMP | ReferenceProperties::CONDITIONAL,
            FlowKind::IBranch => ReferenceProperties::JUMP | ReferenceProperties::COMPUTED,
            FlowKind::Fall => ReferenceProperties::FALL_THROUGH,
            FlowKind::Call => ReferenceProperties::CALL,
            FlowKind::ICall => ReferenceProperties::CALL | ReferenceProperties::COMPUTED,
            FlowKind::ServiceCall => ReferenceProperties::CALL,
            FlowKind::Return => ReferenceProperties::TERMINAL,
            FlowKind::SwitchBranch => ReferenceProperties::JUMP | ReferenceProperties::COMPUTED,
            FlowKind::SwitchCall => ReferenceProperties::CALL | ReferenceProperties::COMPUTED,
            FlowKind::TailCallBranch => ReferenceProperties::CALL | ReferenceProperties::JUMP
                | ReferenceProperties::TERMINAL,
        };
        ReferenceProperties::of(bits)
    }
}

/// What is referred to.
#[derive(Debug, Clone, Copy, PartialEq, Eq, PartialOrd, Ord, Hash, Structural)]
pub enum ReferenceTarget {
    Address(Address),
}

impl From<Address> for ReferenceTarget {
    fn from(address: Address) -> (target: Self) {
        ReferenceTarget::Address(address)
    }
}

impl vstd::std_specs::convert::FromSpecImpl<Address> for ReferenceTarget {
    open spec fn obeys_from_spec() -> bool {
        true
    }

    open spec fn from_spec(address: Address) -> Self {
        ReferenceTarget::Address(address)
    }
}

impl ReferenceTarget {
    pub fn address(&self) -> (address: Option<Address>)
        ensures
            *self matches ReferenceTarget::Address(a) ==> address == Some(a),
    {
        match self {
            ReferenceTarget::Address(address) => Some(*address),
        }
    }

    /// The first target of all.
    pub fn minimum() -> (target: Self)
        ensures
            target.rank() == 0,
            forall|other: ReferenceTarget| target.rank() <= #[trigger] other.rank(),
    {
        let target = ReferenceTarget::Address(Address::minimum());
        assert forall|other: ReferenceTarget| target.rank() <= #[trigger] other.rank() by {
            match other {
                ReferenceTarget::Address(address) => {
                    assert(address.rank() >= 0);
                },
            }
        }
        target
    }
}

impl Ranked for ReferenceTarget {
    open spec fn rank(self) -> int {
        match self {
            ReferenceTarget::Address(address) => address.rank(),
        }
    }

    proof fn lemma_rank_injective(a: Self, b: Self) {
        match (a, b) {
            (ReferenceTarget::Address(x), ReferenceTarget::Address(y)) => {
                Address::lemma_rank_injective(x, y);
            },
        }
    }

    fn precedes(&self, other: &Self) -> (before: bool) {
        match (self, other) {
            (ReferenceTarget::Address(a), ReferenceTarget::Address(b)) => a.precedes(b),
        }
    }
}

/// The number of addresses.
pub open spec fn addresses() -> int {
    0x1_0000_0000_0000_0000_0000
}

/// How far targets with different kind bytes are apart.
pub open spec fn target_stride() -> int {
    0x100_0000_0000_0000_0000_0000
}

pub proof fn lemma_target_capacity()
    ensures
        capacity(10) == addresses(),
        capacity(11) == target_stride(),
        capacity(20) == addresses() * addresses(),
        capacity(21) == target_stride() * addresses(),
{
    reveal_with_fuel(capacity, 22);
}

/// The bytes of a target are a byte for its kind and those of the address.
pub proof fn lemma_target_bytes(target: ReferenceTarget)
    ensures
        be(11, target.rank()) == be(1, 0) + be(10, target.rank()),
        be(1, 0) == seq![0u8],
{
    match target {
        ReferenceTarget::Address(address) => {
            Address::lemma_rank_fits(address);
            lemma_be_pair(1, 10, 0, address.rank());
        },
    }
    reveal_with_fuel(be, 2);
    assert(be(1, 0) =~= seq![0u8]);
}

impl KeyCodec for ReferenceTarget {
    open spec fn width() -> nat {
        11
    }

    proof fn lemma_rank_fits(key: Self) {
        match key {
            ReferenceTarget::Address(address) => {
                Address::lemma_rank_fits(address);
                lemma_target_capacity();
                assert(Self::width() == 11);
                assert(key.rank() == address.rank());
            },
        }
    }

    fn encode(&self, output: &mut Vec<u8>) {
        let ghost before = output@;
        match self {
            ReferenceTarget::Address(address) => {
                output.push(0u8);
                address.encode(output);
            },
        }
        proof {
            lemma_target_bytes(*self);
            assert(output@ =~= before + (seq![0u8] + be(10, self.rank())));
        }
    }

    fn decode(input: &mut &[u8]) -> (key: Option<Self>) {
        let ghost before = input@;
        let kind: u64 = match take_be(input, 1) {
            Some(kind) => kind,
            None => {
                return None;
            },
        };
        let ghost rest = input@;
        proof {
            lemma_value_be(before.take(1));
            if before.len() >= 11 {
                lemma_take_parts(before, 1, 10);
                assert forall|k: ReferenceTarget| #[trigger] be(11, k.rank()) == before.take(
                    11,
                ) implies kind == 0 && be(10, k.rank()) == rest.take(10) by {
                    lemma_target_bytes(k);
                    lemma_be_len(10, k.rank());
                    assert(before.take(11).take(1) =~= before.take(1));
                    assert((be(1, 0) + be(10, k.rank())).take(1) =~= be(1, 0));
                    assert(before.take(11).skip(1) =~= rest.take(10));
                    assert((be(1, 0) + be(10, k.rank())).skip(1) =~= be(10, k.rank()));
                    reveal_with_fuel(capacity, 2);
                    lemma_be_value(1, 0);
                }
            }
        }
        if kind != 0 {
            return None;
        }
        match Address::decode(input) {
            Some(address) => {
                let key = ReferenceTarget::Address(address);
                proof {
                    lemma_target_bytes(key);
                    lemma_take_parts(before, 1, 10);
                    assert(before.take(1) == be(1, 0));
                }
                Some(key)
            },
            None => {
                proof {
                    assert forall|k: ReferenceTarget|
                        before.len() < 11 || #[trigger] be(11, k.rank()) != before.take(11) by {
                        match k {
                            ReferenceTarget::Address(address) => {
                                assert(rest.len() < 10 || be(10, address.rank()) != rest.take(10));
                            },
                        }
                    }
                }
                None
            },
        }
    }
}

/// That one address refers to a target, and how. Two references are the same fact about the
/// program when they agree on the two ends, whatever else they say.
#[derive(Debug, Clone, Copy)]
pub struct Reference {
    pub from: Address,
    pub target: ReferenceTarget,
    pub kind: ReferenceKind,
    pub properties: ReferenceProperties,
    pub origin: ReferenceOrigin,
}

impl PartialEq for Reference {
    fn eq(&self, other: &Self) -> (same: bool) {
        self.from == other.from && self.target == other.target
    }
}

impl vstd::std_specs::cmp::PartialEqSpecImpl for Reference {
    open spec fn obeys_eq_spec() -> bool {
        true
    }

    open spec fn eq_spec(&self, other: &Self) -> bool {
        self.from == other.from && self.target == other.target
    }
}

impl Eq for Reference {

}

impl PartialOrd for Reference {
    fn partial_cmp(&self, other: &Self) -> (order: Option<Ordering>) {
        if self.from.precedes(&other.from) {
            Some(Ordering::Less)
        } else if other.from.precedes(&self.from) {
            Some(Ordering::Greater)
        } else if self.target.precedes(&other.target) {
            Some(Ordering::Less)
        } else if other.target.precedes(&self.target) {
            Some(Ordering::Greater)
        } else {
            Some(Ordering::Equal)
        }
    }
}

impl vstd::std_specs::cmp::PartialOrdSpecImpl for Reference {
    open spec fn obeys_partial_cmp_spec() -> bool {
        true
    }

    open spec fn partial_cmp_spec(&self, other: &Self) -> Option<Ordering> {
        if self.key_rank() < other.key_rank() {
            Some(Ordering::Less)
        } else if self.key_rank() > other.key_rank() {
            Some(Ordering::Greater)
        } else {
            Some(Ordering::Equal)
        }
    }
}

/// The reference that an analysis derives from a flow.
pub open spec fn flow_reference(flow: FlowTarget) -> Reference {
    Reference {
        from: flow.from,
        target: ReferenceTarget::Address(flow.to),
        kind: ReferenceKind::Flow,
        properties: ReferenceProperties { bits: flow_properties(flow.kind) },
        origin: ReferenceOrigin::Derived,
    }
}

impl Reference {
    /// The place of the reference among all references, by its two ends.
    pub open spec fn key_rank(&self) -> int {
        self.from.rank() * target_stride() + self.target.rank()
    }

    /// What the reference is filed under.
    pub open spec fn filed(&self) -> ReferenceKey {
        ReferenceKey { from: self.from, target: self.target }
    }

    pub fn new<T: Into<ReferenceTarget>>(
        from: Address,
        target: T,
        kind: ReferenceKind,
        properties: ReferenceProperties,
    ) -> (reference: Self)
        ensures
            reference.from == from,
            T::obeys_into_spec() ==> reference.target == target.into_spec(),
            reference.kind == kind,
            reference.properties == properties,
            reference.origin is Asserted,
    {
        Reference {
            from,
            target: target.into(),
            kind,
            properties,
            origin: ReferenceOrigin::Asserted,
        }
    }

    pub fn flow<T: Into<ReferenceTarget>>(
        from: Address,
        target: T,
        properties: ReferenceProperties,
    ) -> (reference: Self)
        ensures
            reference.from == from,
            T::obeys_into_spec() ==> reference.target == target.into_spec(),
            reference.kind is Flow,
            reference.properties == properties,
            reference.origin is Asserted,
    {
        Reference::new(from, target, ReferenceKind::Flow, properties)
    }

    pub fn data<T: Into<ReferenceTarget>>(
        from: Address,
        target: T,
        properties: ReferenceProperties,
    ) -> (reference: Self)
        ensures
            reference.from == from,
            T::obeys_into_spec() ==> reference.target == target.into_spec(),
            reference.kind is Data,
            reference.properties == properties,
            reference.origin is Asserted,
    {
        Reference::new(from, target, ReferenceKind::Data, properties)
    }

    pub fn from_flow<T: Into<ReferenceTarget>>(from: Address, target: T, kind: FlowKind) -> (
    reference: Self)
        ensures
            reference.from == from,
            T::obeys_into_spec() ==> reference.target == target.into_spec(),
            reference.kind is Flow,
            reference.properties.bits == flow_properties(kind),
            reference.origin is Asserted,
    {
        Reference::flow(from, target, ReferenceProperties::from_flow(kind))
    }

    /// The reference that an analysis derives from a flow.
    pub fn of_flow(flow: FlowTarget) -> (reference: Self)
        ensures
            reference == flow_reference(flow),
    {
        Reference::from_flow(flow.from(), flow.to(), flow.kind()).with_origin(
            ReferenceOrigin::Derived,
        )
    }

    pub fn with_origin(self, origin: ReferenceOrigin) -> (reference: Self)
        ensures
            reference == (Reference { origin, ..self }),
    {
        Reference { origin, ..self }
    }

    /// The reference with more flags set.
    pub fn with_merged_properties(self, properties: ReferenceProperties) -> (reference: Self)
        ensures
            reference == (Reference {
                properties: ReferenceProperties { bits: self.properties.bits | properties.bits },
                ..self
            }),
    {
        Reference { properties: self.properties.union(properties), ..self }
    }

    pub fn from(&self) -> (from: Address)
        ensures
            from == self.from,
    {
        self.from
    }

    pub fn target(&self) -> (target: ReferenceTarget)
        ensures
            target == self.target,
    {
        self.target
    }

    pub fn kind(&self) -> (kind: ReferenceKind)
        ensures
            kind == self.kind,
    {
        self.kind
    }

    pub fn properties(&self) -> (properties: ReferenceProperties)
        ensures
            properties == self.properties,
    {
        self.properties
    }

    pub fn origin(&self) -> (origin: ReferenceOrigin)
        ensures
            origin == self.origin,
    {
        self.origin
    }

    pub fn is_flow(&self) -> (r: bool)
        ensures
            r == (self.kind is Flow),
    {
        self.kind.is_flow()
    }

    pub fn is_data(&self) -> (r: bool)
        ensures
            r == (self.kind is Data),
    {
        self.kind.is_data()
    }

    pub fn is_call(&self) -> (r: bool)
        ensures
            r == (self.properties.bits & ReferenceProperties::CALL == ReferenceProperties::CALL),
    {
        self.properties.contains(ReferenceProperties::CALL)
    }

    pub fn is_jump(&self) -> (r: bool)
        ensures
            r == (self.properties.bits & ReferenceProperties::JUMP == ReferenceProperties::JUMP),
    {
        self.properties.contains(ReferenceProperties::JUMP)
    }

    pub fn is_conditional(&self) -> (r: bool)
        ensures
            r == (self.properties.bits & ReferenceProperties::CONDITIONAL == ReferenceProperties::CONDITIONAL),
    {
        self.properties.contains(ReferenceProperties::CONDITIONAL)
    }

    pub fn is_computed(&self) -> (r: bool)
        ensures
            r == (self.properties.bits & ReferenceProperties::COMPUTED == ReferenceProperties::COMPUTED),
    {
        self.properties.contains(ReferenceProperties::COMPUTED)
    }

    pub fn is_terminal(&self) -> (r: bool)
        ensures
            r == (self.properties.bits & ReferenceProperties::TERMINAL == ReferenceProperties::TERMINAL),
    {
        self.properties.contains(ReferenceProperties::TERMINAL)
    }

    pub fn has_fall_through(&self) -> (r: bool)
        ensures
            r == (self.properties.bits & ReferenceProperties::FALL_THROUGH == ReferenceProperties::FALL_THROUGH),
    {
        self.properties.contains(ReferenceProperties::FALL_THROUGH)
    }

    pub fn is_read(&self) -> (r: bool)
        ensures
            r == (self.properties.bits & ReferenceProperties::READ == ReferenceProperties::READ),
    {
        self.properties.contains(ReferenceProperties::READ)
    }

    pub fn is_write(&self) -> (r: bool)
        ensures
            r == (self.properties.bits & ReferenceProperties::WRITE == ReferenceProperties::WRITE),
    {
        self.properties.contains(ReferenceProperties::WRITE)
    }

    pub fn is_indirect(&self) -> (r: bool)
        ensures
            r == (self.properties.bits & ReferenceProperties::INDIRECT == ReferenceProperties::INDIRECT),
    {
        self.properties.contains(ReferenceProperties::INDIRECT)
    }

    /// Whether both say the same in every respect.
    pub fn same_fact(&self, other: &Self) -> (same: bool)
        ensures
            same == (*self == *other),
    {
        self.from == other.from && self.target == other.target && self.kind == other.kind
            && self.properties == other.properties && self.origin == other.origin
    }

    /// What the reference is filed under.
    pub fn key(&self) -> (key: ReferenceKey)
        ensures
            key == self.filed(),
    {
        ReferenceKey { from: self.from, target: self.target }
    }
}

/// The two ends of a reference, first the one that refers.
#[derive(Debug, Clone, Copy, PartialEq, Eq, PartialOrd, Ord, Hash, Structural)]
pub struct ReferenceKey {
    pub from: Address,
    pub target: ReferenceTarget,
}

impl Ranked for ReferenceKey {
    open spec fn rank(self) -> int {
        self.from.rank() * target_stride() + self.target.rank()
    }

    proof fn lemma_rank_injective(a: Self, b: Self) {
        ReferenceTarget::lemma_rank_fits(a.target);
        ReferenceTarget::lemma_rank_fits(b.target);
        lemma_target_capacity();
        Address::lemma_rank_injective(a.from, b.from);
        ReferenceTarget::lemma_rank_injective(a.target, b.target);
    }

    fn precedes(&self, other: &Self) -> (before: bool) {
        proof {
            ReferenceTarget::lemma_rank_fits(self.target);
            ReferenceTarget::lemma_rank_fits(other.target);
            lemma_target_capacity();
        }
        self.from.precedes(&other.from) || (!other.from.precedes(&self.from)
            && self.target.precedes(&other.target))
    }
}

impl KeyCodec for ReferenceKey {
    open spec fn width() -> nat {
        21
    }

    proof fn lemma_rank_fits(key: Self) {
        ReferenceTarget::lemma_rank_fits(key.target);
        Address::lemma_rank_fits(key.from);
        lemma_target_capacity();
        lemma_address_capacity();
    }

    fn encode(&self, output: &mut Vec<u8>) {
        let ghost before = output@;
        self.from.encode(output);
        self.target.encode(output);
        proof {
            lemma_reference_key_bytes(*self);
            assert(output@ =~= before + (be(10, self.from.rank()) + be(11, self.target.rank())));
        }
    }

    fn decode(input: &mut &[u8]) -> (key: Option<Self>) {
        let ghost before = input@;
        let from: Address = match Address::decode(input) {
            Some(from) => from,
            None => {
                proof {
                    assert forall|k: ReferenceKey|
                        before.len() < 21 || #[trigger] be(21, k.rank()) != before.take(21) by {
                        lemma_reference_key_bytes(k);
                        if before.len() >= 21 && be(21, k.rank()) == before.take(21) {
                            lemma_pair_parts(10, 11, k.from.rank(), k.target.rank(), before);
                        }
                    }
                }
                return None;
            },
        };
        let ghost rest = input@;
        match ReferenceTarget::decode(input) {
            Some(target) => {
                let key = ReferenceKey { from, target };
                proof {
                    lemma_reference_key_bytes(key);
                    lemma_take_parts(before, 10, 11);
                }
                Some(key)
            },
            None => {
                proof {
                    assert forall|k: ReferenceKey|
                        before.len() < 21 || #[trigger] be(21, k.rank()) != before.take(21) by {
                        lemma_reference_key_bytes(k);
                        if before.len() >= 21 && be(21, k.rank()) == before.take(21) {
                            lemma_pair_parts(10, 11, k.from.rank(), k.target.rank(), before);
                        }
                    }
                }
                None
            },
        }
    }
}

/// The bytes of a key are those of its two ends.
pub proof fn lemma_reference_key_bytes(key: ReferenceKey)
    ensures
        be(21, key.rank()) == be(10, key.from.rank()) + be(11, key.target.rank()),
{
    ReferenceTarget::lemma_rank_fits(key.target);
    lemma_target_capacity();
    lemma_be_pair(10, 11, key.from.rank(), key.target.rank());
}

/// Bytes that begin with a pair's bytes begin with its first part's bytes, and the second
/// part's bytes follow.
pub proof fn lemma_pair_parts(first: nat, second: nat, a: int, b: int, bytes: Seq<u8>)
    requires
        bytes.len() >= first + second,
        be(first, a) + be(second, b) == bytes.take((first + second) as int),
    ensures
        be(first, a) == bytes.take(first as int),
        be(second, b) == bytes.skip(first as int).take(second as int),
{
    lemma_be_len(first, a);
    lemma_be_len(second, b);
    let whole = bytes.take((first + second) as int);
    assert(be(first, a) =~= whole.take(first as int));
    assert(whole.take(first as int) =~= bytes.take(first as int));
    assert(be(second, b) =~= whole.skip(first as int));
    assert(whole.skip(first as int) =~= bytes.skip(first as int).take(second as int));
}

impl ReferenceKey {
    pub fn new(from: Address, target: ReferenceTarget) -> (key: Self)
        ensures
            key == (ReferenceKey { from, target }),
    {
        ReferenceKey { from, target }
    }

    pub fn from(&self) -> (from: Address)
        ensures
            from == self.from,
    {
        self.from
    }

    pub fn target(&self) -> (target: ReferenceTarget)
        ensures
            target == self.target,
    {
        self.target
    }

    /// The first key of all that refer from an address.
    pub fn minimum_for(from: Address) -> (key: Self)
        ensures
            key.from == from,
            key.rank() == from.rank() * target_stride(),
    {
        ReferenceKey { from, target: ReferenceTarget::minimum() }
    }
}

/// The two ends of a reference, first the one that is referred to.
#[derive(Debug, Clone, Copy, PartialEq, Eq, PartialOrd, Ord, Hash, Structural)]
pub struct InverseReferenceKey {
    pub target: ReferenceTarget,
    pub from: Address,
}

impl Ranked for InverseReferenceKey {
    open spec fn rank(self) -> int {
        self.target.rank() * addresses() + self.from.rank()
    }

    proof fn lemma_rank_injective(a: Self, b: Self) {
        Address::lemma_rank_fits(a.from);
        Address::lemma_rank_fits(b.from);
        lemma_target_capacity();
        Address::lemma_rank_injective(a.from, b.from);
        ReferenceTarget::lemma_rank_injective(a.target, b.target);
    }

    fn precedes(&self, other: &Self) -> (before: bool) {
        proof {
            Address::lemma_rank_fits(self.from);
            Address::lemma_rank_fits(other.from);
            lemma_target_capacity();
        }
        self.target.precedes(&other.target) || (!other.target.precedes(&self.target)
            && self.from.precedes(&other.from))
    }
}

/// The bytes of an inverse key are those of its two ends.
pub proof fn lemma_inverse_key_bytes(key: InverseReferenceKey)
    ensures
        be(21, key.rank()) == be(11, key.target.rank()) + be(10, key.from.rank()),
{
    Address::lemma_rank_fits(key.from);
    lemma_target_capacity();
    lemma_be_pair(11, 10, key.target.rank(), key.from.rank());
}

impl KeyCodec for InverseReferenceKey {
    open spec fn width() -> nat {
        21
    }

    proof fn lemma_rank_fits(key: Self) {
        ReferenceTarget::lemma_rank_fits(key.target);
        Address::lemma_rank_fits(key.from);
        lemma_target_capacity();
    }

    fn encode(&self, output: &mut Vec<u8>) {
        let ghost before = output@;
        self.target.encode(output);
        self.from.encode(output);
        proof {
            lemma_inverse_key_bytes(*self);
            assert(output@ =~= before + (be(11, self.target.rank()) + be(10, self.from.rank())));
        }
    }

    fn decode(input: &mut &[u8]) -> (key: Option<Self>) {
        let ghost before = input@;
        let target: ReferenceTarget = match ReferenceTarget::decode(input) {
            Some(target) => target,
            None => {
                proof {
                    assert forall|k: InverseReferenceKey|
                        before.len() < 21 || #[trigger] be(21, k.rank()) != before.take(21) by {
                        lemma_inverse_key_bytes(k);
                        if before.len() >= 21 && be(21, k.rank()) == before.take(21) {
                            lemma_pair_parts(11, 10, k.target.rank(), k.from.rank(), before);
                        }
                    }
                }
                return None;
            },
        };
        let ghost rest = input@;
        match Address::decode(input) {
            Some(from) => {
                let key = InverseReferenceKey { target, from };
                proof {
                    lemma_inverse_key_bytes(key);
                    lemma_take_parts(before, 11, 10);
                }
                Some(key)
            },
            None => {
                proof {
                    assert forall|k: InverseReferenceKey|
                        before.len() < 21 || #[trigger] be(21, k.rank()) != before.take(21) by {
                        lemma_inverse_key_bytes(k);
                        if before.len() >= 21 && be(21, k.rank()) == before.take(21) {
                            lemma_pair_parts(11, 10, k.target.rank(), k.from.rank(), before);
                        }
                    }
                }
                None
            },
        }
    }
}

impl InverseReferenceKey {
    pub fn new(target: ReferenceTarget, from: Address) -> (key: Self)
        ensures
            key == (InverseReferenceKey { target, from }),
    {
        InverseReferenceKey { target, from }
    }

    /// The first key of all that refer to a target.
    pub fn minimum_for(target: ReferenceTarget) -> (key: Self)
        ensures
            key.target == target,
            key.rank() == target.rank() * addresses(),
    {
        InverseReferenceKey { target, from: Address::minimum() }
    }

    pub fn from(&self) -> (from: Address)
        ensures
            from == self.from,
    {
        self.from
    }

    pub fn target(&self) -> (target: ReferenceTarget)
        ensures
            target == self.target,
    {
        self.target
    }
}

/// What is stored of a reference under its key.
#[derive(Debug, Clone, Copy, PartialEq, Eq, Structural)]
pub struct ReferenceRecord {
    pub kind: ReferenceKind,
    pub properties: ReferenceProperties,
    pub origin: ReferenceOrigin,
}

impl ReferenceRecord {
    pub fn of(reference: &Reference) -> (record: Self)
        ensures
            record == (ReferenceRecord {
                kind: reference.kind,
                properties: reference.properties,
                origin: reference.origin,
            }),
    {
        ReferenceRecord {
            kind: reference.kind(),
            properties: reference.properties(),
            origin: reference.origin(),
        }
    }

    /// The reference that was stored under a key.
    pub fn reference(&self, from: Address, target: ReferenceTarget) -> (reference: Reference)
        ensures
            reference == (Reference {
                from,
                target,
                kind: self.kind,
                properties: self.properties,
                origin: self.origin,
            }),
    {
        Reference {
            from,
            target,
            kind: self.kind,
            properties: self.properties,
            origin: self.origin,
        }
    }

    pub fn kind(&self) -> (kind: ReferenceKind)
        ensures
            kind == self.kind,
    {
        self.kind
    }

    pub fn properties(&self) -> (properties: ReferenceProperties)
        ensures
            properties == self.properties,
    {
        self.properties
    }

    pub fn origin(&self) -> (origin: ReferenceOrigin)
        ensures
            origin == self.origin,
    {
        self.origin
    }
}

} // verus!
