//! Addresses: offsets, and offsets in a space.
use core::ops::{Add, Sub};

use vstd::prelude::*;
use vstd::std_specs::convert::IntoSpec;

use crate::codec::{
    be, capacity, lemma_be_pair, lemma_take_parts, lemma_value_be, put_be, take_be, KeyCodec,
};
use crate::order::{lies_between, KeyBound, Ranked};
use crate::types::{AddressSpaceId, Confidence, ContextSet, Language, Varnode};

verus! {

/// An offset, without a space.
#[derive(Debug, Clone, Copy, PartialEq, Eq, PartialOrd, Ord, Hash, Structural)]
pub struct RawAddress(pub u64);

/// The number of offsets in a space.
pub open spec fn offsets() -> int {
    0x1_0000_0000_0000_0000
}

impl Default for RawAddress {
    fn default() -> (address: Self)
        ensures
            address.0 == 0,
    {
        RawAddress(0)
    }
}

impl Ranked for RawAddress {
    open spec fn rank(self) -> int {
        self.0 as int
    }

    proof fn lemma_rank_injective(a: Self, b: Self) {
    }

    fn precedes(&self, other: &Self) -> (before: bool) {
        self.0 < other.0
    }
}

/// Eight bytes tell as many values apart as a space has offsets.
pub proof fn lemma_offset_capacity()
    ensures
        capacity(8) == offsets(),
{
    reveal_with_fuel(capacity, 9);
}

impl KeyCodec for RawAddress {
    open spec fn width() -> nat {
        8
    }

    proof fn lemma_rank_fits(key: Self) {
        lemma_offset_capacity();
    }

    fn encode(&self, output: &mut Vec<u8>) {
        put_be(output, 8, self.0);
    }

    fn decode(input: &mut &[u8]) -> (key: Option<Self>) {
        let ghost before = input@;
        match take_be(input, 8) {
            Some(value) => {
                proof {
                    lemma_value_be(before.take(8));
                }
                Some(RawAddress(value))
            },
            None => None,
        }
    }
}

impl From<u64> for RawAddress {
    fn from(v: u64) -> (r: Self) {
        RawAddress(v)
    }
}

impl vstd::std_specs::convert::FromSpecImpl<u64> for RawAddress {
    open spec fn obeys_from_spec() -> bool {
        true
    }

    open spec fn from_spec(v: u64) -> Self {
        RawAddress(v)
    }
}

impl From<u32> for RawAddress {
    fn from(v: u32) -> (r: Self) {
        RawAddress(v as u64)
    }
}

impl vstd::std_specs::convert::FromSpecImpl<u32> for RawAddress {
    open spec fn obeys_from_spec() -> bool {
        true
    }

    open spec fn from_spec(v: u32) -> Self {
        RawAddress(v as u64)
    }
}

impl From<u16> for RawAddress {
    fn from(v: u16) -> (r: Self) {
        RawAddress(v as u64)
    }
}

impl vstd::std_specs::convert::FromSpecImpl<u16> for RawAddress {
    open spec fn obeys_from_spec() -> bool {
        true
    }

    open spec fn from_spec(v: u16) -> Self {
        RawAddress(v as u64)
    }
}

impl From<u8> for RawAddress {
    fn from(v: u8) -> (r: Self) {
        RawAddress(v as u64)
    }
}

impl vstd::std_specs::convert::FromSpecImpl<u8> for RawAddress {
    open spec fn obeys_from_spec() -> bool {
        true
    }

    open spec fn from_spec(v: u8) -> Self {
        RawAddress(v as u64)
    }
}

impl From<usize> for RawAddress {
    fn from(v: usize) -> (r: Self) {
        RawAddress(v as u64)
    }
}

impl vstd::std_specs::convert::FromSpecImpl<usize> for RawAddress {
    open spec fn obeys_from_spec() -> bool {
        true
    }

    open spec fn from_spec(v: usize) -> Self {
        RawAddress(v as u64)
    }
}

impl From<i32> for RawAddress {
    fn from(v: i32) -> (r: Self) {
        RawAddress(#[verifier::truncate] (v as u64))
    }
}

impl vstd::std_specs::convert::FromSpecImpl<i32> for RawAddress {
    open spec fn obeys_from_spec() -> bool {
        true
    }

    open spec fn from_spec(v: i32) -> Self {
        RawAddress(v as u64)
    }
}

impl From<RawAddress> for u64 {
    fn from(v: RawAddress) -> (r: Self) {
        v.0
    }
}

impl vstd::std_specs::convert::FromSpecImpl<RawAddress> for u64 {
    open spec fn obeys_from_spec() -> bool {
        true
    }

    open spec fn from_spec(v: RawAddress) -> Self {
        v.0
    }
}

impl From<RawAddress> for u32 {
    fn from(v: RawAddress) -> (r: Self) {
        #[verifier::truncate] (v.0 as u32)
    }
}

impl vstd::std_specs::convert::FromSpecImpl<RawAddress> for u32 {
    open spec fn obeys_from_spec() -> bool {
        true
    }

    open spec fn from_spec(v: RawAddress) -> Self {
        v.0 as u32
    }
}

impl From<RawAddress> for u16 {
    fn from(v: RawAddress) -> (r: Self) {
        #[verifier::truncate] (v.0 as u16)
    }
}

impl vstd::std_specs::convert::FromSpecImpl<RawAddress> for u16 {
    open spec fn obeys_from_spec() -> bool {
        true
    }

    open spec fn from_spec(v: RawAddress) -> Self {
        v.0 as u16
    }
}

impl From<RawAddress> for u8 {
    fn from(v: RawAddress) -> (r: Self) {
        #[verifier::truncate] (v.0 as u8)
    }
}

impl vstd::std_specs::convert::FromSpecImpl<RawAddress> for u8 {
    open spec fn obeys_from_spec() -> bool {
        true
    }

    open spec fn from_spec(v: RawAddress) -> Self {
        v.0 as u8
    }
}

impl From<RawAddress> for usize {
    fn from(v: RawAddress) -> (r: Self) {
        #[verifier::truncate] (v.0 as usize)
    }
}

impl vstd::std_specs::convert::FromSpecImpl<RawAddress> for usize {
    open spec fn obeys_from_spec() -> bool {
        true
    }

    open spec fn from_spec(v: RawAddress) -> Self {
        v.0 as usize
    }
}

impl PartialEq<u64> for RawAddress {
    fn eq(&self, other: &u64) -> (same: bool) {
        self.0 == *other
    }
}

impl vstd::std_specs::cmp::PartialEqSpecImpl<u64> for RawAddress {
    open spec fn obeys_eq_spec() -> bool {
        true
    }

    open spec fn eq_spec(&self, other: &u64) -> bool {
        self.0 == *other
    }
}

impl PartialEq<u32> for RawAddress {
    fn eq(&self, other: &u32) -> (same: bool) {
        self.0 == *other as u64
    }
}

impl vstd::std_specs::cmp::PartialEqSpecImpl<u32> for RawAddress {
    open spec fn obeys_eq_spec() -> bool {
        true
    }

    open spec fn eq_spec(&self, other: &u32) -> bool {
        self.0 == *other as u64
    }
}

impl PartialEq<u16> for RawAddress {
    fn eq(&self, other: &u16) -> (same: bool) {
        self.0 == *other as u64
    }
}

impl vstd::std_specs::cmp::PartialEqSpecImpl<u16> for RawAddress {
    open spec fn obeys_eq_spec() -> bool {
        true
    }

    open spec fn eq_spec(&self, other: &u16) -> bool {
        self.0 == *other as u64
    }
}

impl PartialEq<u8> for RawAddress {
    fn eq(&self, other: &u8) -> (same: bool) {
        self.0 == *other as u64
    }
}

impl vstd::std_specs::cmp::PartialEqSpecImpl<u8> for RawAddress {
    open spec fn obeys_eq_spec() -> bool {
        true
    }

    open spec fn eq_spec(&self, other: &u8) -> bool {
        self.0 == *other as u64
    }
}

impl PartialEq<RawAddress> for u64 {
    fn eq(&self, other: &RawAddress) -> (same: bool) {
        *self == other.0
    }
}

impl vstd::std_specs::cmp::PartialEqSpecImpl<RawAddress> for u64 {
    open spec fn obeys_eq_spec() -> bool {
        true
    }

    open spec fn eq_spec(&self, other: &RawAddress) -> bool {
        *self == other.0
    }
}

impl PartialEq<RawAddress> for u32 {
    fn eq(&self, other: &RawAddress) -> (same: bool) {
        *self as u64 == other.0
    }
}

impl vstd::std_specs::cmp::PartialEqSpecImpl<RawAddress> for u32 {
    open spec fn obeys_eq_spec() -> bool {
        true
    }

    open spec fn eq_spec(&self, other: &RawAddress) -> bool {
        *self as u64 == other.0
    }
}

impl PartialEq<RawAddress> for u16 {
    fn eq(&self, other: &RawAddress) -> (same: bool) {
        *self as u64 == other.0
    }
}

impl vstd::std_specs::cmp::PartialEqSpecImpl<RawAddress> for u16 {
    open spec fn obeys_eq_spec() -> bool {
        true
    }

    open spec fn eq_spec(&self, other: &RawAddress) -> bool {
        *self as u64 == other.0
    }
}

impl PartialEq<RawAddress> for u8 {
    fn eq(&self, other: &RawAddress) -> (same: bool) {
        *self as u64 == other.0
    }
}

impl vstd::std_specs::cmp::PartialEqSpecImpl<RawAddress> for u8 {
    open spec fn obeys_eq_spec() -> bool {
        true
    }

    open spec fn eq_spec(&self, other: &RawAddress) -> bool {
        *self as u64 == other.0
    }
}

impl PartialEq<RawAddress> for usize {
    fn eq(&self, other: &RawAddress) -> (same: bool) {
        *self as u64 == other.0
    }
}

impl vstd::std_specs::cmp::PartialEqSpecImpl<RawAddress> for usize {
    open spec fn obeys_eq_spec() -> bool {
        true
    }

    open spec fn eq_spec(&self, other: &RawAddress) -> bool {
        *self as u64 == other.0
    }
}

impl Add<RawAddress> for RawAddress {
    type Output = RawAddress;

    fn add(self, rhs: RawAddress) -> (r: RawAddress) {
        RawAddress(self.0.wrapping_add(rhs.0))
    }
}

impl vstd::std_specs::ops::AddSpecImpl<RawAddress> for RawAddress {
    open spec fn obeys_add_spec() -> bool {
        true
    }

    open spec fn add_req(self, rhs: RawAddress) -> bool {
        true
    }

    open spec fn add_spec(self, rhs: RawAddress) -> RawAddress {
        RawAddress(self.0.wrapping_add(rhs.0))
    }
}

impl Add<usize> for RawAddress {
    type Output = RawAddress;

    fn add(self, rhs: usize) -> (r: RawAddress) {
        RawAddress(self.0.wrapping_add(rhs as u64))
    }
}

impl vstd::std_specs::ops::AddSpecImpl<usize> for RawAddress {
    open spec fn obeys_add_spec() -> bool {
        true
    }

    open spec fn add_req(self, rhs: usize) -> bool {
        true
    }

    open spec fn add_spec(self, rhs: usize) -> RawAddress {
        RawAddress(self.0.wrapping_add(rhs as u64))
    }
}

impl Add<u64> for RawAddress {
    type Output = RawAddress;

    fn add(self, rhs: u64) -> (r: RawAddress) {
        RawAddress(self.0.wrapping_add(rhs))
    }
}

impl vstd::std_specs::ops::AddSpecImpl<u64> for RawAddress {
    open spec fn obeys_add_spec() -> bool {
        true
    }

    open spec fn add_req(self, rhs: u64) -> bool {
        true
    }

    open spec fn add_spec(self, rhs: u64) -> RawAddress {
        RawAddress(self.0.wrapping_add(rhs))
    }
}

impl Add<u32> for RawAddress {
    type Output = RawAddress;

    fn add(self, rhs: u32) -> (r: RawAddress) {
        RawAddress(self.0.wrapping_add(rhs as u64))
    }
}

impl vstd::std_specs::ops::AddSpecImpl<u32> for RawAddress {
    open spec fn obeys_add_spec() -> bool {
        true
    }

    open spec fn add_req(self, rhs: u32) -> bool {
        true
    }

    open spec fn add_spec(self, rhs: u32) -> RawAddress {
        RawAddress(self.0.wrapping_add(rhs as u64))
    }
}

impl Sub<RawAddress> for RawAddress {
    type Output = RawAddress;

    fn sub(self, rhs: RawAddress) -> (r: RawAddress) {
        RawAddress(self.0.wrapping_sub(rhs.0))
    }
}

impl vstd::std_specs::ops::SubSpecImpl<RawAddress> for RawAddress {
    open spec fn obeys_sub_spec() -> bool {
        true
    }

    open spec fn sub_req(self, rhs: RawAddress) -> bool {
        true
    }

    open spec fn sub_spec(self, rhs: RawAddress) -> RawAddress {
        RawAddress(self.0.wrapping_sub(rhs.0))
    }
}

impl Sub<usize> for RawAddress {
    type Output = RawAddress;

    fn sub(self, rhs: usize) -> (r: RawAddress) {
        RawAddress(self.0.wrapping_sub(rhs as u64))
    }
}

impl vstd::std_specs::ops::SubSpecImpl<usize> for RawAddress {
    open spec fn obeys_sub_spec() -> bool {
        true
    }

    open spec fn sub_req(self, rhs: usize) -> bool {
        true
    }

    open spec fn sub_spec(self, rhs: usize) -> RawAddress {
        RawAddress(self.0.wrapping_sub(rhs as u64))
    }
}

impl Sub<u64> for RawAddress {
    type Output = RawAddress;

    fn sub(self, rhs: u64) -> (r: RawAddress) {
        RawAddress(self.0.wrapping_sub(rhs))
    }
}

impl vstd::std_specs::ops::SubSpecImpl<u64> for RawAddress {
    open spec fn obeys_sub_spec() -> bool {
        true
    }

    open spec fn sub_req(self, rhs: u64) -> bool {
        true
    }

    open spec fn sub_spec(self, rhs: u64) -> RawAddress {
        RawAddress(self.0.wrapping_sub(rhs))
    }
}

impl Sub<u32> for RawAddress {
    type Output = RawAddress;

    fn sub(self, rhs: u32) -> (r: RawAddress) {
        RawAddress(self.0.wrapping_sub(rhs as u64))
    }
}

impl vstd::std_specs::ops::SubSpecImpl<u32> for RawAddress {
    open spec fn obeys_sub_spec() -> bool {
        true
    }

    open spec fn sub_req(self, rhs: u32) -> bool {
        true
    }

    open spec fn sub_spec(self, rhs: u32) -> RawAddress {
        RawAddress(self.0.wrapping_sub(rhs as u64))
    }
}

/// Whether `alignment` is one bit.
pub open spec fn is_power_of_two(alignment: u64) -> bool {
    alignment != 0 && alignment & ((alignment - 1) as u64) == 0
}

/// The mask of the bits below an alignment; all bits for no alignment.
pub open spec fn alignment_mask(alignment: u64) -> u64 {
    alignment.wrapping_sub(1)
}

/// Clearing the bits below a power of two goes down to its next multiple.
pub proof fn lemma_mask_rounds_down(offset: u64, alignment: u64)
    requires
        is_power_of_two(alignment),
    ensures
        offset & !alignment_mask(alignment) <= offset,
        offset - (offset & !alignment_mask(alignment)) < alignment,
        (offset & !alignment_mask(alignment)) & alignment_mask(alignment) == 0,
{
    let mask = alignment_mask(alignment);
    assert(offset & !mask <= offset) by (bit_vector);
    assert(offset - (offset & !mask) == offset & mask) by (bit_vector);
    assert(offset & mask <= mask) by (bit_vector);
    assert((offset & !mask) & mask == 0) by (bit_vector);
}

impl RawAddress {
    /// The highest offset.
    pub fn max_value() -> (address: Self)
        ensures
            address.0 == u64::MAX,
    {
        RawAddress(u64::MAX)
    }

    pub fn zero() -> (address: Self)
        ensures
            address.0 == 0,
    {
        RawAddress(0)
    }

    pub fn new<A: Into<RawAddress>>(address: A) -> (r: Self)
        ensures
            A::obeys_into_spec() ==> r == address.into_spec(),
    {
        address.into()
    }

    pub fn offset(&self) -> (offset: u64)
        ensures
            offset == self.0,
    {
        self.0
    }

    /// How far this address is above `base`, if it is not below it.
    pub fn checked_offset_from(&self, base: RawAddress) -> (distance: Option<u64>)
        ensures
            distance is Some == (base.0 <= self.0),
            distance matches Some(d) ==> d == self.0 - base.0,
    {
        self.0.checked_sub(base.0)
    }

    /// Clears the bits below `alignment`. For a power of two this is the nearest multiple
    /// that is not above.
    pub fn align_down(&self, alignment: usize) -> (aligned: RawAddress)
        ensures
            aligned.0 == self.0 & !alignment_mask(alignment as u64),
            is_power_of_two(alignment as u64) ==> aligned.0 <= self.0 && self.0 - aligned.0
                < alignment && aligned.0 & alignment_mask(alignment as u64) == 0,
    {
        proof {
            if is_power_of_two(alignment as u64) {
                lemma_mask_rounds_down(self.0, alignment as u64);
            }
        }
        RawAddress(self.0 & !(alignment as u64).wrapping_sub(1))
    }

    pub fn checked_add<A: Into<RawAddress>>(&self, offset: A) -> (r: Option<Self>)
        ensures
            A::obeys_into_spec() ==> r is Some == (self.0 + offset.into_spec().0 < offsets()),
            A::obeys_into_spec() ==> (r matches Some(a) ==> a.0 == self.0 + offset.into_spec().0),
    {
        let offset: RawAddress = offset.into();
        match self.0.checked_add(offset.0) {
            Some(value) => Some(RawAddress(value)),
            None => None,
        }
    }

    pub fn checked_sub<A: Into<RawAddress>>(&self, offset: A) -> (r: Option<Self>)
        ensures
            A::obeys_into_spec() ==> r is Some == (offset.into_spec().0 <= self.0),
            A::obeys_into_spec() ==> (r matches Some(a) ==> a.0 == self.0 - offset.into_spec().0),
    {
        let offset: RawAddress = offset.into();
        match self.0.checked_sub(offset.0) {
            Some(value) => Some(RawAddress(value)),
            None => None,
        }
    }

    /// Goes up to the next multiple of `alignment`, round the end of the space where there is
    /// none above.
    pub fn align(&self, alignment: usize) -> (aligned: RawAddress)
        ensures
            aligned.0 == self.0.wrapping_add(alignment.wrapping_sub(1) as u64) & !alignment_mask(
                alignment as u64,
            ),
            is_power_of_two(alignment as u64) && self.0 + alignment <= offsets() ==> self.0
                <= aligned.0 && aligned.0 - self.0 < alignment && aligned.0 & alignment_mask(
                alignment as u64,
            ) == 0,
    {
        let above: RawAddress = *self + alignment.wrapping_sub(1);
        proof {
            if is_power_of_two(alignment as u64) {
                lemma_mask_rounds_down(above.0, alignment as u64);
            }
        }
        RawAddress(above.0 & !(alignment as u64).wrapping_sub(1))
    }

    /// The distance between two addresses, whichever is above.
    pub fn absolute_difference(&self, other: &RawAddress) -> (distance: u64)
        ensures
            distance == if self.0 >= other.0 {
                self.0 - other.0
            } else {
                other.0 - self.0
            },
    {
        if self.0 >= other.0 {
            self.0.wrapping_sub(other.0)
        } else {
            other.0.wrapping_sub(self.0)
        }
    }

    /// Brings the address into the language's default space.
    pub fn wrap(&self, language: &Language) -> (wrapped: RawAddress)
        ensures
            wrapped.0 == self.0 as int % (language.highest + 1),
    {
        RawAddress(language.wrap_offset_in_default_space(self.0))
    }

    pub fn wrap_and_align(&self, language: &Language) -> (aligned: RawAddress)
        ensures
            aligned.0 == ((self.0 as int % (language.highest + 1)) as u64).wrapping_add(
                language.alignment.wrapping_sub(1) as u64,
            ) & !alignment_mask(language.alignment as u64),
    {
        self.wrap_and_align_with(language, language.address_alignment())
    }

    pub fn wrap_and_align_with(&self, language: &Language, alignment: usize) -> (aligned:
        RawAddress)
        ensures
            aligned.0 == ((self.0 as int % (language.highest + 1)) as u64).wrapping_add(
                alignment.wrapping_sub(1) as u64,
            ) & !alignment_mask(alignment as u64),
    {
        self.wrap(language).align(alignment)
    }

    /// Whether the address lies in the language's default space.
    pub fn in_space_bounds(&self, language: &Language) -> (inside: bool)
        ensures
            inside == (self.0 <= language.highest),
    {
        proof {
            if self.0 <= language.highest {
                vstd::arithmetic::div_mod::lemma_small_mod(
                    self.0 as nat,
                    (language.highest + 1) as nat,
                );
            } else {
                vstd::arithmetic::div_mod::lemma_mod_bound(
                    self.0 as int,
                    (language.highest + 1) as int,
                );
            }
        }
        *self == self.wrap(language)
    }

    /// Whether the address and the one `size` above it lie in the language's default space,
    /// with no wrap between them.
    pub fn range_in_space_bounds(&self, language: &Language, size: usize) -> (inside: bool)
        ensures
            inside == (self.0 + size <= language.highest),
    {
        let upper: RawAddress = *self + size;
        self.0 <= upper.0 && self.in_space_bounds(language) && upper.in_space_bounds(language)
    }
}

/// A value that may stand for an address of a language's default space.
pub trait ToRawAddress {
    /// The address in the default space that the value stands for, if it stands for one.
    spec fn default_space_address(&self, language: &Language) -> Option<RawAddress>;

    fn to_address(&self, language: &Language) -> (address: Option<RawAddress>)
        ensures
            address == self.default_space_address(language),
    ;
}

impl ToRawAddress for Varnode {
    open spec fn default_space_address(&self, language: &Language) -> Option<RawAddress> {
        if self.space == language.default_space {
            Some(RawAddress(self.offset))
        } else {
            None
        }
    }

    fn to_address(&self, language: &Language) -> (address: Option<RawAddress>) {
        if language.in_default_space(self) {
            Some(RawAddress::from(self.offset))
        } else {
            None
        }
    }
}

/// An offset in a space.
#[derive(Debug, Clone, Copy, PartialEq, Eq, PartialOrd, Ord, Hash, Structural)]
pub struct Address {
    pub space: AddressSpaceId,
    pub address: RawAddress,
}

impl Default for Address {
    fn default() -> (address: Self)
        ensures
            address.space.0 == 0,
            address.address.0 == 0,
    {
        Address { space: AddressSpaceId(0), address: RawAddress(0) }
    }
}

impl Ranked for Address {
    open spec fn rank(self) -> int {
        self.space.0 * offsets() + self.address.0
    }

    proof fn lemma_rank_injective(a: Self, b: Self) {
    }

    fn precedes(&self, other: &Self) -> (before: bool) {
        self.space.0 < other.space.0 || (self.space.0 == other.space.0 && self.address.0
            < other.address.0)
    }
}

/// Ten bytes tell as many values apart as there are addresses.
pub proof fn lemma_address_capacity()
    ensures
        capacity(10) == 0x1_0000 * offsets(),
{
    reveal_with_fuel(capacity, 11);
}

/// The bytes of an address are those of its space and then those of its offset.
pub proof fn lemma_address_bytes(address: Address)
    ensures
        be(10, address.rank()) == be(2, address.space.rank()) + be(8, address.address.rank()),
{
    lemma_offset_capacity();
    lemma_be_pair(2, 8, address.space.rank(), address.address.rank());
}

impl KeyCodec for Address {
    open spec fn width() -> nat {
        10
    }

    proof fn lemma_rank_fits(key: Self) {
        lemma_address_capacity();
    }

    fn encode(&self, output: &mut Vec<u8>) {
        let ghost before = output@;
        self.space.encode(output);
        self.address.encode(output);
        proof {
            lemma_address_bytes(*self);
            assert(output@ =~= before + (be(2, self.space.rank()) + be(8, self.address.rank())));
        }
    }

    fn decode(input: &mut &[u8]) -> (key: Option<Self>) {
        let ghost before = input@;
        let space: AddressSpaceId = match AddressSpaceId::decode(input) {
            Some(space) => space,
            None => {
                proof {
                    if before.len() >= 2 {
                        lemma_value_be(before.take(2));
                        reveal_with_fuel(capacity, 3);
                        let k = AddressSpaceId(be_u16(before.take(2)));
                        assert(be(2, k.rank()) == before.take(2));
                    }
                }
                return None;
            },
        };
        let ghost rest = input@;
        let address: RawAddress = match RawAddress::decode(input) {
            Some(address) => address,
            None => {
                proof {
                    if rest.len() >= 8 {
                        lemma_value_be(rest.take(8));
                        lemma_offset_capacity();
                        let k = RawAddress(be_u64(rest.take(8)));
                        assert(be(8, k.rank()) == rest.take(8));
                    }
                }
                return None;
            },
        };
        let key = Address { space, address };
        proof {
            lemma_address_bytes(key);
            lemma_take_parts(before, 2, 8);
        }
        Some(key)
    }
}

spec fn be_u16(bytes: Seq<u8>) -> u16 {
    crate::codec::be_value(bytes) as u16
}

spec fn be_u64(bytes: Seq<u8>) -> u64 {
    crate::codec::be_value(bytes) as u64
}

impl From<u64> for Address {
    fn from(v: u64) -> (r: Self) {
        Address { space: AddressSpaceId(0), address: RawAddress(v) }
    }
}

impl vstd::std_specs::convert::FromSpecImpl<u64> for Address {
    open spec fn obeys_from_spec() -> bool {
        true
    }

    open spec fn from_spec(v: u64) -> Self {
        Address { space: AddressSpaceId(0), address: RawAddress(v) }
    }
}

impl From<u32> for Address {
    fn from(v: u32) -> (r: Self) {
        Address { space: AddressSpaceId(0), address: RawAddress(v as u64) }
    }
}

impl vstd::std_specs::convert::FromSpecImpl<u32> for Address {
    open spec fn obeys_from_spec() -> bool {
        true
    }

    open spec fn from_spec(v: u32) -> Self {
        Address { space: AddressSpaceId(0), address: RawAddress(v as u64) }
    }
}

impl From<u16> for Address {
    fn from(v: u16) -> (r: Self) {
        Address { space: AddressSpaceId(0), address: RawAddress(v as u64) }
    }
}

impl vstd::std_specs::convert::FromSpecImpl<u16> for Address {
    open spec fn obeys_from_spec() -> bool {
        true
    }

    open spec fn from_spec(v: u16) -> Self {
        Address { space: AddressSpaceId(0), address: RawAddress(v as u64) }
    }
}

impl From<u8> for Address {
    fn from(v: u8) -> (r: Self) {
        Address { space: AddressSpaceId(0), address: RawAddress(v as u64) }
    }
}

impl vstd::std_specs::convert::FromSpecImpl<u8> for Address {
    open spec fn obeys_from_spec() -> bool {
        true
    }

    open spec fn from_spec(v: u8) -> Self {
        Address { space: AddressSpaceId(0), address: RawAddress(v as u64) }
    }
}

impl From<i32> for Address {
    fn from(v: i32) -> (r: Self) {
        Address { space: AddressSpaceId(0), address: RawAddress(#[verifier::truncate] (v as u64)) }
    }
}

impl vstd::std_specs::convert::FromSpecImpl<i32> for Address {
    open spec fn obeys_from_spec() -> bool {
        true
    }

    open spec fn from_spec(v: i32) -> Self {
        Address { space: AddressSpaceId(0), address: RawAddress(v as u64) }
    }
}

impl From<RawAddress> for Address {
    fn from(v: RawAddress) -> (r: Self) {
        Address { space: AddressSpaceId(0), address: v }
    }
}

impl vstd::std_specs::convert::FromSpecImpl<RawAddress> for Address {
    open spec fn obeys_from_spec() -> bool {
        true
    }

    open spec fn from_spec(v: RawAddress) -> Self {
        Address { space: AddressSpaceId(0), address: v }
    }
}

impl From<Address> for RawAddress {
    fn from(v: Address) -> (r: Self) {
        v.address
    }
}

impl vstd::std_specs::convert::FromSpecImpl<Address> for RawAddress {
    open spec fn obeys_from_spec() -> bool {
        true
    }

    open spec fn from_spec(v: Address) -> Self {
        v.address
    }
}

impl From<Address> for u64 {
    fn from(v: Address) -> (r: Self) {
        v.address.0
    }
}

impl vstd::std_specs::convert::FromSpecImpl<Address> for u64 {
    open spec fn obeys_from_spec() -> bool {
        true
    }

    open spec fn from_spec(v: Address) -> Self {
        v.address.0
    }
}

impl From<Address> for u32 {
    fn from(v: Address) -> (r: Self) {
        #[verifier::truncate] (v.address.0 as u32)
    }
}

impl vstd::std_specs::convert::FromSpecImpl<Address> for u32 {
    open spec fn obeys_from_spec() -> bool {
        true
    }

    open spec fn from_spec(v: Address) -> Self {
        v.address.0 as u32
    }
}

impl From<Address> for usize {
    fn from(v: Address) -> (r: Self) {
        #[verifier::truncate] (v.address.0 as usize)
    }
}

impl vstd::std_specs::convert::FromSpecImpl<Address> for usize {
    open spec fn obeys_from_spec() -> bool {
        true
    }

    open spec fn from_spec(v: Address) -> Self {
        v.address.0 as usize
    }
}

impl Add<Address> for Address {
    type Output = Address;

    fn add(self, rhs: Address) -> (r: Address) {
        Address { space: self.space, address: RawAddress(self.address.0.wrapping_add(rhs.address.0)) }
    }
}

impl vstd::std_specs::ops::AddSpecImpl<Address> for Address {
    open spec fn obeys_add_spec() -> bool {
        true
    }

    open spec fn add_req(self, rhs: Address) -> bool {
        self.space == rhs.space
    }

    open spec fn add_spec(self, rhs: Address) -> Address {
        Address { space: self.space, address: RawAddress(self.address.0.wrapping_add(rhs.address.0)) }
    }
}

impl Add<usize> for Address {
    type Output = Address;

    fn add(self, rhs: usize) -> (r: Address) {
        Address { space: self.space, address: RawAddress(self.address.0.wrapping_add(rhs as u64)) }
    }
}

impl vstd::std_specs::ops::AddSpecImpl<usize> for Address {
    open spec fn obeys_add_spec() -> bool {
        true
    }

    open spec fn add_req(self, rhs: usize) -> bool {
        true
    }

    open spec fn add_spec(self, rhs: usize) -> Address {
        Address { space: self.space, address: RawAddress(self.address.0.wrapping_add(rhs as u64)) }
    }
}

impl Add<u64> for Address {
    type Output = Address;

    fn add(self, rhs: u64) -> (r: Address) {
        Address { space: self.space, address: RawAddress(self.address.0.wrapping_add(rhs)) }
    }
}

impl vstd::std_specs::ops::AddSpecImpl<u64> for Address {
    open spec fn obeys_add_spec() -> bool {
        true
    }

    open spec fn add_req(self, rhs: u64) -> bool {
        true
    }

    open spec fn add_spec(self, rhs: u64) -> Address {
        Address { space: self.space, address: RawAddress(self.address.0.wrapping_add(rhs)) }
    }
}

impl Add<u32> for Address {
    type Output = Address;

    fn add(self, rhs: u32) -> (r: Address) {
        Address { space: self.space, address: RawAddress(self.address.0.wrapping_add(rhs as u64)) }
    }
}

impl vstd::std_specs::ops::AddSpecImpl<u32> for Address {
    open spec fn obeys_add_spec() -> bool {
        true
    }

    open spec fn add_req(self, rhs: u32) -> bool {
        true
    }

    open spec fn add_spec(self, rhs: u32) -> Address {
        Address { space: self.space, address: RawAddress(self.address.0.wrapping_add(rhs as u64)) }
    }
}

impl Sub<Address> for Address {
    type Output = Address;

    fn sub(self, rhs: Address) -> (r: Address) {
        Address { space: self.space, address: RawAddress(self.address.0.wrapping_sub(rhs.address.0)) }
    }
}

impl vstd::std_specs::ops::SubSpecImpl<Address> for Address {
    open spec fn obeys_sub_spec() -> bool {
        true
    }

    open spec fn sub_req(self, rhs: Address) -> bool {
        self.space == rhs.space
    }

    open spec fn sub_spec(self, rhs: Address) -> Address {
        Address { space: self.space, address: RawAddress(self.address.0.wrapping_sub(rhs.address.0)) }
    }
}

impl Sub<usize> for Address {
    type Output = Address;

    fn sub(self, rhs: usize) -> (r: Address) {
        Address { space: self.space, address: RawAddress(self.address.0.wrapping_sub(rhs as u64)) }
    }
}

impl vstd::std_specs::ops::SubSpecImpl<usize> for Address {
    open spec fn obeys_sub_spec() -> bool {
        true
    }

    open spec fn sub_req(self, rhs: usize) -> bool {
        true
    }

    open spec fn sub_spec(self, rhs: usize) -> Address {
        Address { space: self.space, address: RawAddress(self.address.0.wrapping_sub(rhs as u64)) }
    }
}

impl Sub<u64> for Address {
    type Output = Address;

    fn sub(self, rhs: u64) -> (r: Address) {
        Address { space: self.space, address: RawAddress(self.address.0.wrapping_sub(rhs)) }
    }
}

impl vstd::std_specs::ops::SubSpecImpl<u64> for Address {
    open spec fn obeys_sub_spec() -> bool {
        true
    }

    open spec fn sub_req(self, rhs: u64) -> bool {
        true
    }

    open spec fn sub_spec(self, rhs: u64) -> Address {
        Address { space: self.space, address: RawAddress(self.address.0.wrapping_sub(rhs)) }
    }
}

impl Sub<u32> for Address {
    type Output = Address;

    fn sub(self, rhs: u32) -> (r: Address) {
        Address { space: self.space, address: RawAddress(self.address.0.wrapping_sub(rhs as u64)) }
    }
}

impl vstd::std_specs::ops::SubSpecImpl<u32> for Address {
    open spec fn obeys_sub_spec() -> bool {
        true
    }

    open spec fn sub_req(self, rhs: u32) -> bool {
        true
    }

    open spec fn sub_spec(self, rhs: u32) -> Address {
        Address { space: self.space, address: RawAddress(self.address.0.wrapping_sub(rhs as u64)) }
    }
}

impl Address {
    /// The first address of all.
    pub fn minimum() -> (address: Self)
        ensures
            address.space.0 == 0,
            address.address.0 == 0,
            forall|other: Address| address.rank() <= #[trigger] other.rank(),
    {
        Address::zero(AddressSpaceId::new(0))
    }

    pub fn new<A: Into<RawAddress>>(space: AddressSpaceId, address: A) -> (r: Self)
        ensures
            r.space == space,
            A::obeys_into_spec() ==> r.address == address.into_spec(),
    {
        Address { space, address: address.into() }
    }

    pub fn zero(space: AddressSpaceId) -> (address: Self)
        ensures
            address == (Address { space, address: RawAddress(0) }),
    {
        Address { space, address: RawAddress::zero() }
    }

    pub fn in_default_space<A: Into<RawAddress>>(address: A) -> (r: Self)
        ensures
            r.space.0 == 0,
            A::obeys_into_spec() ==> r.address == address.into_spec(),
    {
        Address { space: AddressSpaceId::default(), address: address.into() }
    }

    pub fn in_space<A: Into<RawAddress>>(address: A, space: Option<AddressSpaceId>) -> (r: Self)
        ensures
            r.space == match space {
                Some(space) => space,
                None => AddressSpaceId(0),
            },
            A::obeys_into_spec() ==> r.address == address.into_spec(),
    {
        match space {
            Some(space_id) => Address::new(space_id, address),
            None => Address::in_default_space(address),
        }
    }

    pub fn raw_address(&self) -> (address: RawAddress)
        ensures
            address == self.address,
    {
        self.address
    }

    pub fn space(&self) -> (space: AddressSpaceId)
        ensures
            space == self.space,
    {
        self.space
    }

    pub fn offset(&self) -> (offset: u64)
        ensures
            offset == self.address.0,
    {
        self.address.offset()
    }

    pub fn in_space_bounds(&self, language: &Language) -> (inside: bool)
        ensures
            inside == (self.address.0 <= language.highest),
    {
        self.address.in_space_bounds(language)
    }

    pub fn range_in_space_bounds(&self, language: &Language, size: usize) -> (inside: bool)
        ensures
            inside == (self.address.0 + size <= language.highest),
    {
        self.address.range_in_space_bounds(language, size)
    }

    /// The span of the addresses of a space whose offsets lie in a span.
    pub fn bounds_in_space(
        space: AddressSpaceId,
        start: KeyBound<RawAddress>,
        end: KeyBound<RawAddress>,
    ) -> (bounds: (KeyBound<Address>, KeyBound<Address>))
        ensures
            forall|a: Address|
                #![trigger lies_between(bounds.0, bounds.1, a)]
                lies_between(bounds.0, bounds.1, a) <==> a.space == space && lies_between(
                    start,
                    end,
                    a.address,
                ),
    {
        let first: KeyBound<Address> = match start {
            KeyBound::Included(address) => KeyBound::Included(Address { space, address }),
            KeyBound::Excluded(address) => KeyBound::Excluded(Address { space, address }),
            KeyBound::Unbounded => KeyBound::Included(Address::zero(space)),
        };
        let last: KeyBound<Address> = match end {
            KeyBound::Included(address) => KeyBound::Included(Address { space, address }),
            KeyBound::Excluded(address) => KeyBound::Excluded(Address { space, address }),
            KeyBound::Unbounded => KeyBound::Included(
                Address { space, address: RawAddress::max_value() },
            ),
        };
        (first, last)
    }

    pub fn checked_add<A: Into<RawAddress>>(&self, offset: A) -> (r: Option<Self>)
        ensures
            A::obeys_into_spec() ==> r is Some == (self.address.0 + offset.into_spec().0
                < offsets()),
            A::obeys_into_spec() ==> (r matches Some(a) ==> a.space == self.space && a.address.0
                == self.address.0 + offset.into_spec().0),
    {
        match self.raw_address().checked_add(offset) {
            Some(address) => Some(Address { space: self.space, address }),
            None => None,
        }
    }

    pub fn checked_sub<A: Into<RawAddress>>(&self, offset: A) -> (r: Option<Self>)
        ensures
            A::obeys_into_spec() ==> r is Some == (offset.into_spec().0 <= self.address.0),
            A::obeys_into_spec() ==> (r matches Some(a) ==> a.space == self.space && a.address.0
                == self.address.0 - offset.into_spec().0),
    {
        match self.raw_address().checked_sub(offset) {
            Some(address) => Some(Address { space: self.space, address }),
            None => None,
        }
    }

    /// How far this address is above `base`, if both lie in one space and it is not below.
    pub fn checked_offset_from(&self, base: Address) -> (distance: Option<u64>)
        ensures
            distance is Some == (self.space == base.space && base.address.0 <= self.address.0),
            distance matches Some(d) ==> d == self.address.0 - base.address.0,
    {
        if self.space != base.space {
            return None;
        }
        self.address.checked_offset_from(base.address)
    }

    pub fn wrap(&self, language: &Language) -> (wrapped: Self)
        ensures
            wrapped.space == self.space,
            wrapped.address.0 == self.address.0 as int % (language.highest + 1),
    {
        Address { space: self.space, address: self.address.wrap(language) }
    }

    /// Goes up to the next multiple of `alignment` within the space.
    pub fn align(&self, alignment: usize) -> (aligned: Self)
        ensures
            aligned.space == self.space,
            aligned.address.0 == self.address.0.wrapping_add(alignment.wrapping_sub(1) as u64)
                & !alignment_mask(alignment as u64),
            is_power_of_two(alignment as u64) && self.address.0 + alignment <= offsets()
                ==> self.address.0 <= aligned.address.0 && aligned.address.0 - self.address.0
                < alignment && aligned.address.0 & alignment_mask(alignment as u64) == 0,
    {
        Address { space: self.space, address: self.address.align(alignment) }
    }
}

/// An address with the context to decode it in and how sure the address is.
#[derive(Debug)]
pub struct AddressWithContext {
    pub address: Address,
    pub context: ContextSet,
    pub confidence: Confidence,
}

impl AddressWithContext {
    pub fn new<A: Into<Address>>(address: A, context: ContextSet) -> (r: Self)
        ensures
            A::obeys_into_spec() ==> r.address == address.into_spec(),
            r.context == context,
            r.confidence == Confidence::Certain,
    {
        AddressWithContext::new_with(address, context, Confidence::certain())
    }

    pub fn new_with<A: Into<Address>>(
        address: A,
        context: ContextSet,
        confidence: Confidence,
    ) -> (r: Self)
        ensures
            A::obeys_into_spec() ==> r.address == address.into_spec(),
            r.context == context,
            r.confidence == confidence,
    {
        AddressWithContext { address: address.into(), context, confidence }
    }

    pub fn address(&self) -> (address: Address)
        ensures
            address == self.address,
    {
        self.address
    }

    pub fn context(&self) -> (context: &ContextSet)
        ensures
            *context == self.context,
    {
        &self.context
    }

    pub fn confidence(&self) -> (confidence: Confidence)
        ensures
            confidence == self.confidence,
    {
        self.confidence
    }

    pub fn context_mut(&mut self) -> (context: &mut ContextSet)
        ensures
            *context == old(self).context,
            *final(self) == (AddressWithContext { context: *final(context), ..*old(self) }),
    {
        &mut self.context
    }

    /// Makes the assignments of `other` on top of those of the context.
    pub fn merge_context(&mut self, other: &ContextSet)
        ensures
            final(self).address == old(self).address,
            final(self).confidence == old(self).confidence,
            final(self).context@ == crate::types::merged(old(self).context@, other@),
    {
        self.context.merge(other);
    }

    /// Raises the confidence to `other` where that is above it.
    pub fn merge_max_confidence(&mut self, other: Confidence)
        ensures
            final(self).address == old(self).address,
            final(self).context == old(self).context,
            final(self).confidence == if other.level() > old(self).confidence.level() {
                other
            } else {
                old(self).confidence
            },
    {
        if other.exceeds(&self.confidence) {
            self.confidence = other;
        }
    }

    pub fn into_parts(self) -> (parts: (Address, ContextSet))
        ensures
            parts.0 == self.address,
            parts.1 == self.context,
    {
        (self.address, self.context)
    }
}

/// A table of equally large elements in memory.
#[derive(Debug, Clone, Copy, PartialEq, Eq, Structural)]
pub struct AddressTable {
    pub address: Address,
    pub element_size: u32,
    pub element_count: u32,
    pub shift: u8,
}

impl AddressTable {
    pub fn new(address: Address, element_size: u32) -> (table: Self)
        ensures
            table == (AddressTable { address, element_size, element_count: 0, shift: 0 }),
    {
        AddressTable { address, element_size, element_count: 0, shift: 0 }
    }

    pub fn with_element_count(self, element_count: u32) -> (table: Self)
        ensures
            table == (AddressTable { element_count, ..self }),
    {
        let mut table: AddressTable = self;
        table.set_element_count(element_count);
        table
    }

    pub fn with_shift(self, shift: u8) -> (table: Self)
        ensures
            table == (AddressTable { shift, ..self }),
    {
        AddressTable { shift, ..self }
    }

    pub fn address(&self) -> (address: Address)
        ensures
            address == self.address,
    {
        self.address
    }

    pub fn element_size(&self) -> (size: u32)
        ensures
            size == self.element_size,
    {
        self.element_size
    }

    pub fn element_count(&self) -> (count: u32)
        ensures
            count == self.element_count,
    {
        self.element_count
    }

    pub fn set_element_count(&mut self, count: u32)
        ensures
            *final(self) == (AddressTable { element_count: count, ..*old(self) }),
    {
        self.element_count = count;
    }

    pub fn shift(&self) -> (shift: u8)
        ensures
            shift == self.shift,
    {
        self.shift
    }

    /// How many bytes the elements take together.
    pub fn size(&self) -> (size: u64)
        ensures
            size == self.element_count * self.element_size,
    {
        proof {
            lemma_product_fits(self.element_count, self.element_size);
        }
        self.element_count as u64 * self.element_size as u64
    }

    /// Where the element at `index` begins.
    pub fn entry_address(&self, index: u32) -> (address: Address)
        ensures
            address.space == self.address.space,
            address.address.0 == self.address.address.0.wrapping_add(
                (index * self.element_size) as u64,
            ),
    {
        proof {
            lemma_product_fits(index, self.element_size);
        }
        self.address + index as u64 * self.element_size as u64
    }

    /// The addresses that the elements take, if they take any.
    pub fn range(&self) -> (range: Option<AddressRange>)
        ensures
            range is None == (self.element_count * self.element_size == 0),
            range matches Some(r) ==> r.space == self.address.space && r.start
                == self.address.address && r.end.0 == self.address.address.0.wrapping_add(
                (self.element_count * self.element_size - 1) as u64,
            ),
    {
        let size: u64 = self.size();
        if size == 0 {
            return None;
        }
        let start: RawAddress = self.address.raw_address();
        Some(AddressRange::new(self.address.space(), start, start + size - 1u64))
    }
}

proof fn lemma_product_fits(a: u32, b: u32)
    ensures
        0 <= a * b <= u64::MAX,
{
    assert(0 <= a * b <= 0xffff_ffff * 0xffff_ffff) by (nonlinear_arith)
        requires
            0 <= a <= 0xffff_ffff,
            0 <= b <= 0xffff_ffff,
    ;
}

/// The addresses of one space from `start` to `end`, both included. There are none where
/// `end` is below `start`.
#[derive(Debug, Clone, Copy, PartialEq, Eq, PartialOrd, Ord, Hash, Structural)]
pub struct AddressRange {
    pub space: AddressSpaceId,
    pub start: RawAddress,
    pub end: RawAddress,
}

impl AddressRange {
    /// Whether the range holds an address.
    pub open spec fn holds(self, address: Address) -> bool {
        address.space == self.space && self.start.0 <= address.address.0 <= self.end.0
    }

    pub fn new(space: AddressSpaceId, start: RawAddress, end: RawAddress) -> (range: Self)
        ensures
            range == (AddressRange { space, start, end }),
    {
        AddressRange { space, start, end }
    }

    /// The `size` addresses from `start` on, if there are that many and at least one.
    pub fn from_size(start: Address, size: u64) -> (range: Option<Self>)
        ensures
            range is Some == (0 < size && start.address.0 + size <= offsets()),
            range matches Some(r) ==> r.space == start.space && r.start == start.address
                && r.end.0 == start.address.0 + size - 1,
    {
        if size == 0 {
            return None;
        }
        match start.address.0.checked_add(size - 1) {
            Some(end) => Some(AddressRange::new(start.space(), start.raw_address(), RawAddress(end))),
            None => None,
        }
    }

    pub fn point(address: Address) -> (range: Self)
        ensures
            range == (AddressRange {
                space: address.space,
                start: address.address,
                end: address.address,
            }),
    {
        AddressRange::new(address.space(), address.raw_address(), address.raw_address())
    }

    pub fn space(&self) -> (space: AddressSpaceId)
        ensures
            space == self.space,
    {
        self.space
    }

    pub fn start(&self) -> (start: RawAddress)
        ensures
            start == self.start,
    {
        self.start
    }

    pub fn end(&self) -> (end: RawAddress)
        ensures
            end == self.end,
    {
        self.end
    }

    /// How many addresses the range spans, at most `u64::MAX`. An empty range spans one.
    pub fn size(&self) -> (size: u64)
        ensures
            size == if self.end.0 < self.start.0 {
                1
            } else if self.end.0 - self.start.0 == u64::MAX {
                u64::MAX as int
            } else {
                self.end.0 - self.start.0 + 1
            },
    {
        self.end.offset().saturating_sub(self.start.offset()).saturating_add(1)
    }

    pub fn is_empty(&self) -> (empty: bool)
        ensures
            empty == (self.end.0 < self.start.0),
    {
        self.end.0 < self.start.0
    }

    pub fn contains(&self, address: RawAddress) -> (inside: bool)
        ensures
            inside == (self.start.0 <= address.0 <= self.end.0),
    {
        self.start.0 <= address.0 && address.0 <= self.end.0
    }

    pub fn contains_address(&self, address: Address) -> (inside: bool)
        ensures
            inside == self.holds(address),
    {
        self.space == address.space() && self.contains(address.raw_address())
    }

    /// How many addresses the range has from `address` on, if it holds it and the number
    /// fits.
    pub fn remaining_from(&self, address: Address) -> (remaining: Option<u64>)
        ensures
            remaining is Some == (self.holds(address) && self.end.0 - address.address.0
                < u64::MAX),
            remaining matches Some(r) ==> r == self.end.0 - address.address.0 + 1,
    {
        if !self.contains_address(address) {
            return None;
        }
        match self.end.offset().checked_sub(address.offset()) {
            Some(span) => span.checked_add(1),
            None => None,
        }
    }

    pub fn start_address(&self) -> (address: Address)
        ensures
            address == (Address { space: self.space, address: self.start }),
    {
        Address { space: self.space, address: self.start }
    }

    pub fn end_address(&self) -> (address: Address)
        ensures
            address == (Address { space: self.space, address: self.end }),
    {
        Address { space: self.space, address: self.end }
    }

    /// Whether each range begins no later than the other ends, in one space. Of two ranges
    /// that hold addresses this says that they share one.
    pub fn intersects(&self, other: &AddressRange) -> (meet: bool)
        ensures
            meet == self.meets(*other),
    {
        self.space == other.space && self.start.0 <= other.end.0 && other.start.0 <= self.end.0
    }

    pub open spec fn meets(self, other: AddressRange) -> bool {
        self.space == other.space && self.start.0 <= other.end.0 && other.start.0 <= self.end.0
    }

    pub fn raw_range(&self) -> (range: core::ops::RangeInclusive<RawAddress>)
        ensures
            range@.start == self.start,
            range@.end == self.end,
            !range@.exhausted,
    {
        core::ops::RangeInclusive::new(self.start, self.end)
    }
}

/// Two ranges that hold addresses meet exactly where they share one.
pub proof fn law_ranges_meet_in_an_address(a: AddressRange, b: AddressRange)
    requires
        a.start.0 <= a.end.0,
        b.start.0 <= b.end.0,
    ensures
        a.meets(b) <==> exists|address: Address| #[trigger] a.holds(address) && b.holds(address),
{
    if a.meets(b) {
        let low = if a.start.0 <= b.start.0 {
            b.start
        } else {
            a.start
        };
        let address = Address { space: a.space, address: low };
        assert(a.holds(address) && b.holds(address));
    }
}

} // verus!
