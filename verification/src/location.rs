//! Places within the operations that an instruction is lifted to.
use core::ops::Add;

use vstd::arithmetic::div_mod::{lemma_fundamental_div_mod, lemma_mod_multiples_basic};
use vstd::prelude::*;
use vstd::std_specs::convert::IntoSpec;

use crate::address::{offsets, Address, RawAddress};
use crate::types::{Language, Varnode};

verus! {

/// An operation of the instruction at an address.
#[derive(Debug, Clone, Copy, PartialEq, Eq, PartialOrd, Ord, Hash, Structural)]
pub struct Location {
    pub address: Address,
    pub position: u16,
}

impl Default for Location {
    fn default() -> (location: Self)
        ensures
            location.address.space.0 == 0,
            location.address.address.0 == 0,
            location.position == 0,
    {
        Location { address: Address::default(), position: 0 }
    }
}

impl From<Address> for Location {
    fn from(address: Address) -> (location: Self) {
        Location { address, position: 0 }
    }
}

impl vstd::std_specs::convert::FromSpecImpl<Address> for Location {
    open spec fn obeys_from_spec() -> bool {
        true
    }

    open spec fn from_spec(address: Address) -> Self {
        Location { address, position: 0 }
    }
}

impl Add<u16> for Location {
    type Output = Location;

    fn add(self, rhs: u16) -> (r: Location) {
        Location { position: self.position + rhs, ..self }
    }
}

impl vstd::std_specs::ops::AddSpecImpl<u16> for Location {
    open spec fn obeys_add_spec() -> bool {
        true
    }

    open spec fn add_req(self, rhs: u16) -> bool {
        self.position + rhs <= u16::MAX
    }

    open spec fn add_spec(self, rhs: u16) -> Location {
        Location { address: self.address, position: (self.position + rhs) as u16 }
    }
}

impl Add<usize> for Location {
    type Output = Location;

    fn add(self, rhs: usize) -> (r: Location) {
        Location { position: self.position + #[verifier::truncate] (rhs as u16), ..self }
    }
}

impl vstd::std_specs::ops::AddSpecImpl<usize> for Location {
    open spec fn obeys_add_spec() -> bool {
        true
    }

    open spec fn add_req(self, rhs: usize) -> bool {
        self.position + rhs as u16 <= u16::MAX
    }

    open spec fn add_spec(self, rhs: usize) -> Location {
        Location { address: self.address, position: (self.position + rhs as u16) as u16 }
    }
}

/// Whether a constant stands for a step back.
pub open spec fn steps_back(offset: u64) -> bool {
    offset >= 0x8000_0000_0000_0000
}

/// How far a constant steps, forward or back, as far as positions go.
pub open spec fn step(offset: u64) -> int {
    if steps_back(offset) {
        (offsets() - offset) % 0x1_0000
    } else {
        offset as int % 0x1_0000
    }
}

impl Location {
    pub fn new<A: Into<Address>>(address: A, position: u16) -> (location: Location)
        ensures
            A::obeys_into_spec() ==> location.address == address.into_spec(),
            location.position == position,
    {
        Location { address: address.into(), position }
    }

    /// The location that a flow operand names from `position` in the instruction at `base`: an
    /// address of the default space, or a constant number of operations on or back. The step
    /// must stay within the positions that there are.
    pub fn absolute_from(
        language: &Language,
        base: Address,
        address: Varnode,
        position: u16,
    ) -> (location: Option<Self>)
        requires
            address.space != language.default_space && address.space == language.constant_space
                ==> if steps_back(address.offset) {
                step(address.offset) <= position
            } else {
                position + step(address.offset) <= u16::MAX
            },
        ensures
            location == if address.space == language.default_space {
                Some(
                    Location {
                        address: Address {
                            space: base.space,
                            address: RawAddress(address.offset),
                        },
                        position: 0,
                    },
                )
            } else if address.space != language.constant_space {
                None
            } else if steps_back(address.offset) {
                Some(
                    Location {
                        address: base,
                        position: (position - step(address.offset)) as u16,
                    },
                )
            } else {
                Some(
                    Location {
                        address: base,
                        position: (position + step(address.offset)) as u16,
                    },
                )
            },
    {
        if language.in_default_space(&address) {
            return Some(
                Location {
                    address: Address { space: base.space(), address: RawAddress(address.offset) },
                    position: 0,
                },
            );
        }
        if !language.in_constant_space(&address) {
            return None;
        }
        let offset: u64 = address.offset;
        let position: u16 = if offset >= 0x8000_0000_0000_0000 {
            let back: u64 = (u64::MAX - offset) + 1;
            position - (back % 0x1_0000) as u16
        } else {
            position + (offset % 0x1_0000) as u16
        };
        Some(Location { address: base, position })
    }

    pub fn address(&self) -> (address: Address)
        ensures
            address == self.address,
    {
        self.address
    }

    pub fn position(&self) -> (position: u16)
        ensures
            position == self.position,
    {
        self.position
    }
}

/// A constant counts operations from the present one, forward or back as its sign says, modulo
/// the number of positions. An address in memory is a location of its own.
pub proof fn law_constants_are_relative(
    language: Language,
    base: Address,
    address: Varnode,
    position: u16,
    location: Option<Location>,
)
    requires
        call_ensures(
            Location::absolute_from,
            (&language, base, address, position),
            location,
        ),
        address.space != language.default_space && address.space == language.constant_space
            ==> if steps_back(address.offset) {
            step(address.offset) <= position
        } else {
            position + step(address.offset) <= u16::MAX
        },
    ensures
        location is Some <==> address.space == language.default_space || address.space
            == language.constant_space,
        location matches Some(to) ==> {
            let signed = if address.offset < 0x8000_0000_0000_0000 {
                address.offset as int
            } else {
                address.offset - 0x1_0000_0000_0000_0000
            };
            &&& address.space == language.default_space ==> to.address.space == base.space
                && to.address.address.0 == address.offset && to.position == 0
            &&& address.space != language.default_space ==> to.address == base && (to.position
                - position - signed) % 0x1_0000 == 0
        },
{
    let offset = address.offset as int;
    let back = 0x1_0000_0000_0000_0000 - offset;
    lemma_fundamental_div_mod(offset, 0x1_0000);
    lemma_fundamental_div_mod(back, 0x1_0000);
    lemma_mod_multiples_basic(-(offset / 0x1_0000), 0x1_0000);
    lemma_mod_multiples_basic(back / 0x1_0000, 0x1_0000);
    if address.space != language.default_space && address.space == language.constant_space {
        let to = location->0;
        if steps_back(address.offset) {
            assert(to.position == position - back % 0x1_0000);
            assert(to.position - position - (offset - 0x1_0000_0000_0000_0000) == (back / 0x1_0000)
                * 0x1_0000);
        } else {
            assert(to.position == position + offset % 0x1_0000);
            assert(to.position - position - offset == -(offset / 0x1_0000) * 0x1_0000);
        }
    }
}

} // verus!
