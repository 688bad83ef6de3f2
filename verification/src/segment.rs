//! Segments of memory, and the segment that stands in for external functions.
use core::ops::{Range, RangeInclusive};

use vstd::arithmetic::div_mod::{
    lemma_div_multiples_vanish, lemma_fundamental_div_mod, lemma_mod_multiples_basic,
};
use vstd::arithmetic::mul::lemma_mul_is_commutative;
use vstd::arithmetic::power2::{lemma2_to64, lemma_pow2_unfold, pow2};
use vstd::prelude::*;
use vstd::std_specs::convert::IntoSpec;

use crate::address::{Address, RawAddress};
use crate::flags::SegmentProperties;
use crate::order::Ranked;
use crate::small::{small_as_slice, small_from_slice, SmallBytes};
use crate::types::ContextSet;

verus! {

impl SegmentProperties {
    pub fn is_readable(&self) -> (readable: bool)
        ensures
            readable == (self.bits & SegmentProperties::PERM_READ == SegmentProperties::PERM_READ),
    {
        self.contains(SegmentProperties::PERM_READ)
    }

    pub fn is_writable(&self) -> (writable: bool)
        ensures
            writable == (self.bits & SegmentProperties::PERM_WRITE
                == SegmentProperties::PERM_WRITE),
    {
        self.contains(SegmentProperties::PERM_WRITE)
    }

    pub fn is_executable(&self) -> (executable: bool)
        ensures
            executable == (self.bits & SegmentProperties::PERM_EXECUTE
                == SegmentProperties::PERM_EXECUTE),
    {
        self.contains(SegmentProperties::PERM_EXECUTE)
    }

    pub fn is_initialised(&self) -> (initialised: bool)
        ensures
            initialised == (self.bits & SegmentProperties::UNINITIALISED
                != SegmentProperties::UNINITIALISED),
    {
        !self.is_uninitialised()
    }

    pub fn is_uninitialised(&self) -> (uninitialised: bool)
        ensures
            uninitialised == (self.bits & SegmentProperties::UNINITIALISED
                == SegmentProperties::UNINITIALISED),
    {
        self.contains(SegmentProperties::UNINITIALISED)
    }

    pub fn is_little_endian(&self) -> (little: bool)
        ensures
            little == (self.bits & SegmentProperties::LITTLE_ENDIAN
                == SegmentProperties::LITTLE_ENDIAN),
    {
        self.contains(SegmentProperties::LITTLE_ENDIAN)
    }

    pub fn is_external(&self) -> (external: bool)
        ensures
            external == (self.bits & SegmentProperties::EXTERNAL == SegmentProperties::EXTERNAL),
    {
        self.contains(SegmentProperties::EXTERNAL)
    }
}

/// What stands at the address of each external function.
pub struct ExternFunctionTemplate {
    pub bytes: SmallBytes,
    pub context: ContextSet,
}

impl ExternFunctionTemplate {
    pub fn new(bytes: &[u8]) -> (template: Self)
        ensures
            template.bytes@ == bytes@,
            template.context@ == Seq::<(u32, u64)>::empty(),
    {
        ExternFunctionTemplate::new_with(bytes, ContextSet::new())
    }

    pub fn new_with(bytes: &[u8], context: ContextSet) -> (template: Self)
        ensures
            template.bytes@ == bytes@,
            template.context == context,
    {
        ExternFunctionTemplate { bytes: small_from_slice(bytes), context }
    }

    pub fn bytes(&self) -> (bytes: &[u8])
        ensures
            bytes@ == self.bytes@,
    {
        small_as_slice(&self.bytes)
    }

    pub fn context(&self) -> (context: &ContextSet)
        ensures
            *context == self.context,
    {
        &self.context
    }

    pub fn len(&self) -> (len: usize)
        ensures
            len == self.bytes@.len(),
    {
        small_as_slice(&self.bytes).len()
    }

    pub fn is_empty(&self) -> (empty: bool)
        ensures
            empty == (self.bytes@.len() == 0),
    {
        small_as_slice(&self.bytes).len() == 0
    }
}

/// Why an address cannot be that of an external function.
#[derive(Debug, Clone, Copy, PartialEq, Eq, Structural)]
pub enum ExternSegmentError {
    AddressOutOfBounds(Address),
    AddressMisaligned(Address),
}

/// The least power of two that is not below a number.
pub open spec fn is_least_power(power: usize, least: usize) -> bool {
    &&& exists|n: nat| power == #[trigger] pow2(n)
    &&& least <= power
    &&& power == 1 || power / 2 < least
}

/// The least power of two that is not below `least`.
fn next_power(least: usize) -> (power: usize)
    requires
        least <= usize::MAX / 2 + 1,
    ensures
        is_least_power(power, least),
{
    let mut power: usize = 1;
    let ghost mut n: nat = 0;
    proof {
        lemma2_to64();
    }
    while power < least
        invariant
            power == pow2(n),
            0 < power,
            power == 1 || power / 2 < least,
            least <= usize::MAX / 2 + 1,
        decreases 2 * least - power,
    {
        proof {
            lemma_pow2_unfold(n + 1);
            n = n + 1;
        }
        power = power * 2;
    }
    power
}

/// The bytes that a template of a length takes: the least multiple of the alignment that is not
/// below the length.
pub open spec fn aligned_size(len: int, alignment: int) -> int {
    ((len + alignment - 1) / alignment) * alignment
}

/// The aligned size is a multiple of the alignment, holds the template and is the least such.
pub proof fn lemma_aligned_size(len: int, alignment: int)
    requires
        0 <= len,
        0 < alignment,
    ensures
        aligned_size(len, alignment) % alignment == 0,
        len <= aligned_size(len, alignment) < len + alignment,
        aligned_size(len, alignment) == (len + alignment - 1) - (len + alignment - 1) % alignment,
{
    let above = len + alignment - 1;
    lemma_fundamental_div_mod(above, alignment);
    lemma_mul_is_commutative(alignment, above / alignment);
    lemma_mod_multiples_basic(above / alignment, alignment);
}

/// The addresses given to external functions: one after the other, each with room for the
/// template.
pub struct ExternSegment {
    pub address: Address,
    pub alignment: usize,
    pub symbols: usize,
    pub template: ExternFunctionTemplate,
}

impl ExternSegment {
    /// The alignment is a power of two.
    pub open spec fn wf(&self) -> bool {
        &&& exists|n: nat| self.alignment == #[trigger] pow2(n)
        &&& 0 < self.alignment
    }

    /// Whether the aligned size of the template can be computed.
    pub open spec fn fits(&self) -> bool {
        self.template.bytes@.len() + self.alignment - 1 <= usize::MAX
    }

    /// How far the addresses of two neighbours are apart.
    pub open spec fn step(&self) -> int {
        aligned_size(self.template.bytes@.len() as int, self.alignment as int)
    }

    /// The address of the external function at a place.
    pub open spec fn symbol_address(&self, at: int) -> Address {
        Address {
            space: self.address.space,
            address: RawAddress(self.address.address.0.wrapping_add((at * self.step()) as u64)),
        }
    }

    /// Makes a segment without external functions.
    pub fn new<A: Into<Address>>(address: A, alignment: usize, template: ExternFunctionTemplate) -> (segment:
        Self)
        requires
            alignment <= usize::MAX / 2 + 1,
        ensures
            segment.wf(),
            A::obeys_into_spec() ==> segment.address == address.into_spec(),
            is_least_power(segment.alignment, alignment),
            segment.symbols == 0,
            segment.template == template,
    {
        let alignment: usize = next_power(alignment);
        ExternSegment { address: address.into(), alignment, symbols: 0, template }
    }

    /// Adds an external function behind the others and gives its address.
    pub fn add_extern(&mut self) -> (address: Address)
        requires
            old(self).wf(),
            old(self).fits(),
            old(self).symbols * old(self).step() <= usize::MAX,
            old(self).symbols < usize::MAX,
        ensures
            final(self).wf(),
            address == old(self).symbol_address(old(self).symbols as int),
            final(self).symbols == old(self).symbols + 1,
            final(self).address == old(self).address,
            final(self).alignment == old(self).alignment,
            final(self).template == old(self).template,
    {
        let address: Address = self.address() + self.size();
        self.symbols = self.symbols + 1;
        address
    }

    /// Makes room for an external function at an address.
    pub fn add_extern_at<A: Into<Address>>(&mut self, address: A) -> (r: Result<
        (),
        ExternSegmentError,
    >)
        requires
            old(self).wf(),
            old(self).fits(),
            A::obeys_into_spec(),
            old(self).template.bytes@.len() > 0,
            old(self).address.rank() <= address.into_spec().rank()
                ==> old(self).address.address.0 <= address.into_spec().address.0,
        ensures
            final(self).wf(),
            final(self).address == old(self).address,
            final(self).alignment == old(self).alignment,
            final(self).template == old(self).template,
            ({
                let address = address.into_spec();
                let distance = address.address.0 - old(self).address.address.0;
                let needed = distance / old(self).step() + 1;
                if address.rank() < old(self).address.rank() || distance > usize::MAX {
                    &&& r == Err::<(), _>(ExternSegmentError::AddressOutOfBounds(address))
                    &&& final(self).symbols == old(self).symbols
                } else if distance % old(self).step() != 0 {
                    &&& r == Err::<(), _>(ExternSegmentError::AddressMisaligned(address))
                    &&& final(self).symbols == old(self).symbols
                } else if needed > usize::MAX {
                    &&& r == Err::<(), _>(ExternSegmentError::AddressOutOfBounds(address))
                    &&& final(self).symbols == old(self).symbols
                } else {
                    &&& r is Ok
                    &&& final(self).symbols == if old(self).symbols < needed {
                        needed
                    } else {
                        old(self).symbols as int
                    }
                }
            }),
    {
        let address: Address = address.into();
        if address.precedes(&self.address) {
            return Err(ExternSegmentError::AddressOutOfBounds(address));
        }
        let distance: u64 = address.address.0 - self.address.address.0;
        if distance > usize::MAX as u64 {
            return Err(ExternSegmentError::AddressOutOfBounds(address));
        }
        let distance: usize = distance as usize;
        let step: usize = self.aligned_template_size();
        proof {
            lemma_aligned_size(self.template.bytes@.len() as int, self.alignment as int);
        }
        if distance % step != 0 {
            return Err(ExternSegmentError::AddressMisaligned(address));
        }
        let needed: usize = match (distance / step).checked_add(1) {
            Some(needed) => needed,
            None => {
                return Err(ExternSegmentError::AddressOutOfBounds(address));
            },
        };
        if needed > self.symbols {
            self.symbols = needed;
        }
        Ok(())
    }

    pub fn address(&self) -> (address: Address)
        ensures
            address == self.address,
    {
        self.address
    }

    /// The address of the last byte, if there is an external function.
    pub fn last_address(&self) -> (last: Option<Address>)
        requires
            self.wf(),
            self.fits(),
            self.symbols * self.step() <= usize::MAX,
        ensures
            last == if self.symbols != 0 {
                Some(
                    (Address {
                        space: self.address.space,
                        address: RawAddress(
                            self.address.address.0.wrapping_add(
                                (self.symbols * self.step()) as u64,
                            ).wrapping_sub(1),
                        ),
                    }),
                )
            } else {
                None
            },
    {
        if self.symbols != 0 {
            Some(self.address() + self.size() - 1usize)
        } else {
            None
        }
    }

    /// The addresses from the first up to behind the last byte.
    pub fn range(&self) -> (range: Option<Range<Address>>)
        requires
            self.wf(),
            self.fits(),
            self.symbols * self.step() <= usize::MAX,
        ensures
            match range {
                Some(r) => self.symbols != 0 && r.start == self.address && r.end
                    == self.symbol_address(self.symbols as int),
                None => self.symbols == 0,
            },
    {
        match self.last_address() {
            Some(last) => {
                let end: Address = last + 1usize;
                Some(Range { start: self.address(), end })
            },
            None => None,
        }
    }

    /// The addresses from the first to the last byte.
    pub fn range_inclusive(&self) -> (range: Option<RangeInclusive<Address>>)
        requires
            self.wf(),
            self.fits(),
            self.symbols * self.step() <= usize::MAX,
        ensures
            match range {
                Some(r) => self.symbols != 0 && r@.start == self.address && r@.end.space
                    == self.address.space && r@.end.address.0 == self.address.address.0.wrapping_add(
                    (self.symbols * self.step()) as u64,
                ).wrapping_sub(1) && !r@.exhausted,
                None => self.symbols == 0,
            },
    {
        match self.last_address() {
            Some(last) => Some(RangeInclusive::new(self.address(), last)),
            None => None,
        }
    }

    pub fn alignment(&self) -> (alignment: usize)
        ensures
            alignment == self.alignment,
    {
        self.alignment
    }

    /// How many bytes the segment takes.
    pub fn size(&self) -> (size: usize)
        requires
            self.wf(),
            self.fits(),
            self.symbols * self.step() <= usize::MAX,
        ensures
            size == self.symbols * self.step(),
    {
        let step: usize = self.aligned_template_size();
        self.symbols * step
    }

    pub fn symbols(&self) -> (symbols: usize)
        ensures
            symbols == self.symbols,
    {
        self.symbols
    }

    pub fn template(&self) -> (template: &ExternFunctionTemplate)
        ensures
            *template == self.template,
    {
        &self.template
    }

    /// How many bytes one external function takes.
    pub fn aligned_template_size(&self) -> (size: usize)
        requires
            self.wf(),
            self.fits(),
        ensures
            size == self.step(),
    {
        let above: usize = self.template.len() + (self.alignment - 1);
        proof {
            lemma_aligned_size(self.template.bytes@.len() as int, self.alignment as int);
        }
        above - above % self.alignment
    }

    /// The addresses of the external functions, in order.
    pub fn iter(&self) -> (addresses: Vec<Address>)
        requires
            self.wf(),
            self.fits(),
            (self.symbols - 1) * self.step() <= usize::MAX,
        ensures
            addresses@ == Seq::new(self.symbols as nat, |i: int| self.symbol_address(i)),
    {
        let step: usize = self.aligned_template_size();
        let mut addresses: Vec<Address> = Vec::new();
        let mut i: usize = 0;
        while i < self.symbols
            invariant
                i <= self.symbols,
                step == self.step(),
                (self.symbols - 1) * step <= usize::MAX,
                addresses@.len() == i,
                forall|k: int| 0 <= k < i ==> #[trigger] addresses@[k] == self.symbol_address(k),
            decreases self.symbols - i,
        {
            proof {
                let last = self.symbols - 1;
                assert(0 <= i * step <= last * step) by (nonlinear_arith)
                    requires
                        i <= last,
                        0 <= step,
                ;
            }
            addresses.push(self.address() + i * step);
            i = i + 1;
        }
        assert(addresses@ =~= Seq::new(self.symbols as nat, |i: int| self.symbol_address(i)));
        addresses
    }

    pub fn len(&self) -> (len: usize)
        ensures
            len == self.symbols,
    {
        self.symbols
    }

    pub fn is_empty(&self) -> (empty: bool)
        ensures
            empty == (self.symbols == 0),
    {
        self.symbols == 0
    }
}

/// Room for an external function can be made at the address of each that a segment has, and
/// none is added by that: the address lies at a multiple of the step, and as many as are needed
/// for it are there. The segment ends before the end of its space.
pub proof fn law_symbol_addresses_accepted(segment: ExternSegment, at: int)
    requires
        segment.wf(),
        segment.template.bytes@.len() > 0,
        0 <= at < segment.symbols,
        segment.address.address.0 + segment.symbols * segment.step() <= u64::MAX,
    ensures
        ({
            let address = segment.symbol_address(at);
            let distance = address.address.0 - segment.address.address.0;
            &&& segment.address.rank() <= address.rank()
            &&& distance % segment.step() == 0
            &&& distance / segment.step() + 1 <= segment.symbols
        }),
{
    let step = segment.step();
    let symbols = segment.symbols as int;
    lemma_aligned_size(segment.template.bytes@.len() as int, segment.alignment as int);
    assert(0 <= at * step <= symbols * step) by (nonlinear_arith)
        requires
            0 <= at < symbols,
            1 <= step,
    ;
    lemma_mod_multiples_basic(at, step);
    lemma_div_multiples_vanish(at, step);
    lemma_mul_is_commutative(at, step);
}

/// No smaller power of two than the alignment of a segment would do.
pub proof fn law_alignment_is_least(power: usize, least: usize, n: nat)
    requires
        is_least_power(power, least),
        pow2(n) >= least,
    ensures
        power >= least,
        power <= pow2(n),
{
    let m = choose|m: nat| power == #[trigger] pow2(m);
    if n < m {
        vstd::arithmetic::power2::lemma_pow2_unfold(m);
        if n < (m - 1) as nat {
            vstd::arithmetic::power2::lemma_pow2_strictly_increases(n, (m - 1) as nat);
        }
        vstd::arithmetic::power2::lemma_pow2_pos((m - 1) as nat);
        assert(power / 2 == pow2((m - 1) as nat));
    } else if m < n {
        vstd::arithmetic::power2::lemma_pow2_strictly_increases(m, n);
    }
}

/// The addresses of the external functions of a segment leave room for the template between
/// them, no more than the alignment asks for, and each is aligned as the segment is.
pub proof fn law_symbols_have_room(segment: ExternSegment, at: int)
    requires
        segment.wf(),
        0 <= at < segment.symbols,
        segment.address.address.0 + segment.symbols * segment.step() <= u64::MAX,
    ensures
        segment.symbol_address(at).space == segment.address.space,
        segment.symbol_address(0) == segment.address,
        segment.symbol_address(at + 1).address.0 - segment.symbol_address(at).address.0
            >= segment.template.bytes@.len(),
        segment.symbol_address(at + 1).address.0 - segment.symbol_address(at).address.0
            < segment.template.bytes@.len() + segment.alignment,
        (segment.symbol_address(at).address.0 - segment.address.address.0) % segment.alignment as int
            == 0,
{
    let (step, count, base) = (segment.step(), segment.symbols as int, segment.address.address.0);
    let (len, alignment) = (segment.template.bytes@.len() as int, segment.alignment as int);
    let parts = (len + alignment - 1) / alignment;
    assert(step == parts * alignment);
    assert(0 <= step && len <= step < len + alignment) by (nonlinear_arith)
        requires
            step == ((len + alignment - 1) / alignment) * alignment,
            0 < alignment,
            0 <= len,
    ;
    assert(0 <= at * step <= (at + 1) * step <= count * step) by (nonlinear_arith)
        requires
            0 <= at < count,
            0 <= step,
    ;
    assert((at + 1) * step - at * step == step) by (nonlinear_arith);
    assert(0 * step == 0);
    assert((at * step) % alignment == 0) by {
        assert(at * step == (at * parts) * alignment) by (nonlinear_arith)
            requires
                step == parts * alignment,
        ;
        vstd::arithmetic::div_mod::lemma_mod_multiples_basic(at * parts, alignment);
    }
    assert(segment.symbol_address(at).address.0 == base + at * step);
    assert(segment.symbol_address(at + 1).address.0 == base + (at + 1) * step);
    assert(segment.symbol_address(0).address.0 == base);
}

} // verus!
