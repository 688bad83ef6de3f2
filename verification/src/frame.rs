//! Stack frames.
use vstd::prelude::*;
use vstd::std_specs::convert::IntoSpec;

use crate::address::Address;
use crate::types::copy_values;

verus! {

/// An address at which the stack pointer changes.
#[derive(Debug, Clone, Copy, PartialEq, Eq, PartialOrd, Ord, Hash, Structural)]
pub struct StackChangePoint {
    pub address: Address,
    pub delta: i64,
}

impl Default for StackChangePoint {
    fn default() -> (point: Self)
        ensures
            point.address.space.0 == 0,
            point.address.address.0 == 0,
            point.delta == 0,
    {
        StackChangePoint { address: Address::default(), delta: 0 }
    }
}

impl StackChangePoint {
    pub fn new<A: Into<Address>>(address: A, delta: i64) -> (point: Self)
        ensures
            A::obeys_into_spec() ==> point.address == address.into_spec(),
            point.delta == delta,
    {
        StackChangePoint { address: address.into(), delta }
    }

    pub fn address(&self) -> (address: Address)
        ensures
            address == self.address,
    {
        self.address
    }

    pub fn delta(&self) -> (delta: i64)
        ensures
            delta == self.delta,
    {
        self.delta
    }
}

/// What a frame is, apart from how it is stored.
#[verifier::ext_equal]
pub struct FunctionFrameView {
    pub locals_size: usize,
    pub preserved_registers_size: usize,
    pub frame_pointer_delta: i64,
    pub change_points: Seq<StackChangePoint>,
}

/// The stack frame of a function.
#[derive(Debug)]
pub struct FunctionFrame {
    pub locals_size: usize,
    pub preserved_registers_size: usize,
    pub frame_pointer_delta: i64,
    pub change_points: Vec<StackChangePoint>,
}

impl View for FunctionFrame {
    type V = FunctionFrameView;

    open spec fn view(&self) -> FunctionFrameView {
        FunctionFrameView {
            locals_size: self.locals_size,
            preserved_registers_size: self.preserved_registers_size,
            frame_pointer_delta: self.frame_pointer_delta,
            change_points: self.change_points@,
        }
    }
}

/// The frame that nothing is known of.
pub open spec fn no_frame() -> FunctionFrameView {
    FunctionFrameView {
        locals_size: 0,
        preserved_registers_size: 0,
        frame_pointer_delta: 0,
        change_points: Seq::empty(),
    }
}

impl Default for FunctionFrame {
    fn default() -> (frame: Self)
        ensures
            frame@ == no_frame(),
    {
        FunctionFrame::new(0, 0, 0)
    }
}

impl Clone for FunctionFrame {
    fn clone(&self) -> (copy: Self)
        ensures
            copy@ == self@,
    {
        FunctionFrame {
            locals_size: self.locals_size,
            preserved_registers_size: self.preserved_registers_size,
            frame_pointer_delta: self.frame_pointer_delta,
            change_points: copy_values(&self.change_points),
        }
    }
}

impl FunctionFrame {
    /// Whether two frames are the same.
    pub fn same(&self, other: &FunctionFrame) -> (same: bool)
        ensures
            same == (self@ == other@),
    {
        if self.locals_size != other.locals_size || self.preserved_registers_size
            != other.preserved_registers_size || self.frame_pointer_delta
            != other.frame_pointer_delta || self.change_points.len() != other.change_points.len() {
            return false;
        }
        let mut i: usize = 0;
        while i < self.change_points.len()
            invariant
                i <= self.change_points@.len(),
                self.change_points@.len() == other.change_points@.len(),
                forall|j: int|
                    0 <= j < i ==> self.change_points@[j] == other.change_points@[j],
            decreases self.change_points@.len() - i,
        {
            if self.change_points[i] != other.change_points[i] {
                return false;
            }
            i = i + 1;
        }
        assert(self@ =~= other@);
        true
    }

    pub fn new(locals_size: usize, preserved_registers_size: usize, frame_pointer_delta: i64) -> (
    frame: Self)
        ensures
            frame@ == (FunctionFrameView {
                locals_size,
                preserved_registers_size,
                frame_pointer_delta,
                change_points: Seq::empty(),
            }),
    {
        FunctionFrame {
            locals_size,
            preserved_registers_size,
            frame_pointer_delta,
            change_points: Vec::new(),
        }
    }

    pub fn add_change_point<A: Into<Address>>(&mut self, address: A, delta: i64)
        ensures
            final(self).change_points@.len() == old(self).change_points@.len() + 1,
            A::obeys_into_spec() ==> final(self)@ == (FunctionFrameView {
                change_points: old(self).change_points@.push(
                    StackChangePoint { address: address.into_spec(), delta },
                ),
                ..old(self)@
            }),
    {
        self.change_points.push(StackChangePoint::new(address, delta));
    }

    pub fn locals_size(&self) -> (size: usize)
        ensures
            size == self.locals_size,
    {
        self.locals_size
    }

    pub fn preserved_registers_size(&self) -> (size: usize)
        ensures
            size == self.preserved_registers_size,
    {
        self.preserved_registers_size
    }

    pub fn frame_pointer_delta(&self) -> (delta: i64)
        ensures
            delta == self.frame_pointer_delta,
    {
        self.frame_pointer_delta
    }

    pub fn change_points(&self) -> (points: &[StackChangePoint])
        ensures
            points@ == self.change_points@,
    {
        self.change_points.as_slice()
    }
}

} // verus!
