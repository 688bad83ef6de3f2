//! Sets of flags, each a word with one bit per flag.
use vstd::prelude::*;

verus! {

/// What a basic block is in its function.
#[derive(Debug, Clone, Copy, PartialEq, Eq, PartialOrd, Ord, Hash, Structural)]
pub struct BasicBlockProperties {
    pub bits: u32,
}

impl BasicBlockProperties {
    pub const NONE: u32 = 0x0;

    pub const ENTRY: u32 = 0x1;

    pub const EXIT: u32 = 0x2;

    pub const NON_RETURNING: u32 = 0x4;

    pub const CALL: u32 = 0x8;

    pub const TAIL_CALL: u32 = 0x10;

    pub const UNRESOLVED: u32 = 0x20;

    /// The set of those of the given bits that are flags.
    pub fn from_bits_truncate(bits: u32) -> (flags: Self)
        ensures
            flags.bits == bits & 0x3f,
    {
        BasicBlockProperties { bits: bits & 0x3f }
    }

    /// The set of the flags with the given bits.
    pub fn of(bits: u32) -> (flags: Self)
        ensures
            flags.bits == bits,
    {
        BasicBlockProperties { bits }
    }

    pub fn empty() -> (flags: Self)
        ensures
            flags.bits == 0,
    {
        BasicBlockProperties { bits: 0 }
    }

    pub fn bits(&self) -> (bits: u32)
        ensures
            bits == self.bits,
    {
        self.bits
    }

    /// Whether all of the flags are set.
    pub fn contains(&self, flags: u32) -> (all: bool)
        ensures
            all == (self.bits & flags == flags),
    {
        self.bits & flags == flags
    }

    /// Whether any of the flags is set.
    pub fn intersects(&self, flags: u32) -> (any: bool)
        ensures
            any == (self.bits & flags != 0),
    {
        self.bits & flags != 0
    }

    /// Sets the flags.
    pub fn insert(&mut self, flags: u32)
        ensures
            final(self).bits == old(self).bits | flags,
    {
        self.bits = self.bits | flags;
    }

    /// Clears the flags.
    pub fn remove(&mut self, flags: u32)
        ensures
            final(self).bits == old(self).bits & !flags,
    {
        self.bits = self.bits & !flags;
    }

    /// The flags of both sets.
    pub fn union(&self, other: Self) -> (flags: Self)
        ensures
            flags.bits == self.bits | other.bits,
    {
        BasicBlockProperties { bits: self.bits | other.bits }
    }
}

impl core::ops::BitOr for BasicBlockProperties {
    type Output = BasicBlockProperties;

    fn bitor(self, rhs: BasicBlockProperties) -> (flags: BasicBlockProperties) {
        BasicBlockProperties { bits: self.bits | rhs.bits }
    }
}

impl vstd::std_specs::ops::BitOrSpecImpl for BasicBlockProperties {
    open spec fn obeys_bitor_spec() -> bool {
        true
    }

    open spec fn bitor_req(self, rhs: BasicBlockProperties) -> bool {
        true
    }

    open spec fn bitor_spec(self, rhs: BasicBlockProperties) -> BasicBlockProperties {
        BasicBlockProperties { bits: self.bits | rhs.bits }
    }
}

/// How a code block ends.
#[derive(Debug, Clone, Copy, PartialEq, Eq, PartialOrd, Ord, Hash, Structural)]
pub struct CodeBlockProperties {
    pub bits: u32,
}

impl CodeBlockProperties {
    pub const NONE: u32 = 0x0;

    /// The block ends in a call to another function.
    pub const CALL: u32 = 0x1;

    /// The block has unresolved control flow.
    pub const UNRESOLVED: u32 = 0x2;

    /// The block ends in a return.
    pub const RETURN: u32 = 0x4;

    /// The set of those of the given bits that are flags.
    pub fn from_bits_truncate(bits: u32) -> (flags: Self)
        ensures
            flags.bits == bits & 0x7,
    {
        CodeBlockProperties { bits: bits & 0x7 }
    }

    /// The set of the flags with the given bits.
    pub fn of(bits: u32) -> (flags: Self)
        ensures
            flags.bits == bits,
    {
        CodeBlockProperties { bits }
    }

    pub fn empty() -> (flags: Self)
        ensures
            flags.bits == 0,
    {
        CodeBlockProperties { bits: 0 }
    }

    pub fn bits(&self) -> (bits: u32)
        ensures
            bits == self.bits,
    {
        self.bits
    }

    /// Whether all of the flags are set.
    pub fn contains(&self, flags: u32) -> (all: bool)
        ensures
            all == (self.bits & flags == flags),
    {
        self.bits & flags == flags
    }

    /// Whether any of the flags is set.
    pub fn intersects(&self, flags: u32) -> (any: bool)
        ensures
            any == (self.bits & flags != 0),
    {
        self.bits & flags != 0
    }

    /// Sets the flags.
    pub fn insert(&mut self, flags: u32)
        ensures
            final(self).bits == old(self).bits | flags,
    {
        self.bits = self.bits | flags;
    }

    /// Clears the flags.
    pub fn remove(&mut self, flags: u32)
        ensures
            final(self).bits == old(self).bits & !flags,
    {
        self.bits = self.bits & !flags;
    }

    /// The flags of both sets.
    pub fn union(&self, other: Self) -> (flags: Self)
        ensures
            flags.bits == self.bits | other.bits,
    {
        CodeBlockProperties { bits: self.bits | other.bits }
    }
}

impl core::ops::BitOr for CodeBlockProperties {
    type Output = CodeBlockProperties;

    fn bitor(self, rhs: CodeBlockProperties) -> (flags: CodeBlockProperties) {
        CodeBlockProperties { bits: self.bits | rhs.bits }
    }
}

impl vstd::std_specs::ops::BitOrSpecImpl for CodeBlockProperties {
    open spec fn obeys_bitor_spec() -> bool {
        true
    }

    open spec fn bitor_req(self, rhs: CodeBlockProperties) -> bool {
        true
    }

    open spec fn bitor_spec(self, rhs: CodeBlockProperties) -> CodeBlockProperties {
        CodeBlockProperties { bits: self.bits | rhs.bits }
    }
}

/// What is known of a function as a whole.
#[derive(Debug, Clone, Copy, PartialEq, Eq, PartialOrd, Ord, Hash, Structural)]
pub struct FunctionProperties {
    pub bits: u32,
}

impl FunctionProperties {
    pub const NONE: u32 = 0x0;

    /// The function does not return.
    pub const NON_RETURNING: u32 = 0x1;

    /// A jump to another function, such as a linkage table entry.
    pub const THUNK: u32 = 0x2;

    /// The function is not in the current module.
    pub const EXTERNAL: u32 = 0x4;

    /// The set of those of the given bits that are flags.
    pub fn from_bits_truncate(bits: u32) -> (flags: Self)
        ensures
            flags.bits == bits & 0x7,
    {
        FunctionProperties { bits: bits & 0x7 }
    }

    /// The set of the flags with the given bits.
    pub fn of(bits: u32) -> (flags: Self)
        ensures
            flags.bits == bits,
    {
        FunctionProperties { bits }
    }

    pub fn empty() -> (flags: Self)
        ensures
            flags.bits == 0,
    {
        FunctionProperties { bits: 0 }
    }

    pub fn bits(&self) -> (bits: u32)
        ensures
            bits == self.bits,
    {
        self.bits
    }

    /// Whether all of the flags are set.
    pub fn contains(&self, flags: u32) -> (all: bool)
        ensures
            all == (self.bits & flags == flags),
    {
        self.bits & flags == flags
    }

    /// Whether any of the flags is set.
    pub fn intersects(&self, flags: u32) -> (any: bool)
        ensures
            any == (self.bits & flags != 0),
    {
        self.bits & flags != 0
    }

    /// Sets the flags.
    pub fn insert(&mut self, flags: u32)
        ensures
            final(self).bits == old(self).bits | flags,
    {
        self.bits = self.bits | flags;
    }

    /// Clears the flags.
    pub fn remove(&mut self, flags: u32)
        ensures
            final(self).bits == old(self).bits & !flags,
    {
        self.bits = self.bits & !flags;
    }

    /// The flags of both sets.
    pub fn union(&self, other: Self) -> (flags: Self)
        ensures
            flags.bits == self.bits | other.bits,
    {
        FunctionProperties { bits: self.bits | other.bits }
    }
}

impl core::ops::BitOr for FunctionProperties {
    type Output = FunctionProperties;

    fn bitor(self, rhs: FunctionProperties) -> (flags: FunctionProperties) {
        FunctionProperties { bits: self.bits | rhs.bits }
    }
}

impl vstd::std_specs::ops::BitOrSpecImpl for FunctionProperties {
    open spec fn obeys_bitor_spec() -> bool {
        true
    }

    open spec fn bitor_req(self, rhs: FunctionProperties) -> bool {
        true
    }

    open spec fn bitor_spec(self, rhs: FunctionProperties) -> FunctionProperties {
        FunctionProperties { bits: self.bits | rhs.bits }
    }
}

/// What is known of an instruction.
#[derive(Debug, Clone, Copy, PartialEq, Eq, PartialOrd, Ord, Hash, Structural)]
pub struct InsnProperties {
    pub bits: u16,
}

impl Default for InsnProperties {
    fn default() -> (flags: Self)
        ensures
            flags.bits == InsnProperties::FALL_THROUGH,
    {
        InsnProperties::of(InsnProperties::FALL_THROUGH)
    }
}

impl InsnProperties {
    pub const FALL_THROUGH: u16 = 0x1;

    pub const BRANCH: u16 = 0x2;

    pub const CALL: u16 = 0x4;

    pub const RETURN: u16 = 0x8;

    pub const INDIRECT: u16 = 0x10;

    pub const BRANCH_DEST: u16 = 0x20;

    pub const CALL_DEST: u16 = 0x40;

    /// The address is used as a value, follows padding, or is reached by overlapping blocks.
    pub const MAYBE_TAKEN: u16 = 0x80;

    /// The instruction does nothing.
    pub const NOP: u16 = 0x100;

    pub const TRAP: u16 = 0x200;

    /// The instruction runs into an invalid one.
    pub const INVALID: u16 = 0x400;

    /// To be taken as invalid when repeated.
    pub const NONSENSE: u16 = 0x800;

    pub const HALT: u16 = 0x1000;

    pub const FLOW_RESOLVED: u16 = 0x2000;

    pub const NEEDS_FLOW_RESOLUTION: u16 = 0x4000;

    /// A trap or invalid.
    pub const UNVIABLE: u16 = 0x600;

    /// A destination of a branch or a call.
    pub const DEST: u16 = 0x60;

    /// A branch, a call or a return.
    pub const FLOW: u16 = 0xe;

    /// A destination, or maybe one.
    pub const TAKEN: u16 = 0xe0;

    /// The set of those of the given bits that are flags.
    pub fn from_bits_truncate(bits: u16) -> (flags: Self)
        ensures
            flags.bits == bits & 0x7fff,
    {
        InsnProperties { bits: bits & 0x7fff }
    }

    /// The set of the flags with the given bits.
    pub fn of(bits: u16) -> (flags: Self)
        ensures
            flags.bits == bits,
    {
        InsnProperties { bits }
    }

    pub fn empty() -> (flags: Self)
        ensures
            flags.bits == 0,
    {
        InsnProperties { bits: 0 }
    }

    pub fn bits(&self) -> (bits: u16)
        ensures
            bits == self.bits,
    {
        self.bits
    }

    /// Whether all of the flags are set.
    pub fn contains(&self, flags: u16) -> (all: bool)
        ensures
            all == (self.bits & flags == flags),
    {
        self.bits & flags == flags
    }

    /// Whether any of the flags is set.
    pub fn intersects(&self, flags: u16) -> (any: bool)
        ensures
            any == (self.bits & flags != 0),
    {
        self.bits & flags != 0
    }

    /// Sets the flags.
    pub fn insert(&mut self, flags: u16)
        ensures
            final(self).bits == old(self).bits | flags,
    {
        self.bits = self.bits | flags;
    }

    /// Clears the flags.
    pub fn remove(&mut self, flags: u16)
        ensures
            final(self).bits == old(self).bits & !flags,
    {
        self.bits = self.bits & !flags;
    }

    /// The flags of both sets.
    pub fn union(&self, other: Self) -> (flags: Self)
        ensures
            flags.bits == self.bits | other.bits,
    {
        InsnProperties { bits: self.bits | other.bits }
    }
}

impl core::ops::BitOr for InsnProperties {
    type Output = InsnProperties;

    fn bitor(self, rhs: InsnProperties) -> (flags: InsnProperties) {
        InsnProperties { bits: self.bits | rhs.bits }
    }
}

impl vstd::std_specs::ops::BitOrSpecImpl for InsnProperties {
    open spec fn obeys_bitor_spec() -> bool {
        true
    }

    open spec fn bitor_req(self, rhs: InsnProperties) -> bool {
        true
    }

    open spec fn bitor_spec(self, rhs: InsnProperties) -> InsnProperties {
        InsnProperties { bits: self.bits | rhs.bits }
    }
}

/// How one address refers to another.
#[derive(Debug, Clone, Copy, PartialEq, Eq, PartialOrd, Ord, Hash, Structural)]
pub struct ReferenceProperties {
    pub bits: u16,
}

impl ReferenceProperties {
    pub const CALL: u16 = 0x1;

    pub const JUMP: u16 = 0x2;

    pub const CONDITIONAL: u16 = 0x4;

    pub const COMPUTED: u16 = 0x8;

    pub const TERMINAL: u16 = 0x10;

    pub const FALL_THROUGH: u16 = 0x20;

    pub const OVERRIDE: u16 = 0x40;

    pub const READ: u16 = 0x80;

    pub const WRITE: u16 = 0x100;

    pub const INDIRECT: u16 = 0x200;

    /// The set of those of the given bits that are flags.
    pub fn from_bits_truncate(bits: u16) -> (flags: Self)
        ensures
            flags.bits == bits & 0x3ff,
    {
        ReferenceProperties { bits: bits & 0x3ff }
    }

    /// The set of the flags with the given bits.
    pub fn of(bits: u16) -> (flags: Self)
        ensures
            flags.bits == bits,
    {
        ReferenceProperties { bits }
    }

    pub fn empty() -> (flags: Self)
        ensures
            flags.bits == 0,
    {
        ReferenceProperties { bits: 0 }
    }

    pub fn bits(&self) -> (bits: u16)
        ensures
            bits == self.bits,
    {
        self.bits
    }

    /// Whether all of the flags are set.
    pub fn contains(&self, flags: u16) -> (all: bool)
        ensures
            all == (self.bits & flags == flags),
    {
        self.bits & flags == flags
    }

    /// Whether any of the flags is set.
    pub fn intersects(&self, flags: u16) -> (any: bool)
        ensures
            any == (self.bits & flags != 0),
    {
        self.bits & flags != 0
    }

    /// Sets the flags.
    pub fn insert(&mut self, flags: u16)
        ensures
            final(self).bits == old(self).bits | flags,
    {
        self.bits = self.bits | flags;
    }

    /// Clears the flags.
    pub fn remove(&mut self, flags: u16)
        ensures
            final(self).bits == old(self).bits & !flags,
    {
        self.bits = self.bits & !flags;
    }

    /// The flags of both sets.
    pub fn union(&self, other: Self) -> (flags: Self)
        ensures
            flags.bits == self.bits | other.bits,
    {
        ReferenceProperties { bits: self.bits | other.bits }
    }
}

impl core::ops::BitOr for ReferenceProperties {
    type Output = ReferenceProperties;

    fn bitor(self, rhs: ReferenceProperties) -> (flags: ReferenceProperties) {
        ReferenceProperties { bits: self.bits | rhs.bits }
    }
}

impl vstd::std_specs::ops::BitOrSpecImpl for ReferenceProperties {
    open spec fn obeys_bitor_spec() -> bool {
        true
    }

    open spec fn bitor_req(self, rhs: ReferenceProperties) -> bool {
        true
    }

    open spec fn bitor_spec(self, rhs: ReferenceProperties) -> ReferenceProperties {
        ReferenceProperties { bits: self.bits | rhs.bits }
    }
}

/// What memory a segment is.
#[derive(Debug, Clone, Copy, PartialEq, Eq, PartialOrd, Ord, Hash, Structural)]
pub struct SegmentProperties {
    pub bits: u8,
}

impl SegmentProperties {
    pub const NONE: u8 = 0x0;

    pub const PERM_READ: u8 = 0x1;

    pub const PERM_WRITE: u8 = 0x2;

    pub const PERM_EXECUTE: u8 = 0x4;

    /// Readable, writable and executable.
    pub const PERM_ALL: u8 = 0x7;

    pub const UNINITIALISED: u8 = 0x10;

    pub const LITTLE_ENDIAN: u8 = 0x20;

    pub const EXTERNAL: u8 = 0x40;

    /// The set of those of the given bits that are flags.
    pub fn from_bits_truncate(bits: u8) -> (flags: Self)
        ensures
            flags.bits == bits & 0x77,
    {
        SegmentProperties { bits: bits & 0x77 }
    }

    /// The set of the flags with the given bits.
    pub fn of(bits: u8) -> (flags: Self)
        ensures
            flags.bits == bits,
    {
        SegmentProperties { bits }
    }

    pub fn empty() -> (flags: Self)
        ensures
            flags.bits == 0,
    {
        SegmentProperties { bits: 0 }
    }

    pub fn bits(&self) -> (bits: u8)
        ensures
            bits == self.bits,
    {
        self.bits
    }

    /// Whether all of the flags are set.
    pub fn contains(&self, flags: u8) -> (all: bool)
        ensures
            all == (self.bits & flags == flags),
    {
        self.bits & flags == flags
    }

    /// Whether any of the flags is set.
    pub fn intersects(&self, flags: u8) -> (any: bool)
        ensures
            any == (self.bits & flags != 0),
    {
        self.bits & flags != 0
    }

    /// Sets the flags.
    pub fn insert(&mut self, flags: u8)
        ensures
            final(self).bits == old(self).bits | flags,
    {
        self.bits = self.bits | flags;
    }

    /// Clears the flags.
    pub fn remove(&mut self, flags: u8)
        ensures
            final(self).bits == old(self).bits & !flags,
    {
        self.bits = self.bits & !flags;
    }

    /// The flags of both sets.
    pub fn union(&self, other: Self) -> (flags: Self)
        ensures
            flags.bits == self.bits | other.bits,
    {
        SegmentProperties { bits: self.bits | other.bits }
    }
}

impl core::ops::BitOr for SegmentProperties {
    type Output = SegmentProperties;

    fn bitor(self, rhs: SegmentProperties) -> (flags: SegmentProperties) {
        SegmentProperties { bits: self.bits | rhs.bits }
    }
}

impl vstd::std_specs::ops::BitOrSpecImpl for SegmentProperties {
    open spec fn obeys_bitor_spec() -> bool {
        true
    }

    open spec fn bitor_req(self, rhs: SegmentProperties) -> bool {
        true
    }

    open spec fn bitor_spec(self, rhs: SegmentProperties) -> SegmentProperties {
        SegmentProperties { bits: self.bits | rhs.bits }
    }
}

/// How a switch was recovered.
#[derive(Debug, Clone, Copy, PartialEq, Eq, PartialOrd, Ord, Hash, Structural)]
pub struct SwitchProperties {
    pub bits: u32,
}

impl SwitchProperties {
    pub const CONTIGUOUS_ENTRIES: u32 = 0x1;

    pub const GUARD_FOUND: u32 = 0x2;

    pub const OVERRIDE: u32 = 0x4;

    pub const TABLE_IN_READ_ONLY: u32 = 0x8;

    pub const TARGETS_ALIGNED: u32 = 0x10;

    pub const TARGETS_IN_EXECUTABLE: u32 = 0x20;

    pub const TRUNCATED: u32 = 0x40;

    /// The set of those of the given bits that are flags.
    pub fn from_bits_truncate(bits: u32) -> (flags: Self)
        ensures
            flags.bits == bits & 0x7f,
    {
        SwitchProperties { bits: bits & 0x7f }
    }

    /// The set of the flags with the given bits.
    pub fn of(bits: u32) -> (flags: Self)
        ensures
            flags.bits == bits,
    {
        SwitchProperties { bits }
    }

    pub fn empty() -> (flags: Self)
        ensures
            flags.bits == 0,
    {
        SwitchProperties { bits: 0 }
    }

    pub fn bits(&self) -> (bits: u32)
        ensures
            bits == self.bits,
    {
        self.bits
    }

    /// Whether all of the flags are set.
    pub fn contains(&self, flags: u32) -> (all: bool)
        ensures
            all == (self.bits & flags == flags),
    {
        self.bits & flags == flags
    }

    /// Whether any of the flags is set.
    pub fn intersects(&self, flags: u32) -> (any: bool)
        ensures
            any == (self.bits & flags != 0),
    {
        self.bits & flags != 0
    }

    /// Sets the flags.
    pub fn insert(&mut self, flags: u32)
        ensures
            final(self).bits == old(self).bits | flags,
    {
        self.bits = self.bits | flags;
    }

    /// Clears the flags.
    pub fn remove(&mut self, flags: u32)
        ensures
            final(self).bits == old(self).bits & !flags,
    {
        self.bits = self.bits & !flags;
    }

    /// The flags of both sets.
    pub fn union(&self, other: Self) -> (flags: Self)
        ensures
            flags.bits == self.bits | other.bits,
    {
        SwitchProperties { bits: self.bits | other.bits }
    }
}

impl core::ops::BitOr for SwitchProperties {
    type Output = SwitchProperties;

    fn bitor(self, rhs: SwitchProperties) -> (flags: SwitchProperties) {
        SwitchProperties { bits: self.bits | rhs.bits }
    }
}

impl vstd::std_specs::ops::BitOrSpecImpl for SwitchProperties {
    open spec fn obeys_bitor_spec() -> bool {
        true
    }

    open spec fn bitor_req(self, rhs: SwitchProperties) -> bool {
        true
    }

    open spec fn bitor_spec(self, rhs: SwitchProperties) -> SwitchProperties {
        SwitchProperties { bits: self.bits | rhs.bits }
    }
}

} // verus!
