//! Interrupt-vector bookkeeping: the offsets the programmable interrupt
//! controllers are remapped to, and the index of each hardware interrupt.
//! Loading the descriptor tables and talking to the controllers is left to
//! the unverified kernel runtime.
use vstd::prelude::*;

verus! {

/// First vector used by the primary interrupt controller (vectors below 32
/// belong to CPU exceptions).
pub const PIC_1_OFFSET: u8 = 32;

/// First vector used by the secondary interrupt controller.
pub const PIC_2_OFFSET: u8 = PIC_1_OFFSET + 8;

/// The vector assigned to each hardware interrupt this kernel handles.
#[derive(Debug, Clone, Copy, PartialEq, Eq, Structural)]
pub enum InterruptIndex {
    Timer,
    Keyboard,
}

impl InterruptIndex {
    /// The interrupt's vector number, as a mathematical value.
    pub open spec fn spec_vector(self) -> int {
        match self {
            InterruptIndex::Timer => PIC_1_OFFSET as int,
            InterruptIndex::Keyboard => PIC_1_OFFSET + 1,
        }
    }

    /// The interrupt's vector number.
    pub fn as_u8(self) -> (r: u8)
        ensures
            r == self.spec_vector(),
    {
        match self {
            InterruptIndex::Timer => PIC_1_OFFSET,
            InterruptIndex::Keyboard => PIC_1_OFFSET + 1,
        }
    }

    /// The vector number widened for indexing a descriptor table.
    pub fn as_usize(self) -> (r: usize)
        ensures
            r == self.spec_vector(),
    {
        self.as_u8() as usize
    }
}

} // verus!
