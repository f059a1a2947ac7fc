//! Dynamic-memory subsystem of a minimal kernel: a family of interchangeable
//! heap-allocator backends (bump cursor, address-ordered free list, segregated
//! fixed-size blocks) managing a single fixed arena, with machine-checked
//! contracts for non-overlap, coalescing, overflow safety and sliver rejection.
//!
//! The allocators here operate on the arena purely as a range of numeric
//! addresses: they decide *which* spans are handed out and reclaimed, and the
//! surrounding (unverified) runtime is responsible for mapping the arena and
//! turning the returned addresses into pointers.
use vstd::prelude::*;

pub mod allocator;
pub mod interrupts;
pub mod vga_buffer;

verus! {

/// Status reported to the hosting emulator when a test kernel shuts down.
#[derive(Debug, Clone, Copy, PartialEq, Eq, Structural)]
pub enum QemuExitCode {
    Success,
    Failed,
}

impl QemuExitCode {
    /// The raw code written to the emulator's exit port.
    pub fn as_u32(self) -> (r: u32)
        ensures
            self is Success ==> r == 0x10,
            self is Failed ==> r == 0x11,
    {
        match self {
            QemuExitCode::Success => 0x10,
            QemuExitCode::Failed => 0x11,
        }
    }
}

} // verus!

