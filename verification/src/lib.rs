//! Heap-allocation subsystem of a freestanding kernel, modelled and verified.
//!
//! The crate provides three interchangeable allocation strategies — a bump
//! allocator, an intrusive free-list allocator, and a fixed-size-block
//! allocator — behind one allocate/deallocate contract, together with the
//! address arithmetic used at heap bootstrap.  Raw heap memory is modelled as
//! an opaque address range: each strategy tracks `(address, size)` regions and
//! its contracts prove that live allocations never overlap and always respect
//! the requested alignment.

use vstd::prelude::*;

pub mod allocator;
pub mod interrupts;
pub mod task;
pub mod vga_buffer;

verus! {

/// Exit codes handed to the emulator's debug-exit device when a test run
/// finishes.
#[derive(Debug, Clone, Copy, PartialEq, Eq, Structural)]
pub enum QemuExitCode {
    Success,
    Failed,
}

impl QemuExitCode {
    /// The value written to the debug-exit I/O port for this outcome.
    pub fn code(self) -> (r: u32)
        ensures
            self is Success ==> r == 0x10,
            self is Failed ==> r == 0x11,
    {
        match self {
            QemuExitCode::Success => 0x10,
            QemuExitCode::Failed => 0x11,
        }
    }
}

} // verus!
