//! Interrupt vector numbering for the two chained interrupt controllers.
//! Loading the descriptor table and acknowledging interrupts is hardware
//! work done by the surrounding kernel; the mapping from interrupt line to
//! vector number is plain arithmetic and lives here.

use vstd::prelude::*;

verus! {

/// Interrupt vector offset of the primary controller: vectors 0–31 are CPU
/// exceptions, hardware interrupts start right after them.
pub const PIC_1_OFFSET: u8 = 32;

/// Interrupt vector offset of the secondary controller, eight lines later.
pub const PIC_2_OFFSET: u8 = PIC_1_OFFSET + 8;

/// Hardware interrupt lines the kernel handles, numbered from the primary
/// controller's offset upwards.
#[derive(Debug, Clone, Copy, PartialEq, Eq, Structural)]
pub enum InterruptIndex {
    Timer,
    Keyboard,
}

impl InterruptIndex {
    /// The interrupt vector number of this line.
    pub open spec fn spec_vector(self) -> int {
        match self {
            InterruptIndex::Timer => PIC_1_OFFSET as int,
            InterruptIndex::Keyboard => PIC_1_OFFSET + 1,
        }
    }

    /// The vector number this line is dispatched through.
    pub fn as_u8(self) -> (r: u8)
        ensures
            r == self.spec_vector(),
    {
        match self {
            InterruptIndex::Timer => PIC_1_OFFSET,
            InterruptIndex::Keyboard => PIC_1_OFFSET + 1,
        }
    }

    /// The vector number as an index into the descriptor table.
    pub fn as_usize(self) -> (r: usize)
        ensures
            r == self.spec_vector(),
    {
        self.as_u8() as usize
    }
}

} // verus!
