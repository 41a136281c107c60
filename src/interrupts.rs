//! Interrupt vector numbers of the chained programmable interrupt controllers.
use vstd::prelude::*;

verus! {

/// First vector used by the primary interrupt controller.
pub const PIC_1_OFFSET: u8 = 32;

/// First vector used by the secondary interrupt controller.
pub const PIC_2_OFFSET: u8 = PIC_1_OFFSET + 8;

/// Hardware interrupts that the kernel handles.
#[derive(Debug, Clone, Copy, PartialEq, Eq, Structural)]
pub enum InterruptIndex {
    /// The timer, the primary controller's first line.
    Timer,
}

impl InterruptIndex {
    /// The vector number of the interrupt.
    pub open spec fn vector(self) -> u8 {
        match self {
            InterruptIndex::Timer => PIC_1_OFFSET,
        }
    }

    /// The vector number of the interrupt.
    pub fn as_u8(self) -> (r: u8)
        ensures
            r == self.vector(),
    {
        match self {
            InterruptIndex::Timer => PIC_1_OFFSET,
        }
    }

    /// The vector number of the interrupt, as an index into the descriptor
    /// table.
    pub fn as_usize(self) -> (r: usize)
        ensures
            r == self.vector() as usize,
    {
        self.as_u8() as usize
    }
}

} // verus!
