//! The interrupt vectors at which the remapped programmable interrupt
//! controllers deliver hardware interrupts.
use vstd::prelude::*;

verus! {

/// First vector of the primary controller: the first one after the 32 CPU
/// exceptions.
pub const PIC_1_OFFSET: u8 = 32;

/// First vector of the secondary controller, right after the primary's 8.
pub const PIC_2_OFFSET: u8 = PIC_1_OFFSET + 8;

/// The hardware interrupts that the kernel handles.
#[derive(Clone, Copy, Debug, PartialEq, Eq)]
pub enum InterruptIndex {
    /// Line 0 of the primary controller.
    Timer,
    /// Line 1 of the primary controller.
    Keyboard,
}

impl InterruptIndex {
    /// The line on the primary controller.
    pub open spec fn line(self) -> int {
        match self {
            InterruptIndex::Timer => 0,
            InterruptIndex::Keyboard => 1,
        }
    }

    /// The interrupt vector: the primary controller's offset plus the line.
    pub fn as_u8(self) -> (r: u8)
        ensures
            r == PIC_1_OFFSET + self.line(),
    {
        match self {
            InterruptIndex::Timer => PIC_1_OFFSET,
            InterruptIndex::Keyboard => PIC_1_OFFSET + 1,
        }
    }

    /// The interrupt vector, as an index into the descriptor table.
    pub fn as_usize(self) -> (r: usize)
        ensures
            r == PIC_1_OFFSET + self.line(),
    {
        self.as_u8() as usize
    }
}

} // verus!
