//! Interrupt-vector bookkeeping shared with the kernel's dispatch tables.
//!
//! The hardware interrupt controllers are remapped so that their lines start
//! past the CPU exception vectors; the enum below names the lines this
//! kernel handles and the functions give the vector numbers they occupy.

use vstd::prelude::*;

verus! {

/// First vector used by the primary interrupt controller.
pub const PIC_1_OFFSET: u8 = 32;

/// First vector used by the secondary interrupt controller.
pub const PIC_2_OFFSET: u8 = PIC_1_OFFSET + 8;

/// Hardware interrupt lines this kernel handles.
#[derive(Debug, Clone, Copy, PartialEq, Eq, Structural)]
pub enum InterruptIndex {
    Timer,
    Keyboard,
}

/// The interrupt vector each line is remapped to.
pub open spec fn spec_interrupt_vector(i: InterruptIndex) -> u8 {
    match i {
        InterruptIndex::Timer => PIC_1_OFFSET,
        InterruptIndex::Keyboard => (PIC_1_OFFSET + 1) as u8,
    }
}

impl InterruptIndex {
    /// The vector number of this interrupt line.
    pub fn as_u8(self) -> (r: u8)
        ensures
            r == spec_interrupt_vector(self),
    {
        match self {
            InterruptIndex::Timer => PIC_1_OFFSET,
            InterruptIndex::Keyboard => PIC_1_OFFSET + 1,
        }
    }

    /// The vector number of this interrupt line, as a table index.
    pub fn as_usize(self) -> (r: usize)
        ensures
            r == spec_interrupt_vector(self),
    {
        self.as_u8() as usize
    }
}

} // verus!
