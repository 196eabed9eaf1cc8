//! Kernel heap support: two verified allocation strategies over a fixed,
//! pre-mapped heap window, plus the small plain-data types the surrounding
//! kernel shares with them.
//!
//! The allocators work on addresses as plain integers.  The surrounding
//! kernel hands them a heap window `[heap_start, heap_start + heap_size)`
//! that it has already backed with writable memory, and performs the actual
//! loads and stores into the addresses they hand out.

use vstd::prelude::*;

pub mod allocator;
pub mod interrupts;
pub mod vga_buffer;

verus! {

/// Exit status reported to the emulator when a kernel test run finishes.
#[derive(Debug, Clone, Copy, PartialEq, Eq, Structural)]
pub enum QemuExitCode {
    Success,
    Failed,
}

impl QemuExitCode {
    /// The value written to the emulator's exit port for this outcome.
    pub fn as_u32(self) -> (r: u32)
        ensures
            r == (match self {
                QemuExitCode::Success => 0x10u32,
                QemuExitCode::Failed => 0x11u32,
            }),
    {
        match self {
            QemuExitCode::Success => 0x10,
            QemuExitCode::Failed => 0x11,
        }
    }
}

} // verus!
