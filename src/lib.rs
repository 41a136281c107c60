//! Heap memory management for a freestanding kernel: alignment arithmetic,
//! the heap-mapping plan, and two allocation strategies over a fixed region.
use vstd::prelude::*;

pub mod allocator;
pub mod interrupts;
pub mod vga_buffer;

verus! {

/// Exit codes that the kernel reports to the emulator it runs in.
#[derive(Debug, Clone, Copy, PartialEq, Eq, Structural)]
pub enum QemuExitCode {
    Success,
    Failed,
}

impl QemuExitCode {
    /// The value written to the emulator's exit port.
    pub open spec fn code(self) -> u32 {
        match self {
            QemuExitCode::Success => 0x10,
            QemuExitCode::Failed => 0x11,
        }
    }

    /// The value written to the emulator's exit port.
    pub fn as_u32(self) -> (r: u32)
        ensures
            r == self.code(),
    {
        match self {
            QemuExitCode::Success => 0x10,
            QemuExitCode::Failed => 0x11,
        }
    }
}

} // verus!
