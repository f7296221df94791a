//! Exit codes written to QEMU's debug-exit device.
use vstd::prelude::*;

verus! {

/// How the kernel's test run ended. The codes stay clear of QEMU's own: the
/// device exits with `(code << 1) | 1`.
#[derive(Clone, Copy, Debug, PartialEq, Eq)]
pub enum QemuExitCode {
    Success,
    Failure,
}

impl QemuExitCode {
    /// The value written to the device's port.
    pub fn code(self) -> (r: u32)
        ensures
            r == match self {
                QemuExitCode::Success => 0x10u32,
                QemuExitCode::Failure => 0x11u32,
            },
    {
        match self {
            QemuExitCode::Success => 0x10,
            QemuExitCode::Failure => 0x11,
        }
    }
}

} // verus!
