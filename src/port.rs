//! I/O port numbers and the exit codes of the test machine.
use vstd::prelude::*;

verus! {

/// The I/O ports the kernel uses.
#[derive(Clone, Copy, Debug, PartialEq, Eq, Structural)]
pub enum PortNumber {
    /// Writing here ends the emulated machine that runs the tests.
    QemuDebugExit,
    /// The keyboard controller's data port.
    Keyboard,
}

/// Number of the port `p`.
pub open spec fn port_number(p: PortNumber) -> u16 {
    match p {
        PortNumber::QemuDebugExit => 0xf4,
        PortNumber::Keyboard => 0x60,
    }
}

impl PortNumber {
    /// The port's number.
    pub fn number(self) -> (r: u16)
        ensures
            r == port_number(self),
    {
        match self {
            PortNumber::QemuDebugExit => 0xf4,
            PortNumber::Keyboard => 0x60,
        }
    }
}

impl From<PortNumber> for u16 {
    fn from(value: PortNumber) -> (r: u16) {
        value.number()
    }
}

impl vstd::std_specs::convert::FromSpecImpl<PortNumber> for u16 {
    open spec fn obeys_from_spec() -> bool {
        true
    }

    open spec fn from_spec(v: PortNumber) -> u16 {
        port_number(v)
    }
}

/// The value written to the exit port when the tests end.
#[derive(Clone, Copy, Debug, PartialEq, Eq, Structural)]
pub enum QemuExitCode {
    Success,
    Failed,
}

impl QemuExitCode {
    /// The value written to the exit port.
    pub fn code(self) -> (r: u32)
        ensures
            r == match self {
                QemuExitCode::Success => 0x10u32,
                QemuExitCode::Failed => 0x11u32,
            },
    {
        match self {
            QemuExitCode::Success => 0x10,
            QemuExitCode::Failed => 0x11,
        }
    }
}

} // verus!
