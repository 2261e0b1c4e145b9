//! The platform seam: what the terminal layer needs from the operating system.
//!
//! Everything an OS backend can compute without touching the OS lives here, as
//! checked arithmetic: [`abi`] for the unix termios and ioctl numbers, [`layout`]
//! for the unix C structs, [`win_abi`] and [`win_layout`] for the Windows
//! console, and [`browser`] for which program opens a link. [`stub`] is the
//! placeholder backend for a target with no real one. The backends that make
//! syscalls sit outside this library and hand their results to these functions.
pub mod abi;
pub mod browser;
pub mod console;
pub mod layout;
pub mod stub;
pub mod win_abi;
pub mod win_layout;

use vstd::prelude::*;

verus! {

/// A raw file descriptor / handle, opaque to callers above the seam.
pub type Fd = i32;

/// Standard output handle.
pub const STDOUT: Fd = 1;

/// Standard input handle.
pub const STDIN: Fd = 0;

/// Outcome of a single non-blocking-ish read from the terminal.
#[derive(Clone, Copy, PartialEq, Eq, Debug, Structural)]
pub enum ReadOutcome {
    /// `n` bytes were placed at the front of the caller's buffer.
    Bytes(usize),
    /// The read timed out with nothing to show: the event loop's tick.
    Timeout,
    /// End of file on the input handle.
    Eof,
    /// Errno, or the platform's equivalent error code.
    Error(i32),
}

/// Can the terminal interpret ANSI escape sequences? On unix a terminal that
/// speaks no VT is not a case this reader handles, so the answer is `true`.
pub fn vt_output_supported() -> (b: bool)
    ensures
        b,
{
    true
}

} // verus!
