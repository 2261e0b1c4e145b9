//! Placeholder backend for targets with no real one: every entry point reports
//! "no terminal here", which the caller already handles as it handles a
//! redirected stdout, degrading to the non-interactive dump.
use vstd::prelude::*;

use super::{Fd, ReadOutcome};

verus! {

/// Nothing to save, because nothing is ever changed.
#[derive(Clone, Copy)]
pub struct SavedTermios;

/// Nothing to install.
pub fn install_signal_handlers() {
}

/// No handle is a terminal here.
pub fn is_tty(_fd: Fd) -> (b: bool)
    ensures
        !b,
{
    false
}

/// There is no controlling terminal to open.
pub fn open_tty() -> (r: Option<Fd>)
    ensures
        r is None,
{
    None
}

/// No handle to read keys from.
pub fn tty_fd() -> (r: Option<(Fd, bool)>)
    ensures
        r is None,
{
    None
}

/// Nothing was opened, so nothing is closed.
pub fn close_fd(_fd: Fd) {
}

/// The size is unknown; the caller substitutes its default.
pub fn winsize() -> (r: Option<(u16, u16)>)
    ensures
        r is None,
{
    None
}

/// The size of any handle is unknown.
pub fn winsize_of(_fd: Fd) -> (r: Option<(u16, u16)>)
    ensures
        r is None,
{
    None
}

/// Raw mode is impossible here.
pub fn set_raw(_fd: Fd) -> (r: Option<SavedTermios>)
    ensures
        r is None,
{
    None
}

/// Nothing was changed, so nothing is put back.
pub fn restore(_fd: Fd, _saved: &SavedTermios) -> (b: bool)
    ensures
        !b,
{
    false
}

/// Input is at its end, and the buffer is left as it was.
pub fn read_input(_fd: Fd, _buf: &mut [u8]) -> (r: ReadOutcome)
    ensures
        r == ReadOutcome::Eof,
        final(_buf)@ == old(_buf)@,
{
    ReadOutcome::Eof
}

/// Nothing can be written.
pub fn write_all(_fd: Fd, _buf: &[u8]) -> (r: Result<(), i32>)
    ensures
        r == Err::<(), i32>(0),
{
    Err(0)
}

} // verus!
