//! The C struct layouts the unix backends pass to the kernel, every OS's, on
//! every target, together with the conversions between them and the portable
//! [`TermFlags`] view that [`crate::sys::abi::apply_raw_mode`] works on.
//!
//! Authorities: glibc `<bits/termios.h>` and musl `arch/x86_64/bits/termios.h`
//! for Linux (`NCCS` = 32, a `c_line` member, 4-byte `tcflag_t`), and
//! `xnu/bsd/sys/termios.h` for Darwin (`NCCS` = 20, no `c_line`, 8-byte
//! `tcflag_t`). `struct winsize` is four `unsigned short` on both.
use vstd::prelude::*;

use super::abi::{TermFlags, TermiosAbi};

verus! {

/// Linux `NCCS`.
pub const LINUX_NCCS: usize = 32;

/// Darwin `NCCS`.
pub const DARWIN_NCCS: usize = 20;

/// Linux `struct termios` (identical under glibc and musl). `_tail_pad` is
/// reserve only: no libc reads or writes it.
#[derive(Clone, Copy)]
pub struct LinuxTermios {
    pub c_iflag: u32,
    pub c_oflag: u32,
    pub c_cflag: u32,
    pub c_lflag: u32,
    pub c_line: u8,
    pub c_cc: [u8; LINUX_NCCS],
    pub c_ispeed: u32,
    pub c_ospeed: u32,
    pub _tail_pad: [u8; 16],
}

/// Darwin `struct termios`: exactly 72 bytes, no reserve tail.
#[derive(Clone, Copy)]
pub struct DarwinTermios {
    pub c_iflag: u64,
    pub c_oflag: u64,
    pub c_cflag: u64,
    pub c_lflag: u64,
    pub c_cc: [u8; DARWIN_NCCS],
    pub c_ispeed: u64,
    pub c_ospeed: u64,
}

/// `struct winsize`, shared verbatim by Linux and Darwin: row, col, xpixel,
/// ypixel.
#[derive(Clone, Copy)]
pub struct Winsize {
    pub ws_row: u16,
    pub ws_col: u16,
    pub ws_xpixel: u16,
    pub ws_ypixel: u16,
}

impl Winsize {
    /// Every field zero, ready for `ioctl(TIOCGWINSZ)` to fill.
    pub fn zeroed() -> (w: Winsize)
        ensures
            w.ws_row == 0 && w.ws_col == 0 && w.ws_xpixel == 0 && w.ws_ypixel == 0,
    {
        Winsize { ws_row: 0, ws_col: 0, ws_xpixel: 0, ws_ypixel: 0 }
    }

    /// `(cols, rows)`, in the order the rest of the crate uses.
    pub fn cols_rows(&self) -> (r: (u16, u16))
        ensures
            r == (self.ws_col, self.ws_row),
    {
        (self.ws_col, self.ws_row)
    }
}

/// A `c_cc` array after raw mode's two writes: `VMIN` first, then `VTIME`.
pub open spec fn cc_after(cc: Seq<u8>, f: TermFlags, a: TermiosAbi) -> Seq<u8> {
    cc.update(a.vmin_idx as int, f.vmin).update(a.vtime_idx as int, f.vtime)
}

impl LinuxTermios {
    /// Every byte zero.
    pub fn zeroed() -> (t: LinuxTermios)
        ensures
            t.c_iflag == 0 && t.c_oflag == 0 && t.c_cflag == 0 && t.c_lflag == 0,
            t.c_line == 0 && t.c_ispeed == 0 && t.c_ospeed == 0,
            forall|i: int| 0 <= i < LINUX_NCCS ==> #[trigger] t.c_cc@[i] == 0,
            forall|i: int| 0 <= i < 16 ==> #[trigger] t._tail_pad@[i] == 0,
    {
        LinuxTermios {
            c_iflag: 0,
            c_oflag: 0,
            c_cflag: 0,
            c_lflag: 0,
            c_line: 0,
            c_cc: [0u8; LINUX_NCCS],
            c_ispeed: 0,
            c_ospeed: 0,
            _tail_pad: [0u8; 16],
        }
    }

    /// The portable view of this struct, widening `tcflag_t` to `u64`.
    pub fn flags(&self, a: &TermiosAbi) -> (f: TermFlags)
        requires
            a.vmin_idx < LINUX_NCCS,
            a.vtime_idx < LINUX_NCCS,
        ensures
            f == (TermFlags {
                iflag: self.c_iflag as u64,
                oflag: self.c_oflag as u64,
                cflag: self.c_cflag as u64,
                lflag: self.c_lflag as u64,
                vmin: self.c_cc@[a.vmin_idx as int],
                vtime: self.c_cc@[a.vtime_idx as int],
            }),
    {
        TermFlags {
            iflag: self.c_iflag as u64,
            oflag: self.c_oflag as u64,
            cflag: self.c_cflag as u64,
            lflag: self.c_lflag as u64,
            vmin: self.c_cc[a.vmin_idx],
            vtime: self.c_cc[a.vtime_idx],
        }
    }

    /// Write a portable view back into the C layout, narrowing to the 4-byte
    /// `tcflag_t`. Nothing but the four flag words and the two `c_cc` slots
    /// changes.
    pub fn set_flags(&mut self, f: TermFlags, a: &TermiosAbi)
        requires
            a.vmin_idx < LINUX_NCCS,
            a.vtime_idx < LINUX_NCCS,
        ensures
            final(self).c_iflag == f.iflag as u32,
            final(self).c_oflag == f.oflag as u32,
            final(self).c_cflag == f.cflag as u32,
            final(self).c_lflag == f.lflag as u32,
            final(self).c_cc@ == cc_after(old(self).c_cc@, f, *a),
            final(self).c_line == old(self).c_line,
            final(self).c_ispeed == old(self).c_ispeed,
            final(self).c_ospeed == old(self).c_ospeed,
            final(self)._tail_pad == old(self)._tail_pad,
    {
        self.c_iflag = f.iflag as u32;
        self.c_oflag = f.oflag as u32;
        self.c_cflag = f.cflag as u32;
        self.c_lflag = f.lflag as u32;
        self.c_cc[a.vmin_idx] = f.vmin;
        self.c_cc[a.vtime_idx] = f.vtime;
    }
}

impl DarwinTermios {
    /// Every byte zero.
    pub fn zeroed() -> (t: DarwinTermios)
        ensures
            t.c_iflag == 0 && t.c_oflag == 0 && t.c_cflag == 0 && t.c_lflag == 0,
            t.c_ispeed == 0 && t.c_ospeed == 0,
            forall|i: int| 0 <= i < DARWIN_NCCS ==> #[trigger] t.c_cc@[i] == 0,
    {
        DarwinTermios {
            c_iflag: 0,
            c_oflag: 0,
            c_cflag: 0,
            c_lflag: 0,
            c_cc: [0u8; DARWIN_NCCS],
            c_ispeed: 0,
            c_ospeed: 0,
        }
    }

    /// The portable view. `tcflag_t` is already 64-bit here, so nothing widens.
    pub fn flags(&self, a: &TermiosAbi) -> (f: TermFlags)
        requires
            a.vmin_idx < DARWIN_NCCS,
            a.vtime_idx < DARWIN_NCCS,
        ensures
            f == (TermFlags {
                iflag: self.c_iflag,
                oflag: self.c_oflag,
                cflag: self.c_cflag,
                lflag: self.c_lflag,
                vmin: self.c_cc@[a.vmin_idx as int],
                vtime: self.c_cc@[a.vtime_idx as int],
            }),
    {
        TermFlags {
            iflag: self.c_iflag,
            oflag: self.c_oflag,
            cflag: self.c_cflag,
            lflag: self.c_lflag,
            vmin: self.c_cc[a.vmin_idx],
            vtime: self.c_cc[a.vtime_idx],
        }
    }

    /// Write a portable view back. No narrowing: Darwin's `unsigned long`
    /// flags survive the round trip intact.
    pub fn set_flags(&mut self, f: TermFlags, a: &TermiosAbi)
        requires
            a.vmin_idx < DARWIN_NCCS,
            a.vtime_idx < DARWIN_NCCS,
        ensures
            final(self).c_iflag == f.iflag,
            final(self).c_oflag == f.oflag,
            final(self).c_cflag == f.cflag,
            final(self).c_lflag == f.lflag,
            final(self).c_cc@ == cc_after(old(self).c_cc@, f, *a),
            final(self).c_ispeed == old(self).c_ispeed,
            final(self).c_ospeed == old(self).c_ospeed,
    {
        self.c_iflag = f.iflag;
        self.c_oflag = f.oflag;
        self.c_cflag = f.cflag;
        self.c_lflag = f.lflag;
        self.c_cc[a.vmin_idx] = f.vmin;
        self.c_cc[a.vtime_idx] = f.vtime;
    }
}

/// Reading back what was written gives the view that was written: losslessly
/// on Darwin, and on Linux whenever the flag words fit the 4-byte `tcflag_t`.
/// `VMIN` and `VTIME` must be distinct slots, as they are on both OSes.
pub proof fn lemma_flags_round_trip(cc: Seq<u8>, f: TermFlags, a: TermiosAbi)
    requires
        0 <= a.vmin_idx < cc.len(),
        0 <= a.vtime_idx < cc.len(),
        a.vmin_idx != a.vtime_idx,
    ensures
        cc_after(cc, f, a)[a.vmin_idx as int] == f.vmin,
        cc_after(cc, f, a)[a.vtime_idx as int] == f.vtime,
        f.iflag <= u32::MAX ==> (f.iflag as u32) as u64 == f.iflag,
        f.oflag <= u32::MAX ==> (f.oflag as u32) as u64 == f.oflag,
        f.cflag <= u32::MAX ==> (f.cflag as u32) as u64 == f.cflag,
        f.lflag <= u32::MAX ==> (f.lflag as u32) as u64 == f.lflag,
        forall|i: int|
            0 <= i < cc.len() && i != a.vmin_idx && i != a.vtime_idx ==> #[trigger] cc_after(
                cc,
                f,
                a,
            )[i] == cc[i],
{
}

} // verus!
