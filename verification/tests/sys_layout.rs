//! The unix C structs' flag round trips and the raw-mode slots they land in.

use lib::sys::abi::{apply_raw_mode, darwin, linux};
use lib::sys::layout::{DarwinTermios, LinuxTermios, Winsize};

/// Byte offset of a field, computed from two addresses. `offset_of!` would be
/// tidier but is newer than this crate's stated MSRV (Cargo.toml `rust-version`).

#[test]
fn winsize_is_four_shorts_row_first() {
    assert_eq!(std::mem::size_of::<Winsize>(), 8);
    let mut ws = Winsize::zeroed();
    ws.ws_row = 24;
    ws.ws_col = 80;
    assert_eq!(ws.cols_rows(), (80, 24));
}

#[test]
fn linux_flags_round_trip_losslessly() {
    let mut t = LinuxTermios::zeroed();
    t.c_iflag = 0xdead_beef;
    t.c_oflag = 0x0123_4567;
    t.c_cflag = 0x89ab_cdef;
    t.c_lflag = 0xfeed_face;
    t.c_cc[linux().vmin_idx] = 7;
    t.c_cc[linux().vtime_idx] = 9;
    let f = t.flags(&linux());
    assert_eq!(
        (f.iflag, f.oflag, f.cflag, f.lflag, f.vmin, f.vtime),
        (0xdead_beef, 0x0123_4567, 0x89ab_cdef, 0xfeed_face, 7, 9)
    );
    let mut back = LinuxTermios::zeroed();
    back.set_flags(f, &linux());
    assert_eq!(back.c_iflag, t.c_iflag);
    assert_eq!(back.c_oflag, t.c_oflag);
    assert_eq!(back.c_cflag, t.c_cflag);
    assert_eq!(back.c_lflag, t.c_lflag);
    assert_eq!(back.c_cc, t.c_cc);
}

/// Darwin's `tcflag_t` is 64-bit, so a flag word with bits above 32 must
/// survive; on Linux the same value would be truncated by design.
#[test]
fn darwin_flags_round_trip_losslessly_including_the_high_word() {
    let mut t = DarwinTermios::zeroed();
    t.c_iflag = 0x1234_5678_9abc_def0;
    t.c_oflag = 0xffff_ffff_0000_0001;
    t.c_cflag = 0x0000_0001_ffff_ffff;
    t.c_lflag = 0x8000_0000_0000_0008;
    t.c_cc[darwin().vmin_idx] = 7;
    t.c_cc[darwin().vtime_idx] = 9;
    let f = t.flags(&darwin());
    assert_eq!(f.iflag, 0x1234_5678_9abc_def0);
    assert_eq!(f.oflag, 0xffff_ffff_0000_0001);
    assert_eq!(f.cflag, 0x0000_0001_ffff_ffff);
    assert_eq!(f.lflag, 0x8000_0000_0000_0008);
    assert_eq!((f.vmin, f.vtime), (7, 9));
    let mut back = DarwinTermios::zeroed();
    back.set_flags(f, &darwin());
    assert_eq!(back.c_iflag, t.c_iflag);
    assert_eq!(back.c_oflag, t.c_oflag);
    assert_eq!(back.c_cflag, t.c_cflag);
    assert_eq!(back.c_lflag, t.c_lflag);
    assert_eq!(back.c_cc, t.c_cc);
}

/// VMIN/VTIME must land in slots 16/17 on Darwin. Writing Linux's 6/5 would
/// leave VMIN at its inherited value (typically 1) and the pager would block
/// forever instead of ticking every 100 ms.
#[test]
fn darwin_vmin_and_vtime_land_in_slots_16_and_17() {
    let mut t = DarwinTermios::zeroed();
    t.set_flags(apply_raw_mode(t.flags(&darwin()), &darwin()), &darwin());
    assert_eq!(t.c_cc[16], 0, "VMIN");
    assert_eq!(t.c_cc[17], 1, "VTIME");
    for (i, b) in t.c_cc.iter().enumerate() {
        if i != 17 {
            assert_eq!(*b, 0, "c_cc[{i}] must be untouched");
        }
    }
}

#[test]
fn linux_vmin_and_vtime_land_in_slots_6_and_5() {
    let mut t = LinuxTermios::zeroed();
    t.set_flags(apply_raw_mode(t.flags(&linux()), &linux()), &linux());
    assert_eq!(t.c_cc[6], 0, "VMIN");
    assert_eq!(t.c_cc[5], 1, "VTIME");
    for (i, b) in t.c_cc.iter().enumerate() {
        if i != 5 {
            assert_eq!(*b, 0, "c_cc[{i}] must be untouched");
        }
    }
}

/// The full Darwin raw-mode transformation, spelled out against literals from
/// `xnu/bsd/sys/termios.h` rather than against the mask names, so a wrong
/// constant in the table fails here.
#[test]
fn darwin_raw_mode_clears_exactly_the_documented_bits() {
    let mut t = DarwinTermios::zeroed();
    t.c_iflag = !0;
    t.c_oflag = !0;
    t.c_cflag = !0;
    t.c_lflag = !0;
    let mut raw = t;
    raw.set_flags(apply_raw_mode(t.flags(&darwin()), &darwin()), &darwin());
    // BRKINT|ICRNL|INPCK|ISTRIP|IXON = 0x2|0x100|0x10|0x20|0x200
    assert_eq!(!raw.c_iflag, 0x332);
    // OPOST
    assert_eq!(!raw.c_oflag, 0x1);
    // CSIZE (0x300) cleared, CS8 (0x300) set: on Darwin too these coincide.
    assert_eq!(raw.c_cflag, !0);
    // ECHO|ICANON|IEXTEN|ISIG = 0x8|0x100|0x400|0x80
    assert_eq!(!raw.c_lflag, 0x588);
    // Nothing above bit 31 may be disturbed: Darwin has real flags up there
    // (e.g. NOFLSH 0x80000000 is in range, but the 64-bit word must survive).
    assert_eq!(raw.c_lflag >> 32, 0xffff_ffff);
}
