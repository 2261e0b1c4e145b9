//! Pure, platform-independent core of the `sys` layer.
//!
//! Every OS ABI fact that can be written down as arithmetic lives here: the
//! raw-mode flag masks, the BSD `_IOC` request-number encoding, and the
//! read/write retry rules. Nothing in this file calls the operating system; a
//! backend calls the syscall and hands the result to a function below.
//!
//! Authorities: Linux `<asm-generic/ioctls.h>`, glibc `<bits/termios.h>` and
//! musl `arch/x86_64/bits/termios.h`; Darwin
//! `xnu/bsd/sys/{termios,ioccom,ttycom,signal,fcntl,errno}.h`.
use vstd::prelude::*;

use super::ReadOutcome;

verus! {

/// The unix flavours whose terminal ABI is tabulated here.
#[derive(Clone, Copy, PartialEq, Eq, Debug, Structural)]
pub enum Os {
    Linux,
    Darwin,
}

/// The subset of `struct termios` that [`apply_raw_mode`] reads or writes,
/// widened to `u64` so one type describes Linux (4-byte `tcflag_t`) and
/// Darwin (8-byte `tcflag_t`).
#[derive(Clone, Copy, PartialEq, Eq, Debug, Default, Structural)]
pub struct TermFlags {
    pub iflag: u64,
    pub oflag: u64,
    pub cflag: u64,
    pub lflag: u64,
    /// `c_cc[VMIN]`.
    pub vmin: u8,
    /// `c_cc[VTIME]`, in tenths of a second.
    pub vtime: u8,
}

/// One OS's termios/errno numbers.
#[derive(Clone, Copy, PartialEq, Eq, Debug, Structural)]
pub struct TermiosAbi {
    pub brkint: u64,
    pub inpck: u64,
    pub istrip: u64,
    pub icrnl: u64,
    pub ixon: u64,
    pub opost: u64,
    pub csize: u64,
    pub cs8: u64,
    pub isig: u64,
    pub icanon: u64,
    pub echo: u64,
    pub iexten: u64,
    pub nccs: usize,
    pub vmin_idx: usize,
    pub vtime_idx: usize,
    pub tcsaflush: i32,
    pub eintr: i32,
    pub eagain: i32,
}

/// The Linux table, glibc and musl alike, as a value.
pub open spec fn linux_spec() -> TermiosAbi {
    TermiosAbi {
        brkint: 0o000002,
        inpck: 0o000020,
        istrip: 0o000040,
        icrnl: 0o000400,
        ixon: 0o002000,
        opost: 0o000001,
        csize: 0o000060,
        cs8: 0o000060,
        isig: 0o000001,
        icanon: 0o000002,
        echo: 0o000010,
        iexten: 0o100000,
        nccs: 32,
        vmin_idx: 6,
        vtime_idx: 5,
        tcsaflush: 2,
        eintr: 4,
        eagain: 11,
    }
}

/// The Darwin table (`xnu/bsd/sys/termios.h`), shared by `x86_64` and `arm64`.
pub open spec fn darwin_spec() -> TermiosAbi {
    TermiosAbi {
        brkint: 0x0000_0002,
        inpck: 0x0000_0010,
        istrip: 0x0000_0020,
        icrnl: 0x0000_0100,
        ixon: 0x0000_0200,
        opost: 0x0000_0001,
        csize: 0x0000_0300,
        cs8: 0x0000_0300,
        isig: 0x0000_0080,
        icanon: 0x0000_0100,
        echo: 0x0000_0008,
        iexten: 0x0000_0400,
        nccs: 20,
        vmin_idx: 16,
        vtime_idx: 17,
        tcsaflush: 2,
        eintr: 4,
        eagain: 35,
    }
}

/// x86_64/aarch64 Linux, glibc and musl alike.
pub fn linux() -> (a: TermiosAbi)
    ensures
        a == linux_spec(),
{
    TermiosAbi {
        brkint: 0o000002,
        inpck: 0o000020,
        istrip: 0o000040,
        icrnl: 0o000400,
        ixon: 0o002000,
        opost: 0o000001,
        csize: 0o000060,
        cs8: 0o000060,
        isig: 0o000001,
        icanon: 0o000002,
        echo: 0o000010,
        iexten: 0o100000,
        nccs: 32,
        vmin_idx: 6,
        vtime_idx: 5,
        tcsaflush: 2,
        eintr: 4,
        eagain: 11,
    }
}

/// Darwin, `x86_64-apple-darwin` and `aarch64-apple-darwin` alike.
pub fn darwin() -> (a: TermiosAbi)
    ensures
        a == darwin_spec(),
{
    TermiosAbi {
        brkint: 0x0000_0002,
        inpck: 0x0000_0010,
        istrip: 0x0000_0020,
        icrnl: 0x0000_0100,
        ixon: 0x0000_0200,
        opost: 0x0000_0001,
        csize: 0x0000_0300,
        cs8: 0x0000_0300,
        isig: 0x0000_0080,
        icanon: 0x0000_0100,
        echo: 0x0000_0008,
        iexten: 0x0000_0400,
        nccs: 20,
        vmin_idx: 16,
        vtime_idx: 17,
        tcsaflush: 2,
        eintr: 4,
        eagain: 35,
    }
}

/// The table describing `os`.
pub open spec fn abi_of(os: Os) -> TermiosAbi {
    match os {
        Os::Linux => linux_spec(),
        Os::Darwin => darwin_spec(),
    }
}

/// The table describing `os`.
pub fn abi_for(os: Os) -> (a: TermiosAbi)
    ensures
        a == abi_of(os),
{
    match os {
        Os::Linux => linux(),
        Os::Darwin => darwin(),
    }
}

/// The input-flag bits raw mode clears.
pub open spec fn iflag_mask(a: TermiosAbi) -> u64 {
    a.brkint | a.icrnl | a.inpck | a.istrip | a.ixon
}

/// The local-flag bits raw mode clears.
pub open spec fn lflag_mask(a: TermiosAbi) -> u64 {
    a.echo | a.icanon | a.iexten | a.isig
}

/// `cfmakeraw(3)` as this reader wants it: the cooked-mode input and local
/// bits cleared, output post-processing off, eight-bit characters, and the
/// `VMIN = 0 / VTIME = 1` poll that gives the event loop its 100 ms tick.
pub open spec fn raw_mode(f: TermFlags, a: TermiosAbi) -> TermFlags {
    TermFlags {
        iflag: f.iflag & !iflag_mask(a),
        oflag: f.oflag & !a.opost,
        cflag: (f.cflag & !a.csize) | a.cs8,
        lflag: f.lflag & !lflag_mask(a),
        vmin: 0,
        vtime: 1,
    }
}

/// The raw-mode transformation, as a pure function.
pub fn apply_raw_mode(f: TermFlags, a: &TermiosAbi) -> (r: TermFlags)
    ensures
        r == raw_mode(f, *a),
{
    TermFlags {
        iflag: f.iflag & !(a.brkint | a.icrnl | a.inpck | a.istrip | a.ixon),
        oflag: f.oflag & !a.opost,
        cflag: (f.cflag & !a.csize) | a.cs8,
        lflag: f.lflag & !(a.echo | a.icanon | a.iexten | a.isig),
        vmin: 0,
        vtime: 1,
    }
}

/// Raw mode is idempotent: entering it twice is entering it once.
pub proof fn lemma_raw_mode_idempotent(f: TermFlags, a: TermiosAbi)
    ensures
        raw_mode(raw_mode(f, a), a) == raw_mode(f, a),
{
    let (i, o, c, l) = (f.iflag, f.oflag, f.cflag, f.lflag);
    let (mi, mo, ms, m8, ml) = (iflag_mask(a), a.opost, a.csize, a.cs8, lflag_mask(a));
    assert((i & !mi) & !mi == i & !mi) by (bit_vector);
    assert((o & !mo) & !mo == o & !mo) by (bit_vector);
    assert((((c & !ms) | m8) & !ms) | m8 == (c & !ms) | m8) by (bit_vector);
    assert((l & !ml) & !ml == l & !ml) by (bit_vector);
}

/// Raw mode clears every cooked-mode bit it names, sets `CS8`, and leaves a
/// bit outside every mask exactly as it found it.
pub proof fn lemma_raw_mode_bits(f: TermFlags, a: TermiosAbi, bit: u64)
    ensures
        raw_mode(f, a).iflag & iflag_mask(a) == 0,
        raw_mode(f, a).oflag & a.opost == 0,
        raw_mode(f, a).cflag & a.cs8 == a.cs8,
        raw_mode(f, a).lflag & lflag_mask(a) == 0,
        bit & iflag_mask(a) == 0 ==> raw_mode(f, a).iflag & bit == f.iflag & bit,
        bit & a.opost == 0 ==> raw_mode(f, a).oflag & bit == f.oflag & bit,
        bit & a.csize == 0 && bit & a.cs8 == 0 ==> raw_mode(f, a).cflag & bit == f.cflag & bit,
        bit & lflag_mask(a) == 0 ==> raw_mode(f, a).lflag & bit == f.lflag & bit,
{
    let (i, o, c, l) = (f.iflag, f.oflag, f.cflag, f.lflag);
    let (mi, mo, ms, m8, ml) = (iflag_mask(a), a.opost, a.csize, a.cs8, lflag_mask(a));
    assert((i & !mi) & mi == 0) by (bit_vector);
    assert((o & !mo) & mo == 0) by (bit_vector);
    assert(((c & !ms) | m8) & m8 == m8) by (bit_vector);
    assert((l & !ml) & ml == 0) by (bit_vector);
    assert(bit & mi == 0 ==> (i & !mi) & bit == i & bit) by (bit_vector);
    assert(bit & mo == 0 ==> (o & !mo) & bit == o & bit) by (bit_vector);
    assert(bit & ms == 0 && bit & m8 == 0 ==> ((c & !ms) | m8) & bit == c & bit) by (bit_vector);
    assert(bit & ml == 0 ==> (l & !ml) & bit == l & bit) by (bit_vector);
}

/// BSD `_IOC` direction bit: the kernel writes the argument.
pub const IOC_OUT: u64 = 0x4000_0000;

/// BSD `_IOC` direction bit: the kernel reads the argument.
pub const IOC_IN: u64 = 0x8000_0000;

/// BSD `_IOC` direction bits for an ioctl with no argument.
pub const IOC_VOID: u64 = 0x2000_0000;

/// `IOCPARM_MASK`: the payload size field is 13 bits wide.
pub const IOCPARM_MASK: u64 = 0x1fff;

/// `sizeof(struct winsize)`: four `unsigned short` on every platform here.
pub const WINSIZE_LEN: usize = 8;

/// The BSD/Darwin `_IOC(dir, group, num, len)` encoding.
pub open spec fn ioc(dir: u64, group: u8, num: u8, len: usize) -> u64 {
    dir | (((len as u64) & IOCPARM_MASK) << 16u64) | ((group as u64) << 8u64) | (num as u64)
}

/// The BSD/Darwin `_IOC(dir, group, num, len)` encoding. `_IOR` is this with
/// [`IOC_OUT`], `_IOW` with [`IOC_IN`].
pub fn bsd_ioc(dir: u64, group: u8, num: u8, len: usize) -> (r: u64)
    ensures
        r == ioc(dir, group, num, len),
{
    let l: u64 = len as u64;
    let g: u64 = group as u64;
    let n: u64 = num as u64;
    dir | ((l & IOCPARM_MASK) << 16u64) | (g << 8u64) | n
}

/// `_IOR(group, num, T)` where `len == size_of::<T>()`.
pub fn bsd_ior(group: u8, num: u8, len: usize) -> (r: u64)
    ensures
        r == ioc(IOC_OUT, group, num, len),
{
    bsd_ioc(IOC_OUT, group, num, len)
}

/// The `_IOC` encoding can be read back: the direction, the group, the number
/// and the (13-bit) payload length each sit in their own field.
pub proof fn lemma_ioc_fields(dir: u64, group: u8, num: u8, len: usize)
    requires
        dir == IOC_OUT || dir == IOC_IN || dir == IOC_VOID,
    ensures
        ioc(dir, group, num, len) & 0xff == num as u64,
        (ioc(dir, group, num, len) >> 8u64) & 0xff == group as u64,
        (ioc(dir, group, num, len) >> 16u64) & IOCPARM_MASK == (len as u64) & IOCPARM_MASK,
        ioc(dir, group, num, len) & 0xe000_0000 == dir,
{
    let l = len as u64;
    let g = group as u64;
    let n = num as u64;
    assert(g <= 0xff && n <= 0xff);
    assert(
        (dir == 0x4000_0000u64 || dir == 0x8000_0000u64 || dir == 0x2000_0000u64) && g <= 0xff && n
            <= 0xff ==> {
            let r = dir | ((l & 0x1fff) << 16u64) | (g << 8u64) | n;
            &&& r & 0xff == n
            &&& (r >> 8u64) & 0xff == g
            &&& (r >> 16u64) & 0x1fff == l & 0x1fff
            &&& r & 0xe000_0000 == dir
        }
    ) by (bit_vector);
}

/// `TIOCGWINSZ` for `os`: a legacy literal on Linux, and
/// `_IOR('t', 104, struct winsize)` on Darwin.
pub open spec fn tiocgwinsz_of(os: Os) -> u64 {
    match os {
        Os::Linux => 0x5413,
        Os::Darwin => 0x4008_7468,
    }
}

/// `TIOCGWINSZ` for `os`.
pub fn tiocgwinsz(os: Os) -> (r: u64)
    ensures
        r == tiocgwinsz_of(os),
        os == Os::Darwin ==> r == ioc(IOC_OUT, 116u8, 104u8, WINSIZE_LEN),
{
    match os {
        Os::Linux => 0x5413,
        Os::Darwin => {
            let r = bsd_ior(116u8, 104u8, WINSIZE_LEN);
            assert(0x4000_0000u64 | ((8u64 & 0x1fff) << 16u64) | (116u64 << 8u64) | 104u64
                == 0x4008_7468u64) by (bit_vector);
            r
        },
    }
}

/// Interpret an ioctl result plus the `winsize` it filled in. A zero
/// dimension is as useless as a failure, so both collapse to `None`.
pub fn winsize_result(rc: i32, cols: u16, rows: u16) -> (r: Option<(u16, u16)>)
    ensures
        r == (if rc != 0 || cols == 0 || rows == 0 {
            None
        } else {
            Some((cols, rows))
        }),
{
    if rc != 0 || cols == 0 || rows == 0 {
        None
    } else {
        Some((cols, rows))
    }
}

/// `open(2)` flags and signal numbers for one OS.
#[derive(Clone, Copy, PartialEq, Eq, Debug, Structural)]
pub struct PosixAbi {
    /// `O_RDWR`.
    pub o_rdwr: i32,
    /// `O_NOCTTY`: open the tty without making it the controlling terminal.
    pub o_noctty: i32,
    pub sighup: i32,
    pub sigint: i32,
    pub sigquit: i32,
    pub sigterm: i32,
    pub sigwinch: i32,
}

/// Linux (`<asm-generic/fcntl.h>`, `<asm/signal.h>`).
pub open spec fn linux_posix_spec() -> PosixAbi {
    PosixAbi { o_rdwr: 2, o_noctty: 0o400, sighup: 1, sigint: 2, sigquit: 3, sigterm: 15, sigwinch: 28 }
}

/// Darwin (`<sys/fcntl.h>`, `<sys/signal.h>`): the signals agree with Linux,
/// `O_NOCTTY` does not.
pub open spec fn darwin_posix_spec() -> PosixAbi {
    PosixAbi {
        o_rdwr: 2,
        o_noctty: 0x2_0000,
        sighup: 1,
        sigint: 2,
        sigquit: 3,
        sigterm: 15,
        sigwinch: 28,
    }
}

/// The Linux `open`/signal table.
pub fn linux_posix() -> (p: PosixAbi)
    ensures
        p == linux_posix_spec(),
{
    PosixAbi { o_rdwr: 2, o_noctty: 0o400, sighup: 1, sigint: 2, sigquit: 3, sigterm: 15, sigwinch: 28 }
}

/// The Darwin `open`/signal table.
pub fn darwin_posix() -> (p: PosixAbi)
    ensures
        p == darwin_posix_spec(),
{
    PosixAbi {
        o_rdwr: 2,
        o_noctty: 0x2_0000,
        sighup: 1,
        sigint: 2,
        sigquit: 3,
        sigterm: 15,
        sigwinch: 28,
    }
}

/// The `open`/signal table describing `os`.
pub fn posix_for(os: Os) -> (p: PosixAbi)
    ensures
        p == (match os {
            Os::Linux => linux_posix_spec(),
            Os::Darwin => darwin_posix_spec(),
        }),
{
    match os {
        Os::Linux => linux_posix(),
        Os::Darwin => darwin_posix(),
    }
}

/// What a backend should do with the return value of one `read(2)`.
#[derive(Clone, Copy, PartialEq, Eq, Debug, Structural)]
pub enum ReadStep {
    /// `n` bytes are in the buffer.
    Bytes(usize),
    /// Nothing arrived within `VTIME`; poll the signal flags and come back.
    Timeout,
    /// Interrupted before any data; call `read` again.
    Retry,
    /// Give up with this errno.
    Error(i32),
}

/// Classify one `read(2)` return value. `errno` is only consulted when
/// `n < 0`. A zero-length read is a timeout, not EOF: with `VMIN = 0` and
/// `VTIME > 0` the two cannot be told apart on a unix tty.
pub fn classify_read(n: isize, errno: i32, a: &TermiosAbi) -> (r: ReadStep)
    ensures
        n > 0 ==> r == ReadStep::Bytes(n as usize),
        n == 0 ==> r == ReadStep::Timeout,
        n < 0 && errno == a.eintr ==> r == ReadStep::Retry,
        n < 0 && errno != a.eintr && errno == a.eagain ==> r == ReadStep::Timeout,
        n < 0 && errno != a.eintr && errno != a.eagain ==> r == ReadStep::Error(errno),
{
    if n > 0 {
        ReadStep::Bytes(n as usize)
    } else if n == 0 {
        ReadStep::Timeout
    } else if errno == a.eintr {
        ReadStep::Retry
    } else if errno == a.eagain {
        ReadStep::Timeout
    } else {
        ReadStep::Error(errno)
    }
}

/// What one classified `read(2)` comes to: `None` to read again.
pub fn read_outcome(step: ReadStep) -> (r: Option<ReadOutcome>)
    ensures
        r == match step {
            ReadStep::Bytes(k) => Some(ReadOutcome::Bytes(k)),
            ReadStep::Timeout => Some(ReadOutcome::Timeout),
            ReadStep::Retry => None,
            ReadStep::Error(e) => Some(ReadOutcome::Error(e)),
        },
{
    match step {
        ReadStep::Bytes(k) => Some(ReadOutcome::Bytes(k)),
        ReadStep::Timeout => Some(ReadOutcome::Timeout),
        ReadStep::Retry => None,
        ReadStep::Error(e) => Some(ReadOutcome::Error(e)),
    }
}

/// What a backend should do with the return value of one `write(2)`.
#[derive(Clone, Copy, PartialEq, Eq, Debug, Structural)]
pub enum WriteStep {
    /// `n` bytes went out; advance the cursor and keep going.
    Advance(usize),
    /// Interrupted or momentarily full; call `write` again.
    Retry,
    /// Give up with this error code.
    Fail(i32),
}

/// Classify one `write(2)` return value. A zero-length write cannot make
/// progress, so it fails rather than spinning forever.
pub fn classify_write(n: isize, errno: i32, a: &TermiosAbi) -> (r: WriteStep)
    ensures
        n > 0 ==> r == WriteStep::Advance(n as usize),
        n == 0 ==> r == WriteStep::Fail(0),
        n < 0 && (errno == a.eintr || errno == a.eagain) ==> r == WriteStep::Retry,
        n < 0 && errno != a.eintr && errno != a.eagain ==> r == WriteStep::Fail(errno),
{
    if n > 0 {
        WriteStep::Advance(n as usize)
    } else if n == 0 {
        WriteStep::Fail(0)
    } else if errno == a.eintr || errno == a.eagain {
        WriteStep::Retry
    } else {
        WriteStep::Fail(errno)
    }
}

} // verus!
