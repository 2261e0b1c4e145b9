//! Pure Windows console ABI: constants and arithmetic, no calls.
//!
//! Compiled and checked on every target, because there is no Windows machine in
//! the loop: the console-mode transformations, the `srWindow` geometry, the
//! resize comparison and the record and control-event classification are all
//! functions over plain integers here, and the backend only calls the console
//! API and hands the result to one of them.
//!
//! Authorities: Windows SDK `consoleapi.h`, `wincon.h`, `wincontypes.h`,
//! `winbase.h`, `winerror.h` and `winnt.h`.
use vstd::prelude::*;

use super::abi::WriteStep;

verus! {

/// `GetStdHandle` selector `(DWORD)-10`.
pub const STD_INPUT_HANDLE: u32 = 0xFFFF_FFF6;

/// `GetStdHandle` selector `(DWORD)-11`.
pub const STD_OUTPUT_HANDLE: u32 = 0xFFFF_FFF5;

/// `GetStdHandle` selector `(DWORD)-12`.
pub const STD_ERROR_HANDLE: u32 = 0xFFFF_FFF4;

/// `INVALID_HANDLE_VALUE` is `(HANDLE)-1`, all bits set.
pub const INVALID_HANDLE_VALUE: usize = usize::MAX;

pub const GENERIC_READ: u32 = 0x8000_0000;
pub const GENERIC_WRITE: u32 = 0x4000_0000;
pub const FILE_SHARE_READ: u32 = 0x0000_0001;
pub const FILE_SHARE_WRITE: u32 = 0x0000_0002;
pub const OPEN_EXISTING: u32 = 3;

/// The UTF-8 code page, set on both console code pages in raw mode.
pub const CP_UTF8: u32 = 65001;

/// `CONIN$` as NUL-terminated UTF-16.
pub const CONIN: [u16; 7] = [67, 79, 78, 73, 78, 36, 0];

/// `CONOUT$` as NUL-terminated UTF-16.
pub const CONOUT: [u16; 8] = [67, 79, 78, 79, 85, 84, 36, 0];

pub const ENABLE_PROCESSED_INPUT: u32 = 0x0001;
pub const ENABLE_LINE_INPUT: u32 = 0x0002;
pub const ENABLE_ECHO_INPUT: u32 = 0x0004;
pub const ENABLE_WINDOW_INPUT: u32 = 0x0008;
pub const ENABLE_MOUSE_INPUT: u32 = 0x0010;
pub const ENABLE_INSERT_MODE: u32 = 0x0020;
pub const ENABLE_QUICK_EDIT_MODE: u32 = 0x0040;
pub const ENABLE_EXTENDED_FLAGS: u32 = 0x0080;
pub const ENABLE_AUTO_POSITION: u32 = 0x0100;
pub const ENABLE_VIRTUAL_TERMINAL_INPUT: u32 = 0x0200;

pub const ENABLE_PROCESSED_OUTPUT: u32 = 0x0001;
pub const ENABLE_WRAP_AT_EOL_OUTPUT: u32 = 0x0002;
pub const ENABLE_VIRTUAL_TERMINAL_PROCESSING: u32 = 0x0004;
pub const DISABLE_NEWLINE_AUTO_RETURN: u32 = 0x0008;
pub const ENABLE_LVB_GRID_WORLDWIDE: u32 = 0x0010;

/// The input bits raw mode clears: line buffering, echo, processed input
/// (so Ctrl-C arrives as `\x03`) and mouse input.
pub const RAW_INPUT_CLEARED: u32 = 0x0017;

/// The raw-mode input mode, stated bit by bit.
pub open spec fn raw_input(cur: u32) -> u32 {
    let m = (cur & !RAW_INPUT_CLEARED) | ENABLE_VIRTUAL_TERMINAL_INPUT;
    if cur & ENABLE_QUICK_EDIT_MODE != 0 {
        m | ENABLE_QUICK_EDIT_MODE | ENABLE_EXTENDED_FLAGS
    } else {
        m
    }
}

/// The raw-mode transformation for the **input** handle.
///
/// Clears line input, echo, processed input and mouse input; sets virtual
/// terminal input, so keys arrive as the ANSI sequences the key decoder already
/// reads; and when quick edit was on, re-asserts both quick edit and the
/// extended-flags bit it is only honoured under, so drag-select survives.
pub fn raw_input_mode(cur: u32) -> (m: u32)
    ensures
        m == raw_input(cur),
{
    let cleared = ENABLE_LINE_INPUT | ENABLE_ECHO_INPUT | ENABLE_PROCESSED_INPUT
        | ENABLE_MOUSE_INPUT;
    assert(ENABLE_LINE_INPUT | ENABLE_ECHO_INPUT | ENABLE_PROCESSED_INPUT | ENABLE_MOUSE_INPUT
        == RAW_INPUT_CLEARED) by (bit_vector);
    let mut m = (cur & !cleared) | ENABLE_VIRTUAL_TERMINAL_INPUT;
    if cur & ENABLE_QUICK_EDIT_MODE != 0 {
        m = m | ENABLE_QUICK_EDIT_MODE | ENABLE_EXTENDED_FLAGS;
    }
    m
}

/// The input mode raw mode produces never captures the mouse, always asks for
/// VT input, never buffers, echoes or processes keys, keeps quick edit exactly
/// when it was on (with the extended-flags bit it needs), leaves every other
/// bit alone, and is idempotent.
pub proof fn lemma_raw_input_mode(cur: u32, bit: u32)
    ensures
        raw_input(cur) & ENABLE_MOUSE_INPUT == 0,
        raw_input(cur) & ENABLE_VIRTUAL_TERMINAL_INPUT != 0,
        raw_input(cur) & ENABLE_LINE_INPUT == 0,
        raw_input(cur) & ENABLE_ECHO_INPUT == 0,
        raw_input(cur) & ENABLE_PROCESSED_INPUT == 0,
        (cur & ENABLE_QUICK_EDIT_MODE != 0) <==> (raw_input(cur) & ENABLE_QUICK_EDIT_MODE != 0),
        cur & ENABLE_QUICK_EDIT_MODE != 0 ==> raw_input(cur) & ENABLE_EXTENDED_FLAGS != 0,
        bit & (RAW_INPUT_CLEARED | ENABLE_VIRTUAL_TERMINAL_INPUT | ENABLE_QUICK_EDIT_MODE
            | ENABLE_EXTENDED_FLAGS) == 0 ==> raw_input(cur) & bit == cur & bit,
        raw_input(raw_input(cur)) == raw_input(cur),
{
    let q = cur & 0x40u32 != 0;
    assert(raw_input(cur) == (if q { ((cur & !0x17u32) | 0x200u32) | 0x40u32 | 0x80u32 } else {
        (cur & !0x17u32) | 0x200u32
    }));
    assert({
        let m = if cur & 0x40u32 != 0 {
            ((cur & !0x17u32) | 0x200u32) | 0x40u32 | 0x80u32
        } else {
            (cur & !0x17u32) | 0x200u32
        };
        &&& m & 0x10 == 0
        &&& m & 0x200 != 0
        &&& m & 0x2 == 0
        &&& m & 0x4 == 0
        &&& m & 0x1 == 0
        &&& ((cur & 0x40 != 0) <==> (m & 0x40 != 0))
        &&& (cur & 0x40 != 0 ==> m & 0x80 != 0)
        &&& (bit & (0x17u32 | 0x200u32 | 0x40u32 | 0x80u32) == 0 ==> m & bit == cur & bit)
        &&& m & 0x40 != 0
            ==> ((m & !0x17u32) | 0x200u32) | 0x40u32 | 0x80u32 == m
        &&& m & 0x40 == 0 ==> (m & !0x17u32) | 0x200u32 == m
    }) by (bit_vector);
}

/// The raw-mode output mode, stated bit by bit.
pub open spec fn raw_output(cur: u32) -> u32 {
    (cur & !ENABLE_WRAP_AT_EOL_OUTPUT) | ENABLE_PROCESSED_OUTPUT
        | ENABLE_VIRTUAL_TERMINAL_PROCESSING | DISABLE_NEWLINE_AUTO_RETURN
}

/// The raw-mode transformation for the **output** handle: VT processing on,
/// processed output kept, no newline auto-return and no wrap at the end of a
/// line, so painting the last cell of a row does not scroll the screen.
pub fn raw_output_mode(cur: u32) -> (m: u32)
    ensures
        m == raw_output(cur),
{
    (cur & !ENABLE_WRAP_AT_EOL_OUTPUT) | ENABLE_PROCESSED_OUTPUT
        | ENABLE_VIRTUAL_TERMINAL_PROCESSING | DISABLE_NEWLINE_AUTO_RETURN
}

/// The output mode raw mode produces interprets VT sequences, never wraps at
/// the end of a line, and is idempotent.
pub proof fn lemma_raw_output_mode(cur: u32)
    ensures
        raw_output(cur) & ENABLE_VIRTUAL_TERMINAL_PROCESSING != 0,
        raw_output(cur) & DISABLE_NEWLINE_AUTO_RETURN != 0,
        raw_output(cur) & ENABLE_PROCESSED_OUTPUT != 0,
        raw_output(cur) & ENABLE_WRAP_AT_EOL_OUTPUT == 0,
        raw_output(raw_output(cur)) == raw_output(cur),
{
    assert({
        let m = (cur & !2u32) | 1u32 | 4u32 | 8u32;
        &&& m & 4 != 0
        &&& m & 8 != 0
        &&& m & 1 != 0
        &&& m & 2 == 0
        &&& (m & !2u32) | 1u32 | 4u32 | 8u32 == m
    }) by (bit_vector);
}

/// Visible-window dimensions from an inclusive `SMALL_RECT`, saturated to
/// `u16`; `None` for a degenerate or inverted rectangle.
pub open spec fn dims_of(left: i16, top: i16, right: i16, bottom: i16) -> Option<(u16, u16)> {
    let cols = right - left + 1;
    let rows = bottom - top + 1;
    if cols <= 0 || rows <= 0 {
        None
    } else {
        Some(
            (
                (if cols > u16::MAX { u16::MAX as int } else { cols }) as u16,
                (if rows > u16::MAX { u16::MAX as int } else { rows }) as u16,
            ),
        )
    }
}

/// Visible-window dimensions as `(cols, rows)` from `srWindow`. The rectangle
/// is inclusive on both ends, hence the `+ 1`.
pub fn window_dims(left: i16, top: i16, right: i16, bottom: i16) -> (d: Option<(u16, u16)>)
    ensures
        d == dims_of(left, top, right, bottom),
        d matches Some((c, r)) ==> c > 0 && r > 0,
{
    let cols: i32 = right as i32 - left as i32 + 1;
    let rows: i32 = bottom as i32 - top as i32 + 1;
    if cols <= 0 || rows <= 0 {
        return None;
    }
    let c: i32 = if cols > 65535 { 65535 } else { cols };
    let r: i32 = if rows > 65535 { 65535 } else { rows };
    Some((c as u16, r as u16))
}

/// Interpret a `GetConsoleScreenBufferInfo` result plus the rectangle it filled.
pub fn winsize_result(ok: bool, dims: Option<(u16, u16)>) -> (r: Option<(u16, u16)>)
    ensures
        r == (if ok { dims } else { None }),
{
    if ok {
        dims
    } else {
        None
    }
}

/// `(cols, rows)` packed into one word, `0` meaning "nothing observed".
pub open spec fn packed(d: Option<(u16, u16)>) -> u32 {
    match d {
        Some((c, r)) => ((c as u32) << 16u32) | r as u32,
        None => 0,
    }
}

/// Pack `(cols, rows)` into one word so the last observed size can live in a
/// single atomic.
pub fn pack_dims(d: Option<(u16, u16)>) -> (p: u32)
    ensures
        p == packed(d),
{
    match d {
        Some((c, r)) => {
            let hi: u32 = c as u32;
            let lo: u32 = r as u32;
            (hi << 16u32) | lo
        },
        None => 0,
    }
}

/// Packing loses nothing: the columns and rows come back out of the word, two
/// different sizes never pack alike, and a size with no zero dimension never
/// packs to the reserved `0`.
pub proof fn lemma_pack_dims(c: u16, r: u16, c2: u16, r2: u16)
    ensures
        packed(Some((c, r))) >> 16u32 == c as u32,
        packed(Some((c, r))) & 0xffff == r as u32,
        packed(Some((c, r))) == packed(Some((c2, r2))) ==> c == c2 && r == r2,
        c != 0 || r != 0 ==> packed(Some((c, r))) != 0,
{
    let a = c as u32;
    let b = r as u32;
    let a2 = c2 as u32;
    let b2 = r2 as u32;
    assert(a <= 0xffff && b <= 0xffff && a2 <= 0xffff && b2 <= 0xffff);
    assert(a <= 0xffff && b <= 0xffff && a2 <= 0xffff && b2 <= 0xffff ==> {
        &&& ((a << 16u32) | b) >> 16u32 == a
        &&& ((a << 16u32) | b) & 0xffff == b
        &&& (((a << 16u32) | b) == ((a2 << 16u32) | b2) ==> a == a2 && b == b2)
        &&& (a != 0 || b != 0 ==> (a << 16u32) | b != 0)
    }) by (bit_vector);
}

/// Resize detection: only two known, different sizes are a resize.
pub fn size_changed(prev: u32, cur: u32) -> (b: bool)
    ensures
        b == (prev != 0 && cur != 0 && prev != cur),
{
    prev != 0 && cur != 0 && prev != cur
}

pub const WAIT_OBJECT_0: u32 = 0x0000_0000;
pub const WAIT_ABANDONED: u32 = 0x0000_0080;
pub const WAIT_TIMEOUT: u32 = 0x0000_0102;
pub const WAIT_FAILED: u32 = 0xFFFF_FFFF;

/// The event-loop tick in milliseconds, mirroring `VTIME = 1` on unix.
pub const READ_POLL_MS: u32 = 100;

pub const ERROR_HANDLE_EOF: u32 = 38;
pub const ERROR_BROKEN_PIPE: u32 = 109;
pub const ERROR_NO_DATA: u32 = 232;
pub const ERROR_OPERATION_ABORTED: u32 = 995;
pub const ERROR_INVALID_HANDLE: u32 = 6;

/// What the backend should do with the return value of one `ReadFile`.
#[derive(Clone, Copy, PartialEq, Eq, Debug, Structural)]
pub enum WinRead {
    /// `n` bytes are in the caller's buffer.
    Bytes(usize),
    /// Nothing to report; tick the event loop and wait again. Not EOF.
    Idle,
    /// The input handle is at end of file.
    Eof,
    /// The read was cancelled out from under us; call `ReadFile` again.
    Retry,
    /// Give up with this `GetLastError` code.
    Error(i32),
}

/// Classify one `ReadFile` on the input handle. A console never reaches end
/// of file, so a successful zero-byte read there is idle; on a pipe or a file
/// it is the real end.
pub fn classify_read(ok: bool, n: u32, err: u32, console: bool) -> (r: WinRead)
    ensures
        ok && n == 0 && console ==> r == WinRead::Idle,
        ok && n == 0 && !console ==> r == WinRead::Eof,
        ok && n != 0 ==> r == WinRead::Bytes(n as usize),
        !ok && (err == ERROR_BROKEN_PIPE || err == ERROR_HANDLE_EOF || err == ERROR_NO_DATA) ==> r
            == WinRead::Eof,
        !ok && err == ERROR_OPERATION_ABORTED ==> r == WinRead::Retry,
        !ok && err != ERROR_BROKEN_PIPE && err != ERROR_HANDLE_EOF && err != ERROR_NO_DATA && err
            != ERROR_OPERATION_ABORTED ==> r == WinRead::Error(err as i32),
{
    if ok {
        if n == 0 {
            if console {
                WinRead::Idle
            } else {
                WinRead::Eof
            }
        } else {
            WinRead::Bytes(n as usize)
        }
    } else if err == ERROR_BROKEN_PIPE || err == ERROR_HANDLE_EOF || err == ERROR_NO_DATA {
        WinRead::Eof
    } else if err == ERROR_OPERATION_ABORTED {
        WinRead::Retry
    } else {
        WinRead::Error(err as i32)
    }
}

/// Classify one `WriteFile`. A successful zero-byte write cannot make
/// progress, so it fails rather than spinning.
pub fn classify_write(ok: bool, n: u32, err: u32) -> (r: WriteStep)
    ensures
        ok && n == 0 ==> r == WriteStep::Fail(0),
        ok && n != 0 ==> r == WriteStep::Advance(n as usize),
        !ok && err == ERROR_OPERATION_ABORTED ==> r == WriteStep::Retry,
        !ok && err != ERROR_OPERATION_ABORTED ==> r == WriteStep::Fail(err as i32),
{
    if ok {
        if n == 0 {
            WriteStep::Fail(0)
        } else {
            WriteStep::Advance(n as usize)
        }
    } else if err == ERROR_OPERATION_ABORTED {
        WriteStep::Retry
    } else {
        WriteStep::Fail(err as i32)
    }
}

pub const KEY_EVENT: u16 = 0x0001;
pub const MOUSE_EVENT: u16 = 0x0002;
pub const WINDOW_BUFFER_SIZE_EVENT: u16 = 0x0004;
pub const MENU_EVENT: u16 = 0x0008;
pub const FOCUS_EVENT: u16 = 0x0010;

/// Virtual keys that only ever change the state of another key: Shift,
/// Control, Alt, Caps Lock, Kana, Kanji, the Windows keys, Num Lock, Scroll
/// Lock and the left/right modifier codes.
pub open spec fn modifier_vk(vk: u16) -> bool {
    vk == 0x10 || vk == 0x11 || vk == 0x12 || vk == 0x14 || vk == 0x15 || vk == 0x19 || vk == 0x5B
        || vk == 0x5C || vk == 0x90 || vk == 0x91 || (0xA0 <= vk <= 0xA5)
}

/// Virtual keys the console turns into an escape sequence with no
/// `UnicodeChar`: Page Up/Down, End, Home, the arrows, Insert, Delete, F1..F12.
pub open spec fn vt_translated_vk(vk: u16) -> bool {
    (0x21 <= vk <= 0x28) || vk == 0x2D || vk == 0x2E || (0x70 <= vk <= 0x7B)
}

fn is_modifier_vk(vk: u16) -> (b: bool)
    ensures
        b == modifier_vk(vk),
{
    vk == 0x10 || vk == 0x11 || vk == 0x12 || vk == 0x14 || vk == 0x15 || vk == 0x19 || vk == 0x5B
        || vk == 0x5C || vk == 0x90 || vk == 0x91 || (0xA0 <= vk && vk <= 0xA5)
}

fn is_vt_translated_vk(vk: u16) -> (b: bool)
    ensures
        b == vt_translated_vk(vk),
{
    (0x21 <= vk && vk <= 0x28) || vk == 0x2D || vk == 0x2E || (0x70 <= vk && vk <= 0x7B)
}

/// Will `ReadFile` produce bytes for this key record under virtual terminal
/// input? Key-ups and modifiers never do; a record carrying a character always
/// does; and the navigation keys VT translates do though they carry none.
pub fn key_record_yields_bytes(down: bool, vk: u16, unicode_char: u16) -> (b: bool)
    ensures
        b == (down && !modifier_vk(vk) && (unicode_char != 0 || vt_translated_vk(vk))),
{
    if !down {
        return false;
    }
    if is_modifier_vk(vk) {
        return false;
    }
    unicode_char != 0 || is_vt_translated_vk(vk)
}

/// What a `SetConsoleCtrlHandler` callback should do with a control event.
#[derive(Clone, Copy, PartialEq, Eq, Debug, Structural)]
pub enum CtrlAction {
    /// Ctrl-C / Ctrl-Break: set the interrupt flag.
    Interrupt,
    /// Close / logoff / shutdown: put the console back before the process dies.
    Terminate,
    /// Not ours; decline it.
    Ignore,
}

pub const CTRL_C_EVENT: u32 = 0;
pub const CTRL_BREAK_EVENT: u32 = 1;
pub const CTRL_CLOSE_EVENT: u32 = 2;
pub const CTRL_LOGOFF_EVENT: u32 = 5;
pub const CTRL_SHUTDOWN_EVENT: u32 = 6;

/// Leave the alternate screen, show the cursor, reset SGR: the teardown a
/// console control handler has to do for itself. No mouse tracking, ever.
pub const LEAVE_SCREEN: &'static str = "\x1b[?1049l\x1b[?25h\x1b[0m";

/// Map a `CTRL_*_EVENT` to the flag it should raise.
pub fn ctrl_action(event: u32) -> (a: CtrlAction)
    ensures
        (event == CTRL_C_EVENT || event == CTRL_BREAK_EVENT) ==> a == CtrlAction::Interrupt,
        (event == CTRL_CLOSE_EVENT || event == CTRL_LOGOFF_EVENT || event == CTRL_SHUTDOWN_EVENT)
            ==> a == CtrlAction::Terminate,
        event != CTRL_C_EVENT && event != CTRL_BREAK_EVENT && event != CTRL_CLOSE_EVENT && event
            != CTRL_LOGOFF_EVENT && event != CTRL_SHUTDOWN_EVENT ==> a == CtrlAction::Ignore,
{
    if event == CTRL_C_EVENT || event == CTRL_BREAK_EVENT {
        CtrlAction::Interrupt
    } else if event == CTRL_CLOSE_EVENT || event == CTRL_LOGOFF_EVENT || event
        == CTRL_SHUTDOWN_EVENT {
        CtrlAction::Terminate
    } else {
        CtrlAction::Ignore
    }
}

} // verus!
