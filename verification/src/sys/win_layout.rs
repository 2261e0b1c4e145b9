//! The C struct layouts the Windows backend passes to the console API, and the
//! decoding of the `INPUT_RECORD` union, on every target.
//!
//! Authority: Windows SDK `wincontypes.h` (`COORD`, `SMALL_RECT`,
//! `INPUT_RECORD`, `KEY_EVENT_RECORD`) and `wincon.h`
//! (`CONSOLE_SCREEN_BUFFER_INFO`). The union is held as raw little-endian bytes
//! and decoded by plain arithmetic, which is what Windows is on every
//! supported architecture.
use vstd::prelude::*;

use super::win_abi::{dims_of, window_dims, KEY_EVENT, WINDOW_BUFFER_SIZE_EVENT};

verus! {

/// `COORD`: two `SHORT`s, column then row.
#[derive(Clone, Copy, PartialEq, Eq, Debug, Default, Structural)]
pub struct Coord {
    pub x: i16,
    pub y: i16,
}

/// `SMALL_RECT`: an **inclusive** rectangle of `SHORT`s.
#[derive(Clone, Copy, PartialEq, Eq, Debug, Default, Structural)]
pub struct SmallRect {
    pub left: i16,
    pub top: i16,
    pub right: i16,
    pub bottom: i16,
}

/// `CONSOLE_SCREEN_BUFFER_INFO`, filled by `GetConsoleScreenBufferInfo`.
#[derive(Clone, Copy, PartialEq, Eq, Debug, Default, Structural)]
pub struct ScreenBufferInfo {
    /// The scrollback buffer's size. Never used for layout.
    pub dw_size: Coord,
    pub dw_cursor_position: Coord,
    pub w_attributes: u16,
    /// The visible window, in buffer coordinates.
    pub sr_window: SmallRect,
    pub dw_maximum_window_size: Coord,
}

impl ScreenBufferInfo {
    /// Every field zero.
    pub fn zeroed() -> (s: ScreenBufferInfo)
        ensures
            s == (ScreenBufferInfo {
                dw_size: Coord { x: 0, y: 0 },
                dw_cursor_position: Coord { x: 0, y: 0 },
                w_attributes: 0,
                sr_window: SmallRect { left: 0, top: 0, right: 0, bottom: 0 },
                dw_maximum_window_size: Coord { x: 0, y: 0 },
            }),
    {
        ScreenBufferInfo {
            dw_size: Coord { x: 0, y: 0 },
            dw_cursor_position: Coord { x: 0, y: 0 },
            w_attributes: 0,
            sr_window: SmallRect { left: 0, top: 0, right: 0, bottom: 0 },
            dw_maximum_window_size: Coord { x: 0, y: 0 },
        }
    }

    /// `(cols, rows)` of the *visible window*, from `srWindow`; the scrollback
    /// size `dwSize` plays no part.
    pub fn window_size(&self) -> (d: Option<(u16, u16)>)
        ensures
            d == dims_of(
                self.sr_window.left,
                self.sr_window.top,
                self.sr_window.right,
                self.sr_window.bottom,
            ),
    {
        let r = self.sr_window;
        window_dims(r.left, r.top, r.right, r.bottom)
    }
}

/// The decoded payload of a `KEY_EVENT` record.
#[derive(Clone, Copy, PartialEq, Eq, Debug, Structural)]
pub struct KeyEvent {
    pub key_down: bool,
    pub repeat_count: u16,
    pub virtual_key_code: u16,
    pub virtual_scan_code: u16,
    /// `uChar.UnicodeChar`: a UTF-16 code unit, `0` for keys with no character.
    pub unicode_char: u16,
    pub control_key_state: u32,
}

/// `INPUT_RECORD`: the event type, two bytes of padding, and the 16-byte event
/// union as raw bytes.
#[derive(Clone, Copy, PartialEq, Eq, Debug)]
pub struct InputRecord {
    pub event_type: u16,
    pub _pad: u16,
    pub event: [u8; 16],
}

/// The little-endian `u16` at byte `off` of `b`.
pub open spec fn le16(b: Seq<u8>, off: int) -> u16 {
    (b[off] + 256 * b[off + 1]) as u16
}

/// The little-endian `u32` at byte `off` of `b`.
pub open spec fn le32(b: Seq<u8>, off: int) -> u32 {
    (b[off] + 256 * b[off + 1] + 65536 * b[off + 2] + 16777216 * b[off + 3]) as u32
}

/// What an input record says, when it is a key record.
pub open spec fn decode_key(r: InputRecord) -> Option<KeyEvent> {
    if r.event_type != KEY_EVENT {
        None
    } else {
        Some(
            KeyEvent {
                key_down: le32(r.event@, 0) != 0,
                repeat_count: le16(r.event@, 4),
                virtual_key_code: le16(r.event@, 6),
                virtual_scan_code: le16(r.event@, 8),
                unicode_char: le16(r.event@, 10),
                control_key_state: le32(r.event@, 12),
            },
        )
    }
}

impl InputRecord {
    /// Every byte zero.
    pub fn zeroed() -> (r: InputRecord)
        ensures
            r.event_type == 0 && r._pad == 0,
            forall|i: int| 0 <= i < 16 ==> #[trigger] r.event@[i] == 0,
    {
        InputRecord { event_type: 0, _pad: 0, event: [0u8; 16] }
    }

    fn u16_at(&self, off: usize) -> (v: u16)
        requires
            off + 1 < 16,
        ensures
            v == le16(self.event@, off as int),
    {
        let lo: u16 = self.event[off] as u16;
        let hi: u16 = self.event[off + 1] as u16;
        assert(lo <= 0xff && hi <= 0xff ==> lo | (hi << 8u16) == lo + 256 * hi) by (bit_vector);
        lo | (hi << 8u16)
    }

    fn u32_at(&self, off: usize) -> (v: u32)
        requires
            off + 3 < 16,
        ensures
            v == le32(self.event@, off as int),
    {
        let b0: u32 = self.event[off] as u32;
        let b1: u32 = self.event[off + 1] as u32;
        let b2: u32 = self.event[off + 2] as u32;
        let b3: u32 = self.event[off + 3] as u32;
        assert(b0 <= 0xff && b1 <= 0xff && b2 <= 0xff && b3 <= 0xff ==> b0 | (b1 << 8u32) | (b2
            << 16u32) | (b3 << 24u32) == b0 + 256 * b1 + 65536 * b2 + 16777216 * b3)
            by (bit_vector);
        b0 | (b1 << 8u32) | (b2 << 16u32) | (b3 << 24u32)
    }

    /// The `KEY_EVENT_RECORD` payload, or `None` for any other record type.
    pub fn key_event(&self) -> (k: Option<KeyEvent>)
        ensures
            k == decode_key(*self),
    {
        if self.event_type != KEY_EVENT {
            return None;
        }
        Some(
            KeyEvent {
                key_down: self.u32_at(0) != 0,
                repeat_count: self.u16_at(4),
                virtual_key_code: self.u16_at(6),
                virtual_scan_code: self.u16_at(8),
                unicode_char: self.u16_at(10),
                control_key_state: self.u32_at(12),
            },
        )
    }

    /// True for `WINDOW_BUFFER_SIZE_EVENT`, the console's resize notification.
    pub fn is_resize(&self) -> (b: bool)
        ensures
            b == (self.event_type == WINDOW_BUFFER_SIZE_EVENT),
    {
        self.event_type == WINDOW_BUFFER_SIZE_EVENT
    }

    /// A key record with the given state, virtual key and character, a repeat
    /// count of one and everything else zero. Decoding it gives back exactly
    /// what it was built from.
    pub fn key(down: bool, vk: u16, unicode_char: u16) -> (r: InputRecord)
        ensures
            decode_key(r) == Some(
                KeyEvent {
                    key_down: down,
                    repeat_count: 1,
                    virtual_key_code: vk,
                    virtual_scan_code: 0,
                    unicode_char: unicode_char,
                    control_key_state: 0,
                },
            ),
    {
        let mut r = InputRecord::zeroed();
        r.event_type = KEY_EVENT;
        r.event[0] = if down { 1u8 } else { 0u8 };
        r.event[4] = 1;
        r.event[5] = 0;
        assert((vk & 0xff) <= 0xff && (vk >> 8u16) <= 0xff) by (bit_vector);
        assert((unicode_char & 0xff) <= 0xff && (unicode_char >> 8u16) <= 0xff) by (bit_vector);
        let vlo: u8 = (vk & 0xff) as u8;
        let vhi: u8 = (vk >> 8u16) as u8;
        let ulo: u8 = (unicode_char & 0xff) as u8;
        let uhi: u8 = (unicode_char >> 8u16) as u8;
        assert((vk & 0xff) + 256 * (vk >> 8u16) == vk) by (bit_vector);
        assert((unicode_char & 0xff) + 256 * (unicode_char >> 8u16) == unicode_char)
            by (bit_vector);
        r.event[6] = vlo;
        r.event[7] = vhi;
        r.event[10] = ulo;
        r.event[11] = uhi;
        assert(le16(r.event@, 6) == vk);
        assert(le16(r.event@, 10) == unicode_char);
        assert(le16(r.event@, 4) == 1);
        r
    }

    /// A resize record.
    pub fn resize() -> (r: InputRecord)
        ensures
            r.event_type == WINDOW_BUFFER_SIZE_EVENT,
            decode_key(r) == None::<KeyEvent>,
    {
        let mut r = InputRecord::zeroed();
        r.event_type = WINDOW_BUFFER_SIZE_EVENT;
        r
    }
}

} // verus!
