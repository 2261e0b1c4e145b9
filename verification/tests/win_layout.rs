//! The console structs' decoding, and the `srWindow`-not-`dwSize` rule.

use lib::sys::win_abi::{KEY_EVENT, MOUSE_EVENT};
use lib::sys::win_layout::{Coord, InputRecord, ScreenBufferInfo, SmallRect};

#[test]
fn window_size_uses_srwindow_and_ignores_the_scrollback_buffer() {
    let mut csbi = ScreenBufferInfo::zeroed();
    // A typical conhost: 120x9001 buffer, 120x30 window scrolled to the bottom.
    csbi.dw_size = Coord { x: 120, y: 9001 };
    csbi.sr_window = SmallRect {
        left: 0,
        top: 8971,
        right: 119,
        bottom: 9000,
    };
    assert_eq!(csbi.window_size(), Some((120, 30)));
    assert_ne!(csbi.window_size(), Some((120, 9001)), "dwSize is not the window");
}

#[test]
fn a_zeroed_screen_buffer_info_reports_one_by_one_not_a_panic() {
    // GetConsoleScreenBufferInfo failing leaves our zeroed struct untouched;
    // the caller gates on the return value, but the arithmetic must still be
    // total. An all-zero inclusive rect legitimately means 1x1.
    assert_eq!(ScreenBufferInfo::zeroed().window_size(), Some((1, 1)));
}

#[test]
fn key_records_decode_their_fields() {
    let r = InputRecord::key(true, 0x25, 0);
    let k = r.key_event().expect("KEY_EVENT");
    assert!(k.key_down);
    assert_eq!(k.repeat_count, 1);
    assert_eq!(k.virtual_key_code, 0x25);
    assert_eq!(k.unicode_char, 0);
    assert!(!r.is_resize());

    let r = InputRecord::key(false, b'A' as u16, b'a' as u16);
    let k = r.key_event().expect("KEY_EVENT");
    assert!(!k.key_down);
    assert_eq!(k.unicode_char, b'a' as u16);
}

#[test]
fn non_key_records_decode_as_none() {
    let r = InputRecord::resize();
    assert!(r.key_event().is_none());
    assert!(r.is_resize());

    let mut mouse = InputRecord::zeroed();
    mouse.event_type = MOUSE_EVENT;
    assert!(mouse.key_event().is_none());
    assert!(!mouse.is_resize());
}

#[test]
fn key_event_record_byte_offsets_match_the_c_struct() {
    // bKeyDown 0..4, wRepeatCount 4..6, wVirtualKeyCode 6..8,
    // wVirtualScanCode 8..10, uChar 10..12, dwControlKeyState 12..16.
    let mut r = InputRecord::zeroed();
    r.event_type = KEY_EVENT;
    r.event[0..4].copy_from_slice(&1u32.to_le_bytes());
    r.event[4..6].copy_from_slice(&3u16.to_le_bytes());
    r.event[6..8].copy_from_slice(&0x1234u16.to_le_bytes());
    r.event[8..10].copy_from_slice(&0x5678u16.to_le_bytes());
    r.event[10..12].copy_from_slice(&0x00E9u16.to_le_bytes());
    r.event[12..16].copy_from_slice(&0x0000_0008u32.to_le_bytes());
    let k = r.key_event().unwrap();
    assert_eq!(
        (
            k.key_down,
            k.repeat_count,
            k.virtual_key_code,
            k.virtual_scan_code,
            k.unicode_char,
            k.control_key_state
        ),
        (true, 3, 0x1234, 0x5678, 0x00E9, 8)
    );
}
