//! The Windows console backend's decisions: the table of opened console
//! pairs, what a peek, a wait, a read and a write come to, and resizes.

use lib::sys::abi::WriteStep;
use lib::sys::console::{
    after_wait, configure_output, has_readable_bytes, is_invalid, note_dims, read_outcome,
    restored, slot, write_progress, HandleOf, OutSetup, Readable, TtyTable, FD_BASE, SLOTS,
};
use lib::sys::win_abi::{
    pack_dims, WinRead, INVALID_HANDLE_VALUE, STD_ERROR_HANDLE, STD_INPUT_HANDLE,
    STD_OUTPUT_HANDLE, WAIT_ABANDONED, WAIT_FAILED, WAIT_OBJECT_0, WAIT_TIMEOUT,
};
use lib::sys::win_layout::InputRecord;
use lib::sys::ReadOutcome;

#[test]
fn only_the_fds_past_the_standard_three_name_a_slot() {
    assert_eq!(slot(0), None);
    assert_eq!(slot(2), None);
    assert_eq!(slot(FD_BASE), Some(0));
    assert_eq!(slot(FD_BASE + SLOTS as i32 - 1), Some(SLOTS - 1));
    assert_eq!(slot(FD_BASE + SLOTS as i32), None);
    assert_eq!(slot(-1), None);
    assert_eq!(slot(i32::MIN), None);
}

#[test]
fn a_claimed_pair_comes_back_when_it_is_released() {
    let mut t = TtyTable::new();
    let fd = t.alloc_tty(0x10, 0x20).expect("a free slot");
    assert_eq!(fd, FD_BASE);
    assert_eq!(t.read_handle(fd), HandleOf::Raw(0x10));
    assert_eq!(t.write_handle(fd), HandleOf::Raw(0x20));
    let second = t.alloc_tty(0x30, 0x40).expect("another free slot");
    assert_eq!(second, FD_BASE + 1);
    assert_eq!(t.take_tty(fd), Some((0x10, 0x20)));
    assert_eq!(t.take_tty(fd), None, "a slot is released once");
    assert_eq!(t.read_handle(fd), HandleOf::Raw(0));
    // The freed slot is the first one handed out again.
    assert_eq!(t.alloc_tty(0x50, 0x60), Some(FD_BASE));
    assert_eq!(t.take_tty(second), Some((0x30, 0x40)));
}

#[test]
fn a_full_table_claims_nothing() {
    let mut t = TtyTable::new();
    for k in 0..SLOTS {
        assert_eq!(t.alloc_tty(k + 1, k + 100), Some(FD_BASE + k as i32));
    }
    assert_eq!(t.alloc_tty(7, 8), None);
    assert_eq!(t.take_tty(1), None, "stdout is no slot");
}

#[test]
fn the_standard_fds_map_to_the_standard_handles() {
    let t = TtyTable::new();
    assert_eq!(t.read_handle(0), HandleOf::Std(STD_INPUT_HANDLE));
    assert_eq!(t.read_handle(1), HandleOf::Std(STD_OUTPUT_HANDLE));
    assert_eq!(t.read_handle(2), HandleOf::Std(STD_ERROR_HANDLE));
    // Raw mode is set up from the input fd and must still reach the screen.
    assert_eq!(t.write_handle(0), HandleOf::Std(STD_OUTPUT_HANDLE));
    assert_eq!(t.write_handle(1), HandleOf::Std(STD_OUTPUT_HANDLE));
    assert_eq!(t.write_handle(2), HandleOf::Std(STD_ERROR_HANDLE));
    assert_eq!(t.read_handle(99), HandleOf::Raw(0));
}

#[test]
fn null_and_the_invalid_value_are_no_handle() {
    assert!(is_invalid(0));
    assert!(is_invalid(INVALID_HANDLE_VALUE));
    assert!(!is_invalid(0x1234));
}

#[test]
fn a_peek_with_a_key_that_types_is_readable() {
    let recs = [
        InputRecord::key(false, b'A' as u16, b'a' as u16),
        InputRecord::resize(),
        InputRecord::key(true, b'A' as u16, b'a' as u16),
        InputRecord::resize(),
    ];
    // The scan stops at the key, so only the resize before it is seen.
    assert_eq!(has_readable_bytes(Some(4), &recs), (Readable::Yes, true));
    let quiet = [InputRecord::key(false, 0x10, 0), InputRecord::key(true, 0x10, 0)];
    assert_eq!(has_readable_bytes(Some(2), &quiet), (Readable::No, false));
    let later = [InputRecord::key(true, b'A' as u16, b'a' as u16), InputRecord::resize()];
    assert_eq!(has_readable_bytes(Some(2), &later), (Readable::Yes, false));
}

#[test]
fn a_peek_of_nothing_or_of_no_console_says_so() {
    let recs = [InputRecord::resize()];
    assert_eq!(has_readable_bytes(Some(0), &recs), (Readable::No, false));
    assert_eq!(has_readable_bytes(None, &recs), (Readable::NotAConsole, false));
    // A count past the buffer looks at the buffer and no further.
    assert_eq!(has_readable_bytes(Some(40), &recs), (Readable::No, true));
}

#[test]
fn a_wait_signals_fails_or_times_out() {
    assert_eq!(after_wait(WAIT_OBJECT_0, 0), None);
    assert_eq!(after_wait(WAIT_FAILED, 6), Some(ReadOutcome::Error(6)));
    assert_eq!(after_wait(WAIT_TIMEOUT, 0), Some(ReadOutcome::Timeout));
    assert_eq!(after_wait(WAIT_ABANDONED, 0), Some(ReadOutcome::Timeout));
}

#[test]
fn a_classified_read_becomes_an_outcome_or_a_retry() {
    assert_eq!(read_outcome(WinRead::Bytes(3)), Some(ReadOutcome::Bytes(3)));
    assert_eq!(read_outcome(WinRead::Idle), Some(ReadOutcome::Timeout));
    assert_eq!(read_outcome(WinRead::Eof), Some(ReadOutcome::Eof));
    assert_eq!(read_outcome(WinRead::Retry), None);
    assert_eq!(read_outcome(WinRead::Error(5)), Some(ReadOutcome::Error(5)));
}

#[test]
fn a_write_advances_retries_or_stops() {
    assert_eq!(write_progress(10, WriteStep::Advance(5)), Ok(15));
    assert_eq!(write_progress(10, WriteStep::Retry), Ok(10));
    assert_eq!(write_progress(10, WriteStep::Fail(32)), Err(32));
}

#[test]
fn a_resize_is_a_change_between_two_known_sizes() {
    let a = pack_dims(Some((80, 24)));
    assert_eq!(note_dims(0, Some((80, 24))), (Some(a), false), "the first look is no resize");
    assert_eq!(note_dims(a, Some((80, 24))), (Some(a), false));
    let b = pack_dims(Some((100, 24)));
    assert_eq!(note_dims(a, Some((100, 24))), (Some(b), true));
    assert_eq!(note_dims(a, None), (None, false), "an unknown size keeps the last");
}

#[test]
fn the_output_side_of_raw_mode() {
    assert_eq!(configure_output(None, false), OutSetup::NotAConsole);
    assert_eq!(configure_output(Some(7), true), OutSetup::Configured(7));
    assert_eq!(configure_output(Some(7), false), OutSetup::VtUnsupported);
    assert!(restored(true, None));
    assert!(restored(true, Some(true)));
    assert!(!restored(true, Some(false)));
    assert!(!restored(false, None));
}
