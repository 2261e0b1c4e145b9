//! The decisions of the Windows console backend, apart from the calls it makes.
//!
//! The backend itself (the Win32 calls, the statics, the control handler)
//! sits outside this library. What it decides with the answers is here: which
//! handle an `Fd` stands for, the table of `CONIN$`/`CONOUT$` pairs that
//! `open_tty` hands out, whether a batch of pending input records will turn
//! into bytes, what a wait, a read and a write come to, and whether the window
//! has been resized since it was last looked at.
use vstd::prelude::*;

use super::abi::WriteStep;
use super::win_abi::{
    key_record_yields_bytes, modifier_vk, pack_dims, packed, size_changed, vt_translated_vk,
    WinRead, INVALID_HANDLE_VALUE, STD_ERROR_HANDLE, STD_INPUT_HANDLE, STD_OUTPUT_HANDLE,
    WAIT_FAILED, WAIT_OBJECT_0, WINDOW_BUFFER_SIZE_EVENT,
};
use super::win_layout::{decode_key, InputRecord};
use super::{Fd, ReadOutcome};

verus! {

/// Slots in the table of opened console pairs.
pub const SLOTS: usize = 4;

/// The first `Fd` that names a slot: 0, 1 and 2 keep their unix meaning.
pub const FD_BASE: Fd = 3;

/// The slot an `Fd` names, if it names one.
pub open spec fn spec_slot(fd: Fd) -> Option<usize> {
    if FD_BASE <= fd && fd < FD_BASE + SLOTS {
        Some((fd - FD_BASE) as usize)
    } else {
        None
    }
}

/// The slot an `Fd` names, if it names one.
pub fn slot(fd: Fd) -> (r: Option<usize>)
    ensures
        r == spec_slot(fd),
{
    let i = match fd.checked_sub(FD_BASE) {
        Some(i) => i,
        None => {
            return None;
        },
    };
    if 0 <= i && i < SLOTS as i32 {
        Some(i as usize)
    } else {
        None
    }
}

/// True for the two values the API uses to mean "no handle".
pub fn is_invalid(h: usize) -> (b: bool)
    ensures
        b == (h == 0 || h == INVALID_HANDLE_VALUE),
{
    h == 0 || h == INVALID_HANDLE_VALUE
}

/// Where the handle for an `Fd` comes from: a standard handle, by its
/// selector, or the raw value held in the table (`0` when the slot is empty or
/// the `Fd` names none).
#[derive(Clone, Copy, PartialEq, Eq, Debug, Structural)]
pub enum HandleOf {
    Std(u32),
    Raw(usize),
}

/// The first empty slot of a table column.
pub open spec fn first_free(read: Seq<usize>) -> Option<int> {
    if exists|i: int| 0 <= i < read.len() && read[i] == 0 {
        Some(choose|i: int| 0 <= i < read.len() && read[i] == 0 && forall|j: int| 0 <= j < i ==> read[j] != 0)
    } else {
        None
    }
}

/// The pairs of console handles `open_tty` has created, by slot. `0` is an
/// empty slot: no console handle is ever null.
pub struct TtyTable {
    pub read: Vec<usize>,
    pub write: Vec<usize>,
}

impl TtyTable {
    /// Both columns have one entry per slot.
    pub open spec fn wf(&self) -> bool {
        self.read@.len() == SLOTS && self.write@.len() == SLOTS
    }

    /// An empty table.
    pub fn new() -> (t: TtyTable)
        ensures
            t.wf(),
            forall|i: int| 0 <= i < SLOTS ==> t.read@[i] == 0 && t.write@[i] == 0,
    {
        TtyTable { read: vec![0, 0, 0, 0], write: vec![0, 0, 0, 0] }
    }

    /// Claim the first free slot for a `(CONIN$, CONOUT$)` pair. `None` when
    /// the table is full, which leaves it as it was.
    pub fn alloc_tty(&mut self, read: usize, write: usize) -> (r: Option<Fd>)
        requires
            old(self).wf(),
        ensures
            final(self).wf(),
            match first_free(old(self).read@) {
                Some(i) => r == Some((FD_BASE + i) as Fd) && final(self).read@ == old(self).read@.update(i, read)
                    && final(self).write@ == old(self).write@.update(i, write),
                None => r is None && final(self).read@ == old(self).read@ && final(self).write@
                    == old(self).write@,
            },
    {
        let mut i: usize = 0;
        while i < SLOTS
            invariant
                i <= SLOTS,
                self.wf(),
                self.read@ == old(self).read@,
                self.write@ == old(self).write@,
                forall|j: int| 0 <= j < i ==> self.read@[j] != 0,
            decreases SLOTS - i,
        {
            if self.read[i] == 0 {
                proof {
                    let f = first_free(old(self).read@);
                    assert(0 <= i < self.read@.len() && self.read@[i as int] == 0);
                    let c = f->0;
                    assert(c == i) by {
                        if c < i {
                            assert(self.read@[c] != 0);
                        } else if c > i {
                            assert(old(self).read@[i as int] == 0);
                        }
                    }
                }
                self.read.set(i, read);
                self.write.set(i, write);
                return Some(FD_BASE + i as i32);
            }
            i = i + 1;
        }
        proof {
            assert(!exists|j: int| 0 <= j < old(self).read@.len() && old(self).read@[j] == 0);
        }
        None
    }

    /// Release the slot an `Fd` names, returning the handles that were in it;
    /// `None` for an `Fd` that names no slot, or an empty one.
    pub fn take_tty(&mut self, fd: Fd) -> (r: Option<(usize, usize)>)
        requires
            old(self).wf(),
        ensures
            final(self).wf(),
            match spec_slot(fd) {
                Some(i) => final(self).read@ == old(self).read@.update(i as int, 0usize)
                    && final(self).write@ == old(self).write@.update(i as int, 0usize) && r == if old(
                    self,
                ).read@[i as int] == 0 {
                    None
                } else {
                    Some((old(self).read@[i as int], old(self).write@[i as int]))
                },
                None => r is None && final(self).read@ == old(self).read@ && final(self).write@
                    == old(self).write@,
            },
    {
        let i = match slot(fd) {
            Some(i) => i,
            None => {
                return None;
            },
        };
        let r = self.read[i];
        let w = self.write[i];
        self.read.set(i, 0);
        self.write.set(i, 0);
        if r == 0 {
            None
        } else {
            Some((r, w))
        }
    }

    /// The handle to read from for this `Fd`.
    pub fn read_handle(&self, fd: Fd) -> (h: HandleOf)
        requires
            self.wf(),
        ensures
            h == match fd {
                0 => HandleOf::Std(STD_INPUT_HANDLE),
                1 => HandleOf::Std(STD_OUTPUT_HANDLE),
                2 => HandleOf::Std(STD_ERROR_HANDLE),
                _ => HandleOf::Raw(
                    match spec_slot(fd) {
                        Some(i) => self.read@[i as int],
                        None => 0,
                    },
                ),
            },
    {
        match fd {
            0 => HandleOf::Std(STD_INPUT_HANDLE),
            1 => HandleOf::Std(STD_OUTPUT_HANDLE),
            2 => HandleOf::Std(STD_ERROR_HANDLE),
            _ => HandleOf::Raw(
                match slot(fd) {
                    Some(i) => self.read[i],
                    None => 0,
                },
            ),
        }
    }

    /// The handle to write to, and to ask the screen size of, for this `Fd`.
    /// The write side of standard input is standard output: raw mode is set
    /// up from the input `Fd` and must still reach the screen it paints on.
    pub fn write_handle(&self, fd: Fd) -> (h: HandleOf)
        requires
            self.wf(),
        ensures
            h == match fd {
                0 | 1 => HandleOf::Std(STD_OUTPUT_HANDLE),
                2 => HandleOf::Std(STD_ERROR_HANDLE),
                _ => HandleOf::Raw(
                    match spec_slot(fd) {
                        Some(i) => self.write@[i as int],
                        None => 0,
                    },
                ),
            },
    {
        match fd {
            0 | 1 => HandleOf::Std(STD_OUTPUT_HANDLE),
            2 => HandleOf::Std(STD_ERROR_HANDLE),
            _ => HandleOf::Raw(
                match slot(fd) {
                    Some(i) => self.write[i],
                    None => 0,
                },
            ),
        }
    }
}

/// **A released pair is the pair that was claimed.** On a table with a free
/// slot, claiming a pair of handles and then releasing the `Fd` it was given
/// hands back exactly that pair (a null read handle marks the slot empty and
/// gives nothing back), and leaves every slot as it was.
pub proof fn lemma_take_after_alloc(t0: Seq<usize>, w0: Seq<usize>, read: usize, write: usize)
    requires
        t0.len() == SLOTS,
        w0.len() == SLOTS,
        first_free(t0) is Some,
    ensures
        ({
            let i = first_free(t0)->0;
            let fd = (FD_BASE + i) as Fd;
            &&& spec_slot(fd) == Some(i as usize)
            &&& t0.update(i, read)[i] == read && w0.update(i, write)[i] == write
            &&& t0.update(i, read).update(i, 0usize) == t0
            &&& w0.update(i, write).update(i, 0usize) =~= w0.update(i, 0usize)
        }),
{
    let i = first_free(t0)->0;
    assert(0 <= i < t0.len() && t0[i] == 0);
    assert(t0.update(i, read).update(i, 0usize) =~= t0);
}

/// Does a pending key record turn into bytes under virtual terminal input?
pub open spec fn yields(r: InputRecord) -> bool {
    decode_key(r) matches Some(k) && k.key_down && !modifier_vk(k.virtual_key_code) && (
    k.unicode_char != 0 || vt_translated_vk(k.virtual_key_code))
}

/// What the pre-read peek concluded about the input handle.
#[derive(Clone, Copy, PartialEq, Eq, Debug, Structural)]
pub enum Readable {
    /// A console with at least one record that will turn into bytes.
    Yes,
    /// A console whose pending records will not: discard them and tick.
    No,
    /// Not a console, so there are no records: let `ReadFile` speak.
    NotAConsole,
}

/// The records a peek of `peeked` looked at: no more than the buffer holds.
pub open spec fn looked(peeked: usize, len: nat) -> nat {
    if peeked < len {
        peeked as nat
    } else {
        len
    }
}

/// How far the scan gets: through the first record that yields bytes, or
/// through every record looked at.
pub open spec fn scanned(records: Seq<InputRecord>, m: nat) -> nat {
    if exists|j: int| 0 <= j < m && #[trigger] yields(records[j]) {
        ((choose|j: int|
            0 <= j < m && yields(records[j]) && forall|k: int| 0 <= k < j ==> !#[trigger] yields(records[k]))
            + 1) as nat
    } else {
        m
    }
}

/// The scan ends just past the first record that yields bytes.
proof fn lemma_scanned(records: Seq<InputRecord>, m: nat, i: int)
    requires
        0 <= i < m,
        yields(records[i]),
        forall|k: int| 0 <= k < i ==> !#[trigger] yields(records[k]),
    ensures
        scanned(records, m) == i + 1,
{
    assert(0 <= i < m && yields(records[i]));
    let c = choose|j: int|
        0 <= j < m && yields(records[j]) && forall|k: int| 0 <= k < j ==> !#[trigger] yields(records[k]);
    assert(c == i) by {
        if c > i {
            assert(!yields(records[i]));
        }
    }
}

/// Will a `ReadFile` return promptly with bytes? Given what the peek of the
/// pending records returned (`None` when the handle is no console), the answer
/// and whether a resize record was seen on the way to it. The scan stops at
/// the first record that yields bytes.
pub fn has_readable_bytes(peeked: Option<usize>, records: &[InputRecord]) -> (r: (Readable, bool))
    ensures
        match peeked {
            None => r == (Readable::NotAConsole, false),
            Some(n) => {
                let m = looked(n, records@.len());
                let s = scanned(records@, m);
                &&& r.0 == if n == 0 {
                    Readable::No
                } else if exists|j: int| 0 <= j < m && #[trigger] yields(records@[j]) {
                    Readable::Yes
                } else {
                    Readable::No
                }
                &&& r.1 == (n != 0 && exists|j: int|
                    0 <= j < s && (#[trigger] records@[j]).event_type == WINDOW_BUFFER_SIZE_EVENT)
            },
        },
{
    let n = match peeked {
        Some(n) => n,
        None => {
            return (Readable::NotAConsole, false);
        },
    };
    if n == 0 {
        return (Readable::No, false);
    }
    let m = if n < records.len() {
        n
    } else {
        records.len()
    };
    let mut resized = false;
    let mut i: usize = 0;
    while i < m
        invariant
            peeked == Some(n),
            n != 0,
            i <= m,
            m == looked(n, records@.len()),
            m <= records@.len(),
            forall|k: int| 0 <= k < i ==> !#[trigger] yields(records@[k]),
            resized == exists|j: int|
                0 <= j < i && (#[trigger] records@[j]).event_type == WINDOW_BUFFER_SIZE_EVENT,
        decreases m - i,
    {
        let r = records[i];
        if r.is_resize() {
            resized = true;
        }
        let y = match r.key_event() {
            Some(k) => key_record_yields_bytes(k.key_down, k.virtual_key_code, k.unicode_char),
            None => false,
        };
        if y {
            proof {
                assert(yields(records@[i as int]));
                lemma_scanned(records@, m as nat, i as int);
                assert(resized == exists|j: int|
                    0 <= j < i + 1 && (#[trigger] records@[j]).event_type
                        == WINDOW_BUFFER_SIZE_EVENT) by {
                    if records@[i as int].event_type == WINDOW_BUFFER_SIZE_EVENT {
                        assert(resized);
                    }
                }
            }
            return (Readable::Yes, resized);
        }
        i = i + 1;
    }
    (Readable::No, resized)
}

/// What a wait on the input handle comes to: `None` when it signalled and the
/// handle is worth reading, the outcome to report otherwise. `err` is the last
/// error, which is only read for a failed wait.
pub fn after_wait(code: u32, err: u32) -> (r: Option<ReadOutcome>)
    ensures
        r == if code == WAIT_OBJECT_0 {
            None
        } else if code == WAIT_FAILED {
            Some(ReadOutcome::Error(err as i32))
        } else {
            Some(ReadOutcome::Timeout)
        },
{
    if code == WAIT_OBJECT_0 {
        None
    } else if code == WAIT_FAILED {
        Some(ReadOutcome::Error(err as i32))
    } else {
        Some(ReadOutcome::Timeout)
    }
}

/// What one classified `ReadFile` comes to: `None` to read again.
pub fn read_outcome(step: WinRead) -> (r: Option<ReadOutcome>)
    ensures
        r == match step {
            WinRead::Bytes(k) => Some(ReadOutcome::Bytes(k)),
            WinRead::Idle => Some(ReadOutcome::Timeout),
            WinRead::Eof => Some(ReadOutcome::Eof),
            WinRead::Retry => None,
            WinRead::Error(e) => Some(ReadOutcome::Error(e)),
        },
{
    match step {
        WinRead::Bytes(k) => Some(ReadOutcome::Bytes(k)),
        WinRead::Idle => Some(ReadOutcome::Timeout),
        WinRead::Eof => Some(ReadOutcome::Eof),
        WinRead::Retry => None,
        WinRead::Error(e) => Some(ReadOutcome::Error(e)),
    }
}

/// Where a write loop stands after one classified write: the new offset, or
/// the error that ends it. A retry stays where it was.
pub fn write_progress(off: usize, step: WriteStep) -> (r: Result<usize, i32>)
    requires
        step matches WriteStep::Advance(k) ==> off + k <= usize::MAX,
    ensures
        r == match step {
            WriteStep::Advance(k) => Ok((off + k) as usize),
            WriteStep::Retry => Ok(off),
            WriteStep::Fail(e) => Err(e),
        },
{
    match step {
        WriteStep::Advance(k) => Ok(off + k),
        WriteStep::Retry => Ok(off),
        WriteStep::Fail(e) => Err(e),
    }
}

/// A freshly observed window size against the last one: the packed size to
/// remember (none when the size is unknown, which keeps the last one) and
/// whether it is a resize.
pub fn note_dims(prev: u32, dims: Option<(u16, u16)>) -> (r: (Option<u32>, bool))
    ensures
        r == if packed(dims) == 0 {
            (None::<u32>, false)
        } else {
            (Some(packed(dims)), prev != 0 && prev != packed(dims))
        },
{
    let cur = pack_dims(dims);
    if cur == 0 {
        return (None, false);
    }
    (Some(cur), size_changed(prev, cur))
}

/// What became of the output handle when raw mode was set up.
#[derive(Clone, Copy, PartialEq, Eq, Debug, Structural)]
pub enum OutSetup {
    /// Virtual terminal processing is on; the mode it replaced is inside.
    Configured(u32),
    /// Not a console (redirected): nothing configured, nothing to restore.
    NotAConsole,
    /// A console that refuses virtual terminal processing.
    VtUnsupported,
}

/// The output side of raw mode, from the handle's console mode (`None` when
/// it is no console) and whether switching on VT processing succeeded.
pub fn configure_output(mode: Option<u32>, set_ok: bool) -> (r: OutSetup)
    ensures
        r == match mode {
            None => OutSetup::NotAConsole,
            Some(m) => if set_ok {
                OutSetup::Configured(m)
            } else {
                OutSetup::VtUnsupported
            },
        },
{
    match mode {
        None => OutSetup::NotAConsole,
        Some(m) => if set_ok {
            OutSetup::Configured(m)
        } else {
            OutSetup::VtUnsupported
        },
    }
}

/// Whether putting the console back succeeded: the input mode, and the
/// output mode when there was a console output to put back.
pub fn restored(ok_in: bool, ok_out: Option<bool>) -> (b: bool)
    ensures
        b == (ok_in && match ok_out {
            Some(o) => o,
            None => true,
        }),
{
    let out = match ok_out {
        Some(o) => o,
        None => true,
    };
    ok_in && out
}

} // verus!
