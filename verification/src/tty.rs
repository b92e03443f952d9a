//! Terminal modes and sizes, and what a write or a read has achieved.

use crate::platform::Platform;
use vstd::prelude::*;

verus! {

/// Hides the cursor.
pub const HIDE_CURSOR: &'static str = "\x1b[?25l";

/// Shows it again.
pub const SHOW_CURSOR: &'static str = "\x1b[?25h";

/// Bytes of the kernel's terminal record.
pub open spec fn record_size(platform: Platform) -> nat {
    match platform {
        Platform::Linux => 36,
        Platform::Mac => 72,
    }
}

/// The terminal record for raw input: no line editing, no echo, and reads that
/// return at once. All else stays.
pub open spec fn raw_record(platform: Platform, orig: Seq<u8>) -> Seq<u8> {
    match platform {
        Platform::Linux => orig.update(12, orig[12] & 0xf5).update(22, 0).update(23, 0),
        Platform::Mac => orig.update(24, orig[24] & 0xf7).update(25, orig[25] & 0xfe).update(
            48,
            0,
        ).update(49, 0),
    }
}

/// Remembers how to put a terminal back.
pub struct RawModeGuard {
    fd: i32,
    orig: Vec<u8>,
}

impl RawModeGuard {
    /// The terminal.
    pub closed spec fn terminal(&self) -> i32 {
        self.fd
    }

    /// Its record from before.
    pub closed spec fn saved(&self) -> Seq<u8> {
        self.orig@
    }

    /// The terminal, and the record to put back.
    pub fn restore(&self) -> (r: (i32, &[u8]))
        ensures
            r.0 == self.terminal(),
            r.1@ == self.saved(),
    {
        (self.fd, self.orig.as_slice())
    }
}

/// The record that puts the terminal `fd`, whose record is `orig`, into raw
/// mode, and the guard that undoes it.
pub fn enter_raw_mode(platform: Platform, fd: i32, orig: Vec<u8>) -> (r: (Vec<u8>, RawModeGuard))
    requires
        orig@.len() == record_size(platform),
    ensures
        r.0@ == raw_record(platform, orig@),
        r.1.terminal() == fd,
        r.1.saved() == orig@,
{
    let mut raw: Vec<u8> = Vec::new();
    raw.extend_from_slice(orig.as_slice());
    match platform {
        Platform::Linux => {
            let flags: u8 = raw[12] & 0xf5;
            raw.set(12, flags);
            raw.set(22, 0);
            raw.set(23, 0);
        },
        Platform::Mac => {
            let low: u8 = raw[24] & 0xf7;
            let high: u8 = raw[25] & 0xfe;
            raw.set(24, low);
            raw.set(25, high);
            raw.set(48, 0);
            raw.set(49, 0);
        },
    }
    (raw, RawModeGuard { fd, orig })
}

/// Columns and rows of a terminal that told `col` and `row`, if it answered
/// with 0. What it does not tell is taken to be 80 by 24.
pub fn term_size(ret: i64, col: u16, row: u16) -> (r: (usize, usize))
    ensures
        r.0 == (if ret == 0 && col > 0 {
            col as int
        } else {
            80
        }),
        r.1 == (if ret == 0 && row > 0 {
            row as int
        } else {
            24
        }),
{
    if ret != 0 {
        return (80, 24);
    }
    let w: usize = if col > 0 { col as usize } else { 80 };
    let h: usize = if row > 0 { row as usize } else { 24 };
    (w, h)
}

/// Whether to write, when `off` of `len` bytes were written: as long as bytes are
/// left, so never if there are none at all.
pub fn write_due(off: usize, len: usize) -> (r: bool)
    ensures
        r == (off < len),
{
    off < len
}

/// Where the next write starts, if the one that started at `off` of `len` bytes
/// returned `n`. There is none at the end, nor after an error.
pub open spec fn next_write(off: nat, len: nat, n: i64) -> Option<nat> {
    if n > 0 && off + n < len {
        Some((off + n) as nat)
    } else {
        None
    }
}

/// Where to go on writing when `off` of `len` bytes were written and the next
/// write returned `n`. `None` at the end, and after an error.
pub fn write_stdout(off: usize, len: usize, n: i64) -> (r: Option<usize>)
    requires
        off <= len,
        n <= len - off,
    ensures
        r is Some == next_write(off as nat, len as nat, n) is Some,
        r is Some ==> r->0 == next_write(off as nat, len as nat, n)->0,
{
    if n <= 0 {
        return None;
    }
    let next: usize = off + n as usize;
    if write_due(next, len) {
        Some(next)
    } else {
        None
    }
}

/// Where the next of the writes of `len` bytes starts, if those before it
/// returned `answers`. `None` if no further write is made.
pub open spec fn write_at(len: nat, answers: Seq<i64>) -> Option<nat>
    decreases answers.len(),
{
    if answers.len() == 0 {
        if 0 < len {
            Some(0)
        } else {
            None
        }
    } else {
        match write_at(len, answers.drop_last()) {
            Some(off) => next_write(off, len, answers.last()),
            None => None,
        }
    }
}

/// How many bytes were accepted by writes that returned `answers`.
pub open spec fn accepted(answers: Seq<i64>) -> nat
    decreases answers.len(),
{
    if answers.len() == 0 {
        0
    } else {
        accepted(answers.drop_last()) + if answers.last() > 0 {
            answers.last() as nat
        } else {
            0
        }
    }
}

/// `answers` are what the writes of `len` bytes returned, each no more than it
/// was offered.
pub open spec fn answered(len: nat, answers: Seq<i64>) -> bool
    decreases answers.len(),
{
    answers.len() > 0 ==> {
        &&& answered(len, answers.drop_last())
        &&& match write_at(len, answers.drop_last()) {
            Some(off) => answers.last() <= len - off,
            None => false,
        }
    }
}

/// What was written is always the front of what was to be written: each write
/// starts right behind what was accepted. It is the whole of it once no further
/// write is made, unless the last one failed. Without bytes no write is made.
pub proof fn law_writes_the_front(len: nat, answers: Seq<i64>)
    requires
        answered(len, answers),
    ensures
        accepted(answers) <= len,
        write_at(len, answers) is Some ==> write_at(len, answers) == Some(accepted(answers))
            && accepted(answers) < len,
        write_at(len, answers) is None ==> accepted(answers) == len || answers.last() <= 0,
        len == 0 ==> answers.len() == 0 && write_at(len, answers) is None,
    decreases answers.len(),
{
    if answers.len() > 0 {
        law_writes_the_front(len, answers.drop_last());
    }
}

/// The byte that a read of one byte got, if it returned 1.
pub fn read_one_stdin(ret: i64, b: u8) -> (r: Option<u8>)
    ensures
        r == (if ret == 1 {
            Some(b)
        } else {
            None
        }),
{
    if ret == 1 {
        Some(b)
    } else {
        None
    }
}

/// The keys that end the monitor: `q`, and what Ctrl-C and Ctrl-\ send in raw
/// mode.
pub open spec fn quit_key(key: Option<u8>) -> bool {
    key == Some(0x71u8) || key == Some(0x03u8) || key == Some(0x1cu8)
}

/// Whether a key ends the monitor.
pub fn quits(key: Option<u8>) -> (r: bool)
    ensures
        r == quit_key(key),
{
    match key {
        Some(b) => b == 0x71 || b == 0x03 || b == 0x1c,
        None => false,
    }
}

/// Raw mode takes line editing and echo out of the local modes, keeps every
/// other mode, and lets reads return at once. It is its own repetition.
pub proof fn law_raw_mode_changes_no_more(platform: Platform, orig: Seq<u8>, i: int)
    requires
        orig.len() == record_size(platform),
        0 <= i < orig.len(),
    ensures
        ({
            let raw = raw_record(platform, orig);
            &&& raw.len() == orig.len()
            &&& raw_record(platform, raw) == raw
            &&& platform == Platform::Linux ==> {
                &&& raw[12] & 2 == 0 && raw[12] & 8 == 0
                &&& forall|m: u8| m & 10 == 0 ==> #[trigger] (raw[12] & m) == orig[12] & m
                &&& raw[22] == 0 && raw[23] == 0
                &&& i != 12 && i != 22 && i != 23 ==> raw[i] == orig[i]
            }
            &&& platform == Platform::Mac ==> {
                &&& raw[24] & 8 == 0 && raw[25] & 1 == 0
                &&& forall|m: u8| m & 8 == 0 ==> #[trigger] (raw[24] & m) == orig[24] & m
                &&& forall|m: u8| m & 1 == 0 ==> #[trigger] (raw[25] & m) == orig[25] & m
                &&& raw[48] == 0 && raw[49] == 0
                &&& i != 24 && i != 25 && i != 48 && i != 49 ==> raw[i] == orig[i]
            }
        }),
{
    let raw = raw_record(platform, orig);
    match platform {
        Platform::Linux => {
            let x = orig[12];
            assert((x & 0xf5) & 2 == 0 && (x & 0xf5) & 8 == 0 && (x & 0xf5) & 0xf5 == x & 0xf5)
                by (bit_vector);
            assert forall|m: u8| m & 10 == 0 implies #[trigger] (raw[12] & m) == orig[12] & m by {
                assert(m & 10 == 0 ==> (x & 0xf5) & m == x & m) by (bit_vector);
            }
        },
        Platform::Mac => {
            let x = orig[24];
            let y = orig[25];
            assert((x & 0xf7) & 8 == 0 && (x & 0xf7) & 0xf7 == x & 0xf7 && (y & 0xfe) & 1 == 0 && (y
                & 0xfe) & 0xfe == y & 0xfe) by (bit_vector);
            assert forall|m: u8| m & 8 == 0 implies #[trigger] (raw[24] & m) == orig[24] & m by {
                assert(m & 8 == 0 ==> (x & 0xf7) & m == x & m) by (bit_vector);
            }
            assert forall|m: u8| m & 1 == 0 implies #[trigger] (raw[25] & m) == orig[25] & m by {
                assert(m & 1 == 0 ==> (y & 0xfe) & m == y & m) by (bit_vector);
            }
        },
    }
    assert(raw_record(platform, raw) =~= raw);
}

} // verus!
