//! The history of the arena, one event on a line.

use crate::arena::Label;
use crate::bytes::utf8_of;
use crate::twrite::{decimal, decimal_digits};
use vstd::prelude::*;
use vstd::string::StringSliceAdditionalSpecFns;

verus! {

/// Bytes of a label that are written.
pub const LABEL_MAX: usize = 240;

/// `buf` with `text` in it from `pos` on.
pub open spec fn overlaid(buf: Seq<u8>, pos: int, text: Seq<u8>) -> Seq<u8> {
    buf.take(pos) + text + buf.skip(pos + text.len())
}

/// Writes `bytes` into `buf` at `pos`; returns where they end.
pub fn push(buf: &mut [u8], pos: usize, bytes: &[u8]) -> (r: usize)
    requires
        pos + bytes@.len() <= old(buf)@.len(),
    ensures
        r == pos + bytes@.len(),
        final(buf)@ == overlaid(old(buf)@, pos as int, bytes@),
{
    let n: usize = bytes.len();
    let room: usize = buf.len();
    let ghost before = buf@;
    let mut i: usize = 0;
    while i < n
        invariant
            i <= n == bytes@.len(),
            pos + n <= room == buf@.len(),
            buf@.len() == before.len(),
            forall|k: int| 0 <= k < pos ==> #[trigger] buf@[k] == before[k],
            forall|k: int| pos <= k < pos + i ==> #[trigger] buf@[k] == bytes@[k - pos],
            forall|k: int| pos + i <= k < before.len() ==> #[trigger] buf@[k] == before[k],
        decreases n - i,
    {
        buf[pos + i] = bytes[i];
        i = i + 1;
    }
    assert(buf@ =~= overlaid(before, pos as int, bytes@));
    pos + n
}

/// Writes `n` in decimal into `buf` at `pos`; returns where it ends.
pub fn push_u32(buf: &mut [u8], pos: usize, n: u32) -> (r: usize)
    requires
        pos + decimal(n as nat).len() <= old(buf)@.len(),
    ensures
        r == pos + decimal(n as nat).len(),
        final(buf)@ == overlaid(old(buf)@, pos as int, decimal(n as nat)),
{
    let digits: Vec<u8> = decimal_digits(n as u64);
    push(buf, pos, digits.as_slice())
}

/// The line of an event without a label.
pub open spec fn event_text(kind: &str, new_offset: u32) -> Seq<u8> {
    utf8_of(kind) + decimal(new_offset as nat) + utf8_of("\n")
}

/// The line of an allocation after which the arena is filled up to
/// `new_offset`.
pub open spec fn alloc_text(label: Seq<u8>, new_offset: u32) -> Seq<u8> {
    utf8_of("A ") + decimal(new_offset as nat) + utf8_of(" ") + (if label.len() > LABEL_MAX {
        label.take(LABEL_MAX as int)
    } else {
        label
    }) + utf8_of("\n")
}

/// The line of an allocation.
pub fn alloc_line(label: Label, new_offset: u32) -> (r: Vec<u8>)
    ensures
        r@ == alloc_text(label.bytes(), new_offset),
{
    let name: &[u8] = label.as_bytes();
    let n: usize = if name.len() > LABEL_MAX { LABEL_MAX } else { name.len() };
    let mut r: Vec<u8> = Vec::new();
    r.extend_from_slice("A ".as_bytes());
    let mut digits: Vec<u8> = decimal_digits(new_offset as u64);
    r.append(&mut digits);
    r.extend_from_slice(" ".as_bytes());
    let kept: &[u8] = vstd::slice::slice_subrange(name, 0, n);
    assert(n == name@.len() ==> kept@ =~= name@);
    r.extend_from_slice(kept);
    r.extend_from_slice("\n".as_bytes());
    assert(r@ =~= alloc_text(label.bytes(), new_offset));
    r
}

/// The line of an event without a label.
fn event_line(kind: &str, new_offset: u32) -> (r: Vec<u8>)
    ensures
        r@ == event_text(kind, new_offset),
{
    let mut r: Vec<u8> = Vec::new();
    r.extend_from_slice(kind.as_bytes());
    let mut digits: Vec<u8> = decimal_digits(new_offset as u64);
    r.append(&mut digits);
    r.extend_from_slice("\n".as_bytes());
    assert(r@ =~= event_text(kind, new_offset));
    r
}

/// The line of a return to `new_offset`.
pub fn rewind(new_offset: u32) -> (r: Vec<u8>)
    ensures
        r@ == event_text("R ", new_offset),
{
    event_line("R ", new_offset)
}

/// The line that tells that the pages behind `new_offset` were given back.
pub fn uncommit(new_offset: u32) -> (r: Vec<u8>)
    ensures
        r@ == event_text("U ", new_offset),
{
    event_line("U ", new_offset)
}

/// The file that the history goes to.
#[derive(Clone, Copy, Debug, PartialEq, Eq, Structural)]
pub enum Sink {
    /// Not opened yet.
    Unopened,
    /// Could not be opened, which is not tried again.
    Failed,
    /// Open.
    Open(i32),
}

impl Sink {
    /// Whether the file is to be opened before the next event.
    pub fn wants_open(&self) -> (r: bool)
        ensures
            r == (*self is Unopened),
    {
        match self {
            Sink::Unopened => true,
            _ => false,
        }
    }

    /// The file after an attempt to open it gave `fd`.
    pub fn opened(fd: i32) -> (r: Sink)
        ensures
            r == (if fd < 0 {
                Sink::Failed
            } else {
                Sink::Open(fd)
            }),
    {
        if fd < 0 {
            Sink::Failed
        } else {
            Sink::Open(fd)
        }
    }

    /// Where to write, if anywhere.
    pub fn get_fd(&self) -> (r: Option<i32>)
        ensures
            r == (match *self {
                Sink::Open(fd) => Some(fd),
                _ => None,
            }),
    {
        match self {
            Sink::Open(fd) => Some(*fd),
            _ => None,
        }
    }
}

/// What is laid into a buffer stands there, and nothing else changes.
pub proof fn law_overlay_changes_no_more(buf: Seq<u8>, pos: int, text: Seq<u8>, i: int)
    requires
        0 <= pos,
        pos + text.len() <= buf.len(),
        0 <= i < buf.len(),
    ensures
        overlaid(buf, pos, text).len() == buf.len(),
        overlaid(buf, pos, text).subrange(pos, pos + text.len()) == text,
        i < pos || pos + text.len() <= i ==> overlaid(buf, pos, text)[i] == buf[i],
{
    assert(overlaid(buf, pos, text).subrange(pos, pos + text.len()) =~= text);
}

/// A label of at most 240 bytes is written whole, and a longer one up to there.
pub proof fn law_label_is_written(label: Seq<u8>, new_offset: u32)
    ensures
        label.len() <= 240 ==> alloc_text(label, new_offset) == utf8_of("A ") + decimal(
            new_offset as nat,
        ) + utf8_of(" ") + label + utf8_of("\n"),
        label.len() > 240 ==> alloc_text(label, new_offset) == alloc_text(
            label.take(240),
            new_offset,
        ),
{
    if label.len() > 240 {
        assert(label.take(240).len() <= 240);
    }
}

} // verus!
