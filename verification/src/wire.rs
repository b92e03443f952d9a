//! Little-endian words in byte messages.

use crate::bytes::fill;
use vstd::prelude::*;

verus! {

/// The four bytes of `w`, lowest first.
pub open spec fn le32(w: u32) -> Seq<u8> {
    seq![
        (w % 0x100) as u8,
        (w / 0x100 % 0x100) as u8,
        (w / 0x1_0000 % 0x100) as u8,
        (w / 0x100_0000) as u8,
    ]
}

/// The eight bytes of `w`, lowest first.
pub open spec fn le64(w: u64) -> Seq<u8> {
    le32((w % 0x1_0000_0000) as u32) + le32((w / 0x1_0000_0000) as u32)
}

/// The word at `at`, lowest byte first.
pub open spec fn word_at(s: Seq<u8>, at: int) -> int {
    s[at] + s[at + 1] * 0x100 + s[at + 2] * 0x1_0000 + s[at + 3] * 0x100_0000
}

/// The double word at `at`, lowest byte first.
pub open spec fn long_at(s: Seq<u8>, at: int) -> int {
    word_at(s, at) + word_at(s, at + 4) * 0x1_0000_0000
}

/// `n` zero bytes.
pub open spec fn zeros(n: int) -> Seq<u8> {
    fill(0, n)
}

/// What is written as a word is read as that word.
pub proof fn law_word_round_trip(before: Seq<u8>, w: u32, after: Seq<u8>)
    ensures
        word_at(before + le32(w) + after, before.len() as int) == w,
{
    let s = before + le32(w) + after;
    let n = before.len() as int;
    assert(s[n] == le32(w)[0] && s[n + 1] == le32(w)[1] && s[n + 2] == le32(w)[2] && s[n + 3]
        == le32(w)[3]);
}

/// What is written as a double word is read as that double word.
pub proof fn law_long_round_trip(before: Seq<u8>, w: u64, after: Seq<u8>)
    ensures
        long_at(before + le64(w) + after, before.len() as int) == w,
{
    let lo = (w % 0x1_0000_0000) as u32;
    let hi = (w / 0x1_0000_0000) as u32;
    let s = before + le64(w) + after;
    law_word_round_trip(before, lo, le32(hi) + after);
    law_word_round_trip(before + le32(lo), hi, after);
    assert(s =~= before + le32(lo) + (le32(hi) + after));
    assert(s =~= before + le32(lo) + le32(hi) + after);
}

/// Words are laid down with their lowest byte first.
pub proof fn law_lowest_byte_first(w: u32, l: u64)
    ensures
        le32(w).len() == 4,
        w == le32(w)[0] + 256 * le32(w)[1] + 65536 * le32(w)[2] + 16777216 * le32(w)[3],
        le64(l).len() == 8,
        le64(l).take(4) == le32((l % 4294967296) as u32),
        le64(l).skip(4) == le32((l / 4294967296) as u32),
{
    assert(le64(l).take(4) =~= le32((l % 4294967296) as u32));
    assert(le64(l).skip(4) =~= le32((l / 4294967296) as u32));
}

/// Reads the word at `at`.
pub fn read_word(s: &[u8], at: usize) -> (r: u32)
    requires
        at + 4 <= s@.len(),
    ensures
        r == word_at(s@, at as int),
{
    s[at] as u32 + s[at + 1] as u32 * 0x100 + s[at + 2] as u32 * 0x1_0000 + s[at + 3] as u32
        * 0x100_0000
}

/// Reads the double word at `at`.
pub fn read_long(s: &[u8], at: usize) -> (r: u64)
    requires
        at + 8 <= s@.len(),
    ensures
        r == long_at(s@, at as int),
{
    assert(at + 8 <= s.len());
    read_word(s, at) as u64 + read_word(s, at + 4) as u64 * 0x1_0000_0000
}

/// Adds the bytes of `w`.
pub fn push_word(out: &mut Vec<u8>, w: u32)
    ensures
        final(out)@ == old(out)@ + le32(w),
{
    out.push((w % 0x100) as u8);
    out.push((w / 0x100 % 0x100) as u8);
    out.push((w / 0x1_0000 % 0x100) as u8);
    out.push((w / 0x100_0000) as u8);
    assert(out@ =~= old(out)@ + le32(w));
}

/// Adds the bytes of `w`.
pub fn push_long(out: &mut Vec<u8>, w: u64)
    ensures
        final(out)@ == old(out)@ + le64(w),
{
    push_word(out, (w % 0x1_0000_0000) as u32);
    push_word(out, (w / 0x1_0000_0000) as u32);
    assert(out@ =~= old(out)@ + le64(w));
}

/// Adds `n` zero bytes.
pub fn push_zeros(out: &mut Vec<u8>, n: usize)
    ensures
        final(out)@ == old(out)@ + zeros(n as int),
{
    let ghost before = out@;
    assert(before + zeros(0) =~= before);
    for i in 0..n
        invariant
            out@ == before + zeros(i as int),
    {
        out.push(0);
        assert(out@ =~= before + zeros(i + 1));
    }
}

} // verus!
