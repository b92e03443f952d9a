//! Byte-string helpers, and values that write themselves at a fixed width.

use crate::twrite::{decimal, decimal_digits, digit_count, write_u32, Put, TinyWriter};
use vstd::prelude::*;
use vstd::string::StringSliceAdditionalSpecFns;

verus! {

/// ASCII white space: blank, tab, line feed, form feed, carriage return.
pub open spec fn is_space(b: u8) -> bool {
    b == 0x20 || b == 0x09 || b == 0x0a || b == 0x0c || b == 0x0d
}

/// `b` with `A`..`Z` made lower case.
pub open spec fn lower(b: u8) -> u8 {
    if 0x41 <= b <= 0x5a {
        (b + 0x20) as u8
    } else {
        b
    }
}

/// The bytes of a string.
pub open spec fn utf8_of(s: &str) -> Seq<u8> {
    s.spec_bytes()
}

/// `s` starts with `prefix`.
pub open spec fn starts(s: Seq<u8>, prefix: Seq<u8>) -> bool {
    prefix.len() <= s.len() && s.take(prefix.len() as int) == prefix
}

/// `s` ends with `suffix`.
pub open spec fn ends(s: Seq<u8>, suffix: Seq<u8>) -> bool {
    suffix.len() <= s.len() && s.skip(s.len() - suffix.len()) == suffix
}

/// The pieces of `s` between the bytes that satisfy `sep`.
pub open spec fn pieces(s: Seq<u8>, sep: spec_fn(u8) -> bool) -> Seq<Seq<u8>>
    decreases s.len(),
{
    if s.len() == 0 {
        seq![Seq::empty()]
    } else {
        let before = pieces(s.drop_last(), sep);
        if sep(s.last()) {
            before.push(Seq::empty())
        } else {
            before.drop_last().push(before.last().push(s.last()))
        }
    }
}

/// The pieces that are not empty.
pub open spec fn non_empty(parts: Seq<Seq<u8>>) -> Seq<Seq<u8>>
    decreases parts.len(),
{
    if parts.len() == 0 {
        Seq::empty()
    } else {
        let before = non_empty(parts.drop_last());
        if parts.last().len() > 0 {
            before.push(parts.last())
        } else {
            before
        }
    }
}

/// The runs of bytes that are not white space.
pub open spec fn fields(s: Seq<u8>) -> Seq<Seq<u8>> {
    non_empty(pieces(s, |b: u8| is_space(b)))
}

/// The lines of `s`: what stands between the line feeds. A line feed at the end
/// starts no further line.
pub open spec fn lines(s: Seq<u8>) -> Seq<Seq<u8>> {
    let parts = pieces(s, |b: u8| b == 0x0a);
    if parts.last().len() == 0 {
        parts.drop_last()
    } else {
        parts
    }
}

/// What the slices in `v` hold.
pub open spec fn contents(v: Seq<&[u8]>) -> Seq<Seq<u8>> {
    v.map_values(|p: &[u8]| p@)
}

proof fn lemma_pieces_not_empty(s: Seq<u8>, sep: spec_fn(u8) -> bool)
    ensures
        pieces(s, sep).len() > 0,
    decreases s.len(),
{
    if s.len() > 0 {
        lemma_pieces_not_empty(s.drop_last(), sep);
    }
}

/// Splits `bytes` at every byte of which `sep` says `true`.
pub(crate) fn split_when<'a, F: Fn(u8) -> bool>(
    bytes: &'a [u8],
    sep: F,
    Ghost(is_sep): Ghost<spec_fn(u8) -> bool>,
) -> (r: Vec<&'a [u8]>)
    requires
        forall|b: u8| #[trigger] call_requires(sep, (b,)),
        forall|b: u8, r: bool| #[trigger] call_ensures(sep, (b,), r) ==> r == is_sep(b),
    ensures
        contents(r@) == pieces(bytes@, is_sep),
{
    let mut r: Vec<&'a [u8]> = Vec::new();
    let mut start: usize = 0;
    let n: usize = bytes.len();
    assert(bytes@.subrange(0, 0) =~= Seq::empty());
    assert(bytes@.take(0) =~= Seq::empty());
    assert(contents(r@).push(bytes@.subrange(0, 0)) =~= pieces(bytes@.take(0), is_sep));
    for i in 0..n
        invariant
            n == bytes@.len(),
            start <= i,
            forall|b: u8| #[trigger] call_requires(sep, (b,)),
            forall|b: u8, r: bool| #[trigger] call_ensures(sep, (b,), r) ==> r == is_sep(b),
            contents(r@).push(bytes@.subrange(start as int, i as int)) == pieces(
                bytes@.take(i as int),
                is_sep,
            ),
    {
        let ghost before = r@;
        let ghost open = bytes@.subrange(start as int, i as int);
        assert(bytes@.take(i + 1).drop_last() =~= bytes@.take(i as int));
        assert(bytes@.take(i + 1).last() == bytes@[i as int]);
        assert(contents(before).push(open).drop_last() =~= contents(before));
        assert(contents(before).push(open).last() == open);
        if sep(bytes[i]) {
            r.push(vstd::slice::slice_subrange(bytes, start, i));
            start = i + 1;
            assert(bytes@.subrange(start as int, i + 1) =~= Seq::empty());
            assert(contents(r@) =~= contents(before).push(open));
            assert(contents(r@).push(bytes@.subrange(start as int, i + 1)) =~= pieces(
                bytes@.take(i + 1),
                is_sep,
            ));
        } else {
            assert(bytes@.subrange(start as int, i + 1) =~= open.push(bytes@[i as int]));
            assert(contents(r@).push(bytes@.subrange(start as int, i + 1)) =~= pieces(
                bytes@.take(i + 1),
                is_sep,
            ));
        }
    }
    let ghost before = r@;
    r.push(vstd::slice::slice_subrange(bytes, start, n));
    assert(bytes@.take(n as int) =~= bytes@);
    assert(contents(r@) =~= contents(before).push(bytes@.subrange(start as int, n as int)));
    r
}

/// Drops the empty slices.
pub(crate) fn drop_empty<'a>(parts: &Vec<&'a [u8]>) -> (r: Vec<&'a [u8]>)
    ensures
        contents(r@) == non_empty(contents(parts@)),
{
    let mut r: Vec<&'a [u8]> = Vec::new();
    let n: usize = parts.len();
    assert(contents(parts@).take(0) =~= Seq::empty());
    assert(contents(r@) =~= Seq::empty());
    for i in 0..n
        invariant
            n == parts@.len(),
            contents(r@) == non_empty(contents(parts@).take(i as int)),
    {
        let ghost before = r@;
        assert(contents(parts@).take(i + 1).drop_last() =~= contents(parts@).take(i as int));
        assert(contents(parts@).take(i + 1).last() == parts@[i as int]@);
        if parts[i].len() > 0 {
            r.push(parts[i]);
            assert(contents(r@) =~= contents(before).push(parts@[i as int]@));
        }
    }
    assert(contents(parts@).take(n as int) =~= contents(parts@));
    r
}

/// Whether `b` is white space.
pub(crate) fn space_byte(b: u8) -> (r: bool)
    ensures
        r == is_space(b),
{
    b == 0x20 || b == 0x09 || b == 0x0a || b == 0x0c || b == 0x0d
}

/// Whether `b` ends a line.
fn newline_byte(b: u8) -> (r: bool)
    ensures
        r == (b == 0x0a),
{
    b == 0x0a
}

/// The runs of bytes that are not white space.
pub fn split_ascii_whitespace(bytes: &[u8]) -> (r: Vec<&[u8]>)
    ensures
        contents(r@) == fields(bytes@),
{
    let ghost is_sep = |b: u8| is_space(b);
    let parts = split_when(bytes, space_byte, Ghost(is_sep));
    drop_empty(&parts)
}

/// The lines of `bytes`.
pub fn split_lines(bytes: &[u8]) -> (r: Vec<&[u8]>)
    ensures
        contents(r@) == lines(bytes@),
{
    let ghost is_sep = |b: u8| b == 0x0a;
    let mut r: Vec<&[u8]> = split_when(bytes, newline_byte, Ghost(is_sep));
    let ghost parts = contents(r@);
    proof {
        lemma_pieces_not_empty(bytes@, is_sep);
    }
    let n: usize = r.len();
    assert(parts.last() == r@[n - 1]@);
    if r[n - 1].len() == 0 {
        let _ = r.pop();
        assert(contents(r@) =~= parts.drop_last());
    }
    r
}

/// `a` and `b` are equal but for the case of ASCII letters.
pub open spec fn same_letters(a: Seq<u8>, b: Seq<u8>) -> bool {
    &&& a.len() == b.len()
    &&& forall|i: int| 0 <= i < a.len() ==> lower(#[trigger] a[i]) == lower(b[i])
}

/// `b` with `A`..`Z` made lower case.
fn to_lower(b: u8) -> (r: u8)
    ensures
        r == lower(b),
{
    if 0x41 <= b && b <= 0x5a {
        b + 0x20
    } else {
        b
    }
}

/// Equality but for the case of ASCII letters.
pub fn ieq(a: &[u8], b: &[u8]) -> (r: bool)
    ensures
        r == same_letters(a@, b@),
{
    if a.len() != b.len() {
        return false;
    }
    for i in 0..a.len()
        invariant
            a@.len() == b@.len(),
            forall|j: int| 0 <= j < i ==> lower(#[trigger] a@[j]) == lower(b@[j]),
    {
        if to_lower(a[i]) != to_lower(b[i]) {
            assert(lower(a@[i as int]) != lower(b@[i as int]));
            return false;
        }
    }
    true
}

/// Byte-for-byte equality.
pub fn eq_bytes(a: &[u8], b: &[u8]) -> (r: bool)
    ensures
        r == (a@ == b@),
{
    if a.len() != b.len() {
        return false;
    }
    for i in 0..a.len()
        invariant
            a@.len() == b@.len(),
            forall|j: int| 0 <= j < i ==> a@[j] == b@[j],
    {
        if a[i] != b[i] {
            return false;
        }
    }
    assert(a@ =~= b@);
    true
}

/// Whether `s` starts with `prefix`.
pub fn starts_with(s: &[u8], prefix: &[u8]) -> (r: bool)
    ensures
        r == starts(s@, prefix@),
{
    if s.len() < prefix.len() {
        return false;
    }
    eq_bytes(vstd::slice::slice_subrange(s, 0, prefix.len()), prefix)
}

/// Whether `s` ends with `suffix`.
pub fn ends_with(s: &[u8], suffix: &[u8]) -> (r: bool)
    ensures
        r == ends(s@, suffix@),
{
    if s.len() < suffix.len() {
        return false;
    }
    eq_bytes(vstd::slice::slice_subrange(s, s.len() - suffix.len(), s.len()), suffix)
}

/// One step of the FNV-1a hash on a letter whose case is folded.
pub open spec fn hash_step(h: u32, b: u8) -> u32 {
    (h ^ ((b | 0x20) as u32)).wrapping_mul(0x0100_0193)
}

/// FNV-1a over the bytes, with the case bit of each byte set.
pub open spec fn hash_of(s: Seq<u8>) -> u32
    decreases s.len(),
{
    if s.len() == 0 {
        0x811c_9dc5
    } else {
        hash_step(hash_of(s.drop_last()), s.last())
    }
}

/// FNV-1a over the bytes, with the case bit of each byte set.
pub fn name_hash(s: &[u8]) -> (r: u32)
    ensures
        r == hash_of(s@),
{
    let mut h: u32 = 0x811c_9dc5;
    assert(s@.take(0) =~= Seq::empty());
    for i in 0..s.len()
        invariant
            h == hash_of(s@.take(i as int)),
    {
        assert(s@.take(i + 1).drop_last() =~= s@.take(i as int));
        h = (h ^ ((s[i] | 0x20) as u32)).wrapping_mul(0x0100_0193);
    }
    assert(s@.take(s@.len() as int) =~= s@);
    h
}

/// Names that differ only in the case of ASCII letters have one hash.
pub proof fn law_hash_folds_case(a: Seq<u8>, b: Seq<u8>)
    requires
        same_letters(a, b),
    ensures
        hash_of(a) == hash_of(b),
    decreases a.len(),
{
    if a.len() > 0 {
        assert(same_letters(a.drop_last(), b.drop_last()));
        law_hash_folds_case(a.drop_last(), b.drop_last());
        let x = a.last();
        let y = b.last();
        assert(lower(a[a.len() - 1]) == lower(b[b.len() - 1]));
        assert(x | 0x20 == y | 0x20) by (bit_vector)
            requires
                (if 0x41 <= x <= 0x5a { x + 0x20 } else { x as int }) == (if 0x41 <= y <= 0x5a {
                    y + 0x20
                } else {
                    y as int
                }),
        ;
    }
}

/// `n` copies of `b`.
pub open spec fn fill(b: u8, n: int) -> Seq<u8> {
    Seq::new(if n < 0 { 0 } else { n as nat }, |i: int| b)
}

/// Makes `n` copies of `b`.
fn filled(b: u8, n: usize) -> (r: Vec<u8>)
    ensures
        r@ == fill(b, n as int),
{
    let mut r: Vec<u8> = Vec::new();
    for i in 0..n
        invariant
            r@ == fill(b, i as int),
    {
        r.push(b);
        assert(r@ =~= fill(b, i + 1));
    }
    r
}

/// A plain number.
pub struct U32d(pub u32);

/// A number at the right of its field.
pub struct PadRight(pub u32, pub u8);

/// A number at the left of its field.
pub struct PadLeft(pub u32, pub u8);

/// A number with zeros before it.
pub struct PadZero(pub u32, pub u8);

/// The bytes by which `n` falls short of `width`.
pub open spec fn gap(n: u32, width: u8) -> int {
    width - decimal(n as nat).len()
}

/// As many `b` as `n` falls short of `width`.
fn gap_bytes(b: u8, n: u32, width: u8) -> (r: Vec<u8>)
    ensures
        r@ == fill(b, gap(n, width)),
{
    let digits: u8 = digit_count(n);
    let missing: usize = if digits < width { (width - digits) as usize } else { 0 };
    let r: Vec<u8> = filled(b, missing);
    assert(r@ =~= fill(b, gap(n, width)));
    r
}

impl Put for U32d {
    open spec fn text(&self) -> Seq<u8> {
        decimal(self.0 as nat)
    }

    fn put<W: TinyWriter>(&self, w: &mut W) {
        write_u32(w, self.0);
    }
}

impl Put for PadRight {
    open spec fn text(&self) -> Seq<u8> {
        fill(0x20, gap(self.0, self.1)) + decimal(self.0 as nat)
    }

    fn put<W: TinyWriter>(&self, w: &mut W) {
        let mut text: Vec<u8> = gap_bytes(0x20, self.0, self.1);
        write_u32(&mut text, self.0);
        w.put_bytes(text.as_slice());
    }
}

impl Put for PadLeft {
    open spec fn text(&self) -> Seq<u8> {
        decimal(self.0 as nat) + fill(0x20, gap(self.0, self.1))
    }

    fn put<W: TinyWriter>(&self, w: &mut W) {
        let mut text: Vec<u8> = decimal_digits(self.0 as u64);
        let mut pad: Vec<u8> = gap_bytes(0x20, self.0, self.1);
        text.append(&mut pad);
        w.put_bytes(text.as_slice());
    }
}

impl Put for PadZero {
    open spec fn text(&self) -> Seq<u8> {
        fill(0x30, gap(self.0, self.1)) + decimal(self.0 as nat)
    }

    fn put<W: TinyWriter>(&self, w: &mut W) {
        let mut text: Vec<u8> = gap_bytes(0x30, self.0, self.1);
        write_u32(&mut text, self.0);
        w.put_bytes(text.as_slice());
    }
}

/// `n` in plain decimal.
pub fn u32d(n: u32) -> (r: U32d)
    ensures
        r == U32d(n),
{
    U32d(n)
}

/// `n` at the right of a field of `width` bytes.
pub fn pad_right(n: u32, width: u8) -> (r: PadRight)
    ensures
        r == PadRight(n, width),
{
    PadRight(n, width)
}

/// `n` at the left of a field of `width` bytes.
pub fn pad_left(n: u32, width: u8) -> (r: PadLeft)
    ensures
        r == PadLeft(n, width),
{
    PadLeft(n, width)
}

/// `n` at the right of a field of `width` bytes, with zeros before it.
pub fn pad_zero(n: u32, width: u8) -> (r: PadZero)
    ensures
        r == PadZero(n, width),
{
    PadZero(n, width)
}

/// A number of tenths as `X.Y`, its integer part at the right of a field that
/// leaves room for the two bytes behind it.
pub struct F1Wide(pub u64, pub u8);

/// A number of hundredths as `X.YZ`.
pub struct F2(pub u64);

/// The low 32 bits of `n`.
pub open spec fn low32(n: int) -> u32 {
    (n % 0x1_0000_0000) as u32
}

/// The low 32 bits of `n`.
pub(crate) fn to_low32(n: u64) -> (r: u32)
    ensures
        r == low32(n as int),
{
    (n % 0x1_0000_0000) as u32
}

impl Put for F1Wide {
    open spec fn text(&self) -> Seq<u8> {
        let width = if self.1 >= 2 { (self.1 - 2) as u8 } else { 0u8 };
        PadRight(low32(self.0 as int / 10), width).text().push(0x2e) + decimal(self.0 as nat % 10)
    }

    fn put<W: TinyWriter>(&self, w: &mut W) {
        let width: u8 = self.1.saturating_sub(2);
        let mut text: Vec<u8> = Vec::new();
        PadRight(to_low32(self.0 / 10), width).put(&mut text);
        text.push(0x2e);
        U32d((self.0 % 10) as u32).put(&mut text);
        assert(text@ =~= self.text());
        w.put_bytes(text.as_slice());
    }
}

impl Put for F2 {
    open spec fn text(&self) -> Seq<u8> {
        decimal(low32(self.0 as int / 100) as nat).push(0x2e) + PadZero(
            (self.0 % 100) as u32,
            2,
        ).text()
    }

    fn put<W: TinyWriter>(&self, w: &mut W) {
        let mut text: Vec<u8> = Vec::new();
        U32d(to_low32(self.0 / 100)).put(&mut text);
        text.push(0x2e);
        PadZero((self.0 % 100) as u32, 2).put(&mut text);
        assert(text@ =~= self.text());
        w.put_bytes(text.as_slice());
    }
}

/// A number of tenths whose integer part leaves room for the two bytes behind it
/// takes exactly its width; a longer one is not cut.
pub proof fn law_tenths_fill_their_width(x: F1Wide)
    ensures
        ({
            let digits = decimal(low32(x.0 as int / 10) as nat).len();
            x.text().len() == (if digits + 2 <= x.1 {
                x.1 as nat
            } else {
                digits + 2
            })
        }),
{
    assert(decimal(x.0 as nat % 10).len() == 1);
}

/// `n / d`, rounded to the nearest; a half is rounded up. At most 2^64 - 1.
pub open spec fn nearest(n: int, d: int) -> u64 {
    let q = (2 * n + d) / (2 * d);
    if q <= u64::MAX {
        q as u64
    } else {
        u64::MAX
    }
}

/// `n * scale / d`, rounded to the nearest.
fn round_scaled(n: u64, scale: u8, d: u64) -> (r: u64)
    requires
        d > 0,
    ensures
        r == nearest(n * scale, d as int),
{
    assert(0 <= n * scale <= 0xffff_ffff_ffff_ffff * 0xff) by (nonlinear_arith)
        requires
            0 <= n <= 0xffff_ffff_ffff_ffff,
            0 <= scale <= 0xff,
    ;
    let q: u128 = (2 * (n as u128 * scale as u128) + d as u128) / (2 * d as u128);
    if q <= u64::MAX as u128 {
        q as u64
    } else {
        u64::MAX
    }
}

/// `n / d` as `X.Y` in `width` bytes.
pub fn f1_wide(n: u64, d: u64, width: u8) -> (r: F1Wide)
    requires
        d > 0,
    ensures
        r == F1Wide(nearest(n * 10, d as int), width),
{
    F1Wide(round_scaled(n, 10, d), width)
}

/// `n / d` as `X.YZ`.
pub fn f2(n: u64, d: u64) -> (r: F2)
    requires
        d > 0,
    ensures
        r == F2(nearest(n * 100, d as int)),
{
    F2(round_scaled(n, 100, d))
}

/// A character, repeated.
pub struct Repeat(pub char, pub usize);

/// The bytes of `c` in UTF-8.
pub open spec fn utf8(c: char) -> Seq<u8> {
    let u = c as int;
    if u < 0x80 {
        seq![u as u8]
    } else if u < 0x800 {
        seq![(0xc0 + u / 64) as u8, (0x80 + u % 64) as u8]
    } else if u < 0x1_0000 {
        seq![(0xe0 + u / 4096) as u8, (0x80 + u / 64 % 64) as u8, (0x80 + u % 64) as u8]
    } else {
        seq![
            (0xf0 + u / 0x4_0000) as u8,
            (0x80 + u / 4096 % 64) as u8,
            (0x80 + u / 64 % 64) as u8,
            (0x80 + u % 64) as u8,
        ]
    }
}

/// The bytes of `c` in UTF-8.
pub fn encode_char(c: char) -> (r: Vec<u8>)
    ensures
        r@ == utf8(c),
{
    let u: u32 = c as u32;
    let mut r: Vec<u8> = Vec::new();
    if u < 0x80 {
        r.push(u as u8);
    } else if u < 0x800 {
        r.push((0xc0 + u / 64) as u8);
        r.push((0x80 + u % 64) as u8);
    } else if u < 0x1_0000 {
        r.push((0xe0 + u / 4096) as u8);
        r.push((0x80 + u / 64 % 64) as u8);
        r.push((0x80 + u % 64) as u8);
    } else {
        r.push((0xf0 + u / 0x4_0000) as u8);
        r.push((0x80 + u / 4096 % 64) as u8);
        r.push((0x80 + u / 64 % 64) as u8);
        r.push((0x80 + u % 64) as u8);
    }
    assert(r@ =~= utf8(c));
    r
}

/// `n` copies of `s`, one behind the other.
pub open spec fn repeated(s: Seq<u8>, n: nat) -> Seq<u8>
    decreases n,
{
    if n == 0 {
        Seq::empty()
    } else {
        repeated(s, (n - 1) as nat) + s
    }
}

impl Put for Repeat {
    open spec fn text(&self) -> Seq<u8> {
        repeated(utf8(self.0), self.1 as nat)
    }

    fn put<W: TinyWriter>(&self, w: &mut W) {
        let unit: Vec<u8> = encode_char(self.0);
        let mut text: Vec<u8> = Vec::new();
        assert(text@ =~= repeated(unit@, 0));
        for i in 0..self.1
            invariant
                text@ == repeated(unit@, i as nat),
        {
            text.extend_from_slice(unit.as_slice());
        }
        w.put_bytes(text.as_slice());
    }
}

/// `c`, `n` times.
pub fn repeat(c: char, n: usize) -> (r: Repeat)
    ensures
        r == Repeat(c, n),
{
    Repeat(c, n)
}

/// Length of the well-formed UTF-8 character at the start of `s`, or 0 if
/// there is none.
pub open spec fn char_len(s: Seq<u8>) -> nat {
    let more = |i: int| i < s.len() && 0x80 <= s[i] <= 0xbf;
    let within = |lo: u8, hi: u8| 1 < s.len() && lo <= s[1] <= hi;
    if s.len() == 0 {
        0
    } else if s[0] <= 0x7f {
        1
    } else if 0xc2 <= s[0] <= 0xdf && more(1) {
        2
    } else if s[0] == 0xe0 && within(0xa0, 0xbf) && more(2) {
        3
    } else if 0xe1 <= s[0] <= 0xef && s[0] != 0xed && more(1) && more(2) {
        3
    } else if s[0] == 0xed && within(0x80, 0x9f) && more(2) {
        3
    } else if s[0] == 0xf0 && within(0x90, 0xbf) && more(2) && more(3) {
        4
    } else if 0xf1 <= s[0] <= 0xf3 && more(1) && more(2) && more(3) {
        4
    } else if s[0] == 0xf4 && within(0x80, 0x8f) && more(2) && more(3) {
        4
    } else {
        0
    }
}

/// `s` with a `?` for every byte that belongs to no well-formed character.
pub open spec fn printable(s: Seq<u8>) -> Seq<u8>
    decreases s.len(),
{
    if s.len() == 0 {
        Seq::empty()
    } else if char_len(s) > 0 {
        s.take(char_len(s) as int) + printable(s.skip(char_len(s) as int))
    } else {
        seq![0x3fu8] + printable(s.skip(1))
    }
}

/// Length of the well-formed UTF-8 character at `at`, or 0 if there is none.
fn char_len_at(s: &[u8], at: usize) -> (r: usize)
    requires
        at < s@.len(),
    ensures
        r == char_len(s@.skip(at as int)),
        at + r <= s@.len(),
{
    let left: usize = s.len() - at;
    let b0: u8 = s[at];
    let b1: u8 = if left > 1 { s[at + 1] } else { 0 };
    let b2: u8 = if left > 2 { s[at + 2] } else { 0 };
    let b3: u8 = if left > 3 { s[at + 3] } else { 0 };
    let m1: bool = 0x80 <= b1 && b1 <= 0xbf;
    let m2: bool = 0x80 <= b2 && b2 <= 0xbf;
    let m3: bool = 0x80 <= b3 && b3 <= 0xbf;
    if b0 <= 0x7f {
        1
    } else if 0xc2 <= b0 && b0 <= 0xdf && m1 {
        2
    } else if b0 == 0xe0 && 0xa0 <= b1 && b1 <= 0xbf && m2 {
        3
    } else if 0xe1 <= b0 && b0 <= 0xef && b0 != 0xed && m1 && m2 {
        3
    } else if b0 == 0xed && 0x80 <= b1 && b1 <= 0x9f && m2 {
        3
    } else if b0 == 0xf0 && 0x90 <= b1 && b1 <= 0xbf && m2 && m3 {
        4
    } else if 0xf1 <= b0 && b0 <= 0xf3 && m1 && m2 && m3 {
        4
    } else if b0 == 0xf4 && 0x80 <= b1 && b1 <= 0x8f && m2 && m3 {
        4
    } else {
        0
    }
}

/// `s` with a `?` for every byte that belongs to no well-formed character.
pub fn to_printable(s: &[u8]) -> (r: Vec<u8>)
    ensures
        r@ == printable(s@),
{
    let mut r: Vec<u8> = Vec::new();
    let mut at: usize = 0;
    assert(s@.skip(0) =~= s@);
    while at < s.len()
        invariant
            at <= s@.len(),
            r@ + printable(s@.skip(at as int)) == printable(s@),
        decreases s@.len() - at,
    {
        let ghost before = r@;
        let ghost rest = s@.skip(at as int);
        let len: usize = char_len_at(s, at);
        if len > 0 {
            r.extend_from_slice(vstd::slice::slice_subrange(s, at, at + len));
            assert(rest.take(len as int) =~= s@.subrange(at as int, at + len));
            assert(rest.skip(len as int) =~= s@.skip(at + len));
            at = at + len;
        } else {
            r.push(0x3f);
            assert(rest.skip(1) =~= s@.skip(at + 1));
            at = at + 1;
            assert(r@ =~= before + seq![0x3fu8]);
        }
        assert(r@ + printable(s@.skip(at as int)) =~= before + printable(rest));
    }
    assert(r@ =~= r@ + printable(s@.skip(at as int)));
    r
}

impl Put for [u8] {
    open spec fn text(&self) -> Seq<u8> {
        printable(self@)
    }

    fn put<W: TinyWriter>(&self, w: &mut W) {
        let text: Vec<u8> = to_printable(self);
        w.put_bytes(text.as_slice());
    }
}

/// Plain ASCII is shown as it is.
pub proof fn law_printable_keeps_ascii(s: Seq<u8>)
    requires
        forall|i: int| 0 <= i < s.len() ==> #[trigger] s[i] <= 0x7f,
    ensures
        printable(s) == s,
    decreases s.len(),
{
    if s.len() > 0 {
        assert(char_len(s) == 1);
        law_printable_keeps_ascii(s.skip(1));
        assert(s.take(1) + s.skip(1) =~= s);
    }
}

/// `b` goes on with a character of UTF-8.
pub open spec fn continues(b: u8) -> bool {
    0x80 <= b <= 0xbf
}

/// How many columns `s` takes: one for each character, so one for each byte
/// that does not go on with one.
pub open spec fn columns(s: Seq<u8>) -> nat
    decreases s.len(),
{
    if s.len() == 0 {
        0
    } else {
        columns(s.drop_last()) + if continues(s.last()) {
            0nat
        } else {
            1
        }
    }
}

/// Texts one behind the other take the columns of both.
pub proof fn law_columns_add_up(a: Seq<u8>, b: Seq<u8>)
    ensures
        columns(a + b) == columns(a) + columns(b),
        columns(a) <= a.len(),
    decreases a.len() + b.len(),
{
    if b.len() == 0 {
        assert(a + b =~= a);
        if a.len() > 0 {
            law_columns_add_up(a.drop_last(), b);
        }
    } else {
        assert((a + b).drop_last() =~= a + b.drop_last());
        law_columns_add_up(a, b.drop_last());
    }
}

/// A plain text takes one column for each byte.
pub(crate) proof fn lemma_plain_columns(s: Seq<u8>)
    requires
        forall|i: int| 0 <= i < s.len() ==> !continues(#[trigger] s[i]),
    ensures
        columns(s) == s.len(),
    decreases s.len(),
{
    if s.len() > 0 {
        lemma_plain_columns(s.drop_last());
    }
}

/// A character takes one column.
proof fn lemma_char_columns(c: char)
    ensures
        columns(vstd::utf8::encode_scalar(c as u32)) == 1,
{
    let u = c as u32;
    vstd::utf8::char_is_scalar(c);
    assert(vstd::utf8::last_continuation_byte(u) & 0xc0 == 0x80
        && vstd::utf8::second_last_continuation_byte(u) & 0xc0 == 0x80
        && vstd::utf8::third_last_continuation_byte(u) & 0xc0 == 0x80) by (bit_vector);
    assert((u <= 0x7f ==> vstd::utf8::leading_byte_width_1(u) < 0x80)
        && vstd::utf8::leading_byte_width_2(u) >= 0xc0 && vstd::utf8::leading_byte_width_3(u) >= 0xc0
        && vstd::utf8::leading_byte_width_4(u) >= 0xc0) by (bit_vector);
    assert forall|b: u8| b & 0xc0 == 0x80 implies #[trigger] continues(b) by {
        assert(b & 0xc0 == 0x80 ==> 0x80 <= b <= 0xbf) by (bit_vector);
    }
    let s = vstd::utf8::encode_scalar(u);
    reveal_with_fuel(columns, 5);
    if s.len() == 1 {
        assert(s.drop_last() =~= Seq::empty());
    } else if s.len() == 2 {
        assert(s.drop_last() =~= seq![s[0]]);
        assert(seq![s[0]].drop_last() =~= Seq::empty());
    } else if s.len() == 3 {
        assert(s.drop_last() =~= seq![s[0], s[1]]);
        assert(seq![s[0], s[1]].drop_last() =~= seq![s[0]]);
        assert(seq![s[0]].drop_last() =~= Seq::empty());
    } else {
        assert(s.drop_last() =~= seq![s[0], s[1], s[2]]);
        assert(seq![s[0], s[1], s[2]].drop_last() =~= seq![s[0], s[1]]);
        assert(seq![s[0], s[1]].drop_last() =~= seq![s[0]]);
        assert(seq![s[0]].drop_last() =~= Seq::empty());
    }
}

/// A string takes one column for each character.
pub(crate) proof fn lemma_string_columns(chars: Seq<char>)
    ensures
        columns(vstd::utf8::encode_utf8(chars)) == chars.len(),
    decreases chars.len(),
{
    if chars.len() > 0 {
        lemma_char_columns(chars[0]);
        lemma_string_columns(chars.drop_first());
        law_columns_add_up(
            vstd::utf8::encode_scalar(chars[0] as u32),
            vstd::utf8::encode_utf8(chars.drop_first()),
        );
    }
}

/// The words, with one `x` between each two.
pub open spec fn glued(words: Seq<Seq<u8>>, x: u8) -> Seq<u8>
    decreases words.len(),
{
    if words.len() == 0 {
        Seq::empty()
    } else if words.len() == 1 {
        words[0]
    } else {
        glued(words.drop_last(), x) + seq![x] + words.last()
    }
}

/// A text without separators is one piece.
proof fn lemma_one_piece(s: Seq<u8>, sep: spec_fn(u8) -> bool)
    requires
        forall|i: int| 0 <= i < s.len() ==> !sep(#[trigger] s[i]),
    ensures
        pieces(s, sep) == seq![s],
    decreases s.len(),
{
    if s.len() == 0 {
        assert(s =~= Seq::empty());
        assert(pieces(s, sep) =~= seq![s]);
    } else {
        let less = s.drop_last();
        assert forall|i: int| 0 <= i < less.len() implies !sep(#[trigger] less[i]) by {
            assert(less[i] == s[i]);
        }
        lemma_one_piece(less, sep);
        assert(!sep(s[s.len() - 1]));
        assert(less.push(s.last()) =~= s);
        assert(pieces(s, sep) =~= seq![s]);
    }
}

/// A separator ends a piece.
pub(crate) proof fn lemma_pieces_split(a: Seq<u8>, x: u8, b: Seq<u8>, sep: spec_fn(u8) -> bool)
    requires
        sep(x),
    ensures
        pieces(a + seq![x] + b, sep) == pieces(a, sep) + pieces(b, sep),
    decreases b.len(),
{
    let all = a + seq![x] + b;
    lemma_pieces_not_empty(b, sep);
    if b.len() == 0 {
        assert(all.drop_last() =~= a);
        assert(all.last() == x);
        assert(pieces(all, sep) =~= pieces(a, sep) + pieces(b, sep));
    } else {
        let less = b.drop_last();
        lemma_pieces_split(a, x, less, sep);
        lemma_pieces_not_empty(less, sep);
        assert(all.drop_last() =~= a + seq![x] + less);
        assert(all.last() == b.last());
        assert(pieces(all, sep) =~= pieces(a, sep) + pieces(b, sep));
    }
}

/// Words that are glued with a separator, and hold none themselves, come apart
/// again as they were.
pub proof fn law_glued_words_come_apart(words: Seq<Seq<u8>>, x: u8, sep: spec_fn(u8) -> bool)
    requires
        words.len() > 0,
        sep(x),
        forall|k: int, i: int| 0 <= k < words.len() && 0 <= i < words[k].len() ==> !sep(#[trigger] words[k][i]),
    ensures
        pieces(glued(words, x), sep) == words,
    decreases words.len(),
{
    let w = words.last();
    assert forall|i: int| 0 <= i < w.len() implies !sep(#[trigger] w[i]) by {
        assert(!sep(words[words.len() - 1][i]));
    }
    lemma_one_piece(w, sep);
    if words.len() == 1 {
        assert(words =~= seq![w]);
    } else {
        let less = words.drop_last();
        assert forall|k: int, i: int| 0 <= k < less.len() && 0 <= i < less[k].len() implies !sep(
            #[trigger] less[k][i],
        ) by {
            assert(!sep(words[k][i]));
        }
        law_glued_words_come_apart(less, x, sep);
        lemma_pieces_split(glued(less, x), x, w, sep);
        assert(words =~= less + seq![w]);
    }
}

/// Words that are not empty all stay.
pub(crate) proof fn lemma_none_empty(words: Seq<Seq<u8>>)
    requires
        forall|k: int| 0 <= k < words.len() ==> (#[trigger] words[k]).len() > 0,
    ensures
        non_empty(words) == words,
    decreases words.len(),
{
    if words.len() > 0 {
        let less = words.drop_last();
        assert forall|k: int| 0 <= k < less.len() implies (#[trigger] less[k]).len() > 0 by {
            assert(words[k].len() > 0);
        }
        lemma_none_empty(less);
        assert(words[words.len() - 1].len() > 0);
        assert(less.push(words.last()) =~= words);
    } else {
        assert(non_empty(words) =~= words);
    }
}

/// Words with a blank between them are the fields of a text, whether or not
/// white space ends it.
pub proof fn law_blanks_part_fields(words: Seq<Seq<u8>>, end: u8)
    requires
        words.len() > 0,
        forall|k: int, i: int|
            0 <= k < words.len() && 0 <= i < words[k].len() ==> {
                let b = #[trigger] words[k][i];
                b != 0x20 && b != 0x09 && b != 0x0a && b != 0x0c && b != 0x0d
            },
        forall|k: int| 0 <= k < words.len() ==> (#[trigger] words[k]).len() > 0,
        end == 0x20 || end == 0x0a || end == 0x09,
    ensures
        fields(glued(words, 0x20)) == words,
        fields(glued(words, 0x20).push(end)) == words,
        fields(Seq::empty()).len() == 0,
{
    let sep = |b: u8| is_space(b);
    law_glued_words_come_apart(words, 0x20, sep);
    lemma_none_empty(words);
    let text = glued(words, 0x20);
    lemma_pieces_split(text, end, Seq::empty(), sep);
    assert(text + seq![end] + Seq::<u8>::empty() =~= text.push(end));
    let none = seq![Seq::<u8>::empty()];
    assert(pieces(Seq::<u8>::empty(), sep) =~= none);
    let all = words + none;
    assert(pieces(text.push(end), sep) == all);
    assert(all.drop_last() =~= words);
    assert(all.last().len() == 0);
    assert(none.drop_last() =~= Seq::<Seq<u8>>::empty());
    assert(non_empty(none) =~= Seq::empty()) by {
        assert(non_empty(Seq::<Seq<u8>>::empty()) =~= Seq::<Seq<u8>>::empty());
    }
}

/// Lines with line feeds between them are the lines of a text, whether or not
/// a line feed ends it.
pub proof fn law_line_feeds_part_lines(words: Seq<Seq<u8>>)
    requires
        words.len() > 0,
        forall|k: int, i: int|
            0 <= k < words.len() && 0 <= i < words[k].len() ==> #[trigger] words[k][i] != 0x0a,
    ensures
        words.last().len() > 0 ==> lines(glued(words, 0x0a)) == words,
        lines(glued(words, 0x0a).push(0x0a)) == words,
{
    let sep = |b: u8| b == 0x0a;
    law_glued_words_come_apart(words, 0x0a, sep);
    let text = glued(words, 0x0a);
    lemma_pieces_split(text, 0x0a, Seq::empty(), sep);
    assert(text + seq![0x0au8] + Seq::<u8>::empty() =~= text.push(0x0a));
    assert(pieces(Seq::<u8>::empty(), sep) =~= seq![Seq::<u8>::empty()]);
    let all = words + seq![Seq::<u8>::empty()];
    assert(pieces(text.push(0x0a), sep) == all);
    assert(all.drop_last() =~= words);
    assert(all.last().len() == 0);
}

/// A padded number is the number, and what fills its field: at least as many
/// bytes as the field is wide, blanks before it, blanks behind it, or zeros
/// before it.
pub proof fn law_padding_fills_the_field(n: u32, width: u8, i: int)
    requires
        0 <= i < width - decimal(n as nat).len(),
    ensures
        PadRight(n, width).text().len() == width,
        PadLeft(n, width).text().len() == width,
        PadZero(n, width).text().len() == width,
        PadRight(n, width).text()[i] == 0x20,
        PadZero(n, width).text()[i] == 0x30,
        PadLeft(n, width).text()[decimal(n as nat).len() + i] == 0x20,
        PadRight(n, width).text().skip(width - decimal(n as nat).len()) == decimal(n as nat),
        PadZero(n, width).text().skip(width - decimal(n as nat).len()) == decimal(n as nat),
        PadLeft(n, width).text().take(decimal(n as nat).len() as int) == decimal(n as nat),
{
    let d = decimal(n as nat);
    assert(PadRight(n, width).text().skip(width - d.len()) =~= d);
    assert(PadZero(n, width).text().skip(width - d.len()) =~= d);
    assert(PadLeft(n, width).text().take(d.len() as int) =~= d);
}

/// A ratio is rounded to the nearest number: no other is nearer.
pub proof fn law_nearest_is_nearest(n: int, d: int)
    requires
        n >= 0,
        d > 0,
        nearest(n, d) < u64::MAX,
    ensures
        2 * (nearest(n, d) * d) - d <= 2 * n < 2 * (nearest(n, d) * d) + d,
{
    let q = (2 * n + d) / (2 * d);
    vstd::arithmetic::div_mod::lemma_fundamental_div_mod(2 * n + d, 2 * d);
    vstd::arithmetic::div_mod::lemma_mod_bound(2 * n + d, 2 * d);
    vstd::arithmetic::div_mod::lemma_div_pos_is_pos(2 * n + d, 2 * d);
    assert((2 * d) * q == 2 * (q * d)) by (nonlinear_arith);
}

/// A character is shown as it is, whatever follows it.
pub proof fn law_printable_keeps_characters(c: char, rest: Seq<u8>)
    ensures
        printable(utf8(c) + rest) == utf8(c) + printable(rest),
        utf8(c).len() == char_len(utf8(c) + rest),
{
    let s = utf8(c) + rest;
    let n = utf8(c).len();
    assert(forall|i: int| 0 <= i < n ==> s[i] == utf8(c)[i]);
    assert(char_len(s) == n);
    assert(s.take(n as int) =~= utf8(c));
    assert(s.skip(n as int) =~= rest);
}

/// A byte that starts no character is shown as a question mark.
pub proof fn law_stray_byte_is_marked(b: u8, rest: Seq<u8>)
    requires
        0x80 <= b < 0xc2 || 0xf5 <= b,
    ensures
        printable(seq![b] + rest) == seq![0x3fu8] + printable(rest),
{
    let s = seq![b] + rest;
    assert(s[0] == b);
    assert(s.skip(1) =~= rest);
}

/// Small letters and their capitals are the same letters, and no other bytes
/// are the same as another.
pub proof fn law_letters_and_capitals(a: Seq<u8>, b: Seq<u8>)
    ensures
        same_letters(a, b) <==> a.len() == b.len() && forall|i: int|
            0 <= i < a.len() ==> (#[trigger] a[i] == b[i] || (0x41 <= a[i] <= 0x5a && b[i] == a[i]
                + 32) || (0x41 <= b[i] <= 0x5a && a[i] == b[i] + 32)),
{
    assert forall|x: u8, y: u8|
        #![trigger lower(x), lower(y)]
        lower(x) == lower(y) <==> (x == y || (0x41 <= x <= 0x5a && y == x + 32) || (0x41 <= y
            <= 0x5a && x == y + 32)) by {}
    if same_letters(a, b) {
        assert forall|i: int| 0 <= i < a.len() implies (#[trigger] a[i] == b[i] || (0x41 <= a[i]
            <= 0x5a && b[i] == a[i] + 32) || (0x41 <= b[i] <= 0x5a && a[i] == b[i] + 32)) by {
            assert(lower(a[i]) == lower(b[i]));
        }
    }
}

} // verus!
