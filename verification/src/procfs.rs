//! The texts and records in which the system tells of processes, load and
//! memory.

use crate::bytes::{
    contents, drop_empty, f1_wide, fields, glued, is_space, law_blanks_part_fields,
    law_glued_words_come_apart, law_line_feeds_part_lines, lemma_none_empty, lemma_pieces_split, lines, low32, nearest, non_empty, pieces,
    space_byte, split_ascii_whitespace, split_lines, split_when, starts, starts_with, to_low32, utf8_of, F1Wide,
    F2,
};
use crate::platform::{all_digits, digits_value};
use crate::twrite::{decimal, Put};
use crate::wire::{long_at, read_long, read_word, word_at};
use vstd::prelude::*;
use vstd::string::StringSliceAdditionalSpecFns;

verus! {

/// The number that `s` writes: not empty, all digits, and within 64 bits.
pub open spec fn number_of(s: Seq<u8>) -> Option<u64> {
    if all_digits(s) && digits_value(s) <= u64::MAX {
        Some(digits_value(s) as u64)
    } else {
        None
    }
}

proof fn lemma_value_grows(s: Seq<u8>, n: int)
    requires
        0 <= n <= s.len(),
        forall|i: int| n <= i < s.len() ==> 0x30 <= #[trigger] s[i],
    ensures
        digits_value(s.take(n)) <= digits_value(s),
    decreases s.len() - n,
{
    if n == s.len() {
        assert(s.take(n) =~= s);
    } else {
        assert(s.take(n + 1).drop_last() =~= s.take(n));
        lemma_value_grows(s, n + 1);
    }
}

/// The number that `s` writes.
pub fn parse_u64_ascii(s: &[u8]) -> (r: Option<u64>)
    ensures
        r == number_of(s@),
{
    if s.len() == 0 {
        return None;
    }
    let mut n: u64 = 0;
    assert(s@.take(0) =~= Seq::empty());
    for i in 0..s.len()
        invariant
            n == digits_value(s@.take(i as int)),
            forall|j: int| 0 <= j < i ==> 0x30 <= #[trigger] s@[j] <= 0x39,
    {
        let b: u8 = s[i];
        if b < 0x30 || b > 0x39 {
            assert(!all_digits(s@));
            return None;
        }
        assert(s@.take(i + 1).drop_last() =~= s@.take(i as int));
        let d: u64 = (b - 0x30) as u64;
        if n > u64::MAX / 10 || n * 10 > u64::MAX - d {
            proof {
                if all_digits(s@) {
                    lemma_value_grows(s@, i + 1);
                }
            }
            return None;
        }
        n = n * 10 + d;
    }
    assert(s@.take(s@.len() as int) =~= s@);
    Some(n)
}

/// Field `i` as a number; 0 if there is no such field, or no number in it.
pub open spec fn field_number(fs: Seq<Seq<u8>>, i: int) -> u64 {
    if 0 <= i < fs.len() {
        match number_of(fs[i]) {
            Some(n) => n,
            None => 0,
        }
    } else {
        0
    }
}

/// Field `i` as a number.
fn nth_number(fs: &Vec<&[u8]>, i: usize) -> (r: u64)
    ensures
        r == field_number(contents(fs@), i as int),
{
    if i < fs.len() {
        assert(contents(fs@)[i as int] == fs@[i as int]@);
        match parse_u64_ascii(fs[i]) {
            Some(n) => n,
            None => 0,
        }
    } else {
        0
    }
}

/// Where the name in a status text starts.
pub open spec fn name_start(stat: Seq<u8>) -> int {
    first_place(stat, 0x28, 0) + 1
}

/// The first place of `b` in `s` from `i` on; 0 if there is none.
pub open spec fn first_place(s: Seq<u8>, b: u8, i: nat) -> int
    decreases s.len() - i,
{
    if i >= s.len() {
        0
    } else if s[i as int] == b {
        i as int
    } else {
        first_place(s, b, i + 1)
    }
}

/// The last place of `b` before `n` in `s`, if there is one.
pub open spec fn last_place(s: Seq<u8>, b: u8, n: nat) -> Option<nat>
    decreases n,
{
    if n == 0 {
        None
    } else if n <= s.len() && s[n - 1] == b {
        Some((n - 1) as nat)
    } else {
        last_place(s, b, (n - 1) as nat)
    }
}

/// The first place from `i` on that is no white space, or the end.
pub open spec fn past_space(s: Seq<u8>, i: nat) -> nat
    decreases s.len() - i,
{
    if i < s.len() && is_space(s[i as int]) {
        past_space(s, i + 1)
    } else {
        i
    }
}

/// A closing bracket, if there is one, comes behind the opening one.
pub open spec fn stat_sound(stat: Seq<u8>) -> bool {
    match last_place(stat, 0x29, stat.len()) {
        None => true,
        Some(close) => name_start(stat) <= close,
    }
}

/// The name and the rest of a status text `number (name) rest`. The name may
/// itself hold brackets. Both are empty without a closing bracket.
pub open spec fn stat_parts(stat: Seq<u8>) -> (Seq<u8>, Seq<u8>) {
    match last_place(stat, 0x29, stat.len()) {
        None => (Seq::empty(), Seq::empty()),
        Some(close) => (
            stat.subrange(name_start(stat), close as int),
            stat.skip(past_space(stat, close + 1) as int),
        ),
    }
}

/// The places of the brackets: behind the first opening one, and the last
/// closing one.
fn brackets(stat: &[u8]) -> (r: Option<(usize, usize)>)
    ensures
        match r {
            None => last_place(stat@, 0x29, stat@.len()) is None,
            Some((open, close)) => last_place(stat@, 0x29, stat@.len()) == Some(close as nat)
                && open == name_start(stat@) && close < stat@.len(),
        },
{
    let n: usize = stat.len();
    let mut close: usize = n;
    while close > 0 && stat[close - 1] != 0x29
        invariant
            close <= n == stat@.len(),
            last_place(stat@, 0x29, n as nat) == last_place(stat@, 0x29, close as nat),
        decreases close,
    {
        close = close - 1;
    }
    if close == 0 {
        return None;
    }
    let mut open: usize = 0;
    while open < n && stat[open] != 0x28
        invariant
            open <= n == stat@.len(),
            first_place(stat@, 0x28, 0) == first_place(stat@, 0x28, open as nat),
        decreases n - open,
    {
        open = open + 1;
    }
    if open == n {
        Some((1, close - 1))
    } else {
        Some((open + 1, close - 1))
    }
}

/// Whether a status text can be taken apart.
pub fn stat_readable(stat: &[u8]) -> (r: bool)
    ensures
        r == stat_sound(stat@),
{
    match brackets(stat) {
        None => true,
        Some((open, close)) => open <= close,
    }
}

/// The name and the rest of a status text.
pub fn parse_stat<'a>(stat: &'a [u8]) -> (r: (&'a [u8], &'a [u8]))
    requires
        stat_sound(stat@),
    ensures
        r.0@ == stat_parts(stat@).0,
        r.1@ == stat_parts(stat@).1,
{
    let n: usize = stat.len();
    match brackets(stat) {
        None => {
            let none: &'a [u8] = vstd::slice::slice_subrange(stat, 0, 0);
            assert(none@ =~= Seq::empty());
            (none, none)
        },
        Some((open, close)) => {
            let mut at: usize = close + 1;
            while at < n && space_byte(stat[at])
                invariant
                    close < at <= n,
                    n == stat@.len(),
                    past_space(stat@, (close + 1) as nat) == past_space(stat@, at as nat),
                decreases n - at,
            {
                at = at + 1;
            }
            (
                vstd::slice::slice_subrange(stat, open, close),
                vstd::slice::slice_subrange(stat, at, n),
            )
        },
    }
}

/// What the system tells of a process.
pub struct Parsed {
    pub ppid: u32,
    pub total_ticks: u64,
    pub age_secs: u32,
    pub rss_bytes: u64,
    pub comm: Vec<u8>,
}

/// What the system tells of a process, as values.
pub struct Told {
    pub ppid: u32,
    pub total_ticks: u64,
    pub age_secs: u32,
    pub rss_bytes: u64,
    pub comm: Seq<u8>,
}

impl Parsed {
    /// What is told.
    pub open spec fn view(&self) -> Told {
        Told {
            ppid: self.ppid,
            total_ticks: self.total_ticks,
            age_secs: self.age_secs,
            rss_bytes: self.rss_bytes,
            comm: self.comm@,
        }
    }
}

/// The clock that the status text is read by.
#[derive(Clone, Copy, Debug, PartialEq, Eq, Structural)]
pub struct Clock {
    /// Bytes of a page.
    pub page_size: u64,
    /// Ticks per second.
    pub ticks: u64,
    /// When the system started, in seconds.
    pub boot: u64,
    /// The time now, in seconds.
    pub now: u64,
}

/// At most the first 15 bytes of a name.
pub open spec fn short_name(s: Seq<u8>) -> Seq<u8> {
    if s.len() <= 15 {
        s
    } else {
        s.take(15)
    }
}

/// What the status text `stat` tells. Behind the name come the parent (field
/// 1), the times in user and system mode (11, 12), the start (19) and the
/// resident pages (21).
pub open spec fn stat_told(stat: Seq<u8>, clock: Clock) -> Told {
    let fs = fields(stat_parts(stat).1);
    let start = clock.boot.wrapping_add((field_number(fs, 19) / clock.ticks) as u64);
    Told {
        ppid: low32(field_number(fs, 1) as int),
        total_ticks: field_number(fs, 11).wrapping_add(field_number(fs, 12)),
        age_secs: low32(
            if clock.now >= start {
                clock.now - start
            } else {
                0
            },
        ),
        rss_bytes: field_number(fs, 21).wrapping_mul(clock.page_size),
        comm: short_name(stat_parts(stat).0),
    }
}

/// Reads the status text of a process.
pub fn read_stat(stat: &[u8], clock: Clock) -> (r: Parsed)
    requires
        stat_sound(stat@),
        clock.ticks > 0,
    ensures
        r@ == stat_told(stat@, clock),
{
    let (name, rest) = parse_stat(stat);
    let fs: Vec<&[u8]> = split_ascii_whitespace(rest);
    let start: u64 = clock.boot.wrapping_add(nth_number(&fs, 19) / clock.ticks);
    let n: usize = if name.len() <= 15 { name.len() } else { 15 };
    let mut comm: Vec<u8> = Vec::new();
    comm.extend_from_slice(vstd::slice::slice_subrange(name, 0, n));
    assert(comm@ =~= short_name(name@));
    Parsed {
        ppid: to_low32(nth_number(&fs, 1)),
        total_ticks: nth_number(&fs, 11).wrapping_add(nth_number(&fs, 12)),
        age_secs: to_low32(clock.now.saturating_sub(start)),
        rss_bytes: nth_number(&fs, 21).wrapping_mul(clock.page_size),
        comm,
    }
}

/// Arguments that are looked at.
pub const MAX_ARGS: usize = 64;

/// A command line is read up to about this many bytes.
pub const CMDLINE_MAX: usize = 32768;

/// Whether `b` ends an argument.
fn zero_byte(b: u8) -> (r: bool)
    ensures
        r == (b == 0),
{
    b == 0
}

/// The texts between zero bytes.
pub open spec fn zero_ended(s: Seq<u8>) -> Seq<Seq<u8>> {
    non_empty(pieces(s, |b: u8| b == 0))
}

/// The first `n` of `a`, or all.
pub open spec fn at_most<A>(a: Seq<A>, n: int) -> Seq<A> {
    if a.len() <= n {
        a
    } else {
        a.take(n)
    }
}

/// The arguments in a command line. If it was too long to be read whole, the
/// last argument is dropped, for it may be cut.
pub open spec fn arguments(cmdline: Seq<u8>) -> Seq<Seq<u8>> {
    let all = at_most(zero_ended(cmdline), MAX_ARGS as int);
    if cmdline.len() >= CMDLINE_MAX && cmdline.last() != 0 && all.len() > 0 {
        all.drop_last()
    } else {
        all
    }
}

/// The texts between zero bytes.
fn split_zero<'a>(s: &'a [u8]) -> (r: Vec<&'a [u8]>)
    ensures
        contents(r@) == zero_ended(s@),
{
    let ghost is_sep = |b: u8| b == 0;
    let parts: Vec<&'a [u8]> = split_when(s, zero_byte, Ghost(is_sep));
    drop_empty(&parts)
}

/// The arguments in a command line.
pub fn split_cmdline<'a>(cmdline: &'a [u8]) -> (r: Vec<&'a [u8]>)
    ensures
        contents(r@) == arguments(cmdline@),
        r@.len() <= MAX_ARGS,
{
    let mut args: Vec<&'a [u8]> = split_zero(cmdline);
    let ghost all = args@;
    args.truncate(MAX_ARGS);
    assert(contents(args@) =~= at_most(zero_ended(cmdline@), MAX_ARGS as int));
    let n: usize = cmdline.len();
    if n >= CMDLINE_MAX && cmdline[n - 1] != 0 {
        let ghost before = args@;
        let _ = args.pop();
        assert(before.len() > 0 ==> contents(args@) =~= contents(before).drop_last());
    }
    args
}

/// Whether more of a command line is to be read, when the last read got `n`
/// of the `asked` bytes and `have` bytes are there in all.
pub fn reads_on(n: usize, asked: usize, have: usize) -> (r: bool)
    ensures
        r == (n >= asked && have < CMDLINE_MAX),
{
    n >= asked && have < CMDLINE_MAX
}

/// Largest argument block of a process.
pub const MACOS_ARG_MAX: usize = 0x4_0000;

/// How much room to make for an argument block that is said to have `size`
/// bytes; none if that cannot be.
pub fn macos_args_blob_size(size: Option<usize>) -> (r: usize)
    ensures
        r == (match size {
            Some(n) => if 4 <= n <= MACOS_ARG_MAX {
                n
            } else {
                0
            },
            None => 0,
        }),
{
    match size {
        Some(n) => {
            if 4 <= n && n <= MACOS_ARG_MAX {
                n
            } else {
                0
            }
        },
        None => 0,
    }
}

/// The first place from `i` on with a zero byte (`zero`), or without one; the
/// end if there is none.
pub open spec fn next_byte(s: Seq<u8>, i: nat, zero: bool) -> nat
    decreases s.len() - i,
{
    if i >= s.len() {
        i
    } else if (s[i as int] == 0) == zero {
        i
    } else {
        next_byte(s, i + 1, zero)
    }
}

/// How many arguments a block says it holds; none if the number is negative.
pub open spec fn block_count(s: Seq<u8>) -> int {
    if word_at(s, 0) < 0x8000_0000 {
        word_at(s, 0)
    } else {
        0
    }
}

/// The arguments in an argument block: a count, the path of the program, zero
/// bytes, and the arguments, each with a zero byte behind it.
pub open spec fn block_arguments(s: Seq<u8>) -> Seq<Seq<u8>> {
    if s.len() < 4 {
        Seq::empty()
    } else {
        let start = next_byte(s, next_byte(s, 4, true), false);
        let count = block_count(s);
        at_most(zero_ended(s.skip(start as int)), if count <= 64 { count } else { 64 })
    }
}

/// The first place from `i` on with a zero byte, or without one.
fn seek_byte(s: &[u8], i: usize, zero: bool) -> (r: usize)
    requires
        i <= s@.len(),
    ensures
        r == next_byte(s@, i as nat, zero),
        r <= s@.len(),
{
    let n: usize = s.len();
    let mut at: usize = i;
    while at < n && (s[at] == 0) != zero
        invariant
            at <= n == s@.len(),
            next_byte(s@, i as nat, zero) == next_byte(s@, at as nat, zero),
        decreases n - at,
    {
        at = at + 1;
    }
    at
}

/// The arguments in an argument block.
pub fn macos_proc_args_into<'a>(blob: &'a [u8]) -> (r: Vec<&'a [u8]>)
    ensures
        contents(r@) == block_arguments(blob@),
        r@.len() <= MAX_ARGS,
{
    if blob.len() < 4 {
        let none: Vec<&'a [u8]> = Vec::new();
        assert(contents(none@) =~= Seq::empty());
        return none;
    }
    let word: u32 = read_word(blob, 0);
    let argc: usize = if word < 0x8000_0000 { word as usize } else { 0 };
    let want: usize = if argc <= MAX_ARGS { argc } else { MAX_ARGS };
    let path_end: usize = seek_byte(blob, 4, true);
    let start: usize = seek_byte(blob, path_end, false);
    let mut args: Vec<&'a [u8]> = split_zero(
        vstd::slice::slice_subrange(blob, start, blob.len()),
    );
    assert(blob@.subrange(start as int, blob@.len() as int) =~= blob@.skip(start as int));
    args.truncate(want);
    assert(contents(args@) =~= block_arguments(blob@));
    args
}

/// Age and parent in a process record of which `ret` bytes were filled.
pub fn macos_proc_age_ppid(record: &[u8], ret: i32, wall_now: u64) -> (r: (u32, u32))
    requires
        record@.len() == 232,
    ensures
        r == (if ret < 128 {
            (0u32, 0u32)
        } else {
            (
                low32(
                    if wall_now >= long_at(record@, 120) {
                        wall_now - long_at(record@, 120)
                    } else {
                        0
                    },
                ),
                word_at(record@, 16) as u32,
            )
        }),
{
    if ret < 128 {
        return (0, 0);
    }
    let ppid: u32 = read_word(record, 16);
    let start: u64 = read_long(record, 120);
    (to_low32(wall_now.saturating_sub(start)), ppid)
}

/// When the system started, by the text of its uptime: the whole seconds in
/// the first field. 0 if it could not be read.
pub open spec fn boot_of(uptime: Option<Seq<u8>>, now: u64) -> u64 {
    match uptime {
        None => 0,
        Some(text) => {
            let up = if fields(text).len() > 0 {
                match number_of(pieces(fields(text)[0], |b: u8| b == 0x2e)[0]) {
                    Some(n) => n,
                    None => 0,
                }
            } else {
                0
            };
            if now >= up {
                (now - up) as u64
            } else {
                0
            }
        },
    }
}

/// Whether `b` is a decimal point.
fn point_byte(b: u8) -> (r: bool)
    ensures
        r == (b == 0x2e),
{
    b == 0x2e
}

proof fn lemma_pieces_some(s: Seq<u8>, sep: spec_fn(u8) -> bool)
    ensures
        pieces(s, sep).len() > 0,
    decreases s.len(),
{
    if s.len() > 0 {
        lemma_pieces_some(s.drop_last(), sep);
    }
}

/// When the system started, in seconds.
pub fn boot_time(uptime: Option<&[u8]>, now: u64) -> (r: u64)
    ensures
        r == boot_of(
            match uptime {
                Some(t) => Some(t@),
                None => None,
            },
            now,
        ),
{
    match uptime {
        None => 0,
        Some(text) => {
            let fs: Vec<&[u8]> = split_ascii_whitespace(text);
            let mut up: u64 = 0;
            if fs.len() > 0 {
                assert(contents(fs@)[0] == fs@[0]@);
                let ghost is_sep = |b: u8| b == 0x2e;
                let parts: Vec<&[u8]> = split_when(fs[0], point_byte, Ghost(is_sep));
                proof {
                    lemma_pieces_some(fs@[0]@, is_sep);
                    assert(contents(parts@).len() == parts@.len());
                    assert(contents(parts@)[0] == parts@[0]@);
                }
                match parse_u64_ascii(parts[0]) {
                    Some(n) => {
                        up = n;
                    },
                    None => {},
                }
            }
            now.saturating_sub(up)
        },
    }
}

/// The load averages, as the system writes them.
pub struct LoadAvg {
    /// The three numbers; empty if they could not be read.
    pub text: Vec<u8>,
    /// The first of them, in hundredths.
    pub hundredths: u64,
}

/// The place of blank number `n` in `s`, if there is one.
pub open spec fn blank_place(s: Seq<u8>, n: nat, i: nat) -> Option<nat>
    decreases s.len() - i,
{
    if i >= s.len() || n == 0 {
        None
    } else if s[i as int] == 0x20 {
        if n == 1 {
            Some(i)
        } else {
            blank_place(s, (n - 1) as nat, i + 1)
        }
    } else {
        blank_place(s, n, i + 1)
    }
}

/// The number that the digits of `s` up to its first blank write, modulo
/// 2^64; what is no digit is passed over.
pub open spec fn loose_number(s: Seq<u8>, so_far: u64) -> u64
    decreases s.len(),
{
    if s.len() == 0 || s[0] == 0x20 {
        so_far
    } else if 0x30 <= s[0] <= 0x39 {
        loose_number(s.skip(1), so_far.wrapping_mul(10).wrapping_add((s[0] - 0x30) as u64))
    } else {
        loose_number(s.skip(1), so_far)
    }
}

/// `l` is what `text` tells: its first three fields, if they take no more
/// than 24 bytes.
pub open spec fn load_told(l: LoadAvg, text: Option<Seq<u8>>) -> bool {
    match text {
        Some(t) => match blank_place(t, 3, 0) {
            Some(end) if 0 < end <= 24 => {
                &&& l.text@ == t.take(end as int)
                &&& l.hundredths == loose_number(t.take(end as int), 0)
            },
            _ => l.text@.len() == 0 && l.hundredths == 0,
        },
        None => l.text@.len() == 0 && l.hundredths == 0,
    }
}

/// No load is known.
fn no_load() -> (r: LoadAvg)
    ensures
        r.text@.len() == 0,
        r.hundredths == 0,
{
    LoadAvg { text: Vec::new(), hundredths: 0 }
}

/// Reads the load averages.
pub fn load_avg(text: Option<&[u8]>) -> (r: LoadAvg)
    ensures
        load_told(
            r,
            match text {
                Some(t) => Some(t@),
                None => None,
            },
        ),
{
    let t: &[u8] = match text {
        None => {
            return no_load();
        },
        Some(t) => t,
    };
    let n: usize = t.len();
    let mut blanks: u32 = 3;
    let mut end: usize = 0;
    while end < n && (blanks > 1 || t[end] != 0x20)
        invariant
            end <= n == t@.len(),
            1 <= blanks <= 3,
            blank_place(t@, 3, 0) == blank_place(t@, blanks as nat, end as nat),
        decreases n - end,
    {
        if t[end] == 0x20 {
            blanks = blanks - 1;
        }
        end = end + 1;
    }
    if end == n || end == 0 || end > 24 {
        return no_load();
    }
    let head: &[u8] = vstd::slice::slice_subrange(t, 0, end);
    assert(head@ =~= t@.take(end as int));
    let mut value: u64 = 0;
    let mut i: usize = 0;
    assert(head@.skip(0) =~= head@);
    while i < end && head[i] != 0x20
        invariant
            i <= end == head@.len(),
            loose_number(head@, 0) == loose_number(head@.skip(i as int), value),
        decreases end - i,
    {
        let b: u8 = head[i];
        assert(head@.skip(i as int)[0] == b);
        assert(head@.skip(i as int).skip(1) =~= head@.skip(i + 1));
        if 0x30 <= b && b <= 0x39 {
            value = value.wrapping_mul(10).wrapping_add((b - 0x30) as u64);
        }
        i = i + 1;
    }
    let mut text: Vec<u8> = Vec::new();
    text.extend_from_slice(head);
    assert(text@ =~= head@);
    LoadAvg { text, hundredths: value }
}

impl LoadAvg {
    /// The text of the status line.
    pub fn status_text(&self) -> (r: Vec<u8>)
        ensures
            r@ == (if self.text@.len() == 0 {
                seq![0x3fu8]
            } else {
                self.text@
            }),
    {
        let mut r: Vec<u8> = Vec::new();
        if self.text.len() == 0 {
            r.push(0x3f);
            assert(r@ =~= seq![0x3fu8]);
        } else {
            r.extend_from_slice(self.text.as_slice());
            assert(r@ =~= self.text@);
        }
        r
    }
}

/// The three load averages, told in hundredths; the text is empty if they are
/// not known.
pub fn load_from_hundredths(loads: Option<(u64, u64, u64)>) -> (r: LoadAvg)
    ensures
        match loads {
            Some(l) => r.hundredths == l.0 && r.text@ == F2(l.0).text() + utf8_of(" ") + F2(
                l.1,
            ).text() + utf8_of(" ") + F2(l.2).text(),
            None => r.hundredths == 0 && r.text@.len() == 0,
        },
{
    match loads {
        None => no_load(),
        Some(l) => {
            let mut text: Vec<u8> = Vec::new();
            F2(l.0).put(&mut text);
            text.extend_from_slice(" ".as_bytes());
            F2(l.1).put(&mut text);
            text.extend_from_slice(" ".as_bytes());
            F2(l.2).put(&mut text);
            assert(text@ =~= F2(l.0).text() + utf8_of(" ") + F2(l.1).text() + utf8_of(" ") + F2(
                l.2,
            ).text());
            LoadAvg { text, hundredths: l.0 }
        },
    }
}

/// Main memory.
#[derive(Clone, Copy, Debug, PartialEq, Eq, Structural)]
pub struct MemInfo {
    pub used_bytes: u64,
    pub total_bytes: u64,
}

/// The number in the last of `ls` that starts with `key`; 0 if there is none.
pub open spec fn keyed_number(ls: Seq<Seq<u8>>, key: &str) -> u64
    decreases ls.len(),
{
    if ls.len() == 0 {
        0
    } else if starts(ls.last(), utf8_of(key)) {
        field_number(fields(ls.last()), 1)
    } else {
        keyed_number(ls.drop_last(), key)
    }
}

/// What the memory text tells, in KiB: the total, less what is available. A
/// line for the total is not taken for one of what is available.
pub open spec fn memory_told(text: Option<Seq<u8>>) -> MemInfo {
    match text {
        None => MemInfo { used_bytes: 0, total_bytes: 0 },
        Some(t) => {
            let total = keyed_number(lines(t), "MemTotal:");
            let avail = keyed_number(lines(t), "MemAvailable:");
            MemInfo {
                used_bytes: (if total >= avail {
                    (total - avail) as u64
                } else {
                    0u64
                }).wrapping_mul(1024),
                total_bytes: total.wrapping_mul(1024),
            }
        },
    }
}

/// No line starts with both keys.
proof fn lemma_keys_differ(s: Seq<u8>)
    ensures
        !(starts(s, utf8_of("MemTotal:")) && starts(s, utf8_of("MemAvailable:"))),
{
    broadcast use vstd::string::is_ascii_spec_bytes;

    reveal_strlit("MemTotal:");
    reveal_strlit("MemAvailable:");
    assert(vstd::string::is_ascii("MemTotal:") && vstd::string::is_ascii("MemAvailable:"));
    let a = utf8_of("MemTotal:");
    let b = utf8_of("MemAvailable:");
    assert(a.len() == 9 && b.len() == 13);
    assert(a[3] == 0x54 && b[3] == 0x41);
    if starts(s, a) && starts(s, b) {
        assert(s.take(9)[3] == s[3] && s.take(13)[3] == s[3]);
    }
}

/// Reads the memory text.
pub fn mem_info(text: Option<&[u8]>) -> (r: MemInfo)
    ensures
        r == memory_told(
            match text {
                Some(t) => Some(t@),
                None => None,
            },
        ),
{
    let t: &[u8] = match text {
        None => {
            return MemInfo { used_bytes: 0, total_bytes: 0 };
        },
        Some(t) => t,
    };
    let ls: Vec<&[u8]> = split_lines(t);
    let ghost all = contents(ls@);
    let n: usize = ls.len();
    let mut total: u64 = 0;
    let mut avail: u64 = 0;
    assert(all.take(0) =~= Seq::empty());
    for i in 0..n
        invariant
            n == ls@.len(),
            all == contents(ls@),
            total == keyed_number(all.take(i as int), "MemTotal:"),
            avail == keyed_number(all.take(i as int), "MemAvailable:"),
    {
        assert(all.take(i + 1).drop_last() =~= all.take(i as int));
        assert(all.take(i + 1).last() == ls@[i as int]@);
        proof {
            lemma_keys_differ(ls@[i as int]@);
        }
        if starts_with(ls[i], "MemTotal:".as_bytes()) {
            let fs: Vec<&[u8]> = split_ascii_whitespace(ls[i]);
            total = nth_number(&fs, 1);
        } else if starts_with(ls[i], "MemAvailable:".as_bytes()) {
            let fs: Vec<&[u8]> = split_ascii_whitespace(ls[i]);
            avail = nth_number(&fs, 1);
        }
    }
    assert(all.take(n as int) =~= all);
    MemInfo {
        used_bytes: total.saturating_sub(avail).wrapping_mul(1024),
        total_bytes: total.wrapping_mul(1024),
    }
}

/// Main memory by the host's statistics: the total, less the free and the
/// inactive pages.
pub fn mem_info_from_pages(total: u64, page: u32, vm: &Option<Vec<u32>>) -> (r: MemInfo)
    requires
        vm matches Some(v) ==> v@.len() >= 3,
    ensures
        r == (if total == 0 {
            MemInfo { used_bytes: 0, total_bytes: 0 }
        } else {
            let avail = match vm {
                Some(v) => ((v@[0] + v@[2]) as u64).wrapping_mul(page as u64),
                None => 0,
            };
            MemInfo {
                used_bytes: if total >= avail {
                    (total - avail) as u64
                } else {
                    0
                },
                total_bytes: total,
            }
        }),
{
    if total == 0 {
        return MemInfo { used_bytes: 0, total_bytes: 0 };
    }
    let avail: u64 = match vm {
        Some(v) => {
            let pages: u64 = v[0] as u64 + v[2] as u64;
            pages.wrapping_mul(page as u64)
        },
        None => 0,
    };
    MemInfo { used_bytes: total.saturating_sub(avail), total_bytes: total }
}

/// `bytes` in tenths of a GiB, rounded to the nearest.
pub open spec fn gib_tenths_of_bytes(bytes: u64) -> u64 {
    nearest(bytes * 10, 0x4000_0000)
}

impl MemInfo {
    /// The text of the status line.
    pub open spec fn status(&self) -> Seq<u8> {
        if self.total_bytes == 0 {
            seq![0x3fu8]
        } else {
            F1Wide(gib_tenths_of_bytes(self.used_bytes), 0).text() + utf8_of("G / ") + F1Wide(
                gib_tenths_of_bytes(self.total_bytes),
                0,
            ).text() + utf8_of("G used")
        }
    }

    /// The text of the status line.
    pub fn status_text(&self) -> (r: Vec<u8>)
        ensures
            r@ == self.status(),
    {
        let mut r: Vec<u8> = Vec::new();
        if self.total_bytes == 0 {
            r.push(0x3f);
            assert(r@ =~= seq![0x3fu8]);
            return r;
        }
        f1_wide(self.used_bytes, 0x4000_0000, 0).put(&mut r);
        r.extend_from_slice("G / ".as_bytes());
        f1_wide(self.total_bytes, 0x4000_0000, 0).put(&mut r);
        r.extend_from_slice("G used".as_bytes());
        assert(r@ =~= self.status());
        r
    }
}

/// A status text with brackets in the name is taken apart at the last closing
/// one: the rest holds no closing bracket.
pub proof fn law_stat_splits_at_last_bracket(stat: Seq<u8>, i: int)
    requires
        last_place(stat, 0x29, stat.len()) is Some,
        (last_place(stat, 0x29, stat.len())->0) < i < stat.len(),
    ensures
        stat[i] != 0x29,
{
    lemma_last_place(stat, 0x29, stat.len(), i);
}

proof fn lemma_last_place(s: Seq<u8>, b: u8, n: nat, i: int)
    requires
        n <= s.len(),
        last_place(s, b, n) is Some,
        (last_place(s, b, n)->0) < i < n,
    ensures
        s[i] != b,
    decreases n,
{
    if i < n - 1 {
        lemma_last_place(s, b, (n - 1) as nat, i);
    }
}

/// A number that was written is read back.
pub proof fn law_written_number_is_read(n: u64)
    ensures
        number_of(decimal(n as nat)) == Some(n),
{
    lemma_decimal_value(n as nat);
}

pub(crate) proof fn lemma_decimal_value(n: nat)
    ensures
        all_digits(decimal(n)),
        digits_value(decimal(n)) == n,
    decreases n,
{
    if n < 10 {
        let d = decimal(n);
        assert(d.drop_last() =~= Seq::empty());
        assert(digits_value(Seq::<u8>::empty()) == 0);
    } else {
        lemma_decimal_value(n / 10);
        let d = decimal(n);
        assert(d.drop_last() =~= decimal(n / 10));
        assert forall|i: int| 0 <= i < d.len() implies 0x30 <= #[trigger] d[i] <= 0x39 by {
            if i < d.len() - 1 {
                assert(d[i] == decimal(n / 10)[i]);
            }
        }
    }
}

/// Where a byte stands last.
proof fn lemma_last_place_is(s: Seq<u8>, b: u8, n: nat, i: int)
    requires
        0 <= i < n <= s.len(),
        s[i] == b,
        forall|j: int| i < j < n ==> (#[trigger] s[j]) != b,
    ensures
        last_place(s, b, n) == Some(i as nat),
    decreases n,
{
    if i < n - 1 {
        lemma_last_place_is(s, b, (n - 1) as nat, i);
    }
}

/// Where a byte stands first.
proof fn lemma_first_place_is(s: Seq<u8>, b: u8, from: nat, i: int)
    requires
        from <= i < s.len(),
        s[i] == b,
        forall|j: int| from <= j < i ==> (#[trigger] s[j]) != b,
    ensures
        first_place(s, b, from) == i,
    decreases i - from,
{
    if from < i {
        lemma_first_place_is(s, b, from + 1, i);
    }
}

/// A status text that is written as `number (name) words` is taken apart into
/// the name and the words, whatever the name holds.
pub proof fn law_status_text_comes_apart(number: Seq<u8>, name: Seq<u8>, words: Seq<Seq<u8>>)
    requires
        !number.contains(0x28),
        words.len() > 0,
        forall|k: int| 0 <= k < words.len() ==> (#[trigger] words[k]).len() > 0,
        forall|k: int, i: int|
            0 <= k < words.len() && 0 <= i < words[k].len() ==> {
                let b = #[trigger] words[k][i];
                b != 0x20 && b != 0x09 && b != 0x0a && b != 0x0c && b != 0x0d && b != 0x29
            },
    ensures
        ({
            let stat = number + seq![0x28u8] + name + seq![0x29u8, 0x20u8] + glued(words, 0x20);
            &&& stat_sound(stat)
            &&& stat_parts(stat).0 == name
            &&& fields(stat_parts(stat).1) == words
        }),
{
    let rest = glued(words, 0x20);
    let stat = number + seq![0x28u8] + name + seq![0x29u8, 0x20u8] + rest;
    let open = number.len() as int;
    let close = open + 1 + name.len();
    lemma_glued_lacks(words, 0x29);
    lemma_glued_starts(words);
    assert forall|j: int| close < j < stat.len() implies (#[trigger] stat[j]) != 0x29 by {
        if j > close + 1 {
            assert(stat[j] == rest[j - close - 2]);
            assert(!rest.contains(0x29));
        }
    }
    lemma_last_place_is(stat, 0x29, stat.len(), close);
    assert forall|j: int| 0 <= j < open implies (#[trigger] stat[j]) != 0x28 by {
        assert(stat[j] == number[j]);
    }
    lemma_first_place_is(stat, 0x28, 0, open);
    assert(stat.subrange(open + 1, close) =~= name);
    assert(stat[close + 2] == rest[0]);
    assert(past_space(stat, (close + 1) as nat) == close + 2) by {
        reveal_with_fuel(past_space, 3);
    }
    assert(stat.skip(close + 2) =~= rest);
    law_blanks_part_fields(words, 0x20);
}

/// A glued text holds no byte that neither its words nor the glue hold.
proof fn lemma_glued_lacks(words: Seq<Seq<u8>>, b: u8)
    requires
        b != 0x20,
        forall|k: int, i: int|
            0 <= k < words.len() && 0 <= i < words[k].len() ==> #[trigger] words[k][i] != b,
    ensures
        !glued(words, 0x20).contains(b),
    decreases words.len(),
{
    if words.len() > 0 {
        let w = words.last();
        assert forall|i: int| 0 <= i < w.len() implies (#[trigger] w[i]) != b by {
            assert(words[words.len() - 1][i] != b);
        }
        if words.len() > 1 {
            let less = words.drop_last();
            assert forall|k: int, i: int| 0 <= k < less.len() && 0 <= i < less[k].len() implies
                #[trigger] less[k][i] != b by {
                assert(words[k][i] != b);
            }
            lemma_glued_lacks(less, b);
            let head = glued(less, 0x20);
            let all = glued(words, 0x20);
            assert forall|i: int| 0 <= i < all.len() implies (#[trigger] all[i]) != b by {
                if i < head.len() {
                    assert(all[i] == head[i]);
                } else if i > head.len() {
                    assert(all[i] == w[i - head.len() - 1]);
                }
            }
        }
    }
}

/// A glued text starts with its first word.
proof fn lemma_glued_starts(words: Seq<Seq<u8>>)
    requires
        words.len() > 0,
        words[0].len() > 0,
    ensures
        glued(words, 0x20).len() > 0,
        glued(words, 0x20)[0] == words[0][0],
    decreases words.len(),
{
    if words.len() > 1 {
        lemma_glued_starts(words.drop_last());
    }
}

/// What a status text says is told as it is: the parent, the sum of both times,
/// the age by when it started, and its memory by its pages.
pub proof fn law_status_text_is_told(
    number: Seq<u8>,
    name: Seq<u8>,
    words: Seq<Seq<u8>>,
    clock: Clock,
    ppid: u32,
    user: u64,
    system: u64,
    start: u64,
    pages: u64,
)
    requires
        !number.contains(0x28),
        words.len() > 21,
        forall|k: int| 0 <= k < words.len() ==> (#[trigger] words[k]).len() > 0,
        forall|k: int, i: int|
            0 <= k < words.len() && 0 <= i < words[k].len() ==> {
                let b = #[trigger] words[k][i];
                b != 0x20 && b != 0x09 && b != 0x0a && b != 0x0c && b != 0x0d && b != 0x29
            },
        clock.ticks > 0,
        words[1] == decimal(ppid as nat),
        words[11] == decimal(user as nat),
        words[12] == decimal(system as nat),
        words[19] == decimal(start as nat),
        words[21] == decimal(pages as nat),
        user + system <= u64::MAX,
        pages * clock.page_size <= u64::MAX,
        clock.boot + start as int / clock.ticks as int <= clock.now,
        clock.now - (clock.boot + start as int / clock.ticks as int) <= u32::MAX,
    ensures
        ({
            let t = stat_told(
                number + seq![0x28u8] + name + seq![0x29u8, 0x20u8] + glued(words, 0x20),
                clock,
            );
            &&& t.ppid == ppid
            &&& t.total_ticks == user + system
            &&& t.age_secs == clock.now - (clock.boot + start as int / clock.ticks as int)
            &&& t.rss_bytes == pages * clock.page_size
            &&& name.len() <= 15 ==> t.comm == name
            &&& name.len() > 15 ==> t.comm == name.take(15)
        }),
{
    law_status_text_comes_apart(number, name, words);
    law_written_number_is_read(ppid as u64);
    law_written_number_is_read(user);
    law_written_number_is_read(system);
    law_written_number_is_read(start);
    law_written_number_is_read(pages);
    vstd::arithmetic::div_mod::lemma_div_pos_is_pos(start as int, clock.ticks as int);
}

/// The arguments with a zero byte behind each.
pub open spec fn zero_glued(args: Seq<Seq<u8>>) -> Seq<u8> {
    glued(args, 0).push(0)
}

proof fn lemma_zero_glued(args: Seq<Seq<u8>>)
    requires
        args.len() > 0,
        forall|k: int| 0 <= k < args.len() ==> (#[trigger] args[k]).len() > 0,
        forall|k: int, i: int|
            0 <= k < args.len() && 0 <= i < args[k].len() ==> #[trigger] args[k][i] != 0,
    ensures
        zero_ended(zero_glued(args)) == args,
{
    let sep = |b: u8| b == 0;
    law_glued_words_come_apart(args, 0, sep);
    lemma_none_empty(args);
    let text = glued(args, 0);
    lemma_pieces_split(text, 0, Seq::empty(), sep);
    assert(text + seq![0u8] + Seq::<u8>::empty() =~= text.push(0));
    assert(pieces(Seq::<u8>::empty(), sep) =~= seq![Seq::<u8>::empty()]);
    let all = args + seq![Seq::<u8>::empty()];
    assert(pieces(text.push(0), sep) == all);
    assert(all.drop_last() =~= args);
    assert(all.last().len() == 0);
}

/// Up to 64 arguments that are written with a zero byte behind each are read
/// back as they were; of more, the first 64.
pub proof fn law_arguments_are_read_back(args: Seq<Seq<u8>>)
    requires
        args.len() > 0,
        forall|k: int| 0 <= k < args.len() ==> (#[trigger] args[k]).len() > 0,
        forall|k: int, i: int|
            0 <= k < args.len() && 0 <= i < args[k].len() ==> #[trigger] args[k][i] != 0,
    ensures
        args.len() <= 64 ==> arguments(zero_glued(args)) == args,
        args.len() > 64 ==> arguments(zero_glued(args)) == args.take(64),
{
    lemma_zero_glued(args);
}

/// An argument block is a count, the program's path, zero bytes and the
/// arguments: as many are read back as were counted, up to 64.
pub proof fn law_argument_block_is_read_back(
    path: Seq<u8>,
    padding: nat,
    args: Seq<Seq<u8>>,
    count: u32,
)
    requires
        args.len() > 0,
        padding > 0,
        count <= args.len(),
        count < 0x8000_0000,
        forall|i: int| 0 <= i < path.len() ==> (#[trigger] path[i]) != 0,
        forall|k: int| 0 <= k < args.len() ==> (#[trigger] args[k]).len() > 0,
        forall|k: int, i: int|
            0 <= k < args.len() && 0 <= i < args[k].len() ==> #[trigger] args[k][i] != 0,
    ensures
        block_arguments(
            crate::wire::le32(count) + path + Seq::new(padding, |i: int| 0u8) + zero_glued(args),
        ) == args.take(
            if count <= 64 {
                count as int
            } else {
                64
            },
        ),
{
    let head = crate::wire::le32(count);
    let gap = Seq::new(padding, |i: int| 0u8);
    let tail = zero_glued(args);
    let s = head + path + gap + tail;
    crate::wire::law_word_round_trip(Seq::empty(), count, path + gap + tail);
    assert(Seq::<u8>::empty() + head + (path + gap + tail) =~= s);
    let end = 4 + path.len();
    assert forall|i: int| 4 <= i < end implies (#[trigger] s[i]) != 0 by {
        assert(s[i] == path[i - 4]);
    }
    lemma_next_byte(s, 4, true, end as nat);
    let start = end + padding;
    lemma_zero_starts(args);
    assert(s[start as int] == tail[0]);
    lemma_next_byte(s, end as nat, false, start as nat);
    assert(s.skip(start as int) =~= tail);
    lemma_zero_glued(args);
    let want = if count <= 64 {
        count as int
    } else {
        64
    };
    assert(at_most(args, want) =~= args.take(want));
}

proof fn lemma_zero_starts(args: Seq<Seq<u8>>)
    requires
        args.len() > 0,
        args[0].len() > 0,
        args[0][0] != 0,
    ensures
        zero_glued(args)[0] != 0,
        glued(args, 0).len() > 0,
    decreases args.len(),
{
    if args.len() > 1 {
        lemma_zero_starts(args.drop_last());
        assert(zero_glued(args)[0] == zero_glued(args.drop_last())[0]);
    }
}

proof fn lemma_next_byte(s: Seq<u8>, i: nat, zero: bool, to: nat)
    requires
        i <= to < s.len(),
        forall|j: int| i <= j < to ==> ((#[trigger] s[j]) == 0) != zero,
        (s[to as int] == 0) == zero,
    ensures
        next_byte(s, i, zero) == to,
    decreases to - i,
{
    if i < to {
        lemma_next_byte(s, i + 1, zero, to);
    }
}

/// Only the last line that starts with a key counts.
proof fn lemma_keyed(ls: Seq<Seq<u8>>, key: &str, i: int)
    requires
        0 <= i < ls.len(),
        starts(ls[i], utf8_of(key)),
        forall|j: int| i < j < ls.len() ==> !starts(#[trigger] ls[j], utf8_of(key)),
    ensures
        keyed_number(ls, key) == field_number(fields(ls[i]), 1),
    decreases ls.len(),
{
    if i < ls.len() - 1 {
        let less = ls.drop_last();
        assert(!starts(ls[ls.len() - 1], utf8_of(key)));
        assert forall|j: int| i < j < less.len() implies !starts(#[trigger] less[j], utf8_of(key)) by {
            assert(less[j] == ls[j]);
        }
        lemma_keyed(less, key, i);
    }
}

/// Memory is told by the lines `MemTotal:` and `MemAvailable:` of its text,
/// wherever they stand among the others: the total, and what is not available,
/// both in KiB.
pub proof fn law_memory_is_told_by_its_lines(
    ls: Seq<Seq<u8>>,
    i: int,
    j: int,
    total: u64,
    avail: u64,
)
    requires
        forall|k: int, m: int|
            0 <= k < ls.len() && 0 <= m < ls[k].len() ==> #[trigger] ls[k][m] != 0x0a,
        0 <= i < ls.len(),
        0 <= j < ls.len(),
        ls[i] == utf8_of("MemTotal:") + seq![0x20u8] + decimal(total as nat) + seq![0x20u8] + utf8_of(
            "kB",
        ),
        ls[j] == utf8_of("MemAvailable:") + seq![0x20u8] + decimal(avail as nat) + seq![0x20u8]
            + utf8_of("kB"),
        forall|k: int|
            0 <= k < ls.len() && k != i ==> !starts(#[trigger] ls[k], utf8_of("MemTotal:")),
        forall|k: int|
            0 <= k < ls.len() && k != j ==> !starts(#[trigger] ls[k], utf8_of("MemAvailable:")),
        avail <= total,
        total * 1024 <= u64::MAX,
    ensures
        ({
            let m = memory_told(Some(glued(ls, 0x0a).push(0x0a)));
            m.total_bytes == total * 1024 && m.used_bytes == (total - avail) * 1024
        }),
{
    law_line_feeds_part_lines(ls);
    lemma_keyed_line("MemTotal:", total);
    lemma_keyed_line("MemAvailable:", avail);
    lemma_keyed(ls, "MemTotal:", i);
    lemma_keyed(ls, "MemAvailable:", j);
}

/// The number in a line `key number kB`.
proof fn lemma_keyed_line(key: &str, n: u64)
    requires
        key == "MemTotal:" || key == "MemAvailable:",
    ensures
        ({
            let line = utf8_of(key) + seq![0x20u8] + decimal(n as nat) + seq![0x20u8] + utf8_of("kB");
            starts(line, utf8_of(key)) && field_number(fields(line), 1) == n
        }),
{
    broadcast use vstd::string::is_ascii_spec_bytes;

    reveal_strlit("MemTotal:");
    reveal_strlit("MemAvailable:");
    reveal_strlit("kB");
    assert(vstd::string::is_ascii("MemTotal:") && vstd::string::is_ascii("MemAvailable:")
        && vstd::string::is_ascii("kB"));
    let k = utf8_of(key);
    let d = decimal(n as nat);
    let u = utf8_of("kB");
    let words = seq![k, d, u];
    let line = k + seq![0x20u8] + d + seq![0x20u8] + u;
    lemma_decimal_value(n as nat);
    law_written_number_is_read(n);
    assert(line.take(k.len() as int) =~= k);
    assert(glued(words, 0x20) =~= line) by {
        let two = words.drop_last();
        assert(two =~= seq![k, d]);
        assert(two.drop_last() =~= seq![k]);
        assert(glued(seq![k], 0x20) =~= k);
        assert(glued(seq![k, d], 0x20) =~= k + seq![0x20u8] + d);
    }
    assert forall|a: int, b: int| 0 <= a < words.len() && 0 <= b < words[a].len() implies ({
        let x = #[trigger] words[a][b];
        x != 0x20 && x != 0x09 && x != 0x0a && x != 0x0c && x != 0x0d
    }) by {
        if a == 1 {
            assert(words[a][b] == d[b]);
            assert(0x30 <= d[b] <= 0x39);
        }
    }
    assert(d.len() > 0);
    law_blanks_part_fields(words, 0x20);
}

/// The system started when its uptime says: the whole seconds before the point.
pub proof fn law_uptime_counts_back(up: u64, frac: Seq<u8>, idle: Seq<u8>, now: u64)
    requires
        up <= now,
        forall|i: int| 0 <= i < frac.len() ==> 0x30 <= (#[trigger] frac[i]) <= 0x39,
        idle.len() > 0,
        forall|i: int| 0 <= i < idle.len() ==> (#[trigger] idle[i]) > 0x20,
    ensures
        boot_of(Some(decimal(up as nat) + seq![0x2eu8] + frac + seq![0x20u8] + idle), now) == now - up,
        boot_of(None, now) == 0,
{
    let d = decimal(up as nat);
    let first = d + seq![0x2eu8] + frac;
    let words = seq![first, idle];
    lemma_decimal_value(up as nat);
    law_written_number_is_read(up);
    assert(glued(words, 0x20) =~= first + seq![0x20u8] + idle) by {
        assert(words.drop_last() =~= seq![first]);
        assert(glued(seq![first], 0x20) =~= first);
    }
    assert forall|a: int, b: int| 0 <= a < words.len() && 0 <= b < words[a].len() implies ({
        let x = #[trigger] words[a][b];
        x != 0x20 && x != 0x09 && x != 0x0a && x != 0x0c && x != 0x0d
    }) by {
        if a == 0 {
            if b < d.len() {
                assert(words[a][b] == d[b]);
                assert(0x30 <= d[b] <= 0x39);
            } else if b > d.len() {
                assert(words[a][b] == frac[b - d.len() - 1]);
            }
        } else {
            assert(words[a][b] == idle[b]);
        }
    }
    law_blanks_part_fields(words, 0x20);
    let sep = |b: u8| b == 0x2e;
    let parts = seq![d, frac];
    assert(glued(parts, 0x2e) =~= first) by {
        assert(parts.drop_last() =~= seq![d]);
        assert(glued(seq![d], 0x2e) =~= d);
    }
    assert forall|a: int, b: int| 0 <= a < parts.len() && 0 <= b < parts[a].len() implies !sep(
        #[trigger] parts[a][b],
    ) by {
        if a == 0 {
            assert(parts[a][b] == d[b]);
            assert(0x30 <= d[b] <= 0x39);
        } else {
            assert(parts[a][b] == frac[b]);
        }
    }
    law_glued_words_come_apart(parts, 0x2e, sep);
}

/// A number in digits, read over, is the number; a point is passed over.
proof fn lemma_loose(s: Seq<u8>, rest: Seq<u8>, so_far: u64)
    requires
        forall|i: int| 0 <= i < s.len() ==> 0x30 <= (#[trigger] s[i]) <= 0x39,
        so_far * ten_to(s.len()) + digits_value(s) <= u64::MAX,
    ensures
        loose_number(s + rest, so_far) == loose_number(
            rest,
            (so_far * ten_to(s.len()) + digits_value(s)) as u64,
        ),
    decreases s.len(),
{
    if s.len() == 0 {
        assert(s + rest =~= rest);
        assert(s =~= Seq::empty());
        assert(so_far * 1 == so_far) by (nonlinear_arith);
    } else {
        let less = s.drop_last();
        let x = s.last();
        let n = ten_to(less.len());
        assert(digits_value(s) == digits_value(less) * 10 + (x - 0x30));
        assert(so_far * ten_to(s.len()) == (so_far * n) * 10) by (nonlinear_arith)
            requires
                ten_to(s.len()) == 10 * n,
        ;
        assert forall|i: int| 0 <= i < less.len() implies 0x30 <= (#[trigger] less[i]) <= 0x39 by {
            assert(less[i] == s[i]);
        }
        assert(0x30 <= s[s.len() - 1] <= 0x39);
        assert(so_far * n >= 0) by (nonlinear_arith)
            requires
                n >= 0,
        ;
        lemma_loose(less, seq![x] + rest, so_far);
        assert(less + (seq![x] + rest) =~= s + rest);
        let mid = (so_far * n + digits_value(less)) as u64;
        assert((seq![x] + rest).skip(1) =~= rest);
        assert(mid * 10 + (x - 0x30) == so_far * ten_to(s.len()) + digits_value(s));
        assert((seq![x] + rest)[0] == x);
        assert(loose_number(seq![x] + rest, mid) == loose_number(
            rest,
            mid.wrapping_mul(10).wrapping_add((x - 0x30) as u64),
        ));
        assert(mid.wrapping_mul(10) == mid * 10);
        assert((mid * 10) as u64 + (x - 0x30) <= u64::MAX);
    }
}

/// Ten to the power of `n`.
pub open spec fn ten_to(n: nat) -> nat
    decreases n,
{
    if n == 0 {
        1
    } else {
        10 * ten_to((n - 1) as nat)
    }
}

/// The load is shown as the first three words of its text, and the first of
/// them is counted in hundredths.
pub proof fn law_load_is_the_first_words(
    l: LoadAvg,
    whole: u32,
    tenth: u8,
    hundredth: u8,
    b: Seq<u8>,
    c: Seq<u8>,
    rest: Seq<u8>,
)
    requires
        0x30 <= tenth <= 0x39,
        0x30 <= hundredth <= 0x39,
        !b.contains(0x20),
        !c.contains(0x20),
        decimal(whole as nat).len() + 3 + b.len() + c.len() + 2 <= 24,
        load_told(
            l,
            Some(
                decimal(whole as nat) + seq![0x2eu8, tenth, hundredth] + seq![0x20u8] + b
                    + seq![0x20u8] + c + seq![0x20u8] + rest,
            ),
        ),
    ensures
        l.text@ == decimal(whole as nat) + seq![0x2eu8, tenth, hundredth] + seq![0x20u8] + b
            + seq![0x20u8] + c,
        l.hundredths == whole * 100 + (tenth - 0x30) * 10 + (hundredth - 0x30),
{
    let d = decimal(whole as nat);
    let a = d + seq![0x2eu8, tenth, hundredth];
    let t = a + seq![0x20u8] + b + seq![0x20u8] + c + seq![0x20u8] + rest;
    let p1 = a.len() as int;
    let p2 = p1 + 1 + b.len();
    let p3 = p2 + 1 + c.len();
    lemma_decimal_value(whole as nat);
    assert forall|i: int| 0 <= i < p1 implies (#[trigger] t[i]) != 0x20 by {
        assert(t[i] == a[i]);
        if i < d.len() {
            assert(a[i] == d[i]);
            assert(0x30 <= d[i] <= 0x39);
        }
    }
    assert forall|i: int| p1 < i < p2 implies (#[trigger] t[i]) != 0x20 by {
        assert(t[i] == b[i - p1 - 1]);
    }
    assert forall|i: int| p2 < i < p3 implies (#[trigger] t[i]) != 0x20 by {
        assert(t[i] == c[i - p2 - 1]);
    }
    lemma_blank(t, 3, 0, p1);
    lemma_blank(t, 2, (p1 + 1) as nat, p2);
    lemma_blank(t, 1, (p2 + 1) as nat, p3);
    assert(blank_place(t, 3, 0) == Some(p3 as nat));
    let head = t.take(p3);
    assert(head =~= a + seq![0x20u8] + b + seq![0x20u8] + c);
    let tail = seq![0x20u8] + b + seq![0x20u8] + c;
    let after = seq![0x2eu8, tenth, hundredth] + tail;
    assert(head =~= d + after);
    lemma_loose(d, after, 0);
    let last = seq![tenth, hundredth];
    assert(after.skip(1) =~= last + tail);
    assert(digits_value(last) == (tenth - 0x30) * 10 + (hundredth - 0x30)) by {
        assert(last.drop_last() =~= seq![tenth]);
        assert(seq![tenth].drop_last() =~= Seq::empty());
        reveal_with_fuel(digits_value, 3);
    }
    assert(ten_to(2) == 100) by {
        reveal_with_fuel(ten_to, 3);
    }
    lemma_loose(last, tail, whole as u64);
}

proof fn lemma_blank(s: Seq<u8>, n: nat, i: nat, to: int)
    requires
        n > 0,
        i <= to < s.len(),
        s[to] == 0x20,
        forall|j: int| i <= j < to ==> (#[trigger] s[j]) != 0x20,
    ensures
        blank_place(s, n, i) == (if n == 1 {
            Some(to as nat)
        } else {
            blank_place(s, (n - 1) as nat, (to + 1) as nat)
        }),
    decreases to - i,
{
    if i < to {
        lemma_blank(s, n, i + 1, to);
    }
}

/// The status shows the used memory and all of it, each to the nearest tenth of
/// a GiB.
pub proof fn law_memory_status_is_nearest(mem: MemInfo) -> (r: (u64, u64))
    requires
        mem.total_bytes > 0,
    ensures
        mem.status() == F1Wide(r.0, 0).text() + utf8_of("G / ") + F1Wide(r.1, 0).text() + utf8_of(
            "G used",
        ),
        r.0 * 0x4000_0000 - 0x2000_0000 <= mem.used_bytes * 10 < r.0 * 0x4000_0000 + 0x2000_0000,
        r.1 * 0x4000_0000 - 0x2000_0000 <= mem.total_bytes * 10 < r.1 * 0x4000_0000 + 0x2000_0000,
{
    crate::bytes::law_nearest_is_nearest(mem.used_bytes * 10, 0x4000_0000);
    crate::bytes::law_nearest_is_nearest(mem.total_bytes * 10, 0x4000_0000);
    (gib_tenths_of_bytes(mem.used_bytes), gib_tenths_of_bytes(mem.total_bytes))
}

} // verus!
