//! Cells of the display: ages, sizes, clipped commands, and colours.

use crate::bytes::{
    law_printable_keeps_ascii, pad_right, pad_zero, printable, to_printable, utf8_of, PadRight, PadZero,
};
use crate::gpu::GpuUsage;
use crate::platform::Platform;
use crate::procinfo::ONE_PERCENT;
use crate::twrite::{decimal, decimal_digits, Put, TinyWriter};
use vstd::prelude::*;
use vstd::string::StringSliceAdditionalSpecFns;

verus! {

/// Ends a colour.
pub const FG_CLOSE: &'static str = "\x1b[0m";

/// Clears the rest of the row and ends it.
pub const EOL: &'static str = "\x1b[K\n";

/// Both.
pub const FG_CLOSE_EOL: &'static str = "\x1b[0m\x1b[K\n";

/// Puts the cursor into the upper left corner.
pub const CURSOR_HOME: &'static str = "\x1b[H";

/// Clears everything behind the cursor.
pub const CLEAR_TO_END: &'static str = "\x1b[J";

/// Starts bold type.
pub const BOLD: &'static str = "\x1b[1m";

impl Put for str {
    open spec fn text(&self) -> Seq<u8> {
        utf8_of(self)
    }

    fn put<W: TinyWriter>(&self, w: &mut W) {
        w.put_bytes(self.as_bytes());
    }
}

impl<'a, P: Put + ?Sized> Put for &'a P {
    open spec fn text(&self) -> Seq<u8> {
        (**self).text()
    }

    fn put<W: TinyWriter>(&self, w: &mut W) {
        (**self).put(w);
    }
}

impl Put for Vec<u8> {
    open spec fn text(&self) -> Seq<u8> {
        self@
    }

    fn put<W: TinyWriter>(&self, w: &mut W) {
        w.put_bytes(self.as_slice());
    }
}

/// Starts a text colour.
pub struct FgOpen(pub u8, pub u8, pub u8);

impl Put for FgOpen {
    open spec fn text(&self) -> Seq<u8> {
        utf8_of("\x1b[38;2;") + decimal(self.0 as nat) + seq![0x3bu8] + decimal(self.1 as nat)
            + seq![0x3bu8] + decimal(self.2 as nat) + seq![0x6du8]
    }

    fn put<W: TinyWriter>(&self, w: &mut W) {
        let mut t: Vec<u8> = Vec::new();
        t.extend_from_slice("\x1b[38;2;".as_bytes());
        let mut r: Vec<u8> = decimal_digits(self.0 as u64);
        t.append(&mut r);
        t.push(0x3b);
        let mut g: Vec<u8> = decimal_digits(self.1 as u64);
        t.append(&mut g);
        t.push(0x3b);
        let mut b: Vec<u8> = decimal_digits(self.2 as u64);
        t.append(&mut b);
        t.push(0x6d);
        assert(t@ =~= self.text());
        w.put_bytes(t.as_slice());
    }
}

/// A coloured text.
pub struct Fg<P>(pub u8, pub u8, pub u8, pub P);

impl<P: Put> Put for Fg<P> {
    open spec fn text(&self) -> Seq<u8> {
        FgOpen(self.0, self.1, self.2).text() + self.3.text() + utf8_of(FG_CLOSE)
    }

    fn put<W: TinyWriter>(&self, w: &mut W) {
        let mut t: Vec<u8> = Vec::new();
        FgOpen(self.0, self.1, self.2).put(&mut t);
        self.3.put(&mut t);
        t.extend_from_slice(FG_CLOSE.as_bytes());
        assert(t@ =~= self.text());
        w.put_bytes(t.as_slice());
    }
}

/// `content` in a colour.
pub fn fg<P: Put>(r: u8, g: u8, b: u8, content: P) -> (x: Fg<P>)
    ensures
        x == Fg(r, g, b, content),
{
    Fg(r, g, b, content)
}

/// Writes a row.
pub fn line<P: Put>(out: &mut Vec<u8>, content: P)
    ensures
        final(out)@ == old(out)@ + content.text() + utf8_of(EOL),
{
    content.put(out);
    out.extend_from_slice(EOL.as_bytes());
}

/// An age, in the two largest units that it fills.
pub struct FormatAge(pub u32);

/// The first age that days of two digits cannot tell: a hundred days.
pub const AGE_LIMIT: u32 = 8_640_000;

impl Put for FormatAge {
    open spec fn text(&self) -> Seq<u8> {
        let secs = self.0;
        if secs >= AGE_LIMIT {
            utf8_of("99d23h")
        } else if secs >= 86400 {
            PadRight((secs / 86400) as u32, 2).text() + utf8_of("d") + PadZero(
                (secs % 86400 / 3600) as u32,
                2,
            ).text() + utf8_of("h")
        } else if secs >= 3600 {
            PadRight((secs / 3600) as u32, 2).text() + utf8_of("h") + PadZero(
                (secs % 3600 / 60) as u32,
                2,
            ).text() + utf8_of("m")
        } else if secs >= 60 {
            PadRight((secs / 60) as u32, 2).text() + utf8_of("m") + PadZero(
                (secs % 60) as u32,
                2,
            ).text() + utf8_of("s")
        } else {
            PadRight(secs, 5).text() + utf8_of("s")
        }
    }

    fn put<W: TinyWriter>(&self, w: &mut W) {
        let secs: u32 = self.0;
        let mut t: Vec<u8> = Vec::new();
        if secs >= AGE_LIMIT {
            t.extend_from_slice("99d23h".as_bytes());
        } else if secs >= 86400 {
            pad_right(secs / 86400, 2).put(&mut t);
            t.extend_from_slice("d".as_bytes());
            pad_zero(secs % 86400 / 3600, 2).put(&mut t);
            t.extend_from_slice("h".as_bytes());
        } else if secs >= 3600 {
            pad_right(secs / 3600, 2).put(&mut t);
            t.extend_from_slice("h".as_bytes());
            pad_zero(secs % 3600 / 60, 2).put(&mut t);
            t.extend_from_slice("m".as_bytes());
        } else if secs >= 60 {
            pad_right(secs / 60, 2).put(&mut t);
            t.extend_from_slice("m".as_bytes());
            pad_zero(secs % 60, 2).put(&mut t);
            t.extend_from_slice("s".as_bytes());
        } else {
            pad_right(secs, 5).put(&mut t);
            t.extend_from_slice("s".as_bytes());
        }
        assert(t@ =~= self.text());
        w.put_bytes(t.as_slice());
    }
}

/// An age of `secs` seconds. From a hundred days on it stays at `99d23h`.
pub fn format_age(secs: u32) -> (r: FormatAge)
    ensures
        r == FormatAge(secs),
{
    FormatAge(secs)
}

/// An amount of memory in KiB.
pub struct FormatMem(pub u32);

/// `kib` KiB in tenths of a GiB, rounded to the nearest.
pub open spec fn gib_tenths_of_kib(kib: u32) -> int {
    (kib * 10 + 0x8_0000) / 0x10_0000
}

impl Put for FormatMem {
    open spec fn text(&self) -> Seq<u8> {
        let kib = self.0;
        if kib >= 0x10_0000 {
            let tenths = gib_tenths_of_kib(kib);
            if tenths >= 10_000 {
                PadRight((tenths / 10) as u32, 5).text() + utf8_of("G")
            } else {
                PadRight((tenths / 10) as u32, 3).text() + utf8_of(".") + decimal(
                    (tenths % 10) as nat,
                ) + utf8_of("G")
            }
        } else if kib >= 1024 {
            PadRight((kib / 1024) as u32, 5).text() + utf8_of("M")
        } else {
            PadRight(kib, 5).text() + utf8_of("K")
        }
    }

    fn put<W: TinyWriter>(&self, w: &mut W) {
        let kib: u32 = self.0;
        let mut t: Vec<u8> = Vec::new();
        if kib >= 0x10_0000 {
            let tenths: u64 = (kib as u64 * 10 + 0x8_0000) / 0x10_0000;
            if tenths >= 10_000 {
                pad_right((tenths / 10) as u32, 5).put(&mut t);
            } else {
                pad_right((tenths / 10) as u32, 3).put(&mut t);
                t.extend_from_slice(".".as_bytes());
                let mut d: Vec<u8> = decimal_digits(tenths % 10);
                t.append(&mut d);
            }
            t.extend_from_slice("G".as_bytes());
        } else if kib >= 1024 {
            pad_right(kib / 1024, 5).put(&mut t);
            t.extend_from_slice("M".as_bytes());
        } else {
            pad_right(kib, 5).put(&mut t);
            t.extend_from_slice("K".as_bytes());
        }
        assert(t@ =~= self.text());
        w.put_bytes(t.as_slice());
    }
}

/// `kib` KiB of memory. From 1000 GiB on the tenths are left out.
pub fn format_mem(kib: u32) -> (r: FormatMem)
    ensures
        r == FormatMem(kib),
{
    FormatMem(kib)
}

/// A number below `10^digits` has at most `digits` digits.
pub(crate) proof fn lemma_short_decimal(n: nat)
    ensures
        decimal(n).len() >= 1,
        n < 10 ==> decimal(n).len() == 1,
        n < 100 ==> decimal(n).len() <= 2,
        n < 1000 ==> decimal(n).len() <= 3,
        n < 10000 ==> decimal(n).len() <= 4,
        n < 100000 ==> decimal(n).len() <= 5,
        n < 1000000 ==> decimal(n).len() <= 6,
        n < 10000000 ==> decimal(n).len() <= 7,
{
    reveal_with_fuel(decimal, 8);
}

/// The bytes of the literals.
proof fn lemma_units()
    ensures
        utf8_of("d").len() == 1,
        utf8_of("h") == seq![0x68u8],
        utf8_of("m") == seq![0x6du8],
        utf8_of("s") == seq![0x73u8],
        utf8_of(".").len() == 1,
        utf8_of("G") == seq![0x47u8],
        utf8_of("M") == seq![0x4du8],
        utf8_of("K") == seq![0x4bu8],
        utf8_of("...").len() == 3,
        utf8_of("99d23h").len() == 6,
        utf8_of("99d23h").last() == 0x68,
{
    broadcast use vstd::string::is_ascii_spec_bytes;

    reveal_strlit("d");
    reveal_strlit("h");
    reveal_strlit("m");
    reveal_strlit("s");
    reveal_strlit(".");
    reveal_strlit("G");
    reveal_strlit("M");
    reveal_strlit("K");
    reveal_strlit("...");
    reveal_strlit("99d23h");
    assert(vstd::string::is_ascii("d") && vstd::string::is_ascii("h") && vstd::string::is_ascii("m")
        && vstd::string::is_ascii("s"));
    assert(vstd::string::is_ascii(".") && vstd::string::is_ascii("G") && vstd::string::is_ascii("M")
        && vstd::string::is_ascii("K"));
    assert(vstd::string::is_ascii("...") && vstd::string::is_ascii("99d23h"));
}

/// An age takes exactly six bytes, and the last of them is the letter of a unit.
pub proof fn law_age_is_six_wide(secs: u32)
    ensures
        FormatAge(secs).text().len() == 6,
        FormatAge(secs).text().last() == 0x68 || FormatAge(secs).text().last() == 0x6d || FormatAge(
            secs,
        ).text().last() == 0x73,
{
    lemma_units();
    lemma_short_decimal((secs / 86400) as nat);
    lemma_short_decimal((secs % 86400 / 3600) as nat);
    lemma_short_decimal((secs / 3600) as nat);
    lemma_short_decimal((secs % 3600 / 60) as nat);
    lemma_short_decimal((secs / 60) as nat);
    lemma_short_decimal((secs % 60) as nat);
    lemma_short_decimal(secs as nat);
}

/// An amount of memory takes exactly six bytes, and the last of them is the
/// letter of a unit.
pub proof fn law_mem_is_six_wide(kib: u32)
    ensures
        FormatMem(kib).text().len() == 6,
        FormatMem(kib).text().last() == 0x4b || FormatMem(kib).text().last() == 0x4d || FormatMem(
            kib,
        ).text().last() == 0x47,
{
    lemma_units();
    let tenths = gib_tenths_of_kib(kib);
    lemma_short_decimal((tenths / 10) as nat);
    lemma_short_decimal((tenths % 10) as nat);
    lemma_short_decimal((kib / 1024) as nat);
    lemma_short_decimal(kib as nat);
}

/// A command in at most `max` bytes.
pub struct Truncate<'a> {
    pub s: &'a [u8],
    pub max: usize,
}

/// The last place at or before `n` where a character of `s` starts.
pub open spec fn char_start(s: Seq<u8>, n: nat) -> nat
    decreases n,
{
    if n > 0 && n < s.len() && 0x80 <= s[n as int] <= 0xbf {
        char_start(s, (n - 1) as nat)
    } else {
        n
    }
}

/// Where `s` is cut to fit `max` bytes.
pub open spec fn cut_at(s: Seq<u8>, max: nat) -> nat {
    char_start(s, if max > 3 { (max - 3) as nat } else { max })
}

/// `s` in at most `max` columns.
pub open spec fn truncated(s: Seq<u8>, max: usize) -> Seq<u8> {
    if s.len() <= max {
        printable(s)
    } else {
        printable(s.take(cut_at(s, max as nat) as int)) + if max > 3 {
            utf8_of("...")
        } else {
            Seq::empty()
        }
    }
}

impl<'a> Put for Truncate<'a> {
    open spec fn text(&self) -> Seq<u8> {
        truncated(self.s@, self.max)
    }

    fn put<W: TinyWriter>(&self, w: &mut W) {
        if self.s.len() <= self.max {
            let t: Vec<u8> = to_printable(self.s);
            w.put_bytes(t.as_slice());
            return;
        }
        let target: usize = if self.max > 3 { self.max - 3 } else { self.max };
        let mut n: usize = target;
        while n > 0 && 0x80 <= self.s[n] && self.s[n] <= 0xbf
            invariant
                n <= target < self.s@.len(),
                char_start(self.s@, target as nat) == char_start(self.s@, n as nat),
            decreases n,
        {
            n = n - 1;
        }
        let mut t: Vec<u8> = to_printable(vstd::slice::slice_subrange(self.s, 0, n));
        assert(self.s@.subrange(0, n as int) =~= self.s@.take(n as int));
        if self.max > 3 {
            t.extend_from_slice("...".as_bytes());
        }
        assert(t@ =~= self.text());
        w.put_bytes(t.as_slice());
    }
}

/// `s` in at most `max` bytes.
pub fn truncate(s: &[u8], max: usize) -> (r: Truncate<'_>)
    ensures
        r == (Truncate { s, max }),
{
    Truncate { s, max }
}

proof fn lemma_printable_len(s: Seq<u8>)
    ensures
        printable(s).len() <= s.len(),
    decreases s.len(),
{
    if s.len() > 0 {
        let n = crate::bytes::char_len(s);
        if n > 0 {
            lemma_printable_len(s.skip(n as int));
        } else {
            lemma_printable_len(s.skip(1));
        }
    }
}

proof fn lemma_char_start(s: Seq<u8>, n: nat)
    ensures
        char_start(s, n) <= n,
        char_start(s, n) == 0 || char_start(s, n) >= s.len() || !(0x80 <= s[char_start(
            s,
            n,
        ) as int] <= 0xbf),
    decreases n,
{
    if n > 0 && n < s.len() && 0x80 <= s[n as int] <= 0xbf {
        lemma_char_start(s, (n - 1) as nat);
    }
}

pub(crate) proof fn lemma_truncated_len(s: Seq<u8>, max: usize)
    ensures
        truncated(s, max).len() <= max,
{
    lemma_units();
    lemma_printable_len(s);
    let most = max as nat;
    let target = if most > 3 { (most - 3) as nat } else { most };
    lemma_char_start(s, target);
    if s.len() > max {
        lemma_printable_len(s.take(cut_at(s, most) as int));
    }
}

/// A clipped command takes no more than its room.
pub proof fn law_truncate_fits(t: Truncate<'_>)
    ensures
        t.text().len() <= t.max,
{
    lemma_truncated_len(t.s@, t.max);
}

/// A command is never cut inside a character.
pub proof fn law_truncate_keeps_characters(t: Truncate<'_>)
    requires
        t.s@.len() > t.max,
    ensures
        ({
            let cut = cut_at(t.s@, t.max as nat);
            cut == 0 || !(0x80 <= t.s@[cut as int] <= 0xbf)
        }),
{
    let max = t.max as nat;
    lemma_char_start(t.s@, if max > 3 { (max - 3) as nat } else { max });
}

/// `n` parts of `d` on a scale to 255, rounded down.
pub open spec fn intensity(n: int, d: int) -> u8 {
    if d <= 0 {
        0
    } else if n >= d {
        255
    } else {
        (n * 255 / d) as u8
    }
}

/// `n` parts of `d` on a scale to 255.
pub fn to_intensity(n: u64, d: u64) -> (r: u8)
    ensures
        r == intensity(n as int, d as int),
{
    if d == 0 {
        return 0;
    }
    if n >= d {
        return 255;
    }
    let v: u128 = n as u128 * 255 / d as u128;
    assert(n * 255 / d as int <= 255) by (nonlinear_arith)
        requires
            n < d,
            d > 0,
    ;
    v as u8
}

/// The colour of two shares, each a number of parts and the whole: red for the
/// first, blue for the second.
pub fn frac_color(red: (u64, u64), blue: (u64, u64)) -> (r: (u8, u8, u8))
    ensures
        r == (
            intensity(red.0 as int, red.1 as int),
            0u8,
            intensity(blue.0 as int, blue.1 as int),
        ),
{
    (to_intensity(red.0, red.1), 0, to_intensity(blue.0, blue.1))
}

/// The larger of two intensities.
pub open spec fn louder(a: u8, b: u8) -> u8 {
    if a >= b {
        a
    } else {
        b
    }
}

/// Red of a row: full at 4 GiB of memory, or where the process has all of the
/// graphics memory.
pub open spec fn redness(
    platform: Platform,
    rss_kib: u32,
    gpu: Option<GpuUsage>,
    gpu_total_mib: u64,
) -> u8 {
    let own = intensity(rss_kib as int, 0x40_0000);
    match (platform, gpu) {
        (Platform::Linux, Some(g)) => louder(own, intensity(g.mem_mib as int, gpu_total_mib as int)),
        _ => own,
    }
}

/// Blue of a row: full at 100 percent of a core or of the graphics processor.
pub open spec fn blueness(cpu: u64, gpu: Option<GpuUsage>) -> u8 {
    let own = intensity(cpu as int / ONE_PERCENT as int, 100);
    match gpu {
        Some(g) => louder(own, intensity(g.sm_pct as int, 100)),
        None => own,
    }
}

/// The colour of a row.
pub fn row_color(
    platform: Platform,
    cpu: u64,
    rss_kib: u32,
    gpu: &Option<GpuUsage>,
    gpu_total_mib: u64,
) -> (r: (u8, u8, u8))
    ensures
        r == (redness(platform, rss_kib, *gpu, gpu_total_mib), 0u8, blueness(cpu, *gpu)),
{
    let mut red: u8 = to_intensity(rss_kib as u64, 0x40_0000);
    let mut blue: u8 = to_intensity(cpu / ONE_PERCENT, 100);
    match gpu {
        Some(g) => {
            match platform {
                Platform::Linux => {
                    let mem: u8 = to_intensity(g.mem_mib as u64, gpu_total_mib);
                    if mem > red {
                        red = mem;
                    }
                },
                Platform::Mac => {},
            }
            let sm: u8 = to_intensity(g.sm_pct as u64, 100);
            if sm > blue {
                blue = sm;
            }
        },
        None => {},
    }
    (red, 0, blue)
}

/// An age says how old: in seconds below a minute, and else in the two largest
/// units that it fills, rounded down. From a hundred days on it stays at the
/// last that can be told.
pub proof fn law_age_says_how_old(secs: u32) -> (r: (u32, u32))
    ensures
        secs < 60 ==> FormatAge(secs).text() == PadRight(secs, 5).text() + utf8_of("s"),
        60 <= secs < 3600 ==> FormatAge(secs).text() == PadRight(r.0, 2).text() + utf8_of("m")
            + PadZero(r.1, 2).text() + utf8_of("s") && r.1 < 60 && r.0 * 60 + r.1 == secs,
        3600 <= secs < 86400 ==> FormatAge(secs).text() == PadRight(r.0, 2).text() + utf8_of("h")
            + PadZero(r.1, 2).text() + utf8_of("m") && r.1 < 60 && r.0 * 3600 + r.1 * 60 <= secs
            < r.0 * 3600 + r.1 * 60 + 60,
        86400 <= secs < 8640000 ==> FormatAge(secs).text() == PadRight(r.0, 2).text() + utf8_of("d")
            + PadZero(r.1, 2).text() + utf8_of("h") && r.1 < 24 && r.0 * 86400 + r.1 * 3600 <= secs
            < r.0 * 86400 + r.1 * 3600 + 3600,
        secs >= 8640000 ==> FormatAge(secs).text() == FormatAge(8639999).text(),
{
    if secs >= 8640000 {
        lemma_last_age();
        (0, 0)
    } else if secs >= 86400 {
        ((secs / 86400) as u32, (secs % 86400 / 3600) as u32)
    } else if secs >= 3600 {
        ((secs / 3600) as u32, (secs % 3600 / 60) as u32)
    } else {
        ((secs / 60) as u32, (secs % 60) as u32)
    }
}

proof fn lemma_last_age()
    ensures
        FormatAge(8639999).text() == utf8_of("99d23h"),
{
    broadcast use vstd::string::is_ascii_spec_bytes;

    reveal_strlit("99d23h");
    reveal_strlit("d");
    reveal_strlit("h");
    assert(vstd::string::is_ascii("99d23h") && vstd::string::is_ascii("d") && vstd::string::is_ascii(
        "h",
    ));
    reveal_with_fuel(decimal, 3);
    assert(decimal(99) =~= seq![0x39u8, 0x39u8]);
    assert(decimal(23) =~= seq![0x32u8, 0x33u8]);
    assert(PadRight(99, 2).text() =~= seq![0x39u8, 0x39u8]);
    assert(PadZero(23, 2).text() =~= seq![0x32u8, 0x33u8]);
    assert(FormatAge(8639999).text() =~= utf8_of("99d23h"));
}

/// An amount of memory says how much: whole KiB or MiB, rounded down, and GiB in
/// tenths, or from 1000 GiB on whole ones, to the nearest tenth.
pub proof fn law_mem_says_how_much(kib: u32) -> (n: u32)
    ensures
        kib < 1024 ==> FormatMem(kib).text() == PadRight(kib, 5).text() + utf8_of("K"),
        1024 <= kib < 1048576 ==> FormatMem(kib).text() == PadRight(n, 5).text() + utf8_of("M") && n
            * 1024 <= kib < (n + 1) * 1024,
        kib >= 1048576 ==> n * 1048576 - 524288 <= kib * 10 < n * 1048576 + 524288,
        kib >= 1048576 && n < 10000 ==> FormatMem(kib).text() == PadRight((n / 10) as u32, 3).text()
            + utf8_of(".") + decimal(n as nat % 10) + utf8_of("G"),
        kib >= 1048576 && n >= 10000 ==> FormatMem(kib).text() == PadRight((n / 10) as u32, 5).text()
            + utf8_of("G"),
{
    if kib >= 1048576 {
        let n = gib_tenths_of_kib(kib) as u32;
        n
    } else {
        (kib / 1024) as u32
    }
}

/// An intensity is a share of 255: none of nothing, all of the whole or more,
/// and in between rounded down.
pub proof fn law_intensity_is_a_share(n: int, d: int)
    requires
        n >= 0,
        d > 0,
    ensures
        n >= d ==> intensity(n, d) == 255,
        n == 0 ==> intensity(n, d) == 0,
        n < d ==> intensity(n, d) * d <= n * 255 < (intensity(n, d) + 1) * d,
{
    if n < d {
        let q = n * 255 / d;
        vstd::arithmetic::div_mod::lemma_fundamental_div_mod(n * 255, d);
        vstd::arithmetic::div_mod::lemma_mod_bound(n * 255, d);
        assert(0 <= q <= 255) by (nonlinear_arith)
            requires
                q == n * 255 / d,
                0 <= n < d,
        ;
        assert(d * q == q * d && (q + 1) * d == q * d + d) by (nonlinear_arith);
        if n == 0 {
            assert(0int / d == 0) by (nonlinear_arith)
                requires
                    d > 0,
            ;
        }
    }
}

/// A row is fully red from 4 GiB of memory on, and fully blue from a whole core
/// on or from a whole graphics processor; a process that uses nothing is black.
pub proof fn law_colour_says_use(
    platform: Platform,
    rss_kib: u32,
    cpu: u64,
    gpu: Option<GpuUsage>,
    total_mib: u64,
)
    ensures
        rss_kib >= 4 * 1024 * 1024 ==> redness(platform, rss_kib, gpu, total_mib) == 255,
        platform == Platform::Linux && gpu is Some && 0 < total_mib <= gpu->0.mem_mib ==> redness(
            platform,
            rss_kib,
            gpu,
            total_mib,
        ) == 255,
        cpu >= 100_000_000 ==> blueness(cpu, gpu) == 255,
        gpu is Some && gpu->0.sm_pct >= 100 ==> blueness(cpu, gpu) == 255,
        rss_kib == 0 && gpu is None ==> redness(platform, rss_kib, gpu, total_mib) == 0,
        cpu < 1_000_000 && gpu is None ==> blueness(cpu, gpu) == 0,
        platform == Platform::Mac || gpu is None ==> redness(platform, rss_kib, gpu, total_mib)
            == intensity(rss_kib as int, 4194304),
        gpu is None ==> blueness(cpu, gpu) == intensity(cpu as int / 1_000_000, 100),
{
    if rss_kib == 0 {
        law_intensity_is_a_share(0, 0x40_0000);
    }
    if cpu < 1_000_000 {
        law_intensity_is_a_share(0, 100);
    }
}

/// A coloured text is the text between the start and the end of its colour.
pub proof fn law_colour_wraps_the_text(r: u8, g: u8, b: u8)
    ensures
        FgOpen(r, g, b).text() == utf8_of("\x1b[38;2;") + decimal(r as nat) + utf8_of(";") + decimal(
            g as nat,
        ) + utf8_of(";") + decimal(b as nat) + utf8_of("m"),
{
    broadcast use vstd::string::is_ascii_spec_bytes;

    reveal_strlit(";");
    reveal_strlit("m");
    assert(vstd::string::is_ascii(";") && vstd::string::is_ascii("m"));
    assert(utf8_of(";") =~= seq![0x3bu8]);
    assert(utf8_of("m") =~= seq![0x6du8]);
}

/// What is left of a long plain command is its front, with three dots behind it
/// if there is room for more than them.
pub proof fn law_long_commands_keep_their_front(s: Seq<u8>, max: usize)
    requires
        forall|i: int| 0 <= i < s.len() ==> (#[trigger] s[i]) <= 0x7f,
    ensures
        s.len() <= max ==> truncated(s, max) == s,
        s.len() > max && max > 3 ==> truncated(s, max) == s.take(max - 3) + utf8_of("..."),
        s.len() > max && max <= 3 ==> truncated(s, max) == s.take(max as int),
{
    law_printable_keeps_ascii(s);
    if s.len() > max {
        let target = if max > 3 {
            max - 3
        } else {
            max as int
        };
        assert(s[target] <= 0x7f);
        assert(cut_at(s, max as nat) == target);
        law_printable_keeps_ascii(s.take(target));
        if max <= 3 {
            assert(truncated(s, max) =~= s.take(max as int));
        }
    }
}

} // verus!
