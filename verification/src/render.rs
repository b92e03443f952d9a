//! The rows of the process tree, and the screen around them.

use crate::bytes::{
    columns, continues, f1_wide, fill, law_columns_add_up, law_printable_keeps_ascii,
    lemma_plain_columns, lemma_string_columns, low32, nearest, to_low32, utf8_of, F1Wide, PadLeft,
    PadRight, PadZero, Repeat,
};
use crate::format::{
    blueness, frac_color, intensity, law_age_is_six_wide, law_mem_is_six_wide,
    lemma_short_decimal, line, louder, redness, row_color, to_intensity, truncated,
    FgOpen, FormatAge, FormatMem, Truncate, BOLD, CLEAR_TO_END, CURSOR_HOME, EOL, FG_CLOSE,
    FG_CLOSE_EOL,
};
use crate::gpu::{GpuInfo, GpuUsage};
use crate::nest::joined;
use crate::platform::Platform;
use crate::procfs::{LoadAvg, MemInfo};
use crate::procinfo::{ProcInfo, ONE_PERCENT};
use crate::tree::{
    children_of, last_at, law_trees_list_once, layout, lemma_children, passing_lines, Indent,
};
use crate::twrite::{decimal, decimal_digits, puts, Put, TinyWriter};
use vstd::prelude::*;
use vstd::string::StringSliceAdditionalSpecFns;

verus! {

/// How many columns tell of the graphics processor: its share and its memory,
/// or its share alone.
pub open spec fn gpu_data_cols(platform: Platform) -> nat {
    match platform {
        Platform::Linux => 2,
        Platform::Mac => 1,
    }
}

/// Columns of the cells for the graphics processor.
pub open spec fn gpu_width(platform: Platform, has_gpu: bool) -> nat {
    if has_gpu {
        gpu_data_cols(platform) * 7
    } else {
        0
    }
}

/// The columns of the cells for the graphics processor.
fn gpu_columns(platform: Platform, has_gpu: bool) -> (r: usize)
    ensures
        r == gpu_width(platform, has_gpu),
{
    if has_gpu {
        match platform {
            Platform::Linux => 14,
            Platform::Mac => 7,
        }
    } else {
        0
    }
}

/// A share of processor time in tenths of a percent, rounded to the nearest.
pub open spec fn percent_tenths(cpu: u64) -> u64 {
    nearest(cpu * 10, ONE_PERCENT as int)
}

/// The cells for the graphics processor.
pub open spec fn gpu_cells(platform: Platform, has_gpu: bool, gpu: Option<GpuUsage>) -> Seq<u8> {
    if has_gpu {
        match (platform, gpu) {
            (Platform::Mac, Some(g)) => utf8_of(" ") + PadRight(g.sm_pct, 6).text(),
            (Platform::Linux, Some(g)) => utf8_of(" ") + PadRight(g.sm_pct, 6).text() + utf8_of(" ")
                + FormatMem(low32(g.mem_mib * 1024)).text(),
            _ => fill(0x20, gpu_width(platform, true) as int),
        }
    } else {
        Seq::empty()
    }
}

/// How many columns are left for the command.
pub open spec fn command_width(platform: Platform, has_gpu: bool, width: usize, indent: Indent) -> usize {
    let taken = 30 + gpu_width(platform, has_gpu) + 2 * indent.drawn();
    if width >= taken {
        (width - taken) as usize
    } else {
        0
    }
}

/// Who draws: the system, the width of the screen, the graphics memory and
/// whether there is a graphics processor.
#[derive(Clone, Copy, Debug, PartialEq, Eq, Structural)]
pub struct Style {
    pub platform: Platform,
    pub width: usize,
    pub gpu_total_mib: u64,
    pub has_gpu: bool,
}

/// The cells of a row: number, share of processor time, memory, graphics
/// processor and age.
pub open spec fn cells(style: Style, p: ProcInfo<'_>) -> Seq<u8> {
    PadLeft(p.pid, 7).text() + utf8_of(" ") + F1Wide(percent_tenths(p.cpu), 6).text() + utf8_of(" ")
        + FormatMem(p.rss_kib).text() + gpu_cells(style.platform, style.has_gpu, p.gpu) + utf8_of(
        " ",
    ) + FormatAge(p.age()).text() + utf8_of("  ")
}

/// The row of a process.
pub open spec fn row_text(style: Style, p: ProcInfo<'_>, indent: Indent) -> Seq<u8> {
    FgOpen(
        redness(style.platform, p.rss_kib, p.gpu, style.gpu_total_mib),
        0,
        blueness(p.cpu, p.gpu),
    ).text() + cells(style, p) + indent.text() + truncated(
        p.display@,
        command_width(style.platform, style.has_gpu, style.width, indent),
    ) + utf8_of(FG_CLOSE_EOL)
}

/// The process number and the shares of a row fit their columns. Memory and age
/// always do.
pub open spec fn cells_fit(style: Style, p: ProcInfo<'_>) -> bool {
    &&& p.pid < 10_000_000
    &&& percent_tenths(p.cpu) < 100_000
    &&& style.has_gpu ==> match p.gpu {
        Some(g) => g.sm_pct < 1_000_000,
        None => true,
    }
}

/// As long as the numbers fit their columns, the trees and commands of all rows
/// start in the same column, and so does a row that stands for others.
pub proof fn law_columns_align(style: Style, p: ProcInfo<'_>)
    requires
        cells_fit(style, p),
    ensures
        cells(style, p).len() == 30 + gpu_width(style.platform, style.has_gpu),
{
    broadcast use vstd::string::is_ascii_spec_bytes;

    reveal_strlit(" ");
    reveal_strlit("  ");
    assert(vstd::string::is_ascii(" ") && vstd::string::is_ascii("  "));
    let tenths = percent_tenths(p.cpu);
    lemma_short_decimal(p.pid as nat);
    lemma_short_decimal(low32(tenths as int / 10) as nat);
    lemma_short_decimal(tenths as nat % 10);
    law_mem_is_six_wide(p.rss_kib);
    law_age_is_six_wide(p.age());
    assert(PadLeft(p.pid, 7).text().len() == 7);
    assert(F1Wide(tenths, 6).text().len() == 6);
    if style.has_gpu {
        match p.gpu {
            Some(g) => {
                lemma_short_decimal(g.sm_pct as nat);
                law_mem_is_six_wide(low32(g.mem_mib * 1024));
                assert(PadRight(g.sm_pct, 6).text().len() == 6);
            },
            None => {},
        }
    }
}

/// No byte of `s` goes on with a character.
spec fn plain(s: Seq<u8>) -> bool {
    forall|i: int| 0 <= i < s.len() ==> !continues(#[trigger] s[i])
}

proof fn lemma_decimal_plain(n: nat)
    ensures
        plain(decimal(n)),
    decreases n,
{
    if n >= 10 {
        lemma_decimal_plain(n / 10);
    }
}

proof fn lemma_plain_add(a: Seq<u8>, b: Seq<u8>)
    requires
        plain(a),
        plain(b),
    ensures
        plain(a + b),
{
}

/// The cells are plain.
proof fn lemma_cells_plain(style: Style, p: ProcInfo<'_>)
    ensures
        plain(cells(style, p)),
{
    broadcast use vstd::string::is_ascii_spec_bytes;

    reveal_strlit(" ");
    reveal_strlit("  ");
    assert(vstd::string::is_ascii(" ") && vstd::string::is_ascii("  "));
    let tenths = percent_tenths(p.cpu);
    lemma_decimal_plain(p.pid as nat);
    lemma_decimal_plain(low32(tenths as int / 10) as nat);
    lemma_decimal_plain(tenths as nat % 10);
    lemma_mem_plain(p.rss_kib);
    lemma_age_plain(p.age());
    let a = PadLeft(p.pid, 7).text();
    let b = F1Wide(tenths, 6).text();
    assert(plain(a) && plain(b) && plain(utf8_of(" ")) && plain(utf8_of("  ")));
    let g = gpu_cells(style.platform, style.has_gpu, p.gpu);
    assert(plain(g)) by {
        if style.has_gpu {
            match p.gpu {
                Some(u) => {
                    lemma_decimal_plain(u.sm_pct as nat);
                    lemma_mem_plain(low32(u.mem_mib * 1024));
                    assert(plain(PadRight(u.sm_pct, 6).text()));
                },
                None => {},
            }
        }
    }
    lemma_plain_add(a, utf8_of(" "));
    lemma_plain_add(a + utf8_of(" "), b);
    lemma_plain_add(a + utf8_of(" ") + b, utf8_of(" "));
    let m = FormatMem(p.rss_kib).text();
    lemma_plain_add(a + utf8_of(" ") + b + utf8_of(" "), m);
    lemma_plain_add(a + utf8_of(" ") + b + utf8_of(" ") + m, g);
    lemma_plain_add(a + utf8_of(" ") + b + utf8_of(" ") + m + g, utf8_of(" "));
    let e = FormatAge(p.age()).text();
    lemma_plain_add(a + utf8_of(" ") + b + utf8_of(" ") + m + g + utf8_of(" "), e);
    lemma_plain_add(a + utf8_of(" ") + b + utf8_of(" ") + m + g + utf8_of(" ") + e, utf8_of("  "));
}

/// Padded numbers are plain.
proof fn lemma_padded_plain(n: u32, width: u8)
    ensures
        plain(PadRight(n, width).text()),
        plain(PadZero(n, width).text()),
{
    lemma_decimal_plain(n as nat);
    lemma_plain_add(fill(0x20, crate::bytes::gap(n, width)), decimal(n as nat));
    lemma_plain_add(fill(0x30, crate::bytes::gap(n, width)), decimal(n as nat));
}

proof fn lemma_units_plain()
    ensures
        plain(utf8_of(".")),
        plain(utf8_of("G")),
        plain(utf8_of("M")),
        plain(utf8_of("K")),
        plain(utf8_of("d")),
        plain(utf8_of("h")),
        plain(utf8_of("m")),
        plain(utf8_of("s")),
        plain(utf8_of("99d23h")),
{
    broadcast use vstd::string::is_ascii_spec_bytes;

    reveal_strlit(".");
    reveal_strlit("G");
    reveal_strlit("M");
    reveal_strlit("K");
    reveal_strlit("99d23h");
    reveal_strlit("d");
    reveal_strlit("h");
    reveal_strlit("m");
    reveal_strlit("s");
    assert(vstd::string::is_ascii(".") && vstd::string::is_ascii("G") && vstd::string::is_ascii("M")
        && vstd::string::is_ascii("K"));
    assert(vstd::string::is_ascii("99d23h") && vstd::string::is_ascii("d") && vstd::string::is_ascii(
        "h",
    ) && vstd::string::is_ascii("m") && vstd::string::is_ascii("s"));
}

/// A padded number with a unit behind it is plain.
proof fn lemma_unit_plain(n: u32, width: u8, unit: Seq<u8>)
    requires
        plain(unit),
    ensures
        plain(PadRight(n, width).text() + unit),
        plain(PadZero(n, width).text() + unit),
{
    lemma_padded_plain(n, width);
    lemma_plain_add(PadRight(n, width).text(), unit);
    lemma_plain_add(PadZero(n, width).text(), unit);
}

/// Two numbers with their units are plain.
proof fn lemma_pair_plain(a: u32, x: Seq<u8>, b: u32, y: Seq<u8>)
    requires
        plain(x),
        plain(y),
    ensures
        plain(PadRight(a, 2).text() + x + PadZero(b, 2).text() + y),
{
    lemma_unit_plain(a, 2, x);
    lemma_padded_plain(b, 2);
    lemma_plain_add(PadRight(a, 2).text() + x, PadZero(b, 2).text());
    lemma_plain_add(PadRight(a, 2).text() + x + PadZero(b, 2).text(), y);
}

proof fn lemma_mem_plain(kib: u32)
    ensures
        plain(FormatMem(kib).text()),
{
    let tenths = crate::format::gib_tenths_of_kib(kib);
    let whole = (tenths / 10) as u32;
    lemma_units_plain();
    lemma_unit_plain(whole, 5, utf8_of("G"));
    lemma_unit_plain(whole, 3, utf8_of("."));
    lemma_decimal_plain((tenths % 10) as nat);
    lemma_plain_add(PadRight(whole, 3).text() + utf8_of("."), decimal((tenths % 10) as nat));
    lemma_plain_add(
        PadRight(whole, 3).text() + utf8_of(".") + decimal((tenths % 10) as nat),
        utf8_of("G"),
    );
    lemma_unit_plain((kib / 1024) as u32, 5, utf8_of("M"));
    lemma_unit_plain(kib, 5, utf8_of("K"));
}

proof fn lemma_age_plain(secs: u32)
    ensures
        plain(FormatAge(secs).text()),
{
    lemma_units_plain();
    lemma_pair_plain(
        (secs / 86400) as u32,
        utf8_of("d"),
        (secs % 86400 / 3600) as u32,
        utf8_of("h"),
    );
    lemma_pair_plain(
        (secs / 3600) as u32,
        utf8_of("h"),
        (secs % 3600 / 60) as u32,
        utf8_of("m"),
    );
    lemma_pair_plain((secs / 60) as u32, utf8_of("m"), (secs % 60) as u32, utf8_of("s"));
    lemma_unit_plain(secs, 5, utf8_of("s"));
}

/// The lines in front of a process take two columns for each level.
proof fn lemma_lines_columns(mask: u32, n: nat)
    ensures
        columns(passing_lines(mask, n)) == 2 * n,
    decreases n,
{
    if n > 0 {
        lemma_lines_columns(mask, (n - 1) as nat);
        reveal_strlit("  ");
        reveal_strlit("│ ");
        lemma_string_columns("  "@);
        lemma_string_columns("│ "@);
        law_columns_add_up(
            passing_lines(mask, (n - 1) as nat),
            if last_at(mask, (n - 1) as nat) {
                utf8_of("  ")
            } else {
                utf8_of("│ ")
            },
        );
    }
}

proof fn lemma_indent_columns(indent: Indent)
    ensures
        columns(indent.text()) == 2 * indent.drawn(),
{
    if indent.drawn() > 0 {
        let n = (indent.drawn() - 1) as nat;
        lemma_lines_columns(indent.mask, n);
        reveal_strlit("└─");
        reveal_strlit("├─");
        lemma_string_columns("└─"@);
        lemma_string_columns("├─"@);
        law_columns_add_up(
            passing_lines(indent.mask, n),
            if last_at(indent.mask, n) {
                utf8_of("└─")
            } else {
                utf8_of("├─")
            },
        );
    }
}

/// A row is a colour, what is seen of the process, and the end of the row. What
/// is seen is never wider than the screen, as long as its numbers fit their
/// columns and the screen is wider than they and the tree are. A plain command
/// is shown whole if it has room, and else cut so that the row is exactly as
/// wide as the screen.
pub proof fn law_row_fits_the_screen(style: Style, p: ProcInfo<'_>, indent: Indent) -> (seen: Seq<u8>)
    requires
        cells_fit(style, p),
        style.width >= 30 + gpu_width(style.platform, style.has_gpu) + 2 * (if indent.depth <= 32 {
            indent.depth as int
        } else {
            32
        }),
    ensures
        exists|red: u8, blue: u8|
            row_text(style, p, indent) == #[trigger] FgOpen(red, 0, blue).text() + seen + utf8_of(
                "\x1b[0m\x1b[K\n",
            ),
        columns(seen) <= style.width,
        ({
            let room = style.width - 30 - gpu_width(style.platform, style.has_gpu) - 2 * (
            if indent.depth <= 32 {
                indent.depth as int
            } else {
                32
            });
            let text = p.display@;
            (forall|i: int| 0 <= i < text.len() ==> (#[trigger] text[i]) <= 0x7f) ==> {
                &&& text.len() <= room ==> seen.len() >= text.len() && seen.skip(
                    seen.len() - text.len(),
                ) == text && columns(seen) == style.width - room + text.len()
                &&& text.len() > room ==> columns(seen) == style.width
            }
        }),
{
    let head = cells(style, p);
    let lines = indent.text();
    let max = command_width(style.platform, style.has_gpu, style.width, indent);
    let text = p.display@;
    let command = truncated(text, max);
    let seen = head + lines + command;
    law_columns_align(style, p);
    lemma_cells_plain(style, p);
    lemma_plain_columns(head);
    lemma_indent_columns(indent);
    law_columns_add_up(head + lines, command);
    law_columns_add_up(head, lines);
    law_columns_add_up(command, Seq::empty());
    crate::format::lemma_truncated_len(text, max);
    let red = redness(style.platform, p.rss_kib, p.gpu, style.gpu_total_mib);
    let blue = blueness(p.cpu, p.gpu);
    assert(row_text(style, p, indent) =~= FgOpen(red, 0, blue).text() + seen + utf8_of(
        "\x1b[0m\x1b[K\n",
    ));
    if forall|i: int| 0 <= i < text.len() ==> (#[trigger] text[i]) <= 0x7f {
        if text.len() <= max {
            law_printable_keeps_ascii(text);
            assert(command == text);
            lemma_plain_columns(text);
            assert(seen.skip(seen.len() - text.len()) =~= text);
        } else {
            lemma_plain_cut(text, max);
            lemma_plain_columns(command);
        }
    }
    seen
}

/// A plain command that is too long is cut to exactly its room.
proof fn lemma_plain_cut(s: Seq<u8>, max: usize)
    requires
        forall|i: int| 0 <= i < s.len() ==> (#[trigger] s[i]) <= 0x7f,
        s.len() > max,
    ensures
        truncated(s, max).len() == max,
        plain(truncated(s, max)),
{
    broadcast use vstd::string::is_ascii_spec_bytes;

    reveal_strlit("...");
    assert(vstd::string::is_ascii("..."));
    let target = if max > 3 {
        (max - 3) as nat
    } else {
        max as nat
    };
    assert(s[target as int] <= 0x7f);
    assert(crate::format::cut_at(s, max as nat) == target);
    law_printable_keeps_ascii(s.take(target as int));
}

/// The row of a process.
fn row_bytes(style: Style, p: &ProcInfo<'_>, indent: Indent) -> (r: Vec<u8>)
    ensures
        r@ == row_text(style, *p, indent),
{
    let (red, green, blue): (u8, u8, u8) = row_color(
        style.platform,
        p.cpu,
        p.rss_kib,
        &p.gpu,
        style.gpu_total_mib,
    );
    let taken: usize = 30 + gpu_columns(style.platform, style.has_gpu) + indent.width();
    let cmd_w: usize = style.width.saturating_sub(taken);
    let mut r: Vec<u8> = Vec::new();
    FgOpen(red, green, blue).put(&mut r);
    let mut front: Vec<u8> = cell_bytes(style, p);
    r.append(&mut front);
    indent.put(&mut r);
    Truncate { s: p.display.as_slice(), max: cmd_w }.put(&mut r);
    r.extend_from_slice(FG_CLOSE_EOL.as_bytes());
    assert(r@ =~= row_text(style, *p, indent));
    r
}

/// The cells of a row.
fn cell_bytes(style: Style, p: &ProcInfo<'_>) -> (r: Vec<u8>)
    ensures
        r@ == cells(style, *p),
{
    let mut r: Vec<u8> = Vec::new();
    PadLeft(p.pid, 7).put(&mut r);
    r.extend_from_slice(" ".as_bytes());
    f1_wide(p.cpu, ONE_PERCENT, 6).put(&mut r);
    r.extend_from_slice(" ".as_bytes());
    FormatMem(p.rss_kib).put(&mut r);
    let mut gpu: Vec<u8> = gpu_bytes(style.platform, style.has_gpu, p.gpu);
    r.append(&mut gpu);
    r.extend_from_slice(" ".as_bytes());
    FormatAge(p.age_secs()).put(&mut r);
    r.extend_from_slice("  ".as_bytes());
    assert(r@ =~= cells(style, *p));
    r
}

/// The cells for the graphics processor.
fn gpu_bytes(platform: Platform, has_gpu: bool, gpu: Option<GpuUsage>) -> (r: Vec<u8>)
    ensures
        r@ == gpu_cells(platform, has_gpu, gpu),
{
    let mut r: Vec<u8> = Vec::new();
    if has_gpu {
        match (platform, gpu) {
            (Platform::Mac, Some(g)) => {
                r.extend_from_slice(" ".as_bytes());
                PadRight(g.sm_pct, 6).put(&mut r);
            },
            (Platform::Linux, Some(g)) => {
                r.extend_from_slice(" ".as_bytes());
                PadRight(g.sm_pct, 6).put(&mut r);
                r.extend_from_slice(" ".as_bytes());
                FormatMem(to_low32(g.mem_mib as u64 * 1024)).put(&mut r);
            },
            _ => {
                let n: usize = gpu_columns(platform, true);
                for i in 0..n
                    invariant
                        r@ == fill(0x20, i as int),
                {
                    r.push(0x20);
                    assert(r@ =~= fill(0x20, i + 1));
                }
            },
        }
    }
    assert(r@ =~= gpu_cells(platform, has_gpu, gpu));
    r
}

/// Writes the row of process `tree[ti]`.
pub fn emit_proc_row<W: TinyWriter>(
    out: &mut W,
    procs: &[ProcInfo<'_>],
    tree: &[(Indent, u32)],
    ti: usize,
    style: Style,
)
    requires
        ti < tree@.len(),
        tree@[ti as int].1 < procs@.len(),
        old(out).takes(row_text(style, procs@[tree@[ti as int].1 as int], tree@[ti as int].0).len()),
    ensures
        puts(
            *old(out),
            *final(out),
            row_text(style, procs@[tree@[ti as int].1 as int], tree@[ti as int].0),
        ),
{
    let (indent, idx): (Indent, u32) = tree[ti];
    let row: Vec<u8> = row_bytes(style, &procs[idx as usize], indent);
    out.put_bytes(row.as_slice());
}

/// The row that stands for `more` processes that are left out.
pub open spec fn elision_text(platform: Platform, more: nat, has_gpu: bool, color: (u8, u8, u8)) -> Seq<
    u8,
> {
    FgOpen(color.0, color.1, color.2).text() + fill(0x20, 30 + gpu_width(platform, has_gpu) as int)
        + utf8_of("└─") + decimal(low32(more as int) as nat) + utf8_of(" more...") + utf8_of(
        FG_CLOSE_EOL,
    )
}

/// The row that stands for `more` processes that are left out.
fn elision_bytes(platform: Platform, more: usize, has_gpu: bool, color: (u8, u8, u8)) -> (r: Vec<u8>)
    ensures
        r@ == elision_text(platform, more as nat, has_gpu, color),
{
    let mut r: Vec<u8> = Vec::new();
    FgOpen(color.0, color.1, color.2).put(&mut r);
    let ghost head = r@;
    let blanks: usize = 30 + gpu_columns(platform, has_gpu);
    for i in 0..blanks
        invariant
            r@ == head + fill(0x20, i as int),
    {
        r.push(0x20);
        assert(r@ =~= head + fill(0x20, i + 1));
    }
    r.extend_from_slice("└─".as_bytes());
    let mut n: Vec<u8> = decimal_digits(to_low32(more as u64) as u64);
    r.append(&mut n);
    r.extend_from_slice(" more...".as_bytes());
    r.extend_from_slice(FG_CLOSE_EOL.as_bytes());
    assert(r@ =~= elision_text(platform, more as nat, has_gpu, color));
    r
}

/// Writes the row that stands for `more` processes that are left out.
pub fn emit_elision_row<W: TinyWriter>(
    out: &mut W,
    more: usize,
    platform: Platform,
    has_gpu: bool,
    color: (u8, u8, u8),
)
    requires
        old(out).takes(elision_text(platform, more as nat, has_gpu, color).len()),
    ensures
        puts(*old(out), *final(out), elision_text(platform, more as nat, has_gpu, color)),
{
    let row: Vec<u8> = elision_bytes(platform, more, has_gpu, color);
    out.put_bytes(row.as_slice());
}

/// `roots` are places in a list of `n`, in ascending order.
pub open spec fn roots_sound(roots: Seq<usize>, n: nat) -> bool {
    &&& forall|i: int, j: int|
        0 <= i < j < roots.len() ==> (#[trigger] roots[i]) < (#[trigger] roots[j])
    &&& forall|i: int| 0 <= i < roots.len() ==> (#[trigger] roots[i]) < n
}

/// How many entries stand below root `k`.
pub open spec fn kids_in(roots: Seq<usize>, n: nat, k: int) -> int {
    (if k + 1 < roots.len() {
        roots[k + 1] as int
    } else {
        n as int
    }) - roots[k] - 1
}

/// How many entries stand below the first `m` roots.
pub open spec fn total_kids(roots: Seq<usize>, n: nat, m: nat) -> int
    decreases m,
{
    if m == 0 {
        0
    } else {
        total_kids(roots, n, (m - 1) as nat) + kids_in(roots, n, m - 1)
    }
}

/// How many rows are left for entries below roots.
pub open spec fn kid_budget(roots: Seq<usize>, max_rows: usize) -> int {
    if max_rows >= roots.len() {
        max_rows - roots.len()
    } else {
        0
    }
}

/// How many rows root `k` may use for what stands below it, when those before
/// it use `taken`: a share by number, and for the last one what is left.
pub open spec fn slot(roots: Seq<usize>, n: nat, max_rows: usize, k: int, taken: int) -> int {
    let budget = kid_budget(roots, max_rows);
    let total = total_kids(roots, n, roots.len());
    if k + 1 == roots.len() {
        if budget >= taken {
            budget - taken
        } else {
            0
        }
    } else if total > 0 {
        budget * kids_in(roots, n, k) / total
    } else {
        0
    }
}

/// How many of `kids` entries are shown in `slot` rows. If not all fit, one row
/// tells how many are left out.
pub open spec fn shown_in(slot: int, kids: int) -> int {
    if slot >= kids {
        kids
    } else if slot > 0 {
        slot - 1
    } else {
        0
    }
}

/// How many rows `kids` entries take in `slot` rows.
pub open spec fn used_in(slot: int, kids: int) -> int {
    if slot >= kids {
        kids
    } else if slot > 0 {
        slot
    } else {
        0
    }
}

/// How many rows the entries below the first `m` roots take.
pub open spec fn rows_taken(roots: Seq<usize>, n: nat, max_rows: usize, m: nat) -> int
    decreases m,
{
    if m == 0 {
        0
    } else {
        let before = rows_taken(roots, n, max_rows, (m - 1) as nat);
        before + used_in(slot(roots, n, max_rows, m - 1, before), kids_in(roots, n, m - 1))
    }
}

/// The list of processes to draw.
pub struct Listing<'b, 'a> {
    pub procs: &'b [ProcInfo<'a>],
    pub tree: &'b [(Indent, u32)],
}

impl<'b, 'a> Listing<'b, 'a> {
    /// Every entry names a process.
    pub open spec fn sound(&self) -> bool {
        forall|i: int| 0 <= i < self.tree@.len() ==> (#[trigger] self.tree@[i]).1 < self.procs@.len()
    }

    /// The process of an entry.
    pub open spec fn process(&self, ti: int) -> ProcInfo<'a> {
        self.procs@[self.tree@[ti].1 as int]
    }

    /// The row of an entry.
    pub open spec fn row(&self, style: Style, ti: int) -> Seq<u8> {
        row_text(style, self.process(ti), self.tree@[ti].0)
    }

    /// The rows of `count` entries from `from` on.
    pub open spec fn rows(&self, style: Style, from: int, count: int) -> Seq<Seq<u8>> {
        Seq::new(
            (if count >= 0 {
                count
            } else {
                0
            }) as nat,
            |j: int| self.row(style, from + j),
        )
    }

    /// The loudest red and blue of the entries from `from` up to `to`.
    pub open spec fn loudest(&self, style: Style, from: int, to: int) -> (u8, u8)
        decreases to - from,
    {
        if from >= to {
            (0, 0)
        } else {
            let p = self.process(to - 1);
            let rest = self.loudest(style, from, to - 1);
            (
                louder(rest.0, redness(style.platform, p.rss_kib, p.gpu, style.gpu_total_mib)),
                louder(rest.1, blueness(p.cpu, p.gpu)),
            )
        }
    }

    /// The rows of root `k` and of what stands below it.
    pub open spec fn group(&self, style: Style, roots: Seq<usize>, max_rows: usize, k: int) -> Seq<
        Seq<u8>,
    > {
        let n = self.tree@.len();
        let kids = kids_in(roots, n, k);
        let taken = rows_taken(roots, n, max_rows, k as nat);
        let room = slot(roots, n, max_rows, k, taken);
        let limit = shown_in(room, kids);
        let used = used_in(room, kids);
        let top = roots[k] as int;
        let shown = self.rows(style, top, 1 + limit);
        if used > limit {
            let color = self.loudest(style, top + 1 + limit, top + 1 + kids);
            shown.push(
                elision_text(
                    style.platform,
                    (kids - limit) as nat,
                    style.has_gpu,
                    (color.0, 0, color.1),
                ),
            )
        } else {
            shown
        }
    }

    /// The rows of the first `m` roots and of what stands below them.
    pub open spec fn groups(&self, style: Style, roots: Seq<usize>, max_rows: usize, m: nat) -> Seq<
        Seq<u8>,
    >
        decreases m,
    {
        if m == 0 {
            Seq::empty()
        } else {
            self.groups(style, roots, max_rows, (m - 1) as nat) + self.group(
                style,
                roots,
                max_rows,
                m - 1,
            )
        }
    }

    /// All rows: as many roots as there are rows, each with its share of the
    /// rows that are left.
    pub open spec fn all_rows(&self, style: Style, roots: Seq<usize>, max_rows: usize) -> Seq<
        Seq<u8>,
    > {
        self.groups(
            style,
            roots,
            max_rows,
            if roots.len() <= max_rows {
                roots.len()
            } else {
                max_rows as nat
            },
        )
    }
}

/// A place is at or behind the place before it, and there is a number of
/// entries below it.
proof fn lemma_kids(roots: Seq<usize>, n: nat, k: int)
    requires
        roots_sound(roots, n),
        0 <= k < roots.len(),
    ensures
        0 <= kids_in(roots, n, k),
        roots[k] + 1 + kids_in(roots, n, k) <= n,
{
    if k + 1 < roots.len() {
        assert(roots[k] < roots[k + 1]);
        assert(roots[k + 1] < n);
    } else {
        assert(roots[k] < n);
    }
}

/// What stands below some roots is part of what stands below all.
proof fn lemma_total_kids(roots: Seq<usize>, n: nat, m: nat)
    requires
        roots_sound(roots, n),
        m <= roots.len(),
    ensures
        0 <= total_kids(roots, n, m) <= total_kids(roots, n, roots.len()),
        m > 0 ==> total_kids(roots, n, m) + m <= n,
        m > 0 && m < roots.len() ==> total_kids(roots, n, m) + m + roots[0] == roots[m as int],
    decreases roots.len() - m,
{
    lemma_total_prefix(roots, n, m);
    if m < roots.len() {
        lemma_total_kids(roots, n, m + 1);
        lemma_kids(roots, n, m as int);
    } else {
        lemma_total_prefix(roots, n, m);
    }
}

proof fn lemma_total_prefix(roots: Seq<usize>, n: nat, m: nat)
    requires
        roots_sound(roots, n),
        m <= roots.len(),
    ensures
        0 <= total_kids(roots, n, m),
        0 < m < roots.len() ==> total_kids(roots, n, m) + m + roots[0] == roots[m as int],
        0 < m == roots.len() ==> total_kids(roots, n, m) + m + roots[0] == n,
    decreases m,
{
    if m > 0 {
        lemma_total_prefix(roots, n, (m - 1) as nat);
        lemma_kids(roots, n, m - 1);
    }
}

/// What stands below the roots takes no more rows than are left for it.
proof fn lemma_rows_taken(roots: Seq<usize>, n: nat, max_rows: usize, m: nat)
    requires
        roots_sound(roots, n),
        m <= roots.len(),
    ensures
        0 <= rows_taken(roots, n, max_rows, m) <= kid_budget(roots, max_rows),
        m < roots.len() ==> rows_taken(roots, n, max_rows, m) * total_kids(roots, n, roots.len())
            <= kid_budget(roots, max_rows) * total_kids(roots, n, m),
    decreases m,
{
    let budget = kid_budget(roots, max_rows);
    let total = total_kids(roots, n, roots.len());
    if m == 0 {
        assert(0 * total == 0) by (nonlinear_arith);
        assert(budget * 0 == 0) by (nonlinear_arith);
    } else {
        let k = m - 1;
        lemma_rows_taken(roots, n, max_rows, k as nat);
        lemma_kids(roots, n, k);
        lemma_total_kids(roots, n, m);
        lemma_total_kids(roots, n, k as nat);
        let before = rows_taken(roots, n, max_rows, k as nat);
        let kids = kids_in(roots, n, k);
        let room = slot(roots, n, max_rows, k, before);
        let used = used_in(room, kids);
        let sofar = total_kids(roots, n, k as nat);
        if m < roots.len() {
            if total > 0 {
                assert(room * total <= budget * kids && 0 <= room) by {
                    assert(0 <= budget * kids) by (nonlinear_arith)
                        requires
                            0 <= budget,
                            0 <= kids,
                    ;
                    vstd::arithmetic::div_mod::lemma_fundamental_div_mod(budget * kids, total);
                    vstd::arithmetic::div_mod::lemma_div_pos_is_pos(budget * kids, total);
                    vstd::arithmetic::div_mod::lemma_mod_bound(budget * kids, total);
                    vstd::arithmetic::mul::lemma_mul_is_commutative(room, total);
                }
                assert((before + used) * total <= budget * (sofar + kids)) by (nonlinear_arith)
                    requires
                        before * total <= budget * sofar,
                        room * total <= budget * kids,
                        used <= room,
                        total > 0,
                ;
                assert(before + used <= budget) by (nonlinear_arith)
                    requires
                        (before + used) * total <= budget * (sofar + kids),
                        sofar + kids <= total,
                        total > 0,
                        budget >= 0,
                ;
            } else {
                assert(total == 0);
                assert(sofar == 0 && kids == 0);
                assert((before + used) * total <= budget * (sofar + kids)) by (nonlinear_arith)
                    requires
                        total == 0,
                        sofar + kids == 0,
                ;
            }
        }
    }
}

/// The rows of a group.
proof fn lemma_group_len<'b, 'a>(l: Listing<'b, 'a>, style: Style, roots: Seq<usize>, max_rows: usize, k: int)
    requires
        roots_sound(roots, l.tree@.len()),
        0 <= k < roots.len(),
    ensures
        ({
            let n = l.tree@.len();
            let taken = rows_taken(roots, n, max_rows, k as nat);
            l.group(style, roots, max_rows, k).len() == 1 + used_in(
                slot(roots, n, max_rows, k, taken),
                kids_in(roots, n, k),
            )
        }),
{
    lemma_kids(roots, l.tree@.len(), k);
}

proof fn lemma_groups_len<'b, 'a>(l: Listing<'b, 'a>, style: Style, roots: Seq<usize>, max_rows: usize, m: nat)
    requires
        roots_sound(roots, l.tree@.len()),
        m <= roots.len(),
    ensures
        l.groups(style, roots, max_rows, m).len() == m + rows_taken(
            roots,
            l.tree@.len(),
            max_rows,
            m,
        ),
    decreases m,
{
    if m > 0 {
        lemma_groups_len(l, style, roots, max_rows, (m - 1) as nat);
        lemma_group_len(l, style, roots, max_rows, m - 1);
    }
}

/// The tree never takes more than `max_rows` rows, so that what stands above
/// it stays on the screen.
pub proof fn law_rows_fit<'b, 'a>(l: Listing<'b, 'a>, style: Style, roots: Seq<usize>, max_rows: usize)
    requires
        roots_sound(roots, l.tree@.len()),
    ensures
        l.all_rows(style, roots, max_rows).len() <= max_rows,
{
    let n = l.tree@.len();
    if roots.len() <= max_rows {
        lemma_groups_len(l, style, roots, max_rows, roots.len());
        lemma_rows_taken(roots, n, max_rows, roots.len());
    } else {
        lemma_groups_len(l, style, roots, max_rows, max_rows as nat);
        lemma_rows_taken(roots, n, max_rows, max_rows as nat);
    }
}

/// Where the entries of root `m` start; behind the last root, the end.
spec fn group_start(roots: Seq<usize>, n: nat, m: nat) -> int {
    if m < roots.len() {
        roots[m as int] as int
    } else {
        n as int
    }
}

/// With a row for every entry, every group is shown whole.
proof fn lemma_whole_group<'b, 'a>(
    l: Listing<'b, 'a>,
    style: Style,
    roots: Seq<usize>,
    max_rows: usize,
    k: int,
)
    requires
        roots_sound(roots, l.tree@.len()),
        l.tree@.len() <= max_rows,
        0 <= k < roots.len(),
        rows_taken(roots, l.tree@.len(), max_rows, k as nat) == total_kids(
            roots,
            l.tree@.len(),
            k as nat,
        ),
    ensures
        l.group(style, roots, max_rows, k) == l.rows(
            style,
            roots[k] as int,
            1 + kids_in(roots, l.tree@.len(), k),
        ),
        rows_taken(roots, l.tree@.len(), max_rows, (k + 1) as nat) == total_kids(
            roots,
            l.tree@.len(),
            (k + 1) as nat,
        ),
{
    let n = l.tree@.len();
    let budget = kid_budget(roots, max_rows);
    let total = total_kids(roots, n, roots.len());
    let kids = kids_in(roots, n, k);
    let taken = rows_taken(roots, n, max_rows, k as nat);
    lemma_kids(roots, n, k);
    lemma_total_prefix(roots, n, roots.len());
    lemma_total_kids(roots, n, (k + 1) as nat);
    lemma_total_kids(roots, n, k as nat);
    assert(total <= budget);
    let room = slot(roots, n, max_rows, k, taken);
    if k + 1 < roots.len() && total > 0 {
        assert(budget * kids / total >= kids) by (nonlinear_arith)
            requires
                budget >= total,
                total > 0,
                kids >= 0,
        ;
    }
    assert(room >= kids);
}

proof fn lemma_whole_groups<'b, 'a>(
    l: Listing<'b, 'a>,
    style: Style,
    roots: Seq<usize>,
    max_rows: usize,
    m: nat,
)
    requires
        roots_sound(roots, l.tree@.len()),
        l.tree@.len() <= max_rows,
        m <= roots.len(),
        roots.len() > 0,
        roots[0] == 0,
    ensures
        rows_taken(roots, l.tree@.len(), max_rows, m) == total_kids(roots, l.tree@.len(), m),
        l.groups(style, roots, max_rows, m) == l.rows(
            style,
            0,
            group_start(roots, l.tree@.len(), m),
        ),
    decreases m,
{
    let n = l.tree@.len();
    if m == 0 {
        assert(l.groups(style, roots, max_rows, 0) =~= l.rows(style, 0, 0));
    } else {
        let k = m - 1;
        lemma_whole_groups(l, style, roots, max_rows, k as nat);
        lemma_whole_group(l, style, roots, max_rows, k);
        lemma_kids(roots, n, k);
        let start = roots[k] as int;
        let kids = kids_in(roots, n, k);
        assert(group_start(roots, n, m) == start + 1 + kids);
        assert(l.rows(style, 0, start) + l.rows(style, start, 1 + kids) =~= l.rows(
            style,
            0,
            start + 1 + kids,
        ));
    }
}

/// With a row for every entry, every entry has its row, and nothing stands for
/// others.
pub proof fn law_all_rows_shown<'b, 'a>(
    l: Listing<'b, 'a>,
    style: Style,
    roots: Seq<usize>,
    max_rows: usize,
)
    requires
        roots_sound(roots, l.tree@.len()),
        l.tree@.len() <= max_rows,
        roots.len() > 0,
        roots[0] == 0,
    ensures
        l.all_rows(style, roots, max_rows) == l.rows(style, 0, l.tree@.len() as int),
{
    lemma_whole_groups(l, style, roots, max_rows, roots.len());
    lemma_total_prefix(roots, l.tree@.len(), roots.len());
}

/// Every root has its row as long as there are rows.
pub proof fn law_roots_are_shown<'b, 'a>(
    l: Listing<'b, 'a>,
    style: Style,
    roots: Seq<usize>,
    max_rows: usize,
    k: int,
)
    requires
        roots_sound(roots, l.tree@.len()),
        0 <= k < roots.len(),
        k < max_rows,
    ensures
        l.all_rows(style, roots, max_rows).contains(l.row(style, roots[k] as int)),
{
    let m = if roots.len() <= max_rows {
        roots.len()
    } else {
        max_rows as nat
    };
    lemma_root_row(l, style, roots, max_rows, m, k);
}

/// Without a row to spare, the rows are those of the first roots and no others.
pub proof fn law_roots_come_first<'b, 'a>(
    l: Listing<'b, 'a>,
    style: Style,
    roots: Seq<usize>,
    max_rows: usize,
)
    requires
        roots_sound(roots, l.tree@.len()),
        roots.len() >= max_rows,
    ensures
        l.all_rows(style, roots, max_rows) == Seq::new(
            max_rows as nat,
            |k: int| l.row(style, roots[k] as int),
        ),
{
    lemma_bare_roots(l, style, roots, max_rows, max_rows as nat);
}

proof fn lemma_bare_roots<'b, 'a>(
    l: Listing<'b, 'a>,
    style: Style,
    roots: Seq<usize>,
    max_rows: usize,
    m: nat,
)
    requires
        roots_sound(roots, l.tree@.len()),
        m <= max_rows <= roots.len(),
    ensures
        l.groups(style, roots, max_rows, m) == Seq::new(m, |k: int| l.row(style, roots[k] as int)),
        rows_taken(roots, l.tree@.len(), max_rows, m) == 0,
    decreases m,
{
    let n = l.tree@.len();
    if m == 0 {
        assert(l.groups(style, roots, max_rows, m) =~= Seq::new(
            m,
            |k: int| l.row(style, roots[k] as int),
        ));
    } else {
        let k = m - 1;
        lemma_bare_roots(l, style, roots, max_rows, k as nat);
        lemma_kids(roots, n, k);
        let kids = kids_in(roots, n, k);
        let total = total_kids(roots, n, roots.len());
        assert(kid_budget(roots, max_rows) == 0);
        assert(0 * kids == 0) by (nonlinear_arith);
        if total > 0 {
            vstd::arithmetic::div_mod::lemma_div_basics(total);
        }
        assert(slot(roots, n, max_rows, k, 0) == 0);
        assert(l.group(style, roots, max_rows, k) =~= seq![l.row(style, roots[k] as int)]);
        assert(l.groups(style, roots, max_rows, m) =~= Seq::new(
            m,
            |k: int| l.row(style, roots[k] as int),
        ));
    }
}

proof fn lemma_root_row<'b, 'a>(
    l: Listing<'b, 'a>,
    style: Style,
    roots: Seq<usize>,
    max_rows: usize,
    m: nat,
    k: int,
)
    requires
        roots_sound(roots, l.tree@.len()),
        0 <= k < m <= roots.len(),
    ensures
        l.groups(style, roots, max_rows, m).contains(l.row(style, roots[k] as int)),
    decreases m,
{
    let all = l.groups(style, roots, max_rows, m);
    let before = l.groups(style, roots, max_rows, (m - 1) as nat);
    let row = l.row(style, roots[k] as int);
    if k == m - 1 {
        lemma_kids(roots, l.tree@.len(), k);
        let g = l.group(style, roots, max_rows, k);
        assert(g[0] == row);
        assert(all[before.len() as int] == row);
    } else {
        lemma_root_row(l, style, roots, max_rows, (m - 1) as nat, k);
        let j = choose|j: int| 0 <= j < before.len() && before[j] == row;
        assert(all[j] == row);
    }
}

/// Each root but the last may use a share of the rows that are left, by how many
/// entries stand below it, rounded down; the last one what the others left.
pub proof fn law_shares_by_number(roots: Seq<usize>, n: nat, max_rows: usize, k: int, taken: int)
    requires
        roots_sound(roots, n),
        0 <= k < roots.len() <= max_rows,
        0 <= taken <= max_rows - roots.len(),
    ensures
        ({
            let spare = max_rows - roots.len();
            let below = (if k + 1 < roots.len() {
                roots[k + 1] as int
            } else {
                n as int
            }) - roots[k] - 1;
            let all = n - roots[0] - roots.len();
            let room = slot(roots, n, max_rows, k, taken);
            &&& k + 1 == roots.len() ==> room == spare - taken
            &&& k + 1 < roots.len() && all > 0 ==> room * all <= spare * below < (room + 1) * all
            &&& k + 1 < roots.len() && all == 0 ==> room == 0
        }),
{
    lemma_total_prefix(roots, n, roots.len());
    lemma_kids(roots, n, k);
    let spare = max_rows - roots.len();
    let below = kids_in(roots, n, k);
    let all = total_kids(roots, n, roots.len());
    if k + 1 < roots.len() && all > 0 {
        let q = spare * below / all;
        vstd::arithmetic::div_mod::lemma_fundamental_div_mod(spare * below, all);
        vstd::arithmetic::div_mod::lemma_mod_bound(spare * below, all);
        assert(all * q == q * all && (q + 1) * all == q * all + all) by (nonlinear_arith);
    }
}

/// A root is drawn first, and below it as many of its entries as it has rows
/// for, in their order. If there are more, its last row says how many are left
/// out, and no row of its share stays empty.
pub proof fn law_group_uses_its_rows<'b, 'a>(
    l: Listing<'b, 'a>,
    style: Style,
    roots: Seq<usize>,
    max_rows: usize,
    k: int,
    j: int,
) -> (color: (u8, u8, u8))
    requires
        roots_sound(roots, l.tree@.len()),
        0 <= k < roots.len(),
        0 <= j < l.group(style, roots, max_rows, k).len(),
    ensures
        ({
            let n = l.tree@.len();
            let below = kids_in(roots, n, k);
            let room = slot(roots, n, max_rows, k, rows_taken(roots, n, max_rows, k as nat));
            let rows = l.group(style, roots, max_rows, k);
            &&& room >= below ==> rows.len() == 1 + below
            &&& 0 < room < below ==> rows.len() == 1 + room
            &&& room <= 0 ==> rows.len() == 1
            &&& j < rows.len() - 1 || !(0 < room < below) ==> rows[j] == row_text(
                style,
                l.procs@[l.tree@[roots[k] + j].1 as int],
                l.tree@[roots[k] + j].0,
            )
            &&& 0 < room < below ==> rows[rows.len() - 1] == elision_text(
                style.platform,
                (below - (rows.len() - 2)) as nat,
                style.has_gpu,
                color,
            )
        }),
{
    lemma_kids(roots, l.tree@.len(), k);
    let n = l.tree@.len();
    let below = kids_in(roots, n, k);
    let room = slot(roots, n, max_rows, k, rows_taken(roots, n, max_rows, k as nat));
    let top = roots[k] as int;
    let limit = shown_in(room, below);
    let c = l.loudest(style, top + 1 + limit, top + 1 + below);
    (c.0, 0, c.1)
}

/// A row that stands for others is as red and as blue as the loudest of them.
pub proof fn law_loudest_is_the_most<'b, 'a>(l: Listing<'b, 'a>, style: Style, from: int, to: int, i: int)
    requires
        from <= i < to,
    ensures
        ({
            let p = l.procs@[l.tree@[i].1 as int];
            let c = l.loudest(style, from, to);
            redness(style.platform, p.rss_kib, p.gpu, style.gpu_total_mib) <= c.0 && blueness(
                p.cpu,
                p.gpu,
            ) <= c.1
        }),
    decreases to - from,
{
    if i < to - 1 {
        law_loudest_is_the_most(l, style, from, to - 1, i);
    }
}

/// A row that stands for others is no louder than one of them.
pub proof fn law_loudest_is_of_one<'b, 'a>(l: Listing<'b, 'a>, style: Style, from: int, to: int) -> (r: (
    int,
    int,
))
    requires
        from < to,
    ensures
        from <= r.0 < to,
        from <= r.1 < to,
        ({
            let p = l.procs@[l.tree@[r.0].1 as int];
            let q = l.procs@[l.tree@[r.1].1 as int];
            l.loudest(style, from, to) == (
                redness(style.platform, p.rss_kib, p.gpu, style.gpu_total_mib),
                blueness(q.cpu, q.gpu),
            )
        }),
    decreases to - from,
{
    let p = l.process(to - 1);
    let red = redness(style.platform, p.rss_kib, p.gpu, style.gpu_total_mib);
    let blue = blueness(p.cpu, p.gpu);
    if from == to - 1 {
        assert(l.loudest(style, from, from) == (0u8, 0u8));
        (to - 1, to - 1)
    } else {
        let (a, b) = law_loudest_is_of_one(l, style, from, to - 1);
        let rest = l.loudest(style, from, to - 1);
        (
            if rest.0 >= red {
                a
            } else {
                to - 1
            },
            if rest.1 >= blue {
                b
            } else {
                to - 1
            },
        )
    }
}

/// A row that stands for others says how many they are, right below where the
/// tree starts.
pub proof fn law_elision_says_how_many(platform: Platform, more: nat, has_gpu: bool, color: (u8, u8, u8))
    requires
        more <= u32::MAX,
    ensures
        elision_text(platform, more, has_gpu, color) == FgOpen(color.0, color.1, color.2).text()
            + Seq::new(
            30 + (if !has_gpu {
                0nat
            } else if platform == Platform::Linux {
                14
            } else {
                7
            }),
            |i: int| 0x20u8,
        ) + utf8_of("└─") + decimal(more) + utf8_of(" more...") + utf8_of("\x1b[0m\x1b[K\n"),
{
    assert(fill(0x20, 30 + gpu_width(platform, has_gpu) as int) =~= Seq::new(
        30 + (if !has_gpu {
            0nat
        } else if platform == Platform::Linux {
            14
        } else {
            7
        }),
        |i: int| 0x20u8,
    ));
}

/// One more row behind the others.
proof fn lemma_joined_push(rows: Seq<Seq<u8>>, row: Seq<u8>)
    ensures
        joined(rows.push(row)) == joined(rows) + row,
{
    assert(rows.push(row).drop_last() =~= rows);
}

/// Adds the rows of `count` entries from `from` on to `text`.
fn add_rows(
    text: &mut Vec<u8>,
    l: &Listing<'_, '_>,
    style: Style,
    from: usize,
    count: usize,
    Ghost(before): Ghost<Seq<Seq<u8>>>,
)
    requires
        l.sound(),
        from + count <= l.tree@.len(),
        old(text)@ == joined(before),
    ensures
        final(text)@ == joined(before + l.rows(style, from as int, count as int)),
{
    let n: usize = l.tree.len();
    let mut j: usize = 0;
    assert(before + l.rows(style, from as int, 0) =~= before);
    while j < count
        invariant
            j <= count,
            from + count <= n == l.tree@.len(),
            l.sound(),
            text@ == joined(before + l.rows(style, from as int, j as int)),
        decreases count - j,
    {
        let (indent, idx): (Indent, u32) = l.tree[from + j];
        let mut row: Vec<u8> = row_bytes(style, &l.procs[idx as usize], indent);
        let ghost so_far = before + l.rows(style, from as int, j as int);
        proof {
            lemma_joined_push(so_far, row@);
            assert(row@ == l.row(style, from + j));
            assert(so_far.push(row@) =~= before + l.rows(style, from as int, j + 1));
        }
        text.append(&mut row);
        j = j + 1;
    }
}

/// The loudest red and blue of the entries from `from` up to `to`.
fn loudest_color(l: &Listing<'_, '_>, style: Style, from: usize, to: usize) -> (r: (u8, u8))
    requires
        l.sound(),
        from <= to <= l.tree@.len(),
    ensures
        r == l.loudest(style, from as int, to as int),
{
    let mut red: u8 = 0;
    let mut blue: u8 = 0;
    let mut i: usize = from;
    while i < to
        invariant
            from <= i <= to <= l.tree@.len(),
            l.sound(),
            (red, blue) == l.loudest(style, from as int, i as int),
        decreases to - i,
    {
        assert(l.tree@[i as int].1 < l.procs@.len());
        let p: &ProcInfo<'_> = &l.procs[l.tree[i].1 as usize];
        let (r, _, b): (u8, u8, u8) = row_color(
            style.platform,
            p.cpu,
            p.rss_kib,
            &p.gpu,
            style.gpu_total_mib,
        );
        if r > red {
            red = r;
        }
        if b > blue {
            blue = b;
        }
        i = i + 1;
    }
    (red, blue)
}

/// How many entries stand below root `k`.
fn count_kids(roots: &[usize], n: usize, k: usize) -> (r: usize)
    requires
        roots_sound(roots@, n as nat),
        k < roots@.len(),
    ensures
        r == kids_in(roots@, n as nat, k as int),
{
    proof {
        lemma_kids(roots@, n as nat, k as int);
    }
    let len: usize = roots.len();
    let end: usize = if k + 1 < len { roots[k + 1] } else { n };
    end - roots[k] - 1
}

/// How many rows root `k` may use for what stands below it.
fn find_slot(roots: &[usize], n: usize, max_rows: usize, k: usize, taken: usize, total: usize) -> (r:
    usize)
    requires
        roots_sound(roots@, n as nat),
        k < roots@.len(),
        total == total_kids(roots@, n as nat, roots@.len()),
    ensures
        r == slot(roots@, n as nat, max_rows, k as int, taken as int),
{
    let budget: usize = max_rows.saturating_sub(roots.len());
    assert(budget == kid_budget(roots@, max_rows));
    if k + 1 == roots.len() {
        budget.saturating_sub(taken)
    } else if total > 0 {
        let kids: usize = count_kids(roots, n, k);
        proof {
            lemma_kids(roots@, n as nat, k as int);
            lemma_total_kids(roots@, n as nat, (k + 1) as nat);
            lemma_total_kids(roots@, n as nat, k as nat);
            let b = budget as int;
            let c = kids as int;
            let t = total as int;
            assert(0 <= b * c <= 0xffff_ffff_ffff_ffff * 0xffff_ffff_ffff_ffff) by (nonlinear_arith)
                requires
                    0 <= b <= 0xffff_ffff_ffff_ffff,
                    0 <= c <= 0xffff_ffff_ffff_ffff,
            ;
            assert(0 <= (b * c) / t <= b) by (nonlinear_arith)
                requires
                    0 <= b,
                    0 <= c <= t,
                    t > 0,
            ;
        }
        let share: u128 = budget as u128 * kids as u128 / total as u128;
        share as usize
    } else {
        0
    }
}

/// Adds the rows of root `k` and of what stands below it to `text`. Returns how
/// many rows what stands below it takes.
fn add_group(
    text: &mut Vec<u8>,
    l: &Listing<'_, '_>,
    style: Style,
    roots: &[usize],
    max_rows: usize,
    k: usize,
    taken: usize,
    total: usize,
) -> (r: usize)
    requires
        l.sound(),
        roots_sound(roots@, l.tree@.len()),
        k < roots@.len(),
        taken == rows_taken(roots@, l.tree@.len(), max_rows, k as nat),
        total == total_kids(roots@, l.tree@.len(), roots@.len()),
        old(text)@ == joined(l.groups(style, roots@, max_rows, k as nat)),
    ensures
        final(text)@ == joined(l.groups(style, roots@, max_rows, (k + 1) as nat)),
        taken + r == rows_taken(roots@, l.tree@.len(), max_rows, (k + 1) as nat),
{
    let n: usize = l.tree.len();
    let ghost before = l.groups(style, roots@, max_rows, k as nat);
    proof {
        lemma_kids(roots@, n as nat, k as int);
    }
    let kids: usize = count_kids(roots, n, k);
    let room: usize = find_slot(roots, n, max_rows, k, taken, total);
    let limit: usize = if room >= kids {
        kids
    } else if room > 0 {
        room - 1
    } else {
        0
    };
    let used: usize = if room >= kids {
        kids
    } else if room > 0 {
        room
    } else {
        0
    };
    let top: usize = roots[k];
    add_rows(text, l, style, top, limit + 1, Ghost(before));
    let ghost shown = l.rows(style, top as int, limit + 1);
    if used > limit {
        let (red, blue): (u8, u8) = loudest_color(l, style, top + 1 + limit, top + 1 + kids);
        let mut row: Vec<u8> = elision_bytes(
            style.platform,
            kids - limit,
            style.has_gpu,
            (red, 0, blue),
        );
        proof {
            lemma_joined_push(before + shown, row@);
            assert((before + shown).push(row@) =~= before + shown.push(row@));
            assert(shown.push(row@) =~= l.group(style, roots@, max_rows, k as int));
        }
        text.append(&mut row);
    } else {
        assert(shown =~= l.group(style, roots@, max_rows, k as int));
    }
    used
}

/// Writes the process tree in at most `max_rows` rows.
pub fn render_tree<W: TinyWriter>(
    out: &mut W,
    l: &Listing<'_, '_>,
    roots: &[usize],
    max_rows: usize,
    style: Style,
)
    requires
        l.sound(),
        roots_sound(roots@, l.tree@.len()),
        old(out).takes(joined(l.all_rows(style, roots@, max_rows)).len()),
    ensures
        puts(*old(out), *final(out), joined(l.all_rows(style, roots@, max_rows))),
{
    let text: Vec<u8> = tree_text(l, roots, max_rows, style);
    out.put_bytes(text.as_slice());
}

/// The text of the process tree in at most `max_rows` rows.
fn tree_text(l: &Listing<'_, '_>, roots: &[usize], max_rows: usize, style: Style) -> (r: Vec<u8>)
    requires
        l.sound(),
        roots_sound(roots@, l.tree@.len()),
    ensures
        r@ == joined(l.all_rows(style, roots@, max_rows)),
{
    let n: usize = l.tree.len();
    let m: usize = roots.len();
    let n_roots: usize = if m <= max_rows { m } else { max_rows };
    let mut total: usize = 0;
    for k in 0..m
        invariant
            m == roots@.len(),
            n == l.tree@.len(),
            roots_sound(roots@, n as nat),
            total == total_kids(roots@, n as nat, k as nat),
    {
        proof {
            lemma_total_kids(roots@, n as nat, (k + 1) as nat);
        }
        let kids: usize = count_kids(roots, n, k);
        total = total + kids;
    }
    let mut text: Vec<u8> = Vec::new();
    let mut taken: usize = 0;
    let mut k: usize = 0;
    assert(text@ =~= joined(l.groups(style, roots@, max_rows, 0)));
    while k < n_roots
        invariant
            k <= n_roots <= m == roots@.len(),
            n == l.tree@.len(),
            l.sound(),
            roots_sound(roots@, n as nat),
            total == total_kids(roots@, n as nat, roots@.len()),
            taken == rows_taken(roots@, n as nat, max_rows, k as nat),
            text@ == joined(l.groups(style, roots@, max_rows, k as nat)),
        decreases n_roots - k,
    {
        let used: usize = add_group(&mut text, l, style, roots, max_rows, k, taken, total);
        proof {
            lemma_rows_taken(roots@, n as nat, max_rows, (k + 1) as nat);
        }
        taken = taken + used;
        k = k + 1;
    }
    text
}

/// The places of the roots among the first `n` entries of `tree`.
pub open spec fn root_places(tree: Seq<(Indent, u32)>, n: nat) -> Seq<usize>
    decreases n,
{
    if n == 0 {
        Seq::empty()
    } else if tree[n - 1].0.depth == 0 {
        root_places(tree, (n - 1) as nat).push((n - 1) as usize)
    } else {
        root_places(tree, (n - 1) as nat)
    }
}

proof fn lemma_root_places(tree: Seq<(Indent, u32)>, n: nat)
    requires
        n <= tree.len() <= usize::MAX,
    ensures
        roots_sound(root_places(tree, n), n),
    decreases n,
{
    if n > 0 {
        lemma_root_places(tree, (n - 1) as nat);
        let before = root_places(tree, (n - 1) as nat);
        let all = root_places(tree, n);
        assert forall|i: int| 0 <= i < all.len() implies (#[trigger] all[i]) < n by {
            if i < before.len() {
                assert(all[i] == before[i]);
            }
        }
        assert forall|i: int, j: int| 0 <= i < j < all.len() implies (#[trigger] all[i]) < (
        #[trigger] all[j]) by {
            assert(all[i] == before[i]);
            if j < before.len() {
                assert(all[j] == before[j]);
            }
        }
    }
}

/// The places of the roots in `tree`.
pub fn find_roots(tree: &[(Indent, u32)]) -> (r: Vec<usize>)
    ensures
        r@ == root_places(tree@, tree@.len()),
        roots_sound(r@, tree@.len()),
{
    let n: usize = tree.len();
    let mut r: Vec<usize> = Vec::new();
    for i in 0..n
        invariant
            n == tree@.len(),
            r@ == root_places(tree@, i as nat),
    {
        if tree[i].0.is_root() {
            r.push(i);
        }
    }
    proof {
        lemma_root_places(tree@, n as nat);
    }
    r
}

/// What the first line tells.
pub struct Status<'b, 'a> {
    pub load: &'b LoadAvg,
    pub num_cpus: u32,
    pub mem: MemInfo,
    pub gpu: &'b GpuInfo<'a>,
}

/// How blue the load of the graphics processors is: full if none of them has
/// told anything.
pub open spec fn gpu_blueness(total_util: u32, n_gpus: u32) -> u8 {
    if n_gpus == 0 {
        255
    } else {
        intensity(total_util as int, 100 * n_gpus)
    }
}

/// A word in a colour.
pub open spec fn colored(r: u8, b: u8, text: Seq<u8>) -> Seq<u8> {
    FgOpen(r, 0, b).text() + text + utf8_of(FG_CLOSE)
}

/// The load as it is shown.
pub open spec fn load_text(l: &LoadAvg) -> Seq<u8> {
    if l.text@.len() == 0 {
        seq![0x3fu8]
    } else {
        l.text@
    }
}

impl<'b, 'a> Status<'b, 'a> {
    /// The first line, without its end: the load against the processors, the
    /// used memory, and the graphics processors if there are any.
    pub open spec fn text(&self, platform: Platform, has_gpu: bool) -> Seq<u8> {
        utf8_of("🌳 ") + colored(0, 255, utf8_of("load:")) + utf8_of(" ") + colored(
            0,
            intensity(self.load.hundredths as int, 100 * self.num_cpus),
            load_text(self.load),
        ) + utf8_of("  ") + colored(255, 0, utf8_of("mem:")) + utf8_of(" ") + colored(
            intensity(self.mem.used_bytes as int, self.mem.total_bytes as int),
            0,
            self.mem.status(),
        ) + self.gpu_text(platform, has_gpu)
    }

    /// What the first line tells of the graphics processors.
    pub open spec fn gpu_text(&self, platform: Platform, has_gpu: bool) -> Seq<u8> {
        if has_gpu {
            utf8_of("  ") + colored(0, 255, utf8_of("gpu:")) + utf8_of(" ") + colored(
                intensity(self.gpu.total_used_mib as int, self.gpu.total_mib as int),
                gpu_blueness(self.gpu.total_util, self.gpu.n_gpus),
                self.gpu.status(platform),
            )
        } else {
            Seq::empty()
        }
    }
}

/// Adds a word in a colour.
fn add_colored(out: &mut Vec<u8>, r: u8, b: u8, text: &[u8])
    ensures
        final(out)@ == old(out)@ + colored(r, b, text@),
{
    let ghost before = out@;
    FgOpen(r, 0, b).put(out);
    out.extend_from_slice(text);
    out.extend_from_slice(FG_CLOSE.as_bytes());
    assert(out@ =~= before + colored(r, b, text@));
}

/// The part of the first line that tells of the graphics processors.
fn gpu_status(status: &Status<'_, '_>, platform: Platform, has_gpu: bool) -> (r: Vec<u8>)
    ensures
        r@ == status.gpu_text(platform, has_gpu),
{
    let mut out: Vec<u8> = Vec::new();
    if has_gpu {
        let (red, _, share): (u8, u8, u8) = frac_color(
            (status.gpu.total_used_mib, status.gpu.total_mib),
            (status.gpu.total_util as u64, 100 * status.gpu.n_gpus as u64),
        );
        let blue: u8 = if status.gpu.n_gpus == 0 { 255 } else { share };
        out.extend_from_slice("  ".as_bytes());
        assert(out@ =~= utf8_of("  "));
        add_colored(&mut out, 0, 255, "gpu:".as_bytes());
        out.extend_from_slice(" ".as_bytes());
        let gpu: Vec<u8> = status.gpu.status_text(platform);
        add_colored(&mut out, red, blue, gpu.as_slice());
    }
    out
}

/// The first line, without its end.
fn status_bytes(status: &Status<'_, '_>, platform: Platform, has_gpu: bool) -> (r: Vec<u8>)
    ensures
        r@ == status.text(platform, has_gpu),
{
    let load_blue: u8 = to_intensity(status.load.hundredths, 100 * status.num_cpus as u64);
    let mem_red: u8 = to_intensity(status.mem.used_bytes, status.mem.total_bytes);
    let mut out: Vec<u8> = Vec::new();
    out.extend_from_slice("🌳 ".as_bytes());
    assert(out@ =~= utf8_of("🌳 "));
    add_colored(&mut out, 0, 255, "load:".as_bytes());
    out.extend_from_slice(" ".as_bytes());
    let load: Vec<u8> = status.load.status_text();
    add_colored(&mut out, 0, load_blue, load.as_slice());
    out.extend_from_slice("  ".as_bytes());
    add_colored(&mut out, 255, 0, "mem:".as_bytes());
    out.extend_from_slice(" ".as_bytes());
    let mem: Vec<u8> = status.mem.status_text();
    add_colored(&mut out, mem_red, 0, mem.as_slice());
    let mut gpu: Vec<u8> = gpu_status(status, platform, has_gpu);
    out.append(&mut gpu);
    out
}

/// The heads of the columns for the graphics processor.
pub open spec fn gpu_header(platform: Platform, has_gpu: bool) -> Seq<u8> {
    if has_gpu {
        match platform {
            Platform::Linux => utf8_of("   GPU%   GMEM"),
            Platform::Mac => utf8_of("   GPU%"),
        }
    } else {
        Seq::empty()
    }
}

/// A rule across the screen.
pub open spec fn rule_text(width: usize) -> Seq<u8> {
    Repeat('─', width).text() + utf8_of(EOL)
}

/// What stands above the tree: the first line, and the heads of the columns
/// between two rules.
pub open spec fn head_text(style: Style, status: Status<'_, '_>) -> Seq<u8> {
    utf8_of(CURSOR_HOME) + status.text(style.platform, style.has_gpu) + utf8_of(EOL) + rule_text(
        style.width,
    ) + utf8_of(BOLD) + utf8_of("PID       CPU%    RSS") + gpu_header(
        style.platform,
        style.has_gpu,
    ) + utf8_of("    AGE  COMMAND") + utf8_of(FG_CLOSE_EOL) + rule_text(style.width)
}

/// A rule across the screen.
fn rule_bytes(width: usize) -> (r: Vec<u8>)
    ensures
        r@ == rule_text(width),
{
    let mut r: Vec<u8> = Vec::new();
    line(&mut r, Repeat('─', width));
    assert(r@ =~= rule_text(width));
    r
}

/// The heads of the columns for the graphics processor.
fn gpu_heads(platform: Platform, has_gpu: bool) -> (r: &'static str)
    ensures
        utf8_of(r) == gpu_header(platform, has_gpu),
{
    proof {
        broadcast use vstd::string::is_ascii_spec_bytes;

        reveal_strlit("");
        assert(vstd::string::is_ascii(""));
        assert(utf8_of("") =~= Seq::<u8>::empty());
    }
    if has_gpu {
        match platform {
            Platform::Linux => "   GPU%   GMEM",
            Platform::Mac => "   GPU%",
        }
    } else {
        ""
    }
}

/// What stands above the tree.
fn head_bytes(style: Style, status: &Status<'_, '_>) -> (r: Vec<u8>)
    ensures
        r@ == head_text(style, *status),
        r@.len() > 0,
{
    let mut r: Vec<u8> = Vec::new();
    r.extend_from_slice(CURSOR_HOME.as_bytes());
    assert(r@ =~= utf8_of(CURSOR_HOME));
    let mut first: Vec<u8> = status_bytes(status, style.platform, style.has_gpu);
    r.append(&mut first);
    r.extend_from_slice(EOL.as_bytes());
    let mut rule: Vec<u8> = rule_bytes(style.width);
    r.append(&mut rule);
    r.extend_from_slice(BOLD.as_bytes());
    r.extend_from_slice("PID       CPU%    RSS".as_bytes());
    let gpu: &'static str = gpu_heads(style.platform, style.has_gpu);
    r.extend_from_slice(gpu.as_bytes());
    r.extend_from_slice("    AGE  COMMAND".as_bytes());
    proof {
        lemma_command_head();
    }
    r.extend_from_slice(FG_CLOSE_EOL.as_bytes());
    let mut again: Vec<u8> = rule_bytes(style.width);
    r.append(&mut again);
    r
}

/// What stands in place of the tree if there is no process.
pub open spec fn empty_note(n: nat) -> Seq<u8> {
    if n == 0 {
        utf8_of("(no matching processes)") + utf8_of(EOL)
    } else {
        Seq::empty()
    }
}

/// The whole screen of `height` lines. The last line is not ended, so that the
/// screen does not scroll; what the last round left behind it is wiped.
#[verifier::opaque]
pub open spec fn screen_text(style: Style, status: Status<'_, '_>, l: Listing<'_, '_>, height: usize) -> Seq<
    u8,
> {
    let max_rows = if height >= 4 {
        (height - 4) as usize
    } else {
        0
    };
    (head_text(style, status) + empty_note(l.procs@.len()) + joined(
        l.all_rows(style, root_places(l.tree@, l.tree@.len()), max_rows),
    )).drop_last() + utf8_of(CLEAR_TO_END)
}

/// The whole screen.
pub fn screen(style: Style, status: &Status<'_, '_>, l: &Listing<'_, '_>, height: usize) -> (r: Vec<u8>)
    requires
        l.sound(),
        status.num_cpus > 0,
    ensures
        r@ == screen_text(style, *status, *l, height),
{
    reveal(screen_text);
    let mut r: Vec<u8> = head_bytes(style, status);
    if l.procs.len() == 0 {
        line(&mut r, "(no matching processes)");
    }
    assert(r@ =~= head_text(style, *status) + empty_note(l.procs@.len()));
    let roots: Vec<usize> = find_roots(l.tree);
    let max_rows: usize = height.saturating_sub(4);
    let mut rows: Vec<u8> = tree_text(l, roots.as_slice(), max_rows, style);
    r.append(&mut rows);
    let ghost whole = r@;
    let _ = r.pop();
    r.extend_from_slice(CLEAR_TO_END.as_bytes());
    assert(r@ =~= whole.drop_last() + utf8_of(CLEAR_TO_END));
    r
}

proof fn lemma_command_head()
    ensures
        utf8_of("    AGE  COMMAND").len() > 0,
{
    broadcast use vstd::string::is_ascii_spec_bytes;

    reveal_strlit("    AGE  COMMAND");
    assert(vstd::string::is_ascii("    AGE  COMMAND"));
}

/// The tree of laid out processes can be drawn.
pub proof fn law_layout_can_be_drawn<'b, 'a>(l: Listing<'b, 'a>)
    requires
        l.procs@.len() <= u32::MAX,
        l.tree@ == layout(l.procs@),
    ensures
        l.sound(),
{
    lemma_children(l.procs@);
    law_trees_list_once(children_of(l.procs@), l.procs@.len());
}

/// The cells of a row tell, each in its columns, the process's number, its
/// share of processor time to the nearest tenth of a percent, its memory and
/// its age, and where there is a graphics processor its use of that.
pub proof fn law_cells_tell_the_process(style: Style, p: ProcInfo<'_>) -> (tenths: u64)
    requires
        cells_fit(style, p),
    ensures
        ({
            let s = cells(style, p);
            let n = s.len() as int;
            &&& s.subrange(0, 7) == PadLeft(p.pid, 7).text()
            &&& s.subrange(8, 14) == F1Wide(tenths, 6).text()
            &&& tenths * 100_000 - 50_000 <= p.cpu < tenths * 100_000 + 50_000
            &&& s.subrange(15, 21) == FormatMem(p.rss_kib).text()
            &&& s.subrange(n - 8, n - 2) == FormatAge(p.age()).text()
            &&& s[7] == 0x20 && s[14] == 0x20 && s[n - 9] == 0x20 && s[n - 2] == 0x20 && s[n - 1]
                == 0x20
            &&& !style.has_gpu ==> n == 30
            &&& style.has_gpu && p.gpu is None ==> forall|i: int|
                21 <= i < n - 8 ==> #[trigger] s[i] == 0x20
            &&& style.has_gpu && p.gpu is Some ==> s[21] == 0x20 && s.subrange(22, 28) == PadRight(
                p.gpu->0.sm_pct,
                6,
            ).text()
            &&& style.has_gpu && style.platform == Platform::Linux && p.gpu is Some
                && p.gpu->0.mem_mib < 0x40_0000 ==> s[28] == 0x20 && s.subrange(29, 35)
                == FormatMem((p.gpu->0.mem_mib * 1024) as u32).text()
        }),
{
    broadcast use vstd::string::is_ascii_spec_bytes;

    reveal_strlit(" ");
    reveal_strlit("  ");
    assert(vstd::string::is_ascii(" ") && vstd::string::is_ascii("  "));
    let tenths = percent_tenths(p.cpu);
    lemma_short_decimal(p.pid as nat);
    lemma_short_decimal(low32(tenths as int / 10) as nat);
    lemma_short_decimal(tenths as nat % 10);
    law_mem_is_six_wide(p.rss_kib);
    law_age_is_six_wide(p.age());
    law_columns_align(style, p);
    crate::bytes::law_nearest_is_nearest(p.cpu * 10, 1_000_000);
    let a = PadLeft(p.pid, 7).text();
    let b = F1Wide(tenths, 6).text();
    let m = FormatMem(p.rss_kib).text();
    let g = gpu_cells(style.platform, style.has_gpu, p.gpu);
    let e = FormatAge(p.age()).text();
    let s = cells(style, p);
    let n = s.len() as int;
    assert(a.len() == 7 && b.len() == 6 && m.len() == 6 && e.len() == 6);
    assert(s.subrange(0, 7) =~= a);
    assert(s.subrange(8, 14) =~= b);
    assert(s.subrange(15, 21) =~= m);
    assert(s.subrange(21, 21 + g.len() as int) =~= g);
    assert(s.subrange(n - 8, n - 2) =~= e);
    if style.has_gpu {
        assert forall|i: int| 0 <= i < g.len() implies s[21 + i] == #[trigger] g[i] by {}
        match p.gpu {
            Some(u) => {
                lemma_short_decimal(u.sm_pct as nat);
                law_mem_is_six_wide(low32(u.mem_mib * 1024));
                assert(s.subrange(22, 28) =~= PadRight(u.sm_pct, 6).text());
                if style.platform == Platform::Linux && u.mem_mib < 0x40_0000 {
                    assert(low32(u.mem_mib * 1024) == (u.mem_mib * 1024) as u32);
                    assert(s.subrange(29, 35) =~= FormatMem(low32(u.mem_mib * 1024)).text());
                }
            },
            None => {
                assert forall|i: int| 21 <= i < n - 8 implies #[trigger] s[i] == 0x20 by {
                    if i < n - 9 {
                        assert(s[i] == g[i - 21]);
                    }
                }
            },
        }
    }
    tenths
}

/// The roots are the entries that stand at no depth.
pub proof fn law_roots_stand_at_no_depth(tree: Seq<(Indent, u32)>, n: nat, i: usize)
    requires
        n <= tree.len() <= usize::MAX,
    ensures
        root_places(tree, n).contains(i) <==> i < n && tree[i as int].0.depth == 0,
    decreases n,
{
    if n > 0 {
        let before = root_places(tree, (n - 1) as nat);
        let all = root_places(tree, n);
        law_roots_stand_at_no_depth(tree, (n - 1) as nat, i);
        if tree[n - 1].0.depth == 0 {
            assert(all.last() == n - 1);
            if before.contains(i) {
                let k = choose|k: int| 0 <= k < before.len() && before[k] == i;
                assert(all[k] == i);
            }
            if all.contains(i) && i != n - 1 {
                let k = choose|k: int| 0 <= k < all.len() && all[k] == i;
                assert(before[k] == i);
            }
        }
    }
}

/// Below the four lines of its head, a screen has at most as many rows as it
/// has lines left. If there are as many as entries, each has its row, in order;
/// every one of the first roots has one in any case.
pub proof fn law_screen_has_its_rows(
    style: Style,
    status: Status<'_, '_>,
    l: Listing<'_, '_>,
    height: usize,
) -> (rows: Seq<Seq<u8>>)
    requires
        0 < l.tree@.len() <= usize::MAX,
        l.tree@[0].0.depth == 0,
        l.procs@.len() > 0,
    ensures
        screen_text(style, status, l, height) == (head_text(style, status) + joined(
            rows,
        )).drop_last() + utf8_of("\x1b[J"),
        rows.len() + 4 <= height || rows.len() == 0,
        l.tree@.len() + 4 <= height ==> rows.len() == l.tree@.len() && forall|i: int|
            0 <= i < rows.len() ==> #[trigger] rows[i] == row_text(
                style,
                l.procs@[l.tree@[i].1 as int],
                l.tree@[i].0,
            ),
        height > 4 ==> rows.contains(
            row_text(style, l.procs@[l.tree@[0].1 as int], l.tree@[0].0),
        ),
{
    reveal(screen_text);
    let n = l.tree@.len();
    let max_rows = if height >= 4 {
        (height - 4) as usize
    } else {
        0
    };
    let roots = root_places(l.tree@, n);
    let rows = l.all_rows(style, roots, max_rows);
    assert(head_text(style, status) + empty_note(l.procs@.len()) =~= head_text(style, status));
    lemma_first_root(l.tree@, n);
    law_rows_fit(l, style, roots, max_rows);
    if n <= max_rows {
        law_all_rows_shown(l, style, roots, max_rows);
    }
    if height > 4 {
        law_roots_are_shown(l, style, roots, max_rows, 0);
    }
    rows
}

proof fn lemma_first_root(tree: Seq<(Indent, u32)>, n: nat)
    requires
        0 < n <= tree.len() <= usize::MAX,
        tree[0].0.depth == 0,
    ensures
        roots_sound(root_places(tree, n), n),
        root_places(tree, n).len() > 0,
        root_places(tree, n)[0] == 0,
    decreases n,
{
    lemma_root_places(tree, n);
    if n > 1 {
        lemma_first_root(tree, (n - 1) as nat);
    } else {
        assert(root_places(tree, 0) =~= Seq::empty());
    }
}

/// The heads of the columns end where the commands start, and a rule is as wide
/// as the screen.
pub proof fn law_heads_stand_above_the_cells(style: Style)
    ensures
        (utf8_of("PID       CPU%    RSS") + gpu_header(style.platform, style.has_gpu) + utf8_of(
            "    AGE  ",
        )).len() == 30 + gpu_width(style.platform, style.has_gpu),
        utf8_of("    AGE  COMMAND") == utf8_of("    AGE  ") + utf8_of("COMMAND"),
        rule_text(style.width) == Repeat('─', style.width).text() + utf8_of("\x1b[K\n"),
        columns(Repeat('─', style.width).text()) == style.width,
{
    broadcast use vstd::string::is_ascii_spec_bytes;

    reveal_strlit("PID       CPU%    RSS");
    reveal_strlit("   GPU%   GMEM");
    reveal_strlit("   GPU%");
    reveal_strlit("    AGE  ");
    reveal_strlit("COMMAND");
    reveal_strlit("    AGE  COMMAND");
    assert(vstd::string::is_ascii("PID       CPU%    RSS") && vstd::string::is_ascii(
        "   GPU%   GMEM",
    ) && vstd::string::is_ascii("   GPU%") && vstd::string::is_ascii("    AGE  ")
        && vstd::string::is_ascii("COMMAND") && vstd::string::is_ascii("    AGE  COMMAND"));
    assert(utf8_of("    AGE  COMMAND") =~= utf8_of("    AGE  ") + utf8_of("COMMAND"));
    lemma_rule_columns(style.width as nat);
}

proof fn lemma_rule_columns(n: nat)
    ensures
        columns(crate::bytes::repeated(crate::bytes::utf8('─'), n)) == n,
    decreases n,
{
    if n > 0 {
        let dash = crate::bytes::utf8('─');
        assert(dash =~= seq![0xe2u8, 0x94, 0x80]);
        assert(columns(dash) == 1) by {
            reveal_with_fuel(columns, 4);
        }
        lemma_rule_columns((n - 1) as nat);
        law_columns_add_up(crate::bytes::repeated(dash, (n - 1) as nat), dash);
    }
}

/// Two coloured words behind `base`, piece by piece.
proof fn lemma_opened(
    base: Seq<u8>,
    a: Seq<u8>,
    first: (Seq<u8>, Seq<u8>),
    b: Seq<u8>,
    second: (Seq<u8>, Seq<u8>),
    close: Seq<u8>,
)
    ensures
        base + (a + (first.0 + first.1 + close) + b + (second.0 + second.1 + close)) == base + a
            + first.0 + first.1 + close + b + second.0 + second.1 + close,
{
    assert(base + (a + (first.0 + first.1 + close) + b + (second.0 + second.1 + close)) =~= base + a
        + first.0 + first.1 + close + b + second.0 + second.1 + close);
}

/// Four pieces behind `base`, with nothing behind them.
proof fn lemma_behind(base: Seq<u8>, a: Seq<u8>, b: Seq<u8>, c: Seq<u8>, d: Seq<u8>)
    ensures
        base + a + b + c + d + Seq::<u8>::empty() == base + (a + b + c + d),
{
    assert(base + a + b + c + d + Seq::<u8>::empty() =~= base + (a + b + c + d));
}

/// What tells of the graphics processors stands behind the rest.
proof fn lemma_gpu_stands_behind(status: Status<'_, '_>, platform: Platform)
    ensures
        status.text(platform, true) == status.text(platform, false) + status.gpu_text(
            platform,
            true,
        ),
{
    let front = utf8_of("🌳 ") + colored(0, 255, utf8_of("load:")) + utf8_of(" ") + colored(
        0,
        intensity(status.load.hundredths as int, 100 * status.num_cpus),
        load_text(status.load),
    ) + utf8_of("  ") + colored(255, 0, utf8_of("mem:")) + utf8_of(" ") + colored(
        intensity(status.mem.used_bytes as int, status.mem.total_bytes as int),
        0,
        status.mem.status(),
    );
    assert(status.text(platform, true) == front + status.gpu_text(platform, true));
    assert(status.text(platform, false) == front + Seq::<u8>::empty());
    assert(front + Seq::<u8>::empty() =~= front);
}

/// The load is the bluer the nearer it comes to one for each processor, and the
/// memory the redder the nearer it is to being used up.
pub proof fn law_status_colours_are_shares(status: Status<'_, '_>, platform: Platform) -> (r: (u8, u8))
    requires
        status.num_cpus > 0,
        status.mem.total_bytes > 0,
    ensures
        status.text(platform, false) == utf8_of("🌳 ") + FgOpen(0, 0, 255).text() + utf8_of("load:")
            + utf8_of("\x1b[0m") + utf8_of(" ") + FgOpen(0, 0, r.0).text() + load_text(status.load)
            + utf8_of("\x1b[0m") + utf8_of("  ") + FgOpen(255, 0, 0).text() + utf8_of("mem:")
            + utf8_of("\x1b[0m") + utf8_of(" ") + FgOpen(r.1, 0, 0).text() + status.mem.status()
            + utf8_of("\x1b[0m"),
        ({
            let all = 100 * status.num_cpus;
            let load = status.load.hundredths as int;
            &&& load >= all ==> r.0 == 255
            &&& load < all ==> r.0 * all <= load * 255 < (r.0 + 1) * all
        }),
        ({
            let all = status.mem.total_bytes as int;
            let used = status.mem.used_bytes as int;
            &&& used >= all ==> r.1 == 255
            &&& used < all ==> r.1 * all <= used * 255 < (r.1 + 1) * all
        }),
{
    let blue = intensity(status.load.hundredths as int, 100 * status.num_cpus);
    let red = intensity(status.mem.used_bytes as int, status.mem.total_bytes as int);
    crate::format::law_intensity_is_a_share(
        status.load.hundredths as int,
        100 * status.num_cpus,
    );
    crate::format::law_intensity_is_a_share(
        status.mem.used_bytes as int,
        status.mem.total_bytes as int,
    );
    let close = utf8_of("\x1b[0m");
    let none = Seq::<u8>::empty();
    let load = (FgOpen(0, 0, blue).text(), load_text(status.load));
    let mem = (FgOpen(red, 0, 0).text(), status.mem.status());
    lemma_opened(
        none,
        utf8_of("🌳 "),
        (FgOpen(0, 0, 255).text(), utf8_of("load:")),
        utf8_of(" "),
        load,
        close,
    );
    let front = utf8_of("🌳 ") + colored(0, 255, utf8_of("load:")) + utf8_of(" ") + colored(
        0,
        blue,
        load_text(status.load),
    );
    assert(none + front =~= front);
    assert(none + utf8_of("🌳 ") =~= utf8_of("🌳 "));
    lemma_opened(
        front,
        utf8_of("  "),
        (FgOpen(255, 0, 0).text(), utf8_of("mem:")),
        utf8_of(" "),
        mem,
        close,
    );
    lemma_behind(
        front,
        utf8_of("  "),
        colored(255, 0, utf8_of("mem:")),
        utf8_of(" "),
        colored(red, 0, status.mem.status()),
    );
    assert(status.text(platform, false) == front + utf8_of("  ") + colored(
        255,
        0,
        utf8_of("mem:"),
    ) + utf8_of(" ") + colored(red, 0, status.mem.status()) + none);
    (blue, red)
}

/// Where there is a graphics processor, its status stands behind the others,
/// the redder the more of its memory is used and the bluer the busier it is.
pub proof fn law_gpu_status_stands_last(status: Status<'_, '_>, platform: Platform) -> (r: (u8, u8))
    requires
        status.gpu.n_gpus > 0,
        status.gpu.total_mib > 0,
    ensures
        status.text(platform, true) == status.text(platform, false) + utf8_of("  ") + FgOpen(
            0,
            0,
            255,
        ).text() + utf8_of("gpu:") + utf8_of("\x1b[0m") + utf8_of(" ") + FgOpen(r.0, 0, r.1).text()
            + status.gpu.status(platform) + utf8_of("\x1b[0m"),
        ({
            let all = status.gpu.total_mib as int;
            let used = status.gpu.total_used_mib as int;
            &&& used >= all ==> r.0 == 255
            &&& used < all ==> r.0 * all <= used * 255 < (r.0 + 1) * all
        }),
        ({
            let all = 100 * status.gpu.n_gpus;
            let busy = status.gpu.total_util as int;
            &&& busy >= all ==> r.1 == 255
            &&& busy < all ==> r.1 * all <= busy * 255 < (r.1 + 1) * all
        }),
{
    let red = intensity(status.gpu.total_used_mib as int, status.gpu.total_mib as int);
    let blue = gpu_blueness(status.gpu.total_util, status.gpu.n_gpus);
    crate::format::law_intensity_is_a_share(
        status.gpu.total_used_mib as int,
        status.gpu.total_mib as int,
    );
    crate::format::law_intensity_is_a_share(
        status.gpu.total_util as int,
        100 * status.gpu.n_gpus,
    );
    let base = status.text(platform, false);
    lemma_gpu_stands_behind(status, platform);
    lemma_opened(
        base,
        utf8_of("  "),
        (FgOpen(0, 0, 255).text(), utf8_of("gpu:")),
        utf8_of(" "),
        (FgOpen(red, 0, blue).text(), status.gpu.status(platform)),
        utf8_of("\x1b[0m"),
    );
    (red, blue)
}

} // verus!
