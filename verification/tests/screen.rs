//! Rows, and the screen around them.

use ltop::arena::{scope, FSmallStr, FSpan, Frame};
use ltop::format::{
    fg, format_age, format_mem, frac_color, row_color, to_intensity, FgOpen, CLEAR_TO_END,
    CURSOR_HOME, EOL, FG_CLOSE_EOL,
};
use ltop::gpu::{collect, GpuProc, GpuUsage};
use ltop::platform::Platform;
use ltop::procfs::{LoadAvg, MemInfo};
use ltop::procinfo::ProcInfo;
use ltop::render::{
    emit_elision_row, emit_proc_row, render_tree, screen, Listing, Status, Style,
};
use ltop::tree::{tree_layout, Indent};
use ltop::twrite::Put;

const PLAIN: Style =
    Style { platform: Platform::Linux, width: 60, gpu_total_mib: 0, has_gpu: false };

fn text<P: Put>(p: &P) -> String {
    let mut v: Vec<u8> = Vec::new();
    p.put(&mut v);
    String::from_utf8(v).unwrap()
}

fn named<'a>(frame: &mut Frame<'a>, name: &[u8]) -> FSmallStr<'a> {
    frame.str("name", |b| b.extend_from_slice(name)).into_small()
}

fn process<'a>(pid: u32, ppid: u32, display: FSmallStr<'a>) -> ProcInfo<'a> {
    ProcInfo {
        pid,
        ppid,
        cpu: 12_340_000,
        rss_kib: 2048,
        age_visible: ProcInfo::pack(65, true),
        gpu: None,
        display,
    }
}

#[test]
fn ages_in_six_columns() {
    assert_eq!(text(&format_age(5)), "    5s");
    assert_eq!(text(&format_age(65)), " 1m05s");
    assert_eq!(text(&format_age(3 * 3600 + 240)), " 3h04m");
    assert_eq!(text(&format_age(2 * 86400 + 5 * 3600)), " 2d05h");
    assert_eq!(text(&format_age(8_639_999)), "99d23h");
    assert_eq!(text(&format_age(8_640_000)), "99d23h");
    assert_eq!(text(&format_age(u32::MAX)), "99d23h");
}

#[test]
fn sizes_in_six_columns() {
    assert_eq!(text(&format_mem(5)), "    5K");
    assert_eq!(text(&format_mem(2048)), "    2M");
    assert_eq!(text(&format_mem(0x18_0000)), "  1.5G");
    assert_eq!(text(&format_mem(999 << 20)), "999.0G");
    assert_eq!(text(&format_mem(1000 << 20)), " 1000G");
    assert_eq!(text(&format_mem(u32::MAX)), " 4096G");
}

#[test]
fn colours_are_written_as_numbers() {
    assert_eq!(text(&FgOpen(1, 20, 255)), "\x1b[38;2;1;20;255m");
    assert_eq!(text(&fg(0, 0, 255, "load:")), "\x1b[38;2;0;0;255mload:\x1b[0m");
    let mut v: Vec<u8> = Vec::new();
    ltop::format::line(&mut v, "x");
    assert_eq!(v, b"x\x1b[K\n".to_vec());
}

#[test]
fn intensities_are_rounded_down() {
    assert_eq!(to_intensity(1, 2), 127);
    assert_eq!(to_intensity(3, 2), 255);
    assert_eq!(to_intensity(3, 0), 0);
    assert_eq!(frac_color((1, 2), (1, 4)), (127, 0, 63));
}

#[test]
fn row_colours_take_the_louder_share() {
    let quiet = row_color(Platform::Linux, 50_900_000, 0x20_0000, &None, 0);
    assert_eq!(quiet, (127, 0, 127));
    let gpu = Some(GpuUsage { sm_pct: 80, mem_mib: 900 });
    assert_eq!(row_color(Platform::Linux, 50_900_000, 0x20_0000, &gpu, 1000), (229, 0, 204));
    assert_eq!(row_color(Platform::Mac, 50_900_000, 0x20_0000, &gpu, 1000), (127, 0, 204));
    assert_eq!(row_color(Platform::Linux, u64::MAX, u32::MAX, &None, 0), (255, 0, 255));
}

#[test]
fn a_row_holds_its_cells() {
    scope(0, |frame| {
        let procs = [process(42, 1, named(frame, b"sleep"))];
        let tree = [(Indent { depth: 1, mask: 1 }, 0u32)];
        let mut out: Vec<u8> = Vec::new();
        emit_proc_row(&mut out, &procs, &tree, 0, PLAIN);
        let expected = format!(
            "\x1b[38;2;0;0;30m42        12.3     2M  1m05s  └─sleep{}",
            FG_CLOSE_EOL
        );
        assert_eq!(String::from_utf8(out).unwrap(), expected);
    });
}

#[test]
fn gpu_cells_by_system() {
    scope(0, |frame| {
        let mut procs = [process(42, 1, named(frame, b"sleep"))];
        let tree = [(Indent { depth: 0, mask: 0 }, 0u32)];
        let row = |procs: &[ProcInfo<'_>], platform: Platform| {
            let mut out: Vec<u8> = Vec::new();
            let style = Style { platform, width: 80, gpu_total_mib: 4096, has_gpu: true };
            emit_proc_row(&mut out, procs, &tree, 0, style);
            String::from_utf8(out).unwrap()
        };
        assert!(row(&procs, Platform::Linux).contains(&format!("    2M{}1m05s  sleep", " ".repeat(16))));
        assert!(row(&procs, Platform::Mac).contains(&format!("    2M{}1m05s  sleep", " ".repeat(9))));
        procs[0].gpu = Some(GpuUsage { sm_pct: 7, mem_mib: 64 });
        assert!(row(&procs, Platform::Linux).contains("    2M      7    64M  1m05s  sleep"));
        assert!(row(&procs, Platform::Mac).contains("    2M      7  1m05s  sleep"));
    });
}

#[test]
fn commands_are_cut_to_the_width() {
    scope(0, |frame| {
        let procs = [process(42, 1, named(frame, b"a-rather-long-command"))];
        let tree = [(Indent { depth: 0, mask: 0 }, 0u32)];
        let mut out: Vec<u8> = Vec::new();
        let style = Style { width: 40, ..PLAIN };
        emit_proc_row(&mut out, &procs, &tree, 0, style);
        assert!(String::from_utf8(out).unwrap().contains("  a-rathe...\x1b"));
    });
}

#[test]
fn left_out_rows_are_counted() {
    let mut out: Vec<u8> = Vec::new();
    emit_elision_row(&mut out, 12, Platform::Linux, false, (1, 0, 2));
    let expected = format!(
        "\x1b[38;2;1;0;2m{}└─12 more...{}",
        " ".repeat(30),
        FG_CLOSE_EOL
    );
    assert_eq!(String::from_utf8(out).unwrap(), expected);
    let mut wide: Vec<u8> = Vec::new();
    emit_elision_row(&mut wide, 1, Platform::Linux, true, (0, 0, 0));
    assert!(String::from_utf8(wide).unwrap().contains(&format!("m{}└─", " ".repeat(44))));
    let mut mac: Vec<u8> = Vec::new();
    emit_elision_row(&mut mac, 1, Platform::Mac, true, (0, 0, 0));
    assert!(String::from_utf8(mac).unwrap().contains(&format!("m{}└─", " ".repeat(37))));
}

#[test]
fn children_share_the_rows_that_are_left() {
    scope(0, |frame| {
        let mut procs: Vec<ProcInfo> = vec![process(1, 0, named(frame, b"a"))];
        for i in 0..6 {
            procs.push(process(10 + i, 1, named(frame, b"kid")));
        }
        procs.push(process(50, 0, named(frame, b"b")));
        procs.push(process(51, 50, named(frame, b"kid")));
        let tree = tree_layout(frame, &procs);
        let roots = [0usize, 7];
        let rows = |max_rows: usize| {
            let mut out: Vec<u8> = Vec::new();
            let listing = Listing { procs: &procs, tree: tree.as_slice() };
            render_tree(&mut out, &listing, &roots, max_rows, PLAIN);
            String::from_utf8(out).unwrap()
        };
        assert_eq!(rows(9).matches(EOL).count(), 9);
        assert!(!rows(9).contains("more..."));
        assert_eq!(rows(6).matches(EOL).count(), 6);
        assert!(rows(6).contains("4 more..."));
        assert_eq!(rows(2).matches(EOL).count(), 2);
        assert!(!rows(2).contains("more..."));
        assert_eq!(rows(1).matches(EOL).count(), 1);
        assert!(rows(1).contains("a\x1b[0m"));
        assert_eq!(rows(0), "");
    });
}

#[test]
fn the_screen_fits_and_does_not_scroll() {
    scope(0, |frame| {
        let procs: Vec<ProcInfo> = (0..50).map(|i| process(i + 1, 0, FSmallStr::default())).collect();
        let tree = tree_layout(frame, &procs);
        let entries: FSpan<(u32, GpuProc)> = frame.empty();
        let gpu = collect(&entries, (0, 0, 0, 0));
        let load = LoadAvg { text: b"0.50 0.40 0.30".to_vec(), hundredths: 50 };
        let mem = MemInfo { used_bytes: 1 << 30, total_bytes: 4 << 30 };
        let status = Status { load: &load, num_cpus: 2, mem, gpu: &gpu };
        let listing = Listing { procs: &procs, tree: tree.as_slice() };
        let out = screen(PLAIN, &status, &listing, 24);
        let out = String::from_utf8(out).unwrap();
        assert_eq!(out.matches('\n').count(), 23);
        assert!(out.starts_with(CURSOR_HOME));
        assert!(out.ends_with(CLEAR_TO_END));
        assert!(out.contains(
            "🌳 \x1b[38;2;0;0;255mload:\x1b[0m \x1b[38;2;0;0;63m0.50 0.40 0.30\x1b[0m  "
        ));
        assert!(out.contains(
            "\x1b[38;2;255;0;0mmem:\x1b[0m \x1b[38;2;63;0;0m1.0G / 4.0G used\x1b[0m\x1b[K\n"
        ));
        assert!(out.contains("PID       CPU%    RSS    AGE  COMMAND"));
        assert!(out.contains(&"─".repeat(60)));
    });
}

#[test]
fn an_empty_screen_says_so() {
    scope(0, |frame| {
        let entries: FSpan<(u32, GpuProc)> = frame.empty();
        let gpu = collect(&entries, (2, 50, 1024, 4096));
        let load = LoadAvg { text: Vec::new(), hundredths: 0 };
        let mem = MemInfo { used_bytes: 0, total_bytes: 0 };
        let status = Status { load: &load, num_cpus: 1, mem, gpu: &gpu };
        let listing = Listing { procs: &[], tree: &[] };
        let style = Style { has_gpu: true, ..PLAIN };
        let out = String::from_utf8(screen(style, &status, &listing, 24)).unwrap();
        assert!(out.contains("(no matching processes)\x1b[K\x1b[J"));
        assert!(out.contains("\x1b[38;2;0;0;255mgpu:\x1b[0m \x1b[38;2;63;0;63m25%  1.0G / 4.0G\x1b[0m"));
        assert!(out.contains("   GPU%   GMEM    AGE  COMMAND"));
        assert!(out.contains("\x1b[38;2;0;0;0m?\x1b[0m"));
    });
}
