//! Processes from round to round: shares, filtering, and the tree.

use ltop::arena::{scope, FSmallStr, FVec, Frame};
use ltop::filter::{
    coalesce_helpers, coalesce_root, filter_has_room, filter_with_children, is_helper_of,
};
use ltop::format::{truncate, FG_CLOSE_EOL};
use ltop::gpu::GpuUsage;
use ltop::map::U32Map;
use ltop::platform::Platform;
use ltop::procfs::{parse_stat, parse_u64_ascii};
use ltop::procinfo::{compute_cpu, Packed, ProcInfo, ONE_PERCENT};
use ltop::render::{find_roots, render_tree, Listing, Style};
use ltop::syscall::Timebase;
use ltop::tree::{
    build_children, build_pid_to_idx, layout_has_room, pids_ascend, tree_layout, Indent,
};
use ltop::twrite::Put;

const CPU_MASK: u32 = 0x7fff_ffff;

const TICKS: Timebase = Timebase { numer: 10_000_000, denom: 1 };

fn percent(x: f64) -> u64 {
    (x * ONE_PERCENT as f64) as u64
}

fn proc_info<'a>(pid: u32, ppid: u32, cpu: f64, visible: bool) -> ProcInfo<'a> {
    ProcInfo {
        pid,
        ppid,
        cpu: percent(cpu),
        rss_kib: 1024,
        age_visible: ProcInfo::pack(100, visible),
        gpu: None,
        display: FSmallStr::default(),
    }
}

fn named<'a>(frame: &mut Frame<'a>, name: &[u8]) -> FSmallStr<'a> {
    frame.str("name", |b| b.extend_from_slice(name)).into_small()
}

#[test]
fn packed_round_trips_at_boundaries() {
    for platform in [Platform::Linux, Platform::Mac] {
        let shift = Packed::shift(platform);
        for total in [0u64, 1 << shift, u64::MAX] {
            let mut p = Packed::new(platform, false, total);
            assert!(!p.visible());
            assert_eq!(p.cpu_bits(), ((total >> shift) as u32) & CPU_MASK);
            let bits = p.cpu_bits();
            p.set_visible();
            assert!(p.visible());
            assert_eq!(p.cpu_bits(), bits, "set_visible must not disturb cpu bits");
        }
        assert!(Packed::new(platform, true, 7).visible());
    }
}

#[test]
fn truncate_edges() {
    let put = |s: &[u8], max: usize| {
        let mut v = Vec::new();
        truncate(s, max).put(&mut v);
        v
    };
    assert_eq!(put(b"hello", 5), b"hello");
    assert_eq!(put(b"hello!", 5), b"he...");
    assert_eq!(put(b"hello", 3), b"hel");
    assert_eq!(put(b"hello", 0), b"");
    let v = put("a🌳bc".as_bytes(), 6);
    assert_eq!(v, b"a...");
}

#[test]
fn compute_cpu_ignores_reused_pid() {
    let platform = Platform::Linux;
    let prev_entry = Some(Packed::new(platform, false, u32::MAX as u64));
    let young = compute_cpu(platform, prev_entry, 0, 100, TICKS, 2_000_000_000);
    assert_eq!(young, 0, "process younger than dt cannot match prev");
    let total = u32::MAX as u64 + (200 << Packed::shift(platform));
    let old = compute_cpu(platform, prev_entry, 60, total, TICKS, 2_000_000_000);
    assert!(old > 0, "same-identity delta should survive");
    assert_eq!(old, percent(200.0));
}

#[test]
fn compute_cpu_needs_time_between_rounds() {
    let platform = Platform::Linux;
    let before = Some(Packed::new(platform, false, 0));
    assert_eq!(compute_cpu(platform, before, 60, 100, TICKS, 10_000_000), 0);
    assert_eq!(compute_cpu(platform, None, 60, 100, TICKS, 1_000_000_000), 0);
    assert_eq!(compute_cpu(platform, before, 60, 100, TICKS, 1_000_000_000), percent(100.0));
}

#[test]
fn filter_reaches_through_hidden_parent() {
    scope(0, |frame| {
        let mut procs: FVec<ProcInfo> = frame.vec("t/procs", 8);
        let _ = procs.push(proc_info(100, 1, 6.0, true));
        let _ = procs.push(proc_info(200, 100, 0.0, false));
        let _ = procs.push(proc_info(300, 200, 2.0, false));
        let mut next: FVec<(u32, Packed)> = frame.vec("t/next", 8);
        for p in procs.iter() {
            let _ = next.push((p.pid, Packed::new(Platform::Linux, false, 0)));
        }
        let prev = U32Map::new(&[]);
        assert!(filter_has_room(frame, procs.as_slice()));
        filter_with_children(frame, &mut procs, &prev, &mut next);
        let pids: Vec<(u32, u32)> = procs.iter().map(|p| (p.pid, p.ppid)).collect();
        assert_eq!(
            pids,
            vec![(100, 1), (300, 100)],
            "grandchild visible and reparented to the terminal"
        );
        let shown: Vec<bool> = next.iter().map(|e| e.1.visible()).collect();
        assert_eq!(shown, vec![true, false, true]);
        assert!(procs.iter().all(|p| p.visible()));
    });
}

#[test]
fn helper_name_match() {
    assert!(is_helper_of(b"Code Helper", b"Code"));
    assert!(is_helper_of(b"Code Helper (Renderer)", b"Code"));
    assert!(!is_helper_of(b"Code", b"Code"));
    assert!(!is_helper_of(b"CodeHelper", b"Code"));
    assert!(!is_helper_of(b"Code Helper", b"Code Helper (Plugin)"));
    assert!(!is_helper_of(b"linear", b"Code"));
    assert!(!is_helper_of(b"Linear Helper (GPU)", b"linear"));
}

#[test]
fn filter_coalesces_helper_subtrees() {
    scope(0, |frame| {
        let gpu = Some(GpuUsage { sm_pct: 30, mem_mib: 64 });
        let code = named(frame, b"Code");
        let renderer = named(frame, b"Code Helper (Renderer)");
        let plugin = named(frame, b"Code Helper (Plugin)");
        let cli = named(frame, b"linear");
        let mut procs: FVec<ProcInfo> = frame.vec("t/procs", 8);
        let _ = procs.push(ProcInfo {
            pid: 100,
            ppid: 1,
            cpu: percent(1.0),
            rss_kib: 100,
            age_visible: ProcInfo::pack(10, true),
            gpu: None,
            display: code,
        });
        let _ = procs.push(ProcInfo {
            pid: 200,
            ppid: 100,
            cpu: percent(3.0),
            rss_kib: 1024,
            age_visible: ProcInfo::pack(10, false),
            gpu,
            display: renderer,
        });
        let _ = procs.push(ProcInfo {
            pid: 300,
            ppid: 100,
            cpu: percent(2.0),
            rss_kib: 1024,
            age_visible: ProcInfo::pack(10, false),
            gpu: None,
            display: plugin,
        });
        let _ = procs.push(ProcInfo {
            pid: 400,
            ppid: 300,
            cpu: percent(6.0),
            rss_kib: 100,
            age_visible: ProcInfo::pack(10, true),
            gpu: None,
            display: cli,
        });
        let _ = procs.push(proc_info(500, 400, 6.0, true));

        let mut next: FVec<(u32, Packed)> = frame.vec("t/next", 8);
        for p in procs.iter() {
            let _ = next.push((p.pid, Packed::new(Platform::Linux, false, 0)));
        }
        let prev = U32Map::new(&[]);
        filter_with_children(frame, &mut procs, &prev, &mut next);

        let pids: Vec<(u32, u32)> = procs.iter().map(|p| (p.pid, p.ppid)).collect();
        assert_eq!(
            pids,
            vec![(100, 1), (400, 100), (500, 400)],
            "helpers folded; CLI reparented to the surfaced root"
        );
        let root = &procs.as_slice()[0];
        assert_eq!(root.cpu, percent(6.0), "1 + 3 + 2");
        assert_eq!(root.rss_kib, 100 + 2 * 1024);
        let g = root.gpu.as_ref().expect("gpu folded up");
        assert_eq!(g.sm_pct, 30);
        assert_eq!(g.mem_mib, 64);
    });
}

#[test]
fn filter_survives_ppid_cycle() {
    scope(0, |frame| {
        let mut procs: FVec<ProcInfo> = frame.vec("t/procs", 8);
        let _ = procs.push(proc_info(10, 20, 9.0, true));
        let _ = procs.push(proc_info(20, 10, 2.0, false));
        let mut next: FVec<(u32, Packed)> = frame.vec("t/next", 8);
        for p in procs.iter() {
            let _ = next.push((p.pid, Packed::new(Platform::Linux, false, 0)));
        }
        let prev = U32Map::new(&[]);
        filter_with_children(frame, &mut procs, &prev, &mut next);
        assert!(procs.iter().any(|p| p.pid == 10), "seed survives");
    });
}

#[test]
fn shown_children_stay_for_less() {
    scope(0, |frame| {
        for (was_shown, expected) in [(false, 1usize), (true, 2)] {
            let mut procs: FVec<ProcInfo> = frame.vec("t/procs", 2);
            let _ = procs.push(proc_info(10, 1, 9.0, true));
            let _ = procs.push(proc_info(20, 10, 0.5, false));
            let mut next: FVec<(u32, Packed)> = frame.vec("t/next", 2);
            for p in procs.iter() {
                let _ = next.push((p.pid, Packed::new(Platform::Linux, false, 0)));
            }
            let before = [(20, Packed::new(Platform::Linux, was_shown, 0))];
            let prev = U32Map::new(&before);
            filter_with_children(frame, &mut procs, &prev, &mut next);
            assert_eq!(procs.len(), expected);
        }
    });
}

#[test]
fn coalescing_keeps_the_total() {
    scope(0, |frame| {
        let code = named(frame, b"Code");
        let helper = named(frame, b"Code Helper");
        let mut procs = [proc_info(1, 0, 2.0, false), proc_info(2, 1, 3.0, true)];
        procs[0].display = code;
        procs[1].display = helper;
        let index = build_pid_to_idx(frame, &procs);
        assert_eq!(coalesce_root(&procs, &index.as_map(), 1), Some(0));
        assert_eq!(coalesce_root(&procs, &index.as_map(), 0), None);
        coalesce_helpers(&mut procs, &index.as_map());
        assert_eq!(procs[0].cpu, percent(5.0));
        assert!(procs[0].visible());
        assert_eq!(procs[1].cpu, 0);
        assert_eq!(procs[1].rss_kib, 0);
        assert!(!procs[1].visible());
    });
}

#[test]
fn render_tree_caps_roots_at_max_rows() {
    let procs: Vec<ProcInfo> = (0..6).map(|i| proc_info(100 + i, 1, 6.0, true)).collect();
    let tree: Vec<(Indent, u32)> =
        (0..6).map(|i| (Indent { depth: 0, mask: 0 }, i as u32)).collect();
    let roots: Vec<usize> = (0..6).collect();
    let style =
        Style { platform: Platform::Linux, width: 80, gpu_total_mib: 0, has_gpu: false };
    let count_rows = |max_rows: usize| {
        let mut out: Vec<u8> = Vec::new();
        let listing = Listing { procs: &procs, tree: &tree };
        render_tree(&mut out, &listing, &roots, max_rows, style);
        let end = FG_CLOSE_EOL.as_bytes();
        out.windows(end.len()).filter(|w| *w == end).count()
    };
    assert_eq!(count_rows(3), 3, "capped at the terminal height");
    assert_eq!(count_rows(6), 6, "exact fit");
    assert_eq!(count_rows(10), 6);
    assert_eq!(count_rows(0), 0);
}

#[test]
fn parse_stat_without_close_paren_returns_empty() {
    assert_eq!(parse_stat(b"123 (comm-with-no-close"), (&[][..], &[][..]));
    let (comm, after) = parse_stat(b"123 (a b) R 4 5");
    assert_eq!(comm, b"a b");
    assert_eq!(after, b"R 4 5");
}

#[test]
fn names_may_hold_brackets() {
    let (comm, after) = parse_stat(b"7 (a) (b)) S 1");
    assert_eq!(comm, b"a) (b)");
    assert_eq!(after, b"S 1");
}

#[test]
fn numbers_in_digits() {
    assert_eq!(parse_u64_ascii(b"18446744073709551615"), Some(u64::MAX));
    assert_eq!(parse_u64_ascii(b"18446744073709551616"), None);
    assert_eq!(parse_u64_ascii(b""), None);
    assert_eq!(parse_u64_ascii(b"12x"), None);
    assert_eq!(parse_u64_ascii(b"007"), Some(7));
}

#[test]
fn indent_survives_depth_past_mask_width() {
    let mut v = Vec::new();
    Indent { depth: 40, mask: u32::MAX }.put(&mut v);
    assert!(!v.is_empty());
}

#[test]
fn indents_draw_lines() {
    let text = |depth: u8, mask: u32| {
        let mut v = Vec::new();
        Indent { depth, mask }.put(&mut v);
        String::from_utf8(v).unwrap()
    };
    assert_eq!(text(0, 0), "");
    assert_eq!(text(1, 0), "├─");
    assert_eq!(text(1, 1), "└─");
    assert_eq!(text(3, 0b101), "  │ └─");
    assert_eq!(text(40, 0), format!("{}├─", "│ ".repeat(31)));
    assert_eq!(Indent { depth: 40, mask: 0 }.width(), 64);
}

#[test]
fn trees_are_listed_depth_first() {
    scope(0, |frame| {
        let procs = [
            proc_info(1, 0, 0.0, true),
            proc_info(2, 1, 0.0, true),
            proc_info(3, 1, 0.0, true),
            proc_info(4, 2, 0.0, true),
            proc_info(9, 8, 0.0, true),
        ];
        assert!(pids_ascend(&procs));
        assert!(layout_has_room(frame, &procs));
        let before = frame.offset();
        let tree = tree_layout(frame, &procs);
        assert_eq!(frame.offset(), before + 5 * std::mem::size_of::<(Indent, u32)>());
        let places: Vec<(u8, u32)> = tree.iter().map(|e| (e.0.depth, e.1)).collect();
        assert_eq!(places, vec![(0, 0), (1, 1), (2, 3), (1, 2), (0, 4)]);
        let masks: Vec<u32> = tree.iter().map(|e| e.0.mask).collect();
        assert_eq!(masks, vec![0, 0, 2, 1, 0]);
        assert_eq!(find_roots(tree.as_slice()), vec![0, 4]);
    });
}

#[test]
fn depths_count_ancestors_up_to_their_limit() {
    scope(0, |frame| {
        let procs: Vec<_> = (0..300).map(|i| proc_info(i + 1, i, 0.0, true)).collect();
        let tree = tree_layout(frame, &procs);
        assert_eq!(tree.len(), 300);
        assert_eq!(tree[0].0.depth, 0);
        assert_eq!(tree[7].0.depth, 7);
        assert_eq!(tree[255].0.depth, 255);
        assert_eq!(tree[299].0.depth, 255);
    });
}

#[test]
fn cycles_are_not_listed() {
    scope(0, |frame| {
        let procs = [
            proc_info(1, 0, 0.0, true),
            proc_info(2, 3, 0.0, true),
            proc_info(3, 2, 0.0, true),
            proc_info(4, 4, 0.0, true),
        ];
        let tree = tree_layout(frame, &procs);
        let places: Vec<u32> = tree.iter().map(|e| e.1).collect();
        assert_eq!(places, vec![0]);
    });
}

#[test]
fn children_by_parent() {
    scope(0, |frame| {
        let procs = [
            proc_info(5, 7, 0.0, true),
            proc_info(7, 0, 0.0, true),
            proc_info(6, 7, 0.0, true),
        ];
        let index = build_pid_to_idx(frame, &procs);
        assert_eq!(index.as_map().iter(), &[(5, 0), (6, 2), (7, 1)]);
        let children = build_children(frame, &procs, &index.as_map());
        assert_eq!(children.bucket(0), &[] as &[u32]);
        assert_eq!(children.bucket(1), &[0, 2]);
        assert!(!pids_ascend(&procs));
    });
}

#[test]
fn a_full_arena_has_no_room() {
    scope(0, |frame| {
        let procs = [proc_info(5, 7, 0.0, true), proc_info(7, 0, 0.0, true)];
        let n = frame.remaining() - 8;
        let _rest = frame.zeros::<u8>("rest", n);
        assert!(!layout_has_room(frame, &procs));
        assert!(!filter_has_room(frame, &procs));
    });
}

#[test]
fn ages_and_visibility_share_a_word() {
    let mut p = proc_info(1, 0, 0.0, true);
    assert_eq!(p.age_secs(), 100);
    assert!(p.visible());
    p.set_visible(false);
    assert_eq!(p.age_secs(), 100);
    assert!(!p.visible());
    p.set_visible(true);
    assert_eq!(p.age_visible, 0x8000_0064);
}
