//! From what the system tells to the list of processes, and the pace of rounds.

use ltop::arena::{scope, FSpan, Label};
use ltop::collect::{
    attach_gpu, collect_has_room, collect_procs, drop_repeats, gpu_pids, list_pids, Reading, Record, Round,
};
use ltop::gpu::{collect, GpuProc, GpuUsage};
use ltop::map::{U32Map, U32Set};
use ltop::platform::Platform;
use ltop::procfs::{Clock, LoadAvg, MemInfo};
use ltop::procinfo::{Packed, ProcRecord, ONE_PERCENT};
use ltop::render::Style;
use ltop::syscall::Timebase;
use ltop::tick::{tick, Lack, Tick};
use ltop::ticker::{parse_args, Action, Event, Request, Ticker, FLAG_ONCE};
use ltop::trace::{alloc_line, push, push_u32, rewind, uncommit, Sink};

const CLOCK: Clock = Clock { page_size: 4096, ticks: 100, boot: 1000, now: 2000 };

const TICKS: Timebase = Timebase { numer: 10_000_000, denom: 1 };

fn stat(name: &str, ppid: u32, utime: u64, start: u64, pages: u64) -> Record {
    let text = format!(
        "1 ({name}) S {ppid} 1 1 0 -1 0 0 0 0 0 {utime} 0 0 0 20 0 1 0 {start} 0 {pages} 0\n"
    );
    Record::Stat(text.into_bytes())
}

fn reading(pid: u32, record: Record, cmdline: &[u8]) -> Reading {
    Reading { pid, record, cmdline: cmdline.to_vec() }
}

fn round<'a>(platform: Platform, prev: &'a [(u32, Packed)], gpu: &'a [u32]) -> Round<'a> {
    Round {
        platform,
        clock: CLOCK,
        base: TICKS,
        dt_ns: 1_000_000_000,
        prev: U32Map::new(prev),
        gpu_pids: U32Set::new(gpu),
    }
}

#[test]
fn quiet_processes_keep_their_name() {
    scope(0, |frame| {
        let r = round(Platform::Linux, &[], &[]);
        let readings = vec![reading(7, stat("sleepy", 3, 50, 90000, 10), b"/bin/other\0")];
        assert!(r.takes_reading(&readings[0]));
        assert!(collect_has_room(frame, &r, &readings));
        let (procs, next) = collect_procs(frame, &r, &readings);
        let p = &procs.as_slice()[0];
        assert_eq!((p.pid, p.ppid, p.cpu, p.rss_kib), (7, 3, 0, 40));
        assert_eq!(p.age_secs(), 100);
        assert!(!p.visible());
        assert_eq!(p.display.as_slice(), b"sleepy");
        assert_eq!(next.as_slice()[0], (7, Packed::new(Platform::Linux, false, 50)));
    });
}

#[test]
fn busy_processes_show_their_command() {
    scope(0, |frame| {
        let before = [(7, Packed::new(Platform::Linux, false, 0))];
        let r = round(Platform::Linux, &before, &[]);
        let readings = vec![reading(7, stat("python3", 3, 50, 90000, 10), b"python3\0run.py\0")];
        let (procs, _) = collect_procs(frame, &r, &readings);
        let p = &procs.as_slice()[0];
        assert_eq!(p.cpu, 50 * ONE_PERCENT);
        assert!(p.visible());
        assert_eq!(p.display.as_slice(), b"run.py");
    });
}

#[test]
fn noise_stays_hidden_but_keeps_its_parent() {
    scope(0, |frame| {
        let before = [(7, Packed::new(Platform::Linux, false, 0))];
        let r = round(Platform::Linux, &before, &[7]);
        let readings = vec![reading(7, stat("chrome", 3, 50, 90000, 99999), b"/opt/chrome\0")];
        let (procs, _) = collect_procs(frame, &r, &readings);
        let p = &procs.as_slice()[0];
        assert_eq!((p.ppid, p.cpu), (3, 0));
        assert!(!p.visible());
        assert!(p.display.is_empty());
    });
}

#[test]
fn large_processes_are_shown() {
    scope(0, |frame| {
        let r = round(Platform::Linux, &[], &[]);
        let readings = vec![
            reading(7, stat("big", 3, 0, 90000, 32768), b"/usr/bin/big\0"),
            reading(8, stat("small", 3, 0, 90000, 32767), b"/usr/bin/small\0"),
        ];
        let (procs, _) = collect_procs(frame, &r, &readings);
        assert!(procs.as_slice()[0].visible());
        assert!(!procs.as_slice()[1].visible());
    });
}

#[test]
fn ended_processes_leave_a_stub() {
    scope(0, |frame| {
        let r = round(Platform::Linux, &[], &[]);
        let readings = vec![
            reading(7, Record::Missing, b""),
            reading(8, Record::Stat(Vec::new()), b""),
        ];
        let (procs, next) = collect_procs(frame, &r, &readings);
        for (i, p) in procs.iter().enumerate() {
            assert_eq!((p.ppid, p.cpu, p.rss_kib, p.age_visible), (0, 0, 0, 0));
            assert!(p.display.is_empty());
            assert_eq!(next.as_slice()[i].0, p.pid);
        }
    });
}

#[test]
fn records_of_tasks() {
    scope(0, |frame| {
        let mut task = vec![0u8; 96];
        task[8..16].copy_from_slice(&(200u64 << 20).to_le_bytes());
        task[16..24].copy_from_slice(&3000u64.to_le_bytes());
        task[24..32].copy_from_slice(&400u64.to_le_bytes());
        let mut bsd = vec![0u8; 232];
        bsd[16..20].copy_from_slice(&5u32.to_le_bytes());
        bsd[120..128].copy_from_slice(&1900u64.to_le_bytes());
        let mut blob = Vec::new();
        blob.extend_from_slice(&2i32.to_le_bytes());
        blob.extend_from_slice(b"/bin/tool\0\0\0tool\0-v\0HOME=/\0");
        let record = Record::Task { task, bsd, filled: 232, name: b"tool\0junk".to_vec() };
        let r = round(Platform::Mac, &[], &[]);
        let readings = vec![reading(9, record, &blob)];
        assert!(r.takes_reading(&readings[0]));
        let (procs, next) = collect_procs(frame, &r, &readings);
        let p = &procs.as_slice()[0];
        assert_eq!((p.ppid, p.age_secs(), p.rss_kib), (5, 100, 200 << 10));
        assert!(p.visible());
        assert_eq!(p.display.as_slice(), b"tool");
        assert_eq!(next.as_slice()[0].1, Packed::new(Platform::Mac, false, 3400));
    });
}

#[test]
fn readings_that_cannot_be_taken_apart() {
    let r = round(Platform::Linux, &[], &[]);
    assert!(!r.takes_reading(&reading(7, Record::Stat(b") (".to_vec()), b"")));
    assert!(r.takes_reading(&reading(7, Record::Stat(b"junk".to_vec()), b"")));
    let record = Record::Task { task: vec![0; 3], bsd: vec![0; 232], filled: 0, name: vec![] };
    assert!(!r.takes_reading(&reading(7, record, b"")));
}

#[test]
fn arguments_matter_only_where_they_can() {
    let before = [
        (7, Packed::new(Platform::Linux, true, 0)),
        (8, Packed::new(Platform::Linux, false, 0)),
    ];
    let mut r = round(Platform::Linux, &before, &[5]);
    r.base = Timebase { numer: 1_000_000, denom: 1 };
    let wants = |pid: u32, record: Record| {
        let p = record.read(CLOCK).unwrap();
        r.wants_args(pid, &p)
    };
    assert!(wants(7, stat("x", 1, 6, 90000, 1)));
    assert!(!wants(8, stat("x", 1, 6, 90000, 1)));
    assert!(wants(8, stat("x", 1, 10, 90000, 1)));
    assert!(wants(5, stat("x", 1, 0, 90000, 1)));
    assert!(wants(9, stat("lean", 1, 0, 90000, 1)));
    assert!(!wants(9, stat("leaner", 1, 0, 90000, 1)));
}

#[test]
fn processes_are_listed_once_and_without_the_program() {
    let pids = list_pids(Platform::Linux, &vec![5, 1, 5, 9, 0], 9);
    assert_eq!(pids, vec![5, 1, 5, 0]);
    assert_eq!(drop_repeats(&pids), vec![5, 1, 0]);
    assert_eq!(drop_repeats(&vec![3, 1, 2]), vec![3, 1, 2]);
    assert_eq!(list_pids(Platform::Mac, &vec![5, 0, u32::MAX, 1], 9), vec![5, 1]);
}

#[test]
fn shares_of_the_graphics_processor() {
    scope(0, |frame| {
        let entries: FSpan<(u32, GpuProc)> = frame.collect(
            "entries",
            [
                (3u32, GpuProc { sm_pct: 4, mem_mib: 10 }),
                (7, GpuProc { sm_pct: 5, mem_mib: 0 }),
            ]
            .iter()
            .copied(),
        );
        let gpu = collect(&entries, (1, 9, 10, 100));
        assert_eq!(gpu_pids(Platform::Linux, &gpu), vec![3, 7]);
        assert_eq!(gpu_pids(Platform::Mac, &gpu), vec![7]);
        let r = round(Platform::Linux, &[], &[]);
        let readings = vec![
            reading(3, stat("a", 1, 0, 90000, 1), b""),
            reading(7, stat("b", 1, 0, 90000, 1), b""),
        ];
        let (mut procs, _) = collect_procs(frame, &r, &readings);
        attach_gpu(Platform::Linux, procs.as_mut_slice(), &gpu);
        assert_eq!(procs.as_slice()[0].gpu, Some(GpuUsage { sm_pct: 4, mem_mib: 10 }));
        assert_eq!(procs.as_slice()[1].gpu, None);
    });
}

fn args(list: &[&str]) -> Vec<Vec<u8>> {
    list.iter().map(|a| a.as_bytes().to_vec()).collect()
}

#[test]
fn flags_are_found_behind_the_name() {
    assert_eq!(parse_args(&args(&["ltop"])), Request::Run(0));
    assert_eq!(parse_args(&args(&["ltop", "--once"])), Request::Run(FLAG_ONCE));
    assert_eq!(parse_args(&args(&["ltop", "--once", "--check"])), Request::Check);
    assert_eq!(parse_args(&args(&["--check"])), Request::Run(0));
}

#[test]
fn rounds_come_early_once_and_then_at_one_pace() {
    let (mut t, mut action) = Ticker::start(0);
    let mut steps = Vec::new();
    let mut n = 0;
    let mut draws = 0;
    while draws < 4 {
        let event = match action {
            Action::Draw => {
                if draws > 0 {
                    steps.push(n);
                }
                n = 0;
                draws += 1;
                Event::Drawn
            }
            Action::Uncommit => Event::Uncommitted,
            Action::Poll => Event::Key(None),
            Action::Sleep => {
                n += 1;
                Event::Slept
            }
            Action::Quit => unreachable!(),
        };
        (t, action) = t.step(event);
    }
    assert_eq!(steps, vec![6, 40, 40]);
}

#[test]
fn keys_end_the_program() {
    let (t, _) = Ticker::start(0);
    for key in [b'q', 3, 0x1c] {
        assert_eq!(t.step(Event::Key(Some(key))).1, Action::Quit);
    }
    assert_eq!(t.step(Event::Key(Some(b'x'))).1, Action::Sleep);
    assert_eq!(t.step(Event::Key(None)).1, Action::Sleep);
}

#[test]
fn one_round_is_enough_once() {
    let (t, action) = Ticker::start(FLAG_ONCE);
    assert_eq!(action, Action::Draw);
    assert_eq!(t.step(Event::Drawn).1, Action::Quit);
}

#[test]
fn history_of_the_arena() {
    assert_eq!(alloc_line(Label::from("procs"), 4096), b"A 4096 procs\n".to_vec());
    assert_eq!(rewind(0), b"R 0\n".to_vec());
    assert_eq!(uncommit(512), b"U 512\n".to_vec());
}

#[test]
fn numbers_are_pushed_in_place() {
    let mut buf = [b'.'; 8];
    let end = push(&mut buf, 1, b"ab");
    assert_eq!(end, 3);
    let end = push_u32(&mut buf, end, 405);
    assert_eq!(end, 6);
    assert_eq!(&buf, b".ab405..");
}

#[test]
fn the_history_file_is_opened_once() {
    assert!(Sink::Unopened.wants_open());
    assert_eq!(Sink::opened(-1), Sink::Failed);
    assert!(!Sink::opened(-1).wants_open());
    assert_eq!(Sink::opened(5).get_fd(), Some(5));
    assert_eq!(Sink::Failed.get_fd(), None);
}

#[test]
fn a_round_shows_what_is_busy_and_remembers_all() {
    scope(0, |frame| {
        let before = [
            (20, Packed::new(Platform::Linux, false, 0)),
            (30, Packed::new(Platform::Linux, false, 0)),
        ];
        let r = round(Platform::Linux, &before, &[]);
        let readings = vec![
            reading(30, stat("kid", 20, 2, 90000, 10), b"/bin/kid\0"),
            reading(20, stat("busy", 10, 50, 90000, 10), b"/bin/busy\0"),
            reading(10, stat("quiet", 1, 0, 90000, 10), b""),
        ];
        let entries: FSpan<(u32, GpuProc)> = frame.empty();
        let gpu = collect(&entries, (0, 0, 0, 0));
        let load = LoadAvg { text: b"0.10 0.20 0.30".to_vec(), hundredths: 10 };
        let input = Tick {
            round: &r,
            readings: &readings,
            gpu: &gpu,
            load: &load,
            num_cpus: 4,
            mem: MemInfo { used_bytes: 1 << 30, total_bytes: 2 << 30 },
            style: Style {
                platform: Platform::Linux,
                width: 60,
                gpu_total_mib: 0,
                has_gpu: false,
            },
            height: 24,
        };
        let (text, next) = match tick(frame, &input) {
            Ok(drawn) => drawn,
            Err(_) => panic!("no room"),
        };
        let text = String::from_utf8(text).unwrap();
        let rows: Vec<&str> = text.lines().skip(4).collect();
        assert_eq!(rows.len(), 2);
        assert!(rows[0].contains("20        50.0    40K  1m40s  busy"));
        assert!(rows[1].contains("30         2.0    40K  1m40s  └─kid"));
        let kept: Vec<(u32, bool)> = next.iter().map(|e| (e.0, e.1.visible())).collect();
        assert_eq!(kept, vec![(10, false), (20, true), (30, true)]);
        assert_eq!(frame.offset(), 3 * 32 + 3 * 8 + "busykidquiet".len() + 2 * 12);
    });
}

#[test]
fn thousands_of_processes_are_drawn() {
    scope(0, |frame| {
        assert_eq!(std::mem::size_of::<ProcRecord>(), 32);
        assert_eq!(std::mem::align_of::<ProcRecord>(), 4);
        let r = round(Platform::Linux, &[], &[]);
        let mut readings = vec![reading(1, stat("init", 0, 0, 90000, 10), b"")];
        for pid in 2..5001 {
            readings.push(reading(pid, stat("kid", 1, 0, 90000, 10), b""));
        }
        readings.push(reading(6000, stat("lean", 1, 0, 90000, 10), b"lean\0"));
        let entries: FSpan<(u32, GpuProc)> = frame.empty();
        let gpu = collect(&entries, (0, 0, 0, 0));
        let load = LoadAvg { text: Vec::new(), hundredths: 0 };
        let input = Tick {
            round: &r,
            readings: &readings,
            gpu: &gpu,
            load: &load,
            num_cpus: 1,
            mem: MemInfo { used_bytes: 0, total_bytes: 0 },
            style: Style {
                platform: Platform::Linux,
                width: 60,
                gpu_total_mib: 0,
                has_gpu: false,
            },
            height: 24,
        };
        let (text, next) = match tick(frame, &input) {
            Ok(drawn) => drawn,
            Err(_) => panic!("no room"),
        };
        assert_eq!(String::from_utf8(text).unwrap().lines().count(), 5);
        assert_eq!(next.len(), 5001);
    });
}

#[test]
fn a_round_without_room_is_not_drawn() {
    scope(0, |frame| {
        let n = frame.remaining() - 16;
        let _rest = frame.zeros::<u8>("rest", n);
        let r = round(Platform::Linux, &[], &[]);
        let readings = vec![reading(10, stat("quiet", 1, 0, 90000, 10), b"")];
        let entries: FSpan<(u32, GpuProc)> = frame.empty();
        let gpu = collect(&entries, (0, 0, 0, 0));
        let load = LoadAvg { text: Vec::new(), hundredths: 0 };
        let input = Tick {
            round: &r,
            readings: &readings,
            gpu: &gpu,
            load: &load,
            num_cpus: 1,
            mem: MemInfo { used_bytes: 0, total_bytes: 0 },
            style: Style {
                platform: Platform::Linux,
                width: 60,
                gpu_total_mib: 0,
                has_gpu: false,
            },
            height: 24,
        };
        assert!(matches!(tick(frame, &input), Err(Lack::Processes)));
    });
}
