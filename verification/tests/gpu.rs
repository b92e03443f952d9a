//! Readings of the graphics processors.

use ltop::arena::{scope, FSpan};
use ltop::gpu::agx;
use ltop::gpu::agx::{
    compute_pct, count_agx_devices, parse_creator_pid_bytes, read_agx_used_mib_blob,
    read_user_client_blob, DeviceReading,
};
use ltop::gpu::rm;
use ltop::gpu::rm::{next_question, Question, Reading, Stage};
use ltop::gpu::{collect, GpuProc, GpuUsage};
use ltop::osbinary::OsBinary;
use ltop::platform::Platform;

const MAGIC: [u8; 4] = [0xd3, 0x00, 0x00, 0x00];
const TY_DICT: u8 = 0x01;
const TY_ARRAY: u8 = 0x02;
const TY_NUMBER: u8 = 0x04;
const TY_SYMBOL: u8 = 0x08;
const TY_STRING: u8 = 0x09;

fn emit_tag(out: &mut Vec<u8>, ty: u8, operand: u32, eoc: bool) {
    let raw = ((ty as u32) << 24) | (operand & 0x00ff_ffff)
            | (if eoc { 0x8000_0000 } else { 0 });
    out.extend_from_slice(&raw.to_le_bytes());
}

fn emit_symbol(out: &mut Vec<u8>, s: &[u8], eoc: bool) {
    emit_tag(out, TY_SYMBOL, s.len() as u32 + 1, eoc);
    out.extend_from_slice(s);
    out.push(0);
    while out.len() % 4 != 0 { out.push(0); }
}

fn emit_string(out: &mut Vec<u8>, s: &[u8], eoc: bool) {
    emit_tag(out, TY_STRING, s.len() as u32, eoc);
    out.extend_from_slice(s);
    while out.len() % 4 != 0 { out.push(0); }
}

fn emit_number(out: &mut Vec<u8>, value: u64, eoc: bool) {
    emit_tag(out, TY_NUMBER, 64, eoc);
    out.extend_from_slice(&(value as u32).to_le_bytes());
    out.extend_from_slice(&((value >> 32) as u32).to_le_bytes());
}

#[test]
fn read_agx_used_mib_blob_synthetic() {
    let mut b = Vec::new();
    b.extend_from_slice(&MAGIC);
    emit_tag(&mut b, TY_DICT, 1, false);
    emit_symbol(&mut b, b"PerformanceStatistics", false);
    emit_tag(&mut b, TY_DICT, 1, true);
    emit_symbol(&mut b, b"In use system memory", false);
    emit_number(&mut b, 12_451_840, true);

    let mut ckpts = vec![0u32; 32];
    let bin = OsBinary::parse(&b, &mut ckpts).expect("parse");
    assert_eq!(read_agx_used_mib_blob(&bin), Some(11));
}

#[test]
fn read_user_client_blob_synthetic() {
    let mut b = Vec::new();
    b.extend_from_slice(&MAGIC);
    emit_tag(&mut b, TY_DICT, 2, false);
    emit_symbol(&mut b, b"IOUserClientCreator", false);
    emit_string(&mut b, b"pid 619, WindowServer", false);
    emit_symbol(&mut b, b"AppUsage", false);
    emit_tag(&mut b, TY_ARRAY, 2, true);
    emit_tag(&mut b, TY_DICT, 1, false);
    emit_symbol(&mut b, b"accumulatedGPUTime", false);
    emit_number(&mut b, 1_000_000_000, true);
    emit_tag(&mut b, TY_DICT, 1, true);
    emit_symbol(&mut b, b"accumulatedGPUTime", false);
    emit_number(&mut b, 500_000_000, true);

    let mut ckpts = vec![0u32; 64];
    let bin = OsBinary::parse(&b, &mut ckpts).expect("parse");
    assert_eq!(read_user_client_blob(&bin), Some((619, 1_500_000_000)));
}

#[test]
fn read_user_client_blob_missing_creator_returns_none() {
    let mut b = Vec::new();
    b.extend_from_slice(&MAGIC);
    emit_tag(&mut b, TY_DICT, 1, false);
    emit_symbol(&mut b, b"AppUsage", false);
    emit_tag(&mut b, TY_ARRAY, 0, true);
    let mut ckpts = vec![0u32; 16];
    let bin = OsBinary::parse(&b, &mut ckpts).expect("parse");
    assert_eq!(read_user_client_blob(&bin), None);
}

#[test]
fn read_user_client_blob_missing_appusage_returns_zero_ns() {
    let mut b = Vec::new();
    b.extend_from_slice(&MAGIC);
    emit_tag(&mut b, TY_DICT, 1, false);
    emit_symbol(&mut b, b"IOUserClientCreator", false);
    emit_string(&mut b, b"pid 1234, app", true);
    let mut ckpts = vec![0u32; 16];
    let bin = OsBinary::parse(&b, &mut ckpts).expect("parse");
    assert_eq!(read_user_client_blob(&bin), Some((1234, 0)));
}

#[test]
fn compute_pct_cases() {
    let s = 1_000_000_000u64;
    assert_eq!(compute_pct(0, 5 * s, s), 0);
    assert_eq!(compute_pct(s, s, s), 0);
    assert_eq!(compute_pct(2 * s, s, s), 0);
    assert_eq!(compute_pct(s, 2 * s, 0), 0);
    assert_eq!(compute_pct(s, s + s / 2, s), 50);
    assert_eq!(compute_pct(s, 2 * s, s), 100);
    assert_eq!(compute_pct(s, 3 * s, s), 100);
    assert_eq!(compute_pct(s, s + 1_000, s), 0);
    assert_eq!(compute_pct(1, u64::MAX, s), 100);
}

#[test]
fn long_times_do_not_lose_their_share() {
    assert_eq!(compute_pct(1, u64::MAX, u64::MAX), 99);
    assert_eq!(compute_pct(1, 1 + u64::MAX / 2, u64::MAX - 1), 50);
}

#[test]
fn questions_to_a_device() {
    assert_eq!(next_question(Question::Memory, &None), Question::Done);
    assert_eq!(next_question(Question::Memory, &Some(vec![0; 16])), Question::Samples);
    assert_eq!(next_question(Question::Samples, &None), Question::Pids);
    assert_eq!(next_question(Question::Pids, &None), Question::Done);
    let mut pids = rm::pids_request();
    assert_eq!(next_question(Question::Pids, &Some(pids.clone())), Question::Done);
    pids[8] = 1;
    assert_eq!(next_question(Question::Pids, &Some(pids)), Question::PidInfo);
    assert_eq!(next_question(Question::PidInfo, &None), Question::Done);
    assert_eq!(next_question(Question::Done, &None), Question::Done);
}

#[test]
fn parse_creator_pid_cases() {
    for &(input, expect) in &[
        (&b"pid 619, WindowServer\0"[..], Some(619u32)),
        (&b"pid 1, launchd\0"[..],         Some(1)),
        (&b"pid 4294967295, x\0"[..],      Some(u32::MAX)),
        (&b"pid 4294967296, x\0"[..],      None),
        (&b"pid 0, scheduler\0"[..],       Some(0)),
        (&b"PID 619, X\0"[..],             None),
        (&b"\0"[..],                       None),
        (&b"pid\0"[..],                    None),
        (&b"pid abc, X\0"[..],             None),
        (&b"pid , X\0"[..],                None),
    ] {
        let got = parse_creator_pid_bytes(input);
        assert_eq!(got, expect, "input={:?}", std::str::from_utf8(input).unwrap_or("?"));
    }
}

fn used_memory_blob(bytes: u64) -> Vec<u8> {
    let mut b = Vec::new();
    b.extend_from_slice(&MAGIC);
    emit_tag(&mut b, TY_DICT, 1, false);
    emit_symbol(&mut b, b"PerformanceStatistics", false);
    emit_tag(&mut b, TY_DICT, 1, true);
    emit_symbol(&mut b, b"In use system memory", false);
    emit_number(&mut b, bytes, true);
    b
}

fn client_blob(creator: &[u8], ns: u64) -> Vec<u8> {
    let mut b = Vec::new();
    b.extend_from_slice(&MAGIC);
    emit_tag(&mut b, TY_DICT, 2, false);
    emit_symbol(&mut b, b"IOUserClientCreator", false);
    emit_string(&mut b, creator, false);
    emit_symbol(&mut b, b"AppUsage", false);
    emit_tag(&mut b, TY_ARRAY, 1, true);
    emit_tag(&mut b, TY_DICT, 1, true);
    emit_symbol(&mut b, b"accumulatedGPUTime", false);
    emit_number(&mut b, ns, true);
    b
}

#[test]
fn agx_init_and_first_tick() {
    scope(0, |frame| {
        let state = agx::init(frame, 1, 16 << 30);
        assert!(state.has_gpu());
        let device = DeviceReading {
            own: Some(used_memory_blob(12_451_840)),
            clients: vec![Some(client_blob(b"pid 619, WindowServer", 1_000_000_000))],
        };
        let prev: FSpan<(u32, u64)> = frame.empty();
        let (entries, new_prev, totals) =
            agx::populate(&state, &prev, frame, 1_000_000_000, &Some(vec![device]));
        assert_eq!(entries.len(), 0);
        assert_eq!(new_prev.as_slice(), &[(619, 1_000_000_000)]);
        let (n, _util, used, total) = totals;
        assert_eq!(n, 1);
        assert_eq!(total, 16 << 10);
        assert_eq!(used, 11);
    });
}

#[test]
fn agx_second_tick_tells_shares() {
    scope(0, |frame| {
        let state = agx::init(frame, 1, 16 << 30);
        let prev: FSpan<(u32, u64)> =
            frame.collect("prev", [(619u32, 1_000_000_000u64)].iter().copied());
        let device = DeviceReading {
            own: None,
            clients: vec![
                Some(client_blob(b"pid 619, WindowServer", 1_500_000_000)),
                Some(client_blob(b"pid 7, other", 9)),
                None,
            ],
        };
        let (entries, new_prev, totals) =
            agx::populate(&state, &prev, frame, 1_000_000_000, &Some(vec![device]));
        assert_eq!(entries.as_slice(), &[(619, GpuProc { sm_pct: 50, mem_mib: 0 })]);
        assert_eq!(new_prev.as_slice(), &[(7, 9), (619, 1_500_000_000)]);
        assert_eq!(totals.1, 50);
    });
}

#[test]
fn no_accelerator_tells_nothing() {
    scope(0, |frame| {
        let state = agx::init(frame, 0, 16 << 30);
        assert!(!state.has_gpu());
        let prev: FSpan<(u32, u64)> = frame.empty();
        let (entries, new_prev, totals) = agx::populate(&state, &prev, frame, 1, &None);
        assert!(entries.is_empty());
        assert!(new_prev.is_empty());
        assert_eq!((totals.0, totals.1, totals.2), (0, 0, 0));
    });
}

#[test]
fn accelerators_are_counted_up_to_the_end() {
    assert_eq!(count_agx_devices(3, 5, &[8, 9, 0]), 2);
    assert_eq!(count_agx_devices(3, 5, &[0]), 0);
    assert_eq!(count_agx_devices(0, 5, &[8, 0]), 0);
    assert_eq!(count_agx_devices(3, 0, &[8, 0]), 0);
}

#[test]
fn struct_sizes_match_driver_headers() {
    assert_eq!(rm::CARD_INFO_SIZE, 72);
    assert_eq!(rm::ENGINE_SAMPLE_SIZE, 128);
    assert_eq!(rm::PERFMON_SAMPLE_SIZE, 776);
    assert_eq!(rm::GET_PIDS_SIZE, 3812);
    assert_eq!(rm::VIDEO_MEMORY_SIZE, 48);
    assert_eq!(rm::SMC_SUBSCRIPTION_SIZE, 8);
    assert_eq!(rm::PID_INFO_SIZE, 72);
    assert_eq!(rm::GET_PID_INFO_SIZE, 14408);
    assert_eq!(rm::PERFMON_PARAMS_SIZE, 16 + 72 * rm::PERFMON_SAMPLE_SIZE);
    assert_eq!(rm::perfmon_request().len(), rm::PERFMON_PARAMS_SIZE);
    assert_eq!(rm::pids_request().len(), rm::GET_PIDS_SIZE);
    assert_eq!(rm::pid_info_request(&vec![0u8; rm::GET_PIDS_SIZE]).len(), rm::GET_PID_INFO_SIZE);
}

fn all_well(n: u32) -> Stage {
    let mut stage = Stage::OpenControl;
    for _ in 0..100 {
        let got = match stage {
            Stage::OpenControl => Some(4),
            Stage::CheckVersion => Some(0),
            Stage::CountCards => Some(n),
            Stage::AllocRoot { .. } => Some(0xc1d0_0001),
            Stage::OpenDevice { i, .. } => Some(5 + i),
            Stage::AllocDevice { .. } => Some(0),
            Stage::AllocSubdevice { .. } => Some(0),
            Stage::Ready { .. } => return stage,
            Stage::Failed => return stage,
        };
        stage = rm::try_init(stage, got);
    }
    stage
}

#[test]
fn rm_init_succeeds() {
    scope(0, |frame| {
        let stage = all_well(2);
        assert_eq!(stage, Stage::Ready { n: 2, client: 0xc1d0_0001 });
        let state = rm::init(frame, stage, 4);
        assert!(state.has_gpu());
        assert_eq!(state.ctl_fd(), Some(4));
        assert_eq!(state.client(), 0xc1d0_0001);
        assert_eq!(state.subdevices(), &[0xc1d0_0200, 0xc1d0_0201]);
    });
}

#[test]
fn rm_init_gives_up_at_the_first_failure() {
    for failing in 0..9 {
        let mut stage = Stage::OpenControl;
        for k in 0..9 {
            stage = rm::try_init(stage, if k == failing { None } else { Some(2) });
        }
        assert_eq!(stage, Stage::Failed);
    }
    scope(0, |frame| {
        let state = rm::init(frame, Stage::Failed, -1);
        assert!(!state.has_gpu());
        assert_eq!(state.ctl_fd(), None);
    });
}

#[test]
fn driver_version_is_the_dotted_number() {
    let text = b"NVRM version: NVIDIA UNIX x86_64 Kernel Module  570.211.01  Tue";
    assert_eq!(rm::driver_version(text), Some(&b"570.211.01"[..]));
    assert_eq!(rm::driver_version(b"NVRM x86_64"), None);
}

#[test]
fn device_nodes() {
    assert_eq!(rm::device_path(0), b"/dev/nvidia0\0".to_vec());
    assert_eq!(rm::device_path(u32::MAX), b"/dev/nvidia4294967295\0".to_vec());
}

#[test]
fn small_buffers_leave_long_pieces_out() {
    let mut w = rm::CharBuf::new(5);
    w.put_piece(b"abc");
    w.put_piece(b"def");
    w.put_piece(b"gh");
    assert_eq!(w.into_bytes(), b"abcgh".to_vec());
}

#[test]
fn request_numbers() {
    assert_eq!(rm::iowr(0x46, 0x2a, 32), 0xc020_462a);
    assert_eq!(rm::device_handle(1), 0xc1d0_0101);
    assert_eq!(rm::subdevice_handle(3), 0xc1d0_0203);
}

#[test]
fn cards_are_counted_by_their_mark() {
    let mut table = vec![0u8; rm::CARD_INFO_SIZE * rm::NV_MAX_DEVICES];
    assert_eq!(rm::count_attached_gpus(&table), 0);
    table[0] = 1;
    table[rm::CARD_INFO_SIZE * 3] = 1;
    assert_eq!(rm::count_attached_gpus(&table), 2);
}

#[test]
fn silent_devices_tell_nothing() {
    scope(0, |frame| {
        let state = rm::init(frame, all_well(2), 4);
        let readings = vec![
            Reading { fb: None, util: None, procs: None },
            Reading { fb: None, util: None, procs: None },
        ];
        let (entries, totals) = rm::populate(&state, frame, &readings);
        assert!(entries.is_empty());
        assert_eq!(totals, (0, 0, 0, 0));
    });
}

#[test]
fn shares_and_totals_are_told() {
    scope(0, |frame| {
        let entries: FSpan<(u32, GpuProc)> = frame.collect(
            "entries",
            [
                (5u32, GpuProc { sm_pct: 7, mem_mib: 0 }),
                (9, GpuProc { sm_pct: 0, mem_mib: 64 }),
            ]
            .iter()
            .copied(),
        );
        let gpu = collect(&entries, (2, 90, 2048, 4096));
        assert_eq!(gpu.usage(Platform::Linux, 5), None);
        assert_eq!(gpu.usage(Platform::Linux, 9), Some(GpuUsage { sm_pct: 0, mem_mib: 64 }));
        assert_eq!(gpu.usage(Platform::Mac, 5), Some(GpuUsage { sm_pct: 7, mem_mib: 0 }));
        assert_eq!(gpu.usage(Platform::Mac, 9), None);
        assert_eq!(gpu.usage(Platform::Linux, 6), None);
        assert_eq!(gpu.status_text(Platform::Linux), b"45%  2.0G / 4.0G".to_vec());
        assert_eq!(gpu.status_text(Platform::Mac), b"45%  2.0G active".to_vec());
    });
}

#[test]
fn several_accelerators_count_as_one() {
    scope(0, |frame| {
        let state = agx::init(frame, 2, 8 << 30);
        let prev: FSpan<(u32, u64)> = frame.empty();
        let (_, _, totals) = agx::populate(&state, &prev, frame, 1, &Some(Vec::new()));
        assert_eq!(totals, (1, 0, 0, 8 << 10));
    });
}

#[test]
fn readings_of_a_device() {
    scope(0, |frame| {
        let state = rm::init(frame, all_well(1), 4);
        let mut list = rm::fb_info_request();
        list[4..8].copy_from_slice(&4_194_304u32.to_le_bytes());
        list[12..16].copy_from_slice(&1_048_576u32.to_le_bytes());
        assert_eq!(rm::fb_memory(&list), (3072, 4096));
        let mut util = rm::perfmon_request();
        util[8..12].copy_from_slice(&1u32.to_le_bytes());
        let gr = 16 + rm::GR_OFFSET;
        util[gr..gr + 4].copy_from_slice(&7200u32.to_le_bytes());
        util[gr + 8..gr + 12].copy_from_slice(&555u32.to_le_bytes());
        assert_eq!(rm::perfmon_util(&util), (72, Some((555, 72))));
        let mut pids = rm::pids_request();
        pids[8..12].copy_from_slice(&1u32.to_le_bytes());
        pids[12..16].copy_from_slice(&555u32.to_le_bytes());
        assert_eq!(rm::pids_count(&pids), 1);
        let mut info = rm::pid_info_request(&pids);
        info[8 + 24..8 + 32].copy_from_slice(&(64u64 << 20).to_le_bytes());
        let readings = vec![Reading { fb: Some(list), util: Some(util), procs: Some((1, info)) }];
        let (entries, totals) = rm::populate(&state, frame, &readings);
        assert_eq!(entries.as_slice(), &[(555, GpuProc { sm_pct: 72, mem_mib: 64 })]);
        assert_eq!(totals, (1, 72, 3072, 4096));
    });
}
