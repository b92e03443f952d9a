//! Records, clocks, terminals and messages of the system.

use ltop::mac_sys;
use ltop::platform::{
    has_arg, num_cpus_online, read_small_file, records_whole, sleep, Instant, PidDir, Platform,
};
use ltop::procfs::{
    boot_time, load_avg, load_from_hundredths, macos_args_blob_size, macos_proc_age_ppid,
    macos_proc_args_into, mem_info, mem_info_from_pages, read_stat, reads_on, split_cmdline,
    stat_readable, Clock, MemInfo,
};
use ltop::syscall::{
    clock_from_ticks, clock_from_timeval, from_proc_auxv, page_floor, sleep_deadline, timebase,
    PageSize, Timebase, Timespec,
};
use ltop::tty::{enter_raw_mode, read_one_stdin, term_size, write_due, write_stdout};
use ltop::wire::{push_long, push_word, read_long, read_word};

#[test]
fn status_texts_tell_fields() {
    let clock = Clock { page_size: 4096, ticks: 100, boot: 1000, now: 2000 };
    let text = b"42 (a name that is long) S 7 1 1 0 -1 0 0 0 0 0 30 12 0 0 20 0 1 0 5000 0 6 0";
    let p = read_stat(text, clock);
    assert_eq!(p.ppid, 7);
    assert_eq!(p.total_ticks, 42);
    assert_eq!(p.age_secs, 950);
    assert_eq!(p.rss_bytes, 6 * 4096);
    assert_eq!(p.comm, b"a name that is ".to_vec());
    let empty = read_stat(b"garbled", clock);
    assert_eq!((empty.ppid, empty.total_ticks, empty.rss_bytes), (0, 0, 0));
    assert!(empty.comm.is_empty());
}

#[test]
fn status_texts_that_cannot_be_taken_apart() {
    assert!(!stat_readable(b") ("));
    assert!(!stat_readable(b")"));
    assert!(stat_readable(b"1 () S"));
    assert!(stat_readable(b""));
}

#[test]
fn command_lines_are_split_at_zeros() {
    assert_eq!(split_cmdline(b"a\0\0bc\0"), vec![&b"a"[..], b"bc"]);
    let mut many = Vec::new();
    for _ in 0..100 {
        many.extend_from_slice(b"x\0");
    }
    assert_eq!(split_cmdline(&many).len(), 64);
    let mut cut = b"first\0".to_vec();
    cut.resize(32768, b'y');
    assert_eq!(split_cmdline(&cut), vec![&b"first"[..]]);
    cut[32767] = 0;
    assert_eq!(split_cmdline(&cut).len(), 2);
}

#[test]
fn command_lines_are_read_in_pieces() {
    assert!(reads_on(4096, 4096, 4096));
    assert!(!reads_on(4095, 4096, 4095));
    assert!(!reads_on(4096, 4096, 32768));
}

#[test]
fn macos_args_skip_exec_path() {
    let mut blob = 2i32.to_le_bytes().to_vec();
    blob.extend_from_slice(b"/bin/sleep\0\0\0\0ltop-argv0-probe\030\0HOME=/\0");
    assert_eq!(macos_proc_args_into(&blob), vec![&b"ltop-argv0-probe"[..], b"30"]);
    assert_eq!(macos_proc_args_into(b"\x01\0\0"), Vec::<&[u8]>::new());
    let mut negative = (-1i32).to_le_bytes().to_vec();
    negative.extend_from_slice(b"/bin/x\0x\0");
    assert_eq!(macos_proc_args_into(&negative), Vec::<&[u8]>::new());
}

#[test]
fn argument_blocks_have_limits() {
    assert_eq!(macos_args_blob_size(Some(4096)), 4096);
    assert_eq!(macos_args_blob_size(Some(3)), 0);
    assert_eq!(macos_args_blob_size(Some((1 << 18) + 1)), 0);
    assert_eq!(macos_args_blob_size(Some(1 << 18)), 1 << 18);
    assert_eq!(macos_args_blob_size(None), 0);
}

#[test]
fn process_records_tell_age_and_parent() {
    let mut bsd = vec![0u8; 232];
    bsd[16..20].copy_from_slice(&77u32.to_le_bytes());
    bsd[120..128].copy_from_slice(&90u64.to_le_bytes());
    assert_eq!(macos_proc_age_ppid(&bsd, 232, 100), (10, 77));
    assert_eq!(macos_proc_age_ppid(&bsd, 127, 100), (0, 0));
    assert_eq!(macos_proc_age_ppid(&bsd, 232, 5), (0, 77));
}

#[test]
fn start_of_the_system() {
    assert_eq!(boot_time(Some(b"1234.56 9876.54\n"), 5000), 3766);
    assert_eq!(boot_time(Some(b"junk"), 5000), 5000);
    assert_eq!(boot_time(None, 5000), 0);
}

#[test]
fn loads_keep_their_text() {
    let l = load_avg(Some(b"0.12 0.34 0.56 1/123 456\n"));
    assert_eq!(l.text, b"0.12 0.34 0.56".to_vec());
    assert_eq!(l.hundredths, 12);
    assert_eq!(l.status_text(), b"0.12 0.34 0.56".to_vec());
    let none = load_avg(Some(b"0.12 0.34"));
    assert_eq!(none.status_text(), b"?".to_vec());
    assert!(load_avg(None).text.is_empty());
    let long = load_avg(Some(b"1111111.11 222222.22 3333.33 1/2 3"));
    assert!(long.text.is_empty());
}

#[test]
fn loads_from_numbers() {
    let l = load_from_hundredths(Some((150, 7, 1234)));
    assert_eq!(l.text, b"1.50 0.07 12.34".to_vec());
    assert_eq!(l.hundredths, 150);
    assert_eq!(load_from_hundredths(None).status_text(), b"?".to_vec());
}

#[test]
fn memory_by_its_text() {
    let m = mem_info(Some(b"MemTotal:  4194304 kB\nMemFree: 1 kB\nMemAvailable:  1048576 kB\n"));
    assert_eq!(m, MemInfo { used_bytes: 3 << 30, total_bytes: 4 << 30 });
    assert_eq!(m.status_text(), b"3.0G / 4.0G used".to_vec());
    assert_eq!(mem_info(None).status_text(), b"?".to_vec());
}

#[test]
fn memory_by_its_pages() {
    let vm = Some(vec![10, 99, 6]);
    assert_eq!(
        mem_info_from_pages(1 << 20, 4096, &vm),
        MemInfo { used_bytes: (1 << 20) - 16 * 4096, total_bytes: 1 << 20 }
    );
    assert_eq!(
        mem_info_from_pages(1 << 20, 4096, &None),
        MemInfo { used_bytes: 1 << 20, total_bytes: 1 << 20 }
    );
    assert_eq!(
        mem_info_from_pages(0, 4096, &vm),
        MemInfo { used_bytes: 0, total_bytes: 0 }
    );
}

fn record(name: &[u8]) -> Vec<u8> {
    let len = (19 + name.len() + 1 + 7) / 8 * 8;
    let mut r = vec![0u8; len];
    r[16] = len as u8;
    r[19..19 + name.len()].copy_from_slice(name);
    r
}

#[test]
fn numbers_among_directory_entries() {
    let mut buf = Vec::new();
    for name in [&b"."[..], b"..", b"1", b"self", b"4711", b"12a"] {
        buf.extend_from_slice(&record(name));
    }
    assert!(records_whole(&buf));
    let mut dir = PidDir::open(5, &buf);
    assert_eq!(dir.fd(), 5);
    let mut pids = Vec::new();
    while let Some(pid) = dir.next() {
        pids.push(pid);
    }
    assert_eq!(pids, vec![1, 4711]);
    assert!(!records_whole(&buf[..buf.len() - 1]));
}

#[test]
fn small_files_in_one_read() {
    assert_eq!(read_small_file(3, b"12.3 4\0\0", 6), Some(&b"12.3 4"[..]));
    assert_eq!(read_small_file(3, b"12", 0), None);
    assert_eq!(read_small_file(-2, b"12", 2), None);
}

#[test]
fn processors_are_counted_by_bits() {
    assert_eq!(num_cpus_online(8, &[0xff, 0b101]), 10);
    assert_eq!(num_cpus_online(8, &[u64::MAX; 16]), 1024);
    assert_eq!(num_cpus_online(8, &[0; 16]), 1);
    assert_eq!(num_cpus_online(-22, &[0xff]), 1);
}

#[test]
fn instants_and_pauses() {
    let a = Instant::now(5, 250);
    let b = Instant::now(7, 100);
    assert_eq!(b.duration_since(a), 1_999_999_850);
    assert_eq!(a.duration_since(b), 0);
    assert_eq!(sleep(50), (0, 50_000_000));
    assert_eq!(sleep(2500), (2, 500_000_000));
}

#[test]
fn arguments_are_compared_whole() {
    let args = vec![b"--once".to_vec(), b"--check2".to_vec()];
    assert!(!has_arg(&args, b"--check"));
    assert!(!has_arg(&args, b"--once"));
    assert!(has_arg(&args, b"--check2"));
}

#[test]
fn terminal_sizes() {
    assert_eq!(term_size(0, 120, 40), (120, 40));
    assert_eq!(term_size(0, 0, 40), (80, 40));
    assert_eq!(term_size(-25, 120, 40), (80, 24));
}

#[test]
fn writes_go_on_until_done() {
    assert!(!write_due(0, 0));
    assert!(write_due(0, 10));
    assert!(!write_due(10, 10));
    assert_eq!(write_stdout(0, 10, 4), Some(4));
    assert_eq!(write_stdout(4, 10, 6), None);
    assert_eq!(write_stdout(4, 10, -32), None);
    assert_eq!(read_one_stdin(1, b'q'), Some(b'q'));
    assert_eq!(read_one_stdin(0, b'q'), None);
}

#[test]
fn raw_mode_and_back() {
    let mut orig = vec![0xffu8; 36];
    orig[0] = 7;
    let (raw, guard) = enter_raw_mode(Platform::Linux, 0, orig.clone());
    assert_eq!(raw[12], 0xf5);
    assert_eq!((raw[22], raw[23]), (0, 0));
    assert_eq!(raw[0], 7);
    assert_eq!(guard.restore(), (0, orig.as_slice()));
    let (mac, _) = enter_raw_mode(Platform::Mac, 0, vec![0xffu8; 72]);
    assert_eq!((mac[24], mac[25], mac[48], mac[49]), (0xf7, 0xfe, 0, 0));
}

#[test]
fn clocks_from_ticks() {
    assert_eq!(timebase(125, 3), Timebase { numer: 125, denom: 3 });
    assert_eq!(timebase(0, 3), Timebase { numer: 1, denom: 1 });
    let base = Timebase { numer: 125, denom: 3 };
    assert_eq!(
        clock_from_ticks(24_000_000, base),
        Timespec { tv_sec: 1, tv_nsec: 0 }
    );
    assert_eq!(
        clock_from_timeval(5, 7),
        Timespec { tv_sec: 5, tv_nsec: 7000 }
    );
    assert_eq!(sleep_deadline(100, Timespec { tv_sec: 1, tv_nsec: 0 }, base), 24_000_100);
    assert_eq!(Timespec::zero(), Timespec { tv_sec: 0, tv_nsec: 0 });
}

#[test]
fn page_sizes_by_the_auxiliary_vector() {
    let mut auxv: Vec<u8> = Vec::new();
    for (k, v) in [(3u64, 9u64), (6, 16384), (0, 0)] {
        auxv.extend_from_slice(&k.to_le_bytes());
        auxv.extend_from_slice(&v.to_le_bytes());
    }
    assert_eq!(from_proc_auxv(&auxv), Some(16384));
    assert_eq!(from_proc_auxv(&auxv[..16]), None);
    let mut size = PageSize::unknown();
    assert_eq!(size.get(Some(&auxv)), 16384);
    size.set(5000);
    assert_eq!(size.get(None), 16384);
    size.set(65536);
    assert_eq!(size.get(None), 65536);
    assert_eq!(PageSize::unknown().get(None), 4096);
    let mut odd: Vec<u8> = Vec::new();
    odd.extend_from_slice(&6u64.to_le_bytes());
    odd.extend_from_slice(&5000u64.to_le_bytes());
    assert_eq!(PageSize::unknown().get(Some(&odd)), 4096);
    assert_eq!(page_floor(0x12345, 4096), 0x12000);
}

#[test]
fn words_in_byte_order() {
    let mut v: Vec<u8> = Vec::new();
    push_word(&mut v, 0x11223344);
    push_long(&mut v, 0x0102030405060708);
    assert_eq!(v[0], 0x44);
    assert_eq!(read_word(&v, 0), 0x11223344);
    assert_eq!(read_long(&v, 4), 0x0102030405060708);
}

#[test]
fn statistics_are_asked_for_and_read() {
    let m = mac_sys::vm_statistics64_request(7, 9).unwrap();
    assert_eq!(m.buf.len(), 224);
    assert_eq!(m.send_size, 40);
    assert_eq!(read_word(&m.buf, 8), 7);
    assert_eq!(read_word(&m.buf, 12), 9);
    assert_eq!(read_word(&m.buf, 20), 219);
    let t = mac_sys::trap_args(&m);
    assert_eq!(t.ports, 7 | 9 << 32);
    assert!(mac_sys::vm_statistics64_request(0, 9).is_none());
    let mut reply = vec![0u8; 224];
    reply[40] = 5;
    assert_eq!(mac_sys::vm_statistics64(0, &reply).unwrap()[0], 5);
    assert!(mac_sys::vm_statistics64(1, &reply).is_none());
    reply[32] = 1;
    assert!(mac_sys::vm_statistics64(0, &reply).is_none());
}

#[test]
fn io_master_port_is_cached() {
    assert_eq!(mac_sys::io_master_port(0, 5), 5);
    assert_eq!(mac_sys::io_master_port(3, 5), 3);
    let a = mac_sys::io_master_port(0, 7);
    assert_ne!(a, 0);
    assert_eq!(mac_sys::io_master_port(a, 9), a);
}

#[test]
fn pages_and_processors_have_fallbacks() {
    assert_eq!(mac_sys::hw_pagesize(0, 4096), 4096);
    assert_eq!(mac_sys::hw_pagesize(-1, 4096), 16384);
    assert_eq!(mac_sys::hw_activecpu(0, 8), 8);
    assert_eq!(mac_sys::hw_activecpu(-1, 8), 1);
    assert_eq!(mac_sys::pid_count(40), 10);
    assert_eq!(mac_sys::pid_count(-1), -1);
}

#[test]
fn loads_are_scaled() {
    assert_eq!(mac_sys::vm_loadavg(0, (2048, 1024, 512), 2048), Some((100, 50, 25)));
    assert_eq!(mac_sys::vm_loadavg(-1, (2048, 1024, 512), 2048), None);
    assert_eq!(mac_sys::vm_loadavg(0, (2048, 1024, 512), 0), None);
}

#[test]
fn process_names_end_at_zero() {
    let mut record = vec![0u8; 232];
    record[64..68].copy_from_slice(b"tool");
    let mut buf = vec![0xffu8; 64];
    assert_eq!(mac_sys::proc_name_into(&record, 232, &mut buf), 4);
    assert_eq!(&buf[..5], b"tool\0");
    assert_eq!(mac_sys::proc_name_into(&record, 10, &mut buf), 0);
}

#[test]
fn requests_name_their_subject() {
    let m = mac_sys::io_registry_entry_get_property_bin(5, 6, b"AppUsage\0").unwrap();
    assert_eq!(m.send_size, 52 + 12 + 4);
    assert_eq!(read_word(&m.buf, 36), 1);
    assert_eq!(read_word(&m.buf, 48), 9);
    assert_eq!(&m.buf[52..61], b"AppUsage\0");
    assert!(mac_sys::io_registry_entry_get_property_bin(5, 6, b"").is_none());
    let m = mac_sys::io_registry_entry_get_child_iterator(5, 6, b"IOService\0").unwrap();
    assert_eq!(m.send_size, 40 + 12);
    assert_eq!(read_word(&m.buf, 36), 10);
    let m = mac_sys::io_service_get_matching_services_bin(5, 6, &mac_sys::AGX_MATCHING_BLOB).unwrap();
    assert_eq!(m.send_size, 36 + 48);
    assert!(mac_sys::io_service_get_matching_services_bin(5, 6, &[0; 4096]).is_none());
    let m = mac_sys::mach_port_deallocate_request(1, 2, 77).unwrap();
    assert_eq!(read_word(&m.buf, 32), 77);
    assert!(mac_sys::mach_port_deallocate_request(1, 2, 0).is_none());
}

#[test]
fn mach_port_deallocate_returns_zero() {
    let reply = vec![0u8; 72];
    assert_eq!(mac_sys::mach_port_deallocate(77, 2, 0, &reply), 0);
    assert_eq!(mac_sys::mach_port_deallocate(0, 2, 5, &reply), 0);
}

#[test]
fn mach_port_deallocate_reports_real_errors() {
    let mut reply = vec![0u8; 72];
    reply[32] = 17;
    assert_eq!(mac_sys::mach_port_deallocate(77, 2, 0, &reply), 17);
    assert_eq!(mac_sys::mach_port_deallocate(77, 2, 0x1000_0003, &reply), 0x1000_0003);
    assert_eq!(mac_sys::mach_port_deallocate(77, 0, 0, &reply), -1);
}

#[test]
fn answers_hold_a_port_or_pages() {
    let mut reply = vec![0u8; 128];
    assert_eq!(mac_sys::port_reply(0, &reply), 0);
    reply[3] = 0x80;
    reply[24] = 1;
    reply[28] = 9;
    assert_eq!(mac_sys::port_reply(0, &reply), 9);
    assert_eq!(mac_sys::port_reply(1, &reply), 0);
    assert!(mac_sys::parse_ool_reply(&reply).is_none());
    reply[39] = 1;
    reply[40] = 100;
    let pages = mac_sys::parse_ool_reply(&reply).unwrap();
    assert_eq!(pages.size, 100);
    assert_eq!(pages.addr & 0xff, 9);
}

#[test]
fn regions_that_stay_mapped() {
    let mut record = vec![0u8; 96];
    record[0] = 3;
    record[80..88].copy_from_slice(&0x1000u64.to_le_bytes());
    record[88..96].copy_from_slice(&0x2000u64.to_le_bytes());
    let info = mac_sys::region_info(&record);
    assert_eq!((info.pri_protection, info.pri_address, info.pri_size), (3, 0x1000, 0x2000));
    assert_eq!(mac_sys::region_containing(info, 0x2fff), Some((0x1000, 0x3000)));
    assert_eq!(mac_sys::region_containing(info, 0x3000), None);
    let far = mac_sys::Anchors { arena_lo: 1 << 40, arena_hi: 2 << 40, code: 1 << 50, stack: 1 << 51 };
    assert!(!mac_sys::keep_region(info, far));
    assert!(mac_sys::keep_region(info, mac_sys::Anchors { stack: 0x1800, ..far }));
    assert!(mac_sys::keep_region(info, mac_sys::Anchors { arena_lo: 0x2fff, ..far }));
    let w = mac_sys::unmap_idle_state(mac_sys::region_walk(), info, far, 0);
    assert_eq!((w.addr, w.total, w.left), (0x3000, 0x2000, mac_sys::MAX_REGIONS - 1));
    let inside = mac_sys::RegionWalk { addr: 0x1800, total: 0x4000, left: 9 };
    let again = mac_sys::unmap_idle_state(inside, info, far, 0);
    assert_eq!((again.addr, again.total, again.left), (0x3000, 0x6000, 8));
    let kept = mac_sys::unmap_idle_state(mac_sys::region_walk(), info, far, 5);
    assert_eq!(kept.total, 0);
}
