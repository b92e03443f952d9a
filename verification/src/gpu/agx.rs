//! Readings of the Apple graphics driver.
//!
//! Every process that uses the device has a client entry in the registry. Of
//! each entry two properties count: who opened it, as `pid <number>, <name>`,
//! and a list of dictionaries with the time that the device has spent on it.
//! The difference between two readings, over the time between them, is the
//! busy share of the process.

use crate::arena::{fits, next_start, Brand, FSpan, Frame};
use crate::bytes::{starts, utf8_of};
use crate::gpu::{GpuProc, Totals};
use crate::layout::{bytes_of, lemma_align_up, lemma_align_up_mono, lemma_bytes_add, lemma_bytes_mono};
use crate::map::{
    fold_entries, order_free, strictly_ascending, total, value_of, U32Map,
};
use crate::osbinary::{
    dict_value, list_items, number_at, string_at, well_formed, Item, OsBinary,
};
use crate::platform::digits_value;
use crate::sort::U32Key;
use vstd::prelude::*;

verus! {

/// The driver as it was found at the start.
pub struct State<'id> {
    n_gpus: u32,
    total_mib: u64,
    brand: Brand<'id>,
}

impl<'id> State<'id> {
    /// How many devices there are.
    pub closed spec fn devices(&self) -> u32 {
        self.n_gpus
    }

    /// The memory that the devices share, in MiB.
    pub closed spec fn memory(&self) -> u64 {
        self.total_mib
    }

    /// Whether there is a device.
    pub fn has_gpu(&self) -> (r: bool)
        ensures
            r == (self.devices() > 0),
    {
        self.n_gpus > 0
    }
}

/// At most this many client entries count at a time.
pub const MAX_TRACKED_PIDS: u32 = 256;

/// The state when `n_devices` devices were found in a machine with
/// `memory_bytes` bytes of memory. Several devices count as one: what
/// processes use is summed over them.
pub fn init<'a>(frame: &Frame<'a>, n_devices: u32, memory_bytes: u64) -> (r: State<'a>)
    ensures
        r.devices() == (if n_devices > 0 { 1nat } else { 0 }),
        r.memory() == (if n_devices > 0 { memory_bytes / 0x10_0000 } else { 0 }),
{
    let total_mib: u64 = if n_devices > 0 { memory_bytes / 0x10_0000 } else { 0 };
    let n_gpus: u32 = if n_devices > 0 { 1 } else { 0 };
    State { n_gpus, total_mib, brand: frame.brand() }
}

/// The busy share in percent of a process whose device time went from
/// `prev_ns` to `now_ns` in `dt_ns`: rounded down, at most 100, and 0 on the
/// first sight of the process.
pub open spec fn busy_percent(prev_ns: u64, now_ns: u64, dt_ns: u64) -> u32 {
    if prev_ns == 0 || now_ns <= prev_ns || dt_ns == 0 {
        0
    } else {
        let share = (now_ns - prev_ns) * 100 / dt_ns as int;
        if share <= 100 {
            share as u32
        } else {
            100
        }
    }
}

/// The busy share in percent.
pub fn compute_pct(prev_ns: u64, now_ns: u64, dt_ns: u64) -> (r: u32)
    ensures
        r == busy_percent(prev_ns, now_ns, dt_ns),
        r <= 100,
{
    if prev_ns == 0 || now_ns <= prev_ns || dt_ns == 0 {
        return 0;
    }
    let pct: u128 = (now_ns - prev_ns) as u128 * 100 / dt_ns as u128;
    if pct <= 100 {
        pct as u32
    } else {
        100
    }
}

/// The digits that `s` starts with.
pub open spec fn leading_digits(s: Seq<u8>) -> Seq<u8>
    decreases s.len(),
{
    if s.len() > 0 && 0x30 <= s[0] <= 0x39 {
        seq![s[0]] + leading_digits(s.skip(1))
    } else {
        Seq::empty()
    }
}

/// The number in `pid <number>...`, if there is one and it fits 32 bits.
pub open spec fn creator_pid(s: Seq<u8>) -> Option<u32> {
    let digits = leading_digits(s.skip(4));
    if starts(s, seq![0x70, 0x69, 0x64, 0x20]) && digits.len() > 0 && digits_value(digits)
        <= u32::MAX {
        Some(digits_value(digits) as u32)
    } else {
        None
    }
}

/// More digits make no smaller number.
proof fn lemma_digits_grow(a: Seq<u8>, b: Seq<u8>)
    requires
        forall|i: int| 0 <= i < b.len() ==> 0x30 <= #[trigger] b[i],
    ensures
        digits_value(a) <= digits_value(a + b),
    decreases b.len(),
{
    if b.len() == 0 {
        assert(a + b =~= a);
    } else {
        assert((a + b).drop_last() =~= a + b.drop_last());
        lemma_digits_grow(a, b.drop_last());
    }
}

proof fn lemma_leading_digits(s: Seq<u8>)
    ensures
        forall|i: int|
            0 <= i < leading_digits(s).len() ==> 0x30 <= #[trigger] leading_digits(s)[i] <= 0x39,
    decreases s.len(),
{
    if s.len() > 0 && 0x30 <= s[0] <= 0x39 {
        lemma_leading_digits(s.skip(1));
        assert forall|i: int| 0 <= i < leading_digits(s).len() implies 0x30 <= #[trigger] leading_digits(
            s,
        )[i] <= 0x39 by {
            if i > 0 {
                assert(leading_digits(s)[i] == leading_digits(s.skip(1))[i - 1]);
            }
        }
    }
}

/// The number in `pid <number>...`.
pub fn parse_creator_pid_bytes(bytes: &[u8]) -> (r: Option<u32>)
    ensures
        r == creator_pid(bytes@),
{
    let ghost prefix = seq![0x70u8, 0x69, 0x64, 0x20];
    if bytes.len() < 4 {
        return None;
    }
    assert(bytes@.take(4) =~= seq![bytes@[0], bytes@[1], bytes@[2], bytes@[3]]);
    if bytes[0] != 0x70 || bytes[1] != 0x69 || bytes[2] != 0x64 || bytes[3] != 0x20 {
        assert(prefix[0] == 0x70 && prefix[1] == 0x69 && prefix[2] == 0x64 && prefix[3] == 0x20);
        return None;
    }
    assert(starts(bytes@, prefix));
    let ghost digits = leading_digits(bytes@.skip(4));
    let ghost mut seen: Seq<u8> = Seq::empty();
    let mut n: u32 = 0;
    let mut i: usize = 4;
    assert(seen + digits =~= digits);
    while i < bytes.len() && 0x30 <= bytes[i] && bytes[i] <= 0x39
        invariant
            4 <= i <= bytes@.len(),
            starts(bytes@, prefix),
            prefix == seq![0x70u8, 0x69, 0x64, 0x20],
            digits == leading_digits(bytes@.skip(4)),
            digits == seen + leading_digits(bytes@.skip(i as int)),
            seen.len() == i - 4,
            n == digits_value(seen),
        decreases bytes@.len() - i,
    {
        let d: u8 = bytes[i];
        let ghost rest = leading_digits(bytes@.skip(i + 1));
        let next: u64 = n as u64 * 10 + (d - 0x30) as u64;
        proof {
            assert(bytes@.skip(i as int).skip(1) =~= bytes@.skip(i + 1));
            assert(seen + (seq![d] + rest) =~= seen.push(d) + rest);
            assert(seen.push(d).drop_last() =~= seen);
            lemma_leading_digits(bytes@.skip(i + 1));
            lemma_digits_grow(seen.push(d), rest);
            seen = seen.push(d);
        }
        if next > u32::MAX as u64 {
            return None;
        }
        n = next as u32;
        i = i + 1;
    }
    assert(leading_digits(bytes@.skip(i as int)) =~= Seq::empty());
    assert(digits =~= seen);
    if i > 4 {
        Some(n)
    } else {
        None
    }
}

/// The memory in use, in MiB, that a device's properties tell.
pub open spec fn used_mib(s: Seq<u8>) -> Option<u64> {
    match dict_value(s, 4, utf8_of("PerformanceStatistics")) {
        None => None,
        Some(perf) => match dict_value(s, perf, utf8_of("In use system memory")) {
            None => None,
            Some(used) => match number_at(s, used) {
                None => None,
                Some(n) => Some(n / 0x10_0000),
            },
        },
    }
}

/// The memory in use, in MiB, that a device's properties tell.
pub fn read_agx_used_mib_blob(bin: &OsBinary<'_>) -> (r: Option<u64>)
    ensures
        r == used_mib(bin.stream()),
{
    match bin.root() {
        None => None,
        Some(root) => match bin.find_dict(root, "PerformanceStatistics".as_bytes()) {
            None => None,
            Some(perf) => match bin.find_dict(perf, "In use system memory".as_bytes()) {
                None => None,
                Some(used) => match bin.as_number(used) {
                    None => None,
                    Some(n) => Some(n / 0x10_0000),
                },
            },
        },
    }
}

/// The device time that a usage dictionary tells, 0 if it tells none.
pub open spec fn usage_ns(s: Seq<u8>, at: nat) -> u64 {
    match dict_value(s, at, utf8_of("accumulatedGPUTime")) {
        None => 0,
        Some(v) => match number_at(s, v) {
            None => 0,
            Some(n) => n,
        },
    }
}

/// The sum of the device times that the dictionaries at `items` tell, capped
/// at what 64 bits hold.
pub open spec fn summed_ns(s: Seq<u8>, items: Seq<nat>) -> u64
    decreases items.len(),
{
    if items.len() == 0 {
        0
    } else {
        let sum = summed_ns(s, items.drop_last()) + usage_ns(s, items.last());
        if sum <= u64::MAX {
            sum as u64
        } else {
            u64::MAX
        }
    }
}

/// The process of a client entry, and the device time spent on it.
pub open spec fn client_reading(s: Seq<u8>) -> Option<(u32, u64)> {
    match dict_value(s, 4, utf8_of("IOUserClientCreator")) {
        None => None,
        Some(creator) => match string_at(s, creator) {
            None => None,
            Some(name) => match creator_pid(name) {
                None => None,
                Some(pid) => Some(
                    (
                        pid,
                        match dict_value(s, 4, utf8_of("AppUsage")) {
                            None => 0,
                            Some(usage) => summed_ns(s, list_items(s, usage)),
                        },
                    ),
                ),
            },
        },
    }
}

/// The sum of the device times in a usage list.
fn sum_usage(bin: &OsBinary<'_>, usage: Item) -> (r: u64)
    ensures
        r == summed_ns(bin.stream(), list_items(bin.stream(), usage.offset as nat)),
{
    let ghost s = bin.stream();
    let ghost found = list_items(s, usage.offset as nat);
    match bin.array_items(usage) {
        None => {
            assert(found =~= Seq::empty());
            0
        },
        Some((items, _)) => {
            let n: usize = items.len();
            let mut sum: u64 = 0;
            assert(found.take(0) =~= Seq::empty());
            for i in 0..n
                invariant
                    n == items@.len(),
                    s == bin.stream(),
                    found.len() == n,
                    forall|k: int| 0 <= k < n ==> (#[trigger] items@[k]).offset == found[k],
                    sum == summed_ns(s, found.take(i as int)),
            {
                assert(found.take(i + 1).drop_last() =~= found.take(i as int));
                assert(items@[i as int].offset == found[i as int]);
                let ns: u64 = match bin.find_dict(items[i], "accumulatedGPUTime".as_bytes()) {
                    None => 0,
                    Some(v) => match bin.as_number(v) {
                        None => 0,
                        Some(x) => x,
                    },
                };
                assert(ns == usage_ns(s, found[i as int]));
                sum = sum.saturating_add(ns);
            }
            assert(found.take(n as int) =~= found);
            sum
        },
    }
}

/// The process of a client entry, and the device time spent on it.
pub fn read_user_client_blob(bin: &OsBinary<'_>) -> (r: Option<(u32, u64)>)
    ensures
        r == client_reading(bin.stream()),
{
    let root: Item = match bin.root() {
        None => {
            return None;
        },
        Some(root) => root,
    };
    let creator: Item = match bin.find_dict(root, "IOUserClientCreator".as_bytes()) {
        None => {
            return None;
        },
        Some(creator) => creator,
    };
    let name: &[u8] = match bin.as_string(creator) {
        None => {
            return None;
        },
        Some(name) => name,
    };
    let pid: u32 = match parse_creator_pid_bytes(name) {
        None => {
            return None;
        },
        Some(pid) => pid,
    };
    let ns: u64 = match bin.find_dict(root, "AppUsage".as_bytes()) {
        None => 0,
        Some(usage) => sum_usage(bin, usage),
    };
    Some((pid, ns))
}

/// The property blobs of one device and of its client entries, as far as they
/// could be read.
pub struct DeviceReading {
    pub own: Option<Vec<u8>>,
    pub clients: Vec<Option<Vec<u8>>>,
}

/// The memory in use that a device's blob tells, 0 if it tells none.
pub open spec fn blob_used(blob: Option<Vec<u8>>) -> u64 {
    match blob {
        Some(b) if well_formed(b@) => match used_mib(b@) {
            Some(n) => n,
            None => 0,
        },
        _ => 0,
    }
}

/// The memory in use on all devices, modulo 2^64.
pub open spec fn all_used(devices: Seq<DeviceReading>) -> u64
    decreases devices.len(),
{
    if devices.len() == 0 {
        0
    } else {
        all_used(devices.drop_last()).wrapping_add(blob_used(devices.last().own))
    }
}

/// What the blob of a client entry tells.
pub open spec fn blob_client(blob: Option<Vec<u8>>) -> Option<(u32, u64)> {
    match blob {
        Some(b) if well_formed(b@) => client_reading(b@),
        _ => None,
    }
}

/// What the blobs of client entries tell, in their order.
pub open spec fn blobs_clients(blobs: Seq<Option<Vec<u8>>>) -> Seq<(u32, u64)>
    decreases blobs.len(),
{
    if blobs.len() == 0 {
        Seq::empty()
    } else {
        let before = blobs_clients(blobs.drop_last());
        match blob_client(blobs.last()) {
            Some(c) => before.push(c),
            None => before,
        }
    }
}

/// What the client entries of all devices tell, in their order.
pub open spec fn all_clients(devices: Seq<DeviceReading>) -> Seq<(u32, u64)>
    decreases devices.len(),
{
    if devices.len() == 0 {
        Seq::empty()
    } else {
        all_clients(devices.drop_last()) + blobs_clients(devices.last().clients@)
    }
}

/// At most the first `MAX_TRACKED_PIDS` of `clients`.
pub open spec fn first_clients(clients: Seq<(u32, u64)>) -> Seq<(u32, u64)> {
    if clients.len() <= MAX_TRACKED_PIDS {
        clients
    } else {
        clients.take(MAX_TRACKED_PIDS as int)
    }
}

/// The sum of two device times, modulo 2^64.
pub open spec fn ns_sum() -> spec_fn(u64, u64) -> u64 {
    |a: u64, b: u64| a.wrapping_add(b)
}

/// `times` has one entry for each process of `clients`, by ascending number,
/// with the sum of its device times.
pub open spec fn is_time_table(times: Seq<(u32, u64)>, clients: Seq<(u32, u64)>) -> bool {
    &&& strictly_ascending(times)
    &&& forall|k: u32| #[trigger] value_of(times, k) == total(clients, k, ns_sum())
}

/// The busy share of the process `entry`, whose time was that in `prev`.
pub open spec fn entry_percent(prev: Seq<(u32, u64)>, entry: (u32, u64), dt_ns: u64) -> u32 {
    busy_percent(
        match value_of(prev, entry.0) {
            Some(ns) => ns,
            None => 0,
        },
        entry.1,
        dt_ns,
    )
}

/// The busy shares that are not 0.
pub open spec fn busy_entries(
    prev: Seq<(u32, u64)>,
    now: Seq<(u32, u64)>,
    dt_ns: u64,
) -> Seq<(u32, GpuProc)>
    decreases now.len(),
{
    if now.len() == 0 {
        Seq::empty()
    } else {
        let before = busy_entries(prev, now.drop_last(), dt_ns);
        let pct = entry_percent(prev, now.last(), dt_ns);
        if pct == 0 {
            before
        } else {
            before.push((now.last().0, GpuProc { sm_pct: pct, mem_mib: 0 }))
        }
    }
}

/// The sum of the busy shares.
pub open spec fn busy_sum(entries: Seq<(u32, GpuProc)>) -> nat
    decreases entries.len(),
{
    if entries.len() == 0 {
        0
    } else {
        busy_sum(entries.drop_last()) + entries.last().1.sm_pct as nat
    }
}

proof fn lemma_ns_sum_order_free()
    ensures
        order_free(ns_sum()),
{
    let f = ns_sum();
    assert forall|x: u64, y: u64, z: u64| #[trigger] f(f(x, y), z) == f(x, f(y, z)) by {}
}

/// Adds the device time that goes to the one that stays.
fn merge_ns(kept: &mut u64, gone: &mut u64)
    ensures
        *final(kept) == ns_sum()(*old(kept), *old(gone)),
{
    *kept = (*kept).wrapping_add(*gone);
}

/// Opens the blob of a client entry.
fn open_client(blob: &Option<Vec<u8>>, ckpts: &mut Vec<u32>) -> (r: Option<(u32, u64)>)
    requires
        old(ckpts)@.len() > 0,
    ensures
        r == blob_client(*blob),
        final(ckpts)@.len() == old(ckpts)@.len(),
{
    match blob {
        None => None,
        Some(bytes) => match OsBinary::parse(bytes.as_slice(), ckpts.as_mut_slice()) {
            None => None,
            Some(bin) => read_user_client_blob(&bin),
        },
    }
}

/// Opens the blob of a device.
fn open_device(blob: &Option<Vec<u8>>, ckpts: &mut Vec<u32>) -> (r: u64)
    requires
        old(ckpts)@.len() > 0,
    ensures
        r == blob_used(*blob),
        final(ckpts)@.len() == old(ckpts)@.len(),
{
    match blob {
        None => 0,
        Some(bytes) => match OsBinary::parse(bytes.as_slice(), ckpts.as_mut_slice()) {
            None => 0,
            Some(bin) => match read_agx_used_mib_blob(&bin) {
                None => 0,
                Some(n) => n,
            },
        },
    }
}

/// What the client entries of all devices tell, and the memory in use.
fn gather(devices: &Vec<DeviceReading>) -> (r: (Vec<(u32, u64)>, u64))
    ensures
        r.0@ == first_clients(all_clients(devices@)),
        r.1 == all_used(devices@),
{
    let mut ckpts: Vec<u32> = Vec::new();
    ckpts.resize(512, 0);
    let mut used: u64 = 0;
    let mut out: Vec<(u32, u64)> = Vec::new();
    let ghost mut all: Seq<(u32, u64)> = Seq::empty();
    let n: usize = devices.len();
    assert(devices@.take(0) =~= Seq::empty());
    for i in 0..n
        invariant
            n == devices@.len(),
            ckpts@.len() == 512,
            used == all_used(devices@.take(i as int)),
            all == all_clients(devices@.take(i as int)),
            out@ == first_clients(all),
    {
        let ghost done = devices@.take(i as int);
        assert(devices@.take(i + 1).drop_last() =~= done);
        used = used.wrapping_add(open_device(&devices[i].own, &mut ckpts));
        let clients: &Vec<Option<Vec<u8>>> = &devices[i].clients;
        let m: usize = clients.len();
        let ghost before = all;
        assert(clients@.take(0) =~= Seq::empty());
        assert(before + blobs_clients(clients@.take(0)) =~= before);
        for j in 0..m
            invariant
                m == clients@.len(),
                ckpts@.len() == 512,
                all == before + blobs_clients(clients@.take(j as int)),
                out@ == first_clients(all),
        {
            assert(clients@.take(j + 1).drop_last() =~= clients@.take(j as int));
            let ghost was = all;
            match open_client(&clients[j], &mut ckpts) {
                None => {},
                Some(c) => {
                    proof {
                        all = all.push(c);
                        assert(all =~= before + blobs_clients(clients@.take(j + 1)));
                    }
                    if out.len() < MAX_TRACKED_PIDS as usize {
                        out.push(c);
                    }
                    assert(out@ =~= first_clients(all));
                },
            }
        }
        assert(clients@.take(m as int) =~= clients@);
    }
    assert(devices@.take(n as int) =~= devices@);
    (out, used)
}

/// The busy shares that are not 0, and their sum.
fn shares(prev: U32Map<'_, u64>, now: &Vec<(u32, u64)>, dt_ns: u64) -> (r: (Vec<(u32, GpuProc)>, u32))
    requires
        now@.len() <= MAX_TRACKED_PIDS,
    ensures
        r.0@ == busy_entries(prev@, now@, dt_ns),
        r.0@.len() <= now@.len(),
        r.1 == busy_sum(r.0@),
{
    let mut out: Vec<(u32, GpuProc)> = Vec::new();
    let mut sum: u32 = 0;
    let n: usize = now.len();
    assert(now@.take(0) =~= Seq::empty());
    for i in 0..n
        invariant
            n == now@.len(),
            n <= MAX_TRACKED_PIDS,
            out@ == busy_entries(prev@, now@.take(i as int), dt_ns),
            out@.len() <= i,
            sum == busy_sum(out@),
            sum <= i * 100,
    {
        assert(now@.take(i + 1).drop_last() =~= now@.take(i as int));
        let entry: (u32, u64) = now[i];
        let before: u64 = match prev.get(&entry.0) {
            Some(ns) => *ns,
            None => 0,
        };
        let pct: u32 = compute_pct(before, entry.1, dt_ns);
        if pct != 0 {
            let ghost was = out@;
            out.push((entry.0, GpuProc { sm_pct: pct, mem_mib: 0 }));
            assert(out@.drop_last() =~= was);
            sum = sum + pct;
        }
    }
    assert(now@.take(n as int) =~= now@);
    (out, sum)
}

/// There are only processes of `now` among the busy ones, in their order.
proof fn lemma_busy_ascending(prev: Seq<(u32, u64)>, now: Seq<(u32, u64)>, dt_ns: u64)
    requires
        strictly_ascending(now),
    ensures
        strictly_ascending(busy_entries(prev, now, dt_ns)),
        busy_entries(prev, now, dt_ns).len() > 0 ==> now.len() > 0 && busy_entries(
            prev,
            now,
            dt_ns,
        ).last().0 <= now.last().0,
    decreases now.len(),
{
    if now.len() > 0 {
        let less = now.drop_last();
        assert forall|i: int, j: int| 0 <= i < j < less.len() implies #[trigger] less[i].key()
            < #[trigger] less[j].key() by {
            assert(now[i].key() < now[j].key());
        }
        lemma_busy_ascending(prev, less, dt_ns);
        let before = busy_entries(prev, less, dt_ns);
        let after = busy_entries(prev, now, dt_ns);
        if before.len() > 0 {
            assert(now[less.len() - 1].key() < now[less.len() as int].key());
        }
        assert forall|i: int, j: int| 0 <= i < j < after.len() implies #[trigger] after[i].key()
            < #[trigger] after[j].key() by {
            if j < before.len() {
                assert(before[i].key() < before[j].key());
            } else if i < before.len() - 1 {
                assert(before[i].key() < before[before.len() - 1].key());
            }
        }
    }
}

/// Whether there is room for the results of [`populate`] above `top`.
pub open spec fn results_fit(top: nat) -> bool {
    let mid = next_start::<(u32, u64)>(top) + bytes_of::<(u32, u64)>(MAX_TRACKED_PIDS as nat);
    &&& fits::<(u32, u64)>(top, MAX_TRACKED_PIDS as nat)
    &&& fits::<(u32, GpuProc)>(mid, MAX_TRACKED_PIDS as nat)
}

/// Lays down the device times and, behind them, the busy shares.
fn place_results<'id>(
    frame: &mut Frame<'id>,
    now: Vec<(u32, u64)>,
    busy: Vec<(u32, GpuProc)>,
) -> (r: (FSpan<'id, (u32, GpuProc)>, FSpan<'id, (u32, u64)>))
    requires
        results_fit(old(frame).top()),
        now@.len() <= MAX_TRACKED_PIDS,
        busy@.len() <= MAX_TRACKED_PIDS,
    ensures
        r.0@ == busy@,
        r.1@ == now@,
        r.0.wf(),
        r.1.wf(),
        r.1.at() == next_start::<(u32, u64)>(old(frame).top()),
        r.0.at() == next_start::<(u32, GpuProc)>(r.1.end()),
        r.1.end() <= r.0.at(),
        r.0.end() == final(frame).top(),
{
    vstd::layout::layout_for_type_is_valid::<(u32, GpuProc)>();
    proof {
        let m = MAX_TRACKED_PIDS as nat;
        let start = next_start::<(u32, u64)>(frame.top());
        let end = start + bytes_of::<(u32, u64)>(now@.len());
        let al = vstd::layout::align_of::<(u32, GpuProc)>();
        lemma_bytes_mono::<(u32, u64)>(now@.len(), m);
        lemma_bytes_mono::<(u32, GpuProc)>(busy@.len(), m);
        lemma_align_up_mono(end, start + bytes_of::<(u32, u64)>(m), al);
        lemma_align_up(end, al);
    }
    let times = frame.place("gpu/agx/prev", now);
    let entries = frame.place("gpu/agx/procs", busy);
    (entries, times)
}

/// Without readings there are no results.
fn no_results<'id>(frame: &mut Frame<'id>) -> (r: (FSpan<'id, (u32, GpuProc)>, FSpan<'id, (u32, u64)>))
    ensures
        r.0@.len() == 0,
        r.1@.len() == 0,
        r.0.wf(),
        r.1.wf(),
        r.0.at() == old(frame).top(),
        r.0.end() == old(frame).top(),
        r.1.end() == old(frame).top(),
        *final(frame) == *old(frame),
{
    proof {
        lemma_bytes_add::<(u32, u64)>(0, 0);
        lemma_bytes_add::<(u32, GpuProc)>(0, 0);
    }
    (frame.empty(), frame.empty())
}

/// What the readings of `devices` amount to when `dt_ns` has passed since
/// those in `prev`.
pub open spec fn evaluated(
    state: State<'_>,
    prev: Seq<(u32, u64)>,
    dt_ns: u64,
    devices: Seq<DeviceReading>,
    entries: Seq<(u32, GpuProc)>,
    times: Seq<(u32, u64)>,
    totals: Totals,
) -> bool {
    let sum = busy_sum(entries);
    &&& is_time_table(times, first_clients(all_clients(devices)))
    &&& entries == busy_entries(prev, times, dt_ns)
    &&& totals == (
        state.devices(),
        if sum <= 100 { sum as u32 } else { 100u32 },
        all_used(devices),
        state.memory(),
    )
}

/// Evaluates the readings of `devices`.
fn evaluate(
    state: &State<'_>,
    prev: &[(u32, u64)],
    dt_ns: u64,
    devices: &Vec<DeviceReading>,
) -> (r: (Vec<(u32, GpuProc)>, Vec<(u32, u64)>, Totals))
    requires
        strictly_ascending(prev@),
    ensures
        evaluated(*state, prev@, dt_ns, devices@, r.0@, r.1@, r.2),
        strictly_ascending(r.0@),
        strictly_ascending(r.1@),
        r.0@.len() <= MAX_TRACKED_PIDS,
        r.1@.len() <= MAX_TRACKED_PIDS,
{
    let (clients, used) = gather(devices);
    proof {
        lemma_ns_sum_order_free();
    }
    let now: Vec<(u32, u64)> = fold_entries(clients, merge_ns, Ghost(ns_sum()));
    let (busy, sum) = shares(U32Map::new(prev), &now, dt_ns);
    proof {
        lemma_busy_ascending(prev@, now@, dt_ns);
    }
    let util: u32 = if sum <= 100 { sum } else { 100 };
    (busy, now, (state.n_gpus, util, used, state.total_mib))
}

/// Evaluates one round of readings: `devices` is `None` if the registry could
/// not be reached. Returns the busy share of each process, the device time of
/// each process for the next round, and the totals.
pub fn populate<'id>(
    state: &State<'_>,
    prev: &FSpan<'id, (u32, u64)>,
    frame: &mut Frame<'id>,
    dt_ns: u64,
    devices: &Option<Vec<DeviceReading>>,
) -> (r: (FSpan<'id, (u32, GpuProc)>, FSpan<'id, (u32, u64)>, Totals))
    requires
        strictly_ascending(prev@),
        results_fit(old(frame).top()),
    ensures
        state.devices() == 0 || dt_ns == 0 || devices is None ==> r.0@.len() == 0 && r.1@.len() == 0
            && r.2 == (0u32, 0u32, 0u64, state.memory()),
        state.devices() > 0 && dt_ns > 0 && devices is Some ==> evaluated(
            *state,
            prev@,
            dt_ns,
            (devices->0)@,
            r.0@,
            r.1@,
            r.2,
        ) && r.1.at() == next_start::<(u32, u64)>(old(frame).top()),
        strictly_ascending(r.0@),
        strictly_ascending(r.1@),
        r.0.wf(),
        r.1.wf(),
        r.1.end() <= r.0.at(),
        r.0.end() == final(frame).top(),
{
    if state.n_gpus == 0 || dt_ns == 0 {
        let (entries, times) = no_results(frame);
        return (entries, times, (0, 0, 0, state.total_mib));
    }
    match devices {
        None => {
            let (entries, times) = no_results(frame);
            (entries, times, (0, 0, 0, state.total_mib))
        },
        Some(devices) => {
            let (busy, now, totals) = evaluate(state, prev.as_slice(), dt_ns, devices);
            let (entries, times) = place_results(frame, now, busy);
            (entries, times, totals)
        },
    }
}

/// A process that was not there in the last round is shown with no share.
pub proof fn law_first_sight_is_idle(prev: Seq<(u32, u64)>, entry: (u32, u64), dt_ns: u64)
    requires
        value_of(prev, entry.0) is None,
    ensures
        entry_percent(prev, entry, dt_ns) == 0,
{
}

/// How many answers come before the first that is 0.
pub open spec fn before_end(services: Seq<u32>) -> nat
    decreases services.len(),
{
    if services.len() == 0 || services[0] == 0 {
        0
    } else {
        1 + before_end(services.skip(1))
    }
}

/// How many accelerators there are, when the master port, the iterator and what
/// the iterator handed out are these: an iterator ends with 0.
pub fn count_agx_devices(master: u32, iter: u32, services: &[u32]) -> (r: usize)
    ensures
        r == (if master == 0 || iter == 0 {
            0
        } else {
            before_end(services@)
        }),
{
    if master == 0 || iter == 0 {
        return 0;
    }
    let mut n: usize = 0;
    assert(services@.skip(0) =~= services@);
    while n < services.len() && services[n] != 0
        invariant
            n <= services@.len(),
            n + before_end(services@.skip(n as int)) == before_end(services@),
        decreases services@.len() - n,
    {
        assert(services@.skip(n as int)[0] == services@[n as int]);
        assert(services@.skip(n as int).skip(1) =~= services@.skip(n + 1));
        n = n + 1;
    }
    n
}

/// A busy share in percent is the time that was spent on a process over the
/// time that has passed, rounded down, and no more than 100.
pub proof fn law_busy_share_is_time_over_time(prev_ns: u64, now_ns: u64, dt_ns: u64)
    requires
        0 < prev_ns < now_ns,
        dt_ns > 0,
    ensures
        ({
            let r = busy_percent(prev_ns, now_ns, dt_ns);
            &&& r <= 100
            &&& r * dt_ns <= (now_ns - prev_ns) * 100
            &&& r < 100 ==> (now_ns - prev_ns) * 100 < (r + 1) * dt_ns
        }),
{
    let n = (now_ns - prev_ns) * 100;
    let d = dt_ns as int;
    let q = n / d;
    vstd::arithmetic::div_mod::lemma_fundamental_div_mod(n, d);
    vstd::arithmetic::div_mod::lemma_mod_bound(n, d);
    vstd::arithmetic::div_mod::lemma_div_pos_is_pos(n, d);
    let r = busy_percent(prev_ns, now_ns, dt_ns) as int;
    assert(r <= q);
    vstd::arithmetic::mul::lemma_mul_inequality(r, q, d);
    assert(d * q == q * d && (q + 1) * d == q * d + d) by (nonlinear_arith);
}

/// A creator that is written as `pid`, a blank and a number is that process,
/// whatever follows the number.
pub proof fn law_creator_is_read(pid: u32, rest: Seq<u8>)
    requires
        rest.len() == 0 || !(0x30 <= rest[0] <= 0x39),
    ensures
        creator_pid(utf8_of("pid ") + crate::twrite::decimal(pid as nat) + rest) == Some(pid),
{
    broadcast use vstd::string::is_ascii_spec_bytes;

    reveal_strlit("pid ");
    assert(vstd::string::is_ascii("pid "));
    let d = crate::twrite::decimal(pid as nat);
    let s = utf8_of("pid ") + d + rest;
    assert(utf8_of("pid ") =~= seq![0x70u8, 0x69, 0x64, 0x20]);
    assert(s.take(4) =~= seq![0x70u8, 0x69, 0x64, 0x20]);
    assert(s.skip(4) =~= d + rest);
    crate::procfs::law_written_number_is_read(pid as u64);
    lemma_leading(d, rest);
}

proof fn lemma_leading(d: Seq<u8>, rest: Seq<u8>)
    requires
        forall|i: int| 0 <= i < d.len() ==> 0x30 <= (#[trigger] d[i]) <= 0x39,
        rest.len() == 0 || !(0x30 <= rest[0] <= 0x39),
    ensures
        leading_digits(d + rest) == d,
    decreases d.len(),
{
    if d.len() == 0 {
        assert(d + rest =~= rest);
        assert(leading_digits(rest) =~= d);
    } else {
        assert((d + rest).skip(1) =~= d.skip(1) + rest);
        lemma_leading(d.skip(1), rest);
        assert(seq![d[0]] + d.skip(1) =~= d);
    }
}

/// Every process whose share is not 0 is among the busy ones, with that share,
/// and nobody else is.
pub proof fn law_busy_ones_are_told(
    prev: Seq<(u32, u64)>,
    now: Seq<(u32, u64)>,
    dt_ns: u64,
    i: int,
)
    requires
        0 <= i < now.len(),
    ensures
        ({
            let before = match value_of(prev, now[i].0) {
                Some(ns) => ns,
                None => 0,
            };
            let pct = busy_percent(before, now[i].1, dt_ns);
            pct > 0 ==> busy_entries(prev, now, dt_ns).contains(
                (now[i].0, GpuProc { sm_pct: pct, mem_mib: 0 }),
            )
        }),
        busy_entries(prev, now, dt_ns).len() <= now.len(),
        forall|k: int|
            0 <= k < busy_entries(prev, now, dt_ns).len() ==> (#[trigger] busy_entries(
                prev,
                now,
                dt_ns,
            )[k]).1.sm_pct > 0 && exists|j: int|
                0 <= j < now.len() && (#[trigger] now[j]).0 == busy_entries(prev, now, dt_ns)[k].0,
    decreases now.len(),
{
    let all = busy_entries(prev, now, dt_ns);
    let less = now.drop_last();
    let before = busy_entries(prev, less, dt_ns);
    if less.len() > 0 {
        law_busy_ones_are_told(
            prev,
            less,
            dt_ns,
            if i < less.len() {
                i
            } else {
                0
            },
        );
    }
    let pct = entry_percent(prev, now[i], dt_ns);
    let e = (now[i].0, GpuProc { sm_pct: pct, mem_mib: 0 });
    if pct > 0 {
        if i < less.len() {
            assert(before.contains(e));
            let k = choose|k: int| 0 <= k < before.len() && before[k] == e;
            assert(all[k] == e);
        } else {
            assert(all[all.len() - 1] == e);
        }
    }
    assert forall|k: int| 0 <= k < all.len() implies (#[trigger] all[k]).1.sm_pct > 0 && exists|j: int|
        0 <= j < now.len() && (#[trigger] now[j]).0 == all[k].0 by {
        if k < before.len() {
            assert(all[k] == before[k]);
            let j = choose|j: int| 0 <= j < less.len() && (#[trigger] less[j]).0 == before[k].0;
            assert(now[j].0 == all[k].0);
        } else {
            assert(now[now.len() - 1].0 == all[k].0);
        }
    }
}

/// What several devices tell adds up, and their clients come one behind the
/// other. A device that cannot be read adds nothing.
pub proof fn law_devices_add_up(a: Seq<DeviceReading>, d: DeviceReading)
    ensures
        all_used(a) + blob_used(d.own) <= u64::MAX ==> all_used(a.push(d)) == all_used(a) + blob_used(
            d.own,
        ),
        all_clients(a.push(d)) == all_clients(a) + blobs_clients(d.clients@),
        d.own is None ==> blob_used(d.own) == 0,
        all_used(Seq::empty()) == 0,
        all_clients(Seq::empty()).len() == 0,
{
    assert(a.push(d).drop_last() =~= a);
}

/// At most 256 clients count, and of so many all do.
pub proof fn law_first_clients_count(clients: Seq<(u32, u64)>)
    ensures
        clients.len() <= 256 ==> first_clients(clients) == clients,
        clients.len() > 256 ==> first_clients(clients) == clients.take(256),
{
}

/// A device whose statistics tell the bytes in use has used that many whole
/// MiB; one that has no such number tells nothing.
pub proof fn law_used_memory_is_told(s: Seq<u8>, perf: nat, used: nat)
    requires
        dict_value(s, 4, utf8_of("PerformanceStatistics")) == Some(perf),
        dict_value(s, perf, utf8_of("In use system memory")) == Some(used),
    ensures
        number_at(s, used) is None ==> used_mib(s) is None,
        number_at(s, used) matches Some(n) ==> used_mib(s) is Some && used_mib(s)->0 * 0x10_0000 <= n
            < (used_mib(s)->0 + 1) * 0x10_0000,
{
}

/// The device time of a client is that of all its usages together, whatever
/// their order; a usage without a time adds nothing.
pub proof fn law_usages_add_up(s: Seq<u8>, items: Seq<nat>, i: int, n: u64)
    requires
        0 <= i < items.len(),
        match dict_value(s, items[i], utf8_of("accumulatedGPUTime")) {
            Some(v) => n == (match number_at(s, v) {
                Some(x) => x,
                None => 0u64,
            }),
            None => n == 0,
        },
    ensures
        summed_ns(s, items.remove(i)) + n <= u64::MAX ==> summed_ns(s, items) == summed_ns(
            s,
            items.remove(i),
        ) + n,
        summed_ns(s, items.remove(i)) + n > u64::MAX ==> summed_ns(s, items) == u64::MAX,
        summed_ns(s, items) >= n,
{
    assert(n == usage_ns(s, items[i]));
    lemma_usage_out(s, items, i);
}

proof fn lemma_usage_out(s: Seq<u8>, items: Seq<nat>, i: int)
    requires
        0 <= i < items.len(),
    ensures
        ({
            let sum = summed_ns(s, items.remove(i)) + usage_ns(s, items[i]);
            summed_ns(s, items) == if sum <= u64::MAX {
                sum
            } else {
                u64::MAX as int
            }
        }),
    decreases items.len(),
{
    let fewer = items.remove(i);
    let front = items.drop_last();
    if i == items.len() - 1 {
        assert(fewer =~= front);
    } else {
        lemma_usage_out(s, front, i);
        assert(front[i] == items[i]);
        assert(front.remove(i) =~= fewer.drop_last());
        assert(fewer.last() == items.last());
    }
}

/// A client entry is of the process that made it, with the time of its usages.
pub proof fn law_client_is_its_creator(s: Seq<u8>, creator: nat, pid: u32, rest: Seq<u8>)
    requires
        dict_value(s, 4, utf8_of("IOUserClientCreator")) == Some(creator),
        string_at(s, creator) == Some(
            utf8_of("pid ") + crate::twrite::decimal(pid as nat) + rest,
        ),
        rest.len() == 0 || !(0x30 <= rest[0] <= 0x39),
    ensures
        client_reading(s) is Some,
        (client_reading(s)->0).0 == pid,
        match dict_value(s, 4, utf8_of("AppUsage")) {
            Some(usage) => (client_reading(s)->0).1 == summed_ns(s, list_items(s, usage)),
            None => (client_reading(s)->0).1 == 0,
        },
{
    law_creator_is_read(pid, rest);
}

/// The devices are together no busier than 100 percent, and no less busy than
/// any process is, up to that.
pub proof fn law_total_share_is_capped(
    state: State<'_>,
    prev: Seq<(u32, u64)>,
    dt_ns: u64,
    devices: Seq<DeviceReading>,
    entries: Seq<(u32, GpuProc)>,
    times: Seq<(u32, u64)>,
    totals: Totals,
    k: int,
)
    requires
        evaluated(state, prev, dt_ns, devices, entries, times, totals),
        0 <= k < entries.len(),
    ensures
        totals.0 == state.devices(),
        totals.1 <= 100,
        entries[k].1.sm_pct <= totals.1,
        totals.2 == all_used(devices),
        totals.3 == state.memory(),
{
    lemma_busy_sum(entries, k);
    lemma_busy_capped(prev, times, dt_ns, k);
}

proof fn lemma_busy_sum(entries: Seq<(u32, GpuProc)>, k: int)
    requires
        0 <= k < entries.len(),
    ensures
        entries[k].1.sm_pct <= busy_sum(entries),
    decreases entries.len(),
{
    if k < entries.len() - 1 {
        lemma_busy_sum(entries.drop_last(), k);
    }
}

proof fn lemma_busy_capped(prev: Seq<(u32, u64)>, now: Seq<(u32, u64)>, dt_ns: u64, k: int)
    requires
        0 <= k < busy_entries(prev, now, dt_ns).len(),
    ensures
        busy_entries(prev, now, dt_ns)[k].1.sm_pct <= 100,
    decreases now.len(),
{
    let before = busy_entries(prev, now.drop_last(), dt_ns);
    if k < before.len() {
        lemma_busy_capped(prev, now.drop_last(), dt_ns, k);
        assert(busy_entries(prev, now, dt_ns)[k] == before[k]);
    }
}

/// An iterator hands out devices up to its first 0.
pub proof fn law_devices_are_counted(services: Seq<u32>, behind: Seq<u32>)
    requires
        forall|i: int| 0 <= i < services.len() ==> #[trigger] services[i] != 0,
    ensures
        before_end(services) == services.len(),
        before_end(services.push(0) + behind) == services.len(),
    decreases services.len(),
{
    if services.len() > 0 {
        let rest = services.skip(1);
        assert forall|i: int| 0 <= i < rest.len() implies #[trigger] rest[i] != 0 by {
            assert(services[i + 1] != 0);
        }
        law_devices_are_counted(rest, behind);
        assert((services.push(0) + behind).skip(1) =~= rest.push(0) + behind);
        assert(services[0] != 0);
    }
}

} // verus!
