//! What the system tells of each process becomes the list of processes, and
//! what is remembered of them for the next round.

use crate::arena::{end_of_run, fits, next_start, FSmallStr, FVec, Frame, MAX_SMALL_LEN, SIZE};
use crate::bytes::{contents, low32, to_low32, utf8_of};
use crate::classify::{
    always_shown, base_of, build_display, has_letters, idle_noise_name, is_idle_noise, is_lean_or_lake, is_lean_related,
    is_noise, is_tool, lean_or_lake, lean_related, noise_name, program_name, shown_command,
};
use crate::filter::qualifies;
use crate::gpu::{shown_usage, GpuInfo, GpuProc, GpuUsage};
use crate::layout::{bytes_of, lemma_align_up};
use crate::mac_sys::{task_info, ProcTaskInfo, TASK_INFO_SIZE};
use crate::map::{strictly_ascending, value_of, U32Map, U32Set};
use crate::platform::Platform;
use crate::procfs::{
    arguments, block_arguments, macos_proc_age_ppid, macos_proc_args_into, read_stat, split_cmdline,
    stat_readable, stat_sound, stat_told, Clock, Parsed, Told,
};
use crate::procinfo::{
    compute_cpu, cpu_share, time_bits, Packed, ProcInfo, ProcRecord, CHILD_CPU_KEEP_THRESH, CHILD_CPU_THRESH,
    CPU_THRESH, GPU_THRESH, MEM_MB_THRESH, VISIBLE_BIT,
};
use crate::sort::U32Key;
use crate::syscall::Timebase;
use crate::wire::{long_at, word_at};
use vstd::prelude::*;

verus! {

/// What was read of a process.
pub enum Record {
    /// Nothing: it has ended meanwhile.
    Missing,
    /// Its status text.
    Stat(Vec<u8>),
    /// Its task record, its process record with the number of bytes that were
    /// filled, and its name.
    Task { task: Vec<u8>, bsd: Vec<u8>, filled: i32, name: Vec<u8> },
}

/// The bytes of `s` before the first zero byte.
pub open spec fn before_zero(s: Seq<u8>) -> Seq<u8>
    decreases s.len(),
{
    if s.len() == 0 || s[0] == 0 {
        Seq::empty()
    } else {
        seq![s[0]] + before_zero(s.skip(1))
    }
}

impl Record {
    /// It can be taken apart.
    pub open spec fn sound(&self) -> bool {
        match self {
            Record::Missing => true,
            Record::Stat(s) => stat_sound(s@),
            Record::Task { task, bsd, filled: _, name: _ } => task@.len() == TASK_INFO_SIZE && bsd@.len()
                == 232,
        }
    }

    /// What it tells.
    pub open spec fn told(&self, clock: Clock) -> Option<Told> {
        match self {
            Record::Missing => None,
            Record::Stat(s) => if s@.len() == 0 {
                None
            } else {
                Some(stat_told(s@, clock))
            },
            Record::Task { task, bsd, filled, name } => Some(
                Told {
                    ppid: if *filled < 128 {
                        0
                    } else {
                        word_at(bsd@, 16) as u32
                    },
                    total_ticks: (long_at(task@, 16) as u64).wrapping_add(long_at(task@, 24) as u64),
                    age_secs: if *filled < 128 {
                        0
                    } else {
                        low32(
                            if clock.now >= long_at(bsd@, 120) {
                                clock.now - long_at(bsd@, 120)
                            } else {
                                0
                            },
                        )
                    },
                    rss_bytes: long_at(task@, 8) as u64,
                    comm: before_zero(name@),
                },
            ),
        }
    }

    /// Reads what it tells.
    pub fn read(&self, clock: Clock) -> (r: Option<Parsed>)
        requires
            self.sound(),
            clock.ticks > 0,
        ensures
            match r {
                Some(p) => self.told(clock) == Some(p@),
                None => self.told(clock) is None,
            },
    {
        match self {
            Record::Missing => None,
            Record::Stat(s) => {
                if s.len() == 0 {
                    None
                } else {
                    Some(read_stat(s.as_slice(), clock))
                }
            },
            Record::Task { task, bsd, filled, name } => {
                let info: ProcTaskInfo = task_info(task.as_slice());
                let (age_secs, ppid): (u32, u32) = macos_proc_age_ppid(
                    bsd.as_slice(),
                    *filled,
                    clock.now,
                );
                let comm: Vec<u8> = cut_at_zero(name);
                Some(
                    Parsed {
                        ppid,
                        total_ticks: info.pti_total_user.wrapping_add(info.pti_total_system),
                        age_secs,
                        rss_bytes: info.pti_resident_size,
                        comm,
                    },
                )
            },
        }
    }
}

/// The bytes of `s` before the first zero byte.
fn cut_at_zero(s: &Vec<u8>) -> (r: Vec<u8>)
    ensures
        r@ == before_zero(s@),
{
    let n: usize = s.len();
    let mut r: Vec<u8> = Vec::new();
    let mut i: usize = 0;
    assert(s@.skip(0) =~= s@);
    assert(r@ + before_zero(s@.skip(0)) =~= before_zero(s@));
    while i < n && s[i] != 0
        invariant
            i <= n == s@.len(),
            r@ + before_zero(s@.skip(i as int)) == before_zero(s@),
        decreases n - i,
    {
        let ghost was = r@;
        let ghost rest = s@.skip(i as int);
        r.push(s[i]);
        assert(rest.skip(1) =~= s@.skip(i + 1));
        assert(rest[0] == s@[i as int]);
        assert(r@ + before_zero(s@.skip(i + 1)) =~= was + before_zero(rest));
        i = i + 1;
    }
    assert(before_zero(s@.skip(i as int)) =~= Seq::empty());
    assert(r@ =~= before_zero(s@));
    r
}

/// A process and what was read of it: its record and its arguments as the
/// system lays them out.
pub struct Reading {
    pub pid: u32,
    pub record: Record,
    pub cmdline: Vec<u8>,
}

/// What the processes are held against.
pub struct Round<'a> {
    pub platform: Platform,
    pub clock: Clock,
    /// Nanoseconds per tick of processor time.
    pub base: Timebase,
    /// Nanoseconds since the last round.
    pub dt_ns: u64,
    /// What is remembered of the last round.
    pub prev: U32Map<'a, Packed>,
    /// Who uses the graphics processor.
    pub gpu_pids: U32Set<'a>,
}

impl<'a> Round<'a> {
    /// There is a clock to go by.
    pub open spec fn sound(&self) -> bool {
        self.clock.ticks > 0 && self.base.denom > 0
    }

    /// A reading can be taken apart, and its age counted.
    pub open spec fn takes(&self, r: Reading) -> bool {
        &&& r.record.sound()
        &&& r.record.told(self.clock) matches Some(t) ==> t.age_secs < VISIBLE_BIT
    }

    /// The share of processor time.
    pub open spec fn share(&self, pid: u32, t: Told) -> u64 {
        cpu_share(
            self.platform,
            value_of(self.prev@, pid),
            t.age_secs,
            t.total_ticks,
            self.base,
            self.dt_ns,
        )
    }

    /// Whether the process was shown in the last round.
    pub open spec fn was_shown(&self, pid: u32) -> bool {
        match value_of(self.prev@, pid) {
            Some(p) => p.was_shown(),
            None => false,
        }
    }

    /// Whether the process has much memory.
    pub open spec fn is_large(&self, t: Told) -> bool {
        t.rss_bytes as int / 0x10_0000 >= MEM_MB_THRESH
    }

    /// Whether the process may come to be shown, so that its arguments matter.
    /// Where they come with the record, they always do.
    pub open spec fn may_qualify(&self, pid: u32, t: Told) -> bool {
        ||| self.platform == Platform::Mac
        ||| self.share(pid, t) >= CHILD_CPU_THRESH
        ||| self.share(pid, t) >= CHILD_CPU_KEEP_THRESH && self.was_shown(pid)
        ||| self.is_large(t)
        ||| self.gpu_pids@.contains(pid)
        ||| lean_or_lake(t.comm)
    }

    /// The arguments.
    pub open spec fn args(&self, cmdline: Seq<u8>) -> Seq<Seq<u8>> {
        match self.platform {
            Platform::Linux => arguments(cmdline),
            Platform::Mac => block_arguments(cmdline),
        }
    }

    /// Whether the process is of no interest.
    pub open spec fn is_noise(&self, pid: u32, t: Told, cmdline: Seq<u8>) -> bool {
        self.may_qualify(pid, t) && noise_name(program_name(t.comm, self.args(cmdline)))
    }

    /// Whether the process is shown for its own sake.
    pub open spec fn shows(&self, pid: u32, t: Told, cmdline: Seq<u8>) -> bool {
        &&& self.may_qualify(pid, t)
        &&& !self.is_noise(pid, t, cmdline)
        &&& self.shows_with(pid, t, self.args(cmdline))
    }

    /// Whether a process of interest is shown for its own sake: for what it is,
    /// for its share of processor time, for its memory unless that is known to
    /// lie idle, or for its use of the graphics processor.
    pub open spec fn shows_with(&self, pid: u32, t: Told, args: Seq<Seq<u8>>) -> bool {
        ||| always_shown(t.comm, args)
        ||| self.share(pid, t) >= CPU_THRESH
        ||| self.is_large(t) && !(self.platform == Platform::Mac && idle_noise_name(
            program_name(t.comm, args),
        ))
        ||| self.gpu_pids@.contains(pid)
    }

    /// What is shown as its command: its name alone as long as it is quiet.
    pub open spec fn display(&self, pid: u32, t: Told, cmdline: Seq<u8>) -> Seq<u8> {
        let args = self.args(cmdline);
        if !self.may_qualify(pid, t) {
            t.comm
        } else if self.is_noise(pid, t, cmdline) {
            Seq::empty()
        } else {
            shown_command(
                t.comm,
                args,
                always_shown(t.comm, args) || lean_related(t.comm, args),
            )
        }
    }

    /// What is shown of the process of a reading.
    pub open spec fn reading_display(&self, r: Reading) -> Seq<u8> {
        match r.record.told(self.clock) {
            None => Seq::empty(),
            Some(t) => self.display(r.pid, t, r.cmdline@),
        }
    }

    /// `p` is the process of a reading. A process of no interest keeps its
    /// parent, so that those below it are found, and shows no use.
    pub open spec fn is_process(&self, r: Reading, p: ProcInfo<'_>) -> bool {
        let text = self.reading_display(r);
        &&& p.pid == r.pid
        &&& p.gpu is None
        &&& p.display.wf()
        &&& p.display@ == (if text.len() <= MAX_SMALL_LEN {
            text
        } else {
            text.take(MAX_SMALL_LEN as int)
        })
        &&& match r.record.told(self.clock) {
            None => p.ppid == 0 && p.cpu == 0 && p.rss_kib == 0 && p.age_visible == 0,
            Some(t) => {
                &&& p.ppid == t.ppid
                &&& p.cpu == (if self.is_noise(r.pid, t, r.cmdline@) {
                    0
                } else {
                    self.share(r.pid, t)
                })
                &&& p.rss_kib == low32(t.rss_bytes as int / 1024)
                &&& p.age() == t.age_secs
                &&& p.shown() == self.shows(r.pid, t, r.cmdline@)
            },
        }
    }

    /// `e` is what is remembered of a reading.
    pub open spec fn is_remembered(&self, r: Reading, e: (u32, Packed)) -> bool {
        &&& e.0 == r.pid
        &&& !e.1.was_shown()
        &&& e.1.bits() == time_bits(
            self.platform,
            match r.record.told(self.clock) {
                Some(t) => t.total_ticks,
                None => 0,
            },
        )
    }
}

/// What was found out about a process.
pub struct Verdict {
    pub ppid: u32,
    pub cpu: u64,
    pub rss_kib: u32,
    pub age_visible: u32,
    pub display: Vec<u8>,
    pub total_ticks: u64,
}

impl<'a> Round<'a> {
    /// `v` is what is to be found out about the process of a reading.
    pub open spec fn is_verdict(&self, r: Reading, v: Verdict) -> bool {
        match r.record.told(self.clock) {
            None => v.ppid == 0 && v.cpu == 0 && v.rss_kib == 0 && v.age_visible == 0
                && v.total_ticks == 0 && v.display@ == Seq::<u8>::empty(),
            Some(t) => self.is_verdict_on(r.pid, t, r.cmdline@, v),
        }
    }

    /// `v` is what is to be found out about a process of which `t` is told.
    pub open spec fn is_verdict_on(&self, pid: u32, t: Told, cmdline: Seq<u8>, v: Verdict) -> bool {
        &&& v.ppid == t.ppid
        &&& v.cpu == (if self.is_noise(pid, t, cmdline) {
            0
        } else {
            self.share(pid, t)
        })
        &&& v.rss_kib == low32(t.rss_bytes as int / 1024)
        &&& v.age_visible % VISIBLE_BIT == t.age_secs
        &&& (v.age_visible >= VISIBLE_BIT) == self.shows(pid, t, cmdline)
        &&& v.total_ticks == t.total_ticks
        &&& v.display@ == self.display(pid, t, cmdline)
    }

    /// Whether a reading can be taken apart, and its age counted.
    pub fn takes_reading(&self, r: &Reading) -> (ok: bool)
        requires
            self.sound(),
        ensures
            ok == self.takes(*r),
    {
        let sound: bool = match &r.record {
            Record::Missing => true,
            Record::Stat(s) => stat_readable(s.as_slice()),
            Record::Task { task, bsd, filled: _, name: _ } => task.len() == TASK_INFO_SIZE
                && bsd.len() == 232,
        };
        if !sound {
            return false;
        }
        match r.record.read(self.clock) {
            None => true,
            Some(p) => p.age_secs < VISIBLE_BIT,
        }
    }

    /// The share of processor time.
    fn share_of(&self, pid: u32, p: &Parsed) -> (r: u64)
        requires
            self.sound(),
        ensures
            r == self.share(pid, p@),
    {
        let before: Option<Packed> = match self.prev.get(&pid) {
            Some(e) => Some(*e),
            None => None,
        };
        compute_cpu(self.platform, before, p.age_secs, p.total_ticks, self.base, self.dt_ns)
    }

    /// Whether the arguments of the process are to be read.
    pub fn wants_args(&self, pid: u32, p: &Parsed) -> (r: bool)
        requires
            self.sound(),
        ensures
            r == self.may_qualify(pid, p@),
    {
        match self.platform {
            Platform::Mac => {
                return true;
            },
            Platform::Linux => {},
        }
        let cpu: u64 = self.share_of(pid, p);
        let was_shown: bool = match self.prev.get(&pid) {
            Some(e) => e.visible(),
            None => false,
        };
        cpu >= CHILD_CPU_THRESH || (cpu >= CHILD_CPU_KEEP_THRESH && was_shown) || p.rss_bytes
            / 0x10_0000 >= MEM_MB_THRESH || self.gpu_pids.contains(&pid) || is_tool(
            p.comm.as_slice(),
        )
    }

    /// Finds out about the process of a reading.
    pub fn judge(&self, r: &Reading) -> (v: Verdict)
        requires
            self.sound(),
            self.takes(*r),
        ensures
            self.is_verdict(*r, v),
    {
        let p: Parsed = match r.record.read(self.clock) {
            None => {
                let display: Vec<u8> = Vec::new();
                assert(display@ =~= Seq::empty());
                return Verdict {
                    ppid: 0,
                    cpu: 0,
                    rss_kib: 0,
                    age_visible: 0,
                    display,
                    total_ticks: 0,
                };
            },
            Some(p) => p,
        };
        self.judge_told(r.pid, p, &r.cmdline)
    }

    /// Whether a process of interest is shown for its own sake.
    fn shows_itself(&self, pid: u32, p: &Parsed, args: &[&[u8]], cpu: u64) -> (r: bool)
        requires
            cpu == self.share(pid, p@),
        ensures
            r == self.shows_with(pid, p@, contents(args@)),
    {
        let comm: &[u8] = p.comm.as_slice();
        let mem_qualifies: bool = p.rss_bytes / 0x10_0000 >= MEM_MB_THRESH && !is_idle_noise(
            self.platform,
            comm,
            args,
        );
        is_lean_or_lake(comm, args) || cpu >= CPU_THRESH || mem_qualifies
            || self.gpu_pids.contains(&pid)
    }

    /// Finds out about a process of which something is told.
    fn judge_told(&self, pid: u32, p: Parsed, cmdline: &Vec<u8>) -> (v: Verdict)
        requires
            self.sound(),
            p.age_secs < VISIBLE_BIT,
        ensures
            self.is_verdict_on(pid, p@, cmdline@, v),
    {
        let cpu: u64 = self.share_of(pid, &p);
        let rss_kib: u32 = to_low32(p.rss_bytes / 1024);
        if !self.wants_args(pid, &p) {
            return Verdict {
                ppid: p.ppid,
                cpu,
                rss_kib,
                age_visible: ProcInfo::pack(p.age_secs, false),
                display: p.comm,
                total_ticks: p.total_ticks,
            };
        }
        let args: Vec<&[u8]> = match self.platform {
            Platform::Linux => split_cmdline(cmdline.as_slice()),
            Platform::Mac => macos_proc_args_into(cmdline.as_slice()),
        };
        assert(contents(args@) == self.args(cmdline@));
        let comm: &[u8] = p.comm.as_slice();
        if is_noise(comm, args.as_slice()) {
            let display: Vec<u8> = Vec::new();
            assert(display@ =~= Seq::empty());
            return Verdict {
                ppid: p.ppid,
                cpu: 0,
                rss_kib,
                age_visible: ProcInfo::pack(p.age_secs, false),
                display,
                total_ticks: p.total_ticks,
            };
        }
        let visible: bool = self.shows_itself(pid, &p, args.as_slice(), cpu);
        let is_related: bool = is_lean_or_lake(comm, args.as_slice()) || is_lean_related(
            comm,
            args.as_slice(),
        );
        Verdict {
            ppid: p.ppid,
            cpu,
            rss_kib,
            age_visible: ProcInfo::pack(p.age_secs, visible),
            display: build_display(comm, args.as_slice(), is_related),
            total_ticks: p.total_ticks,
        }
    }

    /// How many bytes the commands of the first `n` readings take.
    pub open spec fn display_bytes(&self, rs: Seq<Reading>, n: nat) -> nat
        decreases n,
    {
        if n == 0 {
            0
        } else {
            self.display_bytes(rs, (n - 1) as nat) + self.reading_display(rs[n - 1]).len()
        }
    }

    /// Where the commands start, behind the processes and what is remembered.
    pub open spec fn texts_at(&self, top: nat, n: nat) -> nat {
        next_start::<(u32, Packed)>(
            next_start::<ProcRecord>(top) + bytes_of::<ProcRecord>(n),
        ) + bytes_of::<(u32, Packed)>(n)
    }

    /// Whether there is room for the processes of the readings.
    pub open spec fn collect_fits(&self, top: nat, rs: Seq<Reading>) -> bool {
        &&& fits::<ProcRecord>(top, rs.len())
        &&& fits::<(u32, Packed)>(
            next_start::<ProcRecord>(top) + bytes_of::<ProcRecord>(rs.len()),
            rs.len(),
        )
        &&& self.texts_at(top, rs.len()) + self.display_bytes(rs, rs.len()) <= SIZE
    }
}

/// A run of bytes starts where the last run ended.
proof fn lemma_byte_start(top: nat)
    requires
        vstd::layout::align_of::<u8>() > 0,
        vstd::layout::size_of::<u8>() % vstd::layout::align_of::<u8>() == 0,
    ensures
        next_start::<u8>(top) == top,
        vstd::layout::align_of::<u8>() == 1,
        forall|n: nat| #[trigger] bytes_of::<u8>(n) == n,
{
    broadcast use vstd::layout::layout_of_primitives;

    let a = vstd::layout::align_of::<u8>() as int;
    assert(a == 1) by {
        if a > 1 {
            vstd::arithmetic::div_mod::lemma_small_mod(1, a as nat);
        }
    }
    lemma_align_up(top, 1);
    assert(top as int % 1 == 0);
}

/// Puts a command into the frame.
fn store_display<'a>(frame: &mut Frame<'a>, display: Vec<u8>) -> (r: FSmallStr<'a>)
    requires
        old(frame).top() + display@.len() <= SIZE,
    ensures
        r.wf(),
        r@ == (if display@.len() <= MAX_SMALL_LEN {
            display@
        } else {
            display@.take(MAX_SMALL_LEN as int)
        }),
        final(frame).top() == old(frame).top() + display@.len(),
{
    vstd::layout::layout_for_type_is_valid::<u8>();
    proof {
        lemma_byte_start(frame.top());
    }
    frame.place("display", display).into_small_lossy()
}

/// Makes the list of processes, and what is remembered of them, in the order of
/// the readings.
pub fn collect_procs<'a>(frame: &mut Frame<'a>, round: &Round<'_>, readings: &Vec<Reading>) -> (r: (
    FVec<'a, ProcInfo<'a>, ProcRecord>,
    FVec<'a, (u32, Packed)>,
))
    requires
        round.sound(),
        readings@.len() <= u32::MAX,
        forall|i: int| 0 <= i < readings@.len() ==> round.takes(#[trigger] readings@[i]),
        round.collect_fits(old(frame).top(), readings@),
    ensures
        r.0.wf(),
        r.1.wf(),
        r.0@.len() == readings@.len(),
        r.1@.len() == readings@.len(),
        forall|i: int|
            0 <= i < readings@.len() ==> round.is_process(readings@[i], #[trigger] r.0@[i]),
        forall|i: int|
            0 <= i < readings@.len() ==> round.is_remembered(readings@[i], #[trigger] r.1@[i]),
        r.1.at() == next_start::<(u32, Packed)>(
            next_start::<ProcRecord>(old(frame).top()) + bytes_of::<ProcRecord>(readings@.len()),
        ),
        final(frame).top() == round.texts_at(old(frame).top(), readings@.len())
            + round.display_bytes(readings@, readings@.len()),
{
    let n: usize = readings.len();
    let ghost start = round.texts_at(frame.top(), n as nat);
    let mut procs: FVec<'a, ProcInfo<'a>, ProcRecord> = frame.vec_as("procs", n as u32);
    let mut next: FVec<'a, (u32, Packed)> = frame.vec("next", n as u32);
    let mut i: usize = 0;
    while i < n
        invariant
            i <= n == readings@.len() <= u32::MAX,
            round.sound(),
            forall|k: int| 0 <= k < readings@.len() ==> round.takes(#[trigger] readings@[k]),
            start + round.display_bytes(readings@, n as nat) <= SIZE,
            frame.top() == start + round.display_bytes(readings@, i as nat),
            procs.wf(),
            procs.cap() == n,
            procs@.len() == i,
            next.wf(),
            next.cap() == n,
            next.at() == start - bytes_of::<(u32, Packed)>(n as nat),
            next@.len() == i,
            forall|k: int| 0 <= k < i ==> round.is_process(readings@[k], #[trigger] procs@[k]),
            forall|k: int| 0 <= k < i ==> round.is_remembered(readings@[k], #[trigger] next@[k]),
        decreases n - i,
    {
        let pid: u32 = readings[i].pid;
        let v: Verdict = round.judge(&readings[i]);
        proof {
            round.lemma_display_bytes(readings@, (i + 1) as nat, n as nat);
        }
        let display: FSmallStr<'a> = store_display(frame, v.display);
        let _ = procs.push(
            ProcInfo {
                pid,
                ppid: v.ppid,
                cpu: v.cpu,
                rss_kib: v.rss_kib,
                age_visible: v.age_visible,
                gpu: None,
                display,
            },
        );
        let _ = next.push((pid, Packed::new(round.platform, false, v.total_ticks)));
        i = i + 1;
    }
    (procs, next)
}

impl<'a> Round<'a> {
    /// Fewer readings take no more bytes.
    proof fn lemma_display_bytes(&self, rs: Seq<Reading>, m: nat, n: nat)
        requires
            m <= n,
        ensures
            self.display_bytes(rs, m) <= self.display_bytes(rs, n),
        decreases n - m,
    {
        if m < n {
            self.lemma_display_bytes(rs, m, (n - 1) as nat);
        }
    }
}

/// Whether there is room for the processes of the readings.
pub fn collect_has_room(frame: &Frame<'_>, round: &Round<'_>, readings: &Vec<Reading>) -> (r: bool)
    requires
        round.sound(),
        forall|i: int| 0 <= i < readings@.len() ==> round.takes(#[trigger] readings@[i]),
    ensures
        r == round.collect_fits(frame.top(), readings@),
{
    let n: usize = readings.len();
    let next_at: usize = match end_of_run::<ProcRecord>(frame.offset(), n) {
        None => {
            return false;
        },
        Some(end) => end,
    };
    let mut at: usize = match end_of_run::<(u32, Packed)>(next_at, n) {
        None => {
            return false;
        },
        Some(end) => end,
    };
    let ghost start = round.texts_at(frame.top(), n as nat);
    for i in 0..n
        invariant
            n == readings@.len(),
            round.sound(),
            forall|k: int| 0 <= k < readings@.len() ==> round.takes(#[trigger] readings@[k]),
            start == round.texts_at(frame.top(), n as nat),
            at == start + round.display_bytes(readings@, i as nat),
            at <= SIZE,
    {
        let v: Verdict = round.judge(&readings[i]);
        proof {
            round.lemma_display_bytes(readings@, (i + 1) as nat, n as nat);
        }
        if v.display.len() > SIZE - at {
            return false;
        }
        at = at + v.display.len();
    }
    true
}

/// The arguments of a process that are not read could not have made it shown:
/// neither for its own sake, unless it runs the prover or its build tool under
/// another name, nor below a shown process.
pub proof fn law_unread_args_do_not_matter(
    round: &Round<'_>,
    pid: u32,
    t: Told,
    args: Seq<Seq<u8>>,
    p: ProcInfo<'_>,
)
    requires
        !round.may_qualify(pid, t),
        !(args.len() > 0 && lean_or_lake(base_of(args[0]))),
        p.pid == pid,
        p.cpu == round.share(pid, t),
    ensures
        !round.shows_with(pid, t, args),
        !qualifies(p, round.prev@),
{
}

/// A process that is told of and is no noise is shown for its use: of the
/// graphics processor, whatever else it does; of at least five percent of a
/// core; of at least 128 MiB, unless its memory is known to lie idle; or for
/// being the prover or its build tool. Nothing else makes it shown.
pub proof fn law_use_is_shown(round: &Round<'_>, r: Reading, p: ProcInfo<'_>, t: Told)
    requires
        round.is_process(r, p),
        r.record.told(round.clock) == Some(t),
        !noise_name(program_name(t.comm, round.args(r.cmdline@))),
    ensures
        round.gpu_pids@.contains(r.pid) ==> p.shown(),
        p.cpu >= 5_000_000 ==> p.shown(),
        t.rss_bytes >= 128 * 1024 * 1024 && round.platform == Platform::Linux ==> p.shown(),
        t.rss_bytes >= 128 * 1024 * 1024 && !idle_noise_name(
            program_name(t.comm, round.args(r.cmdline@)),
        ) ==> p.shown(),
        t.comm == utf8_of("lean") || t.comm == utf8_of("lake") ==> p.shown(),
        p.shown() ==> {
            let args = round.args(r.cmdline@);
            ||| round.gpu_pids@.contains(r.pid)
            ||| p.cpu >= 5_000_000
            ||| t.rss_bytes >= 128 * 1024 * 1024 && !(round.platform == Platform::Mac
                && idle_noise_name(program_name(t.comm, args)))
            ||| t.comm == utf8_of("lean") || t.comm == utf8_of("lake")
            ||| args.len() > 0 && (base_of(args[0]) == utf8_of("lean") || base_of(args[0]) == utf8_of(
                "lake",
            ))
        },
{
}

/// Noise is never shown, and shows no use of the processor where its arguments
/// were read.
pub proof fn law_noise_is_not_shown(round: &Round<'_>, r: Reading, p: ProcInfo<'_>, t: Told)
    requires
        round.is_process(r, p),
        r.record.told(round.clock) == Some(t),
        noise_name(program_name(t.comm, round.args(r.cmdline@))),
    ensures
        !p.shown(),
        p.cpu < 1_000_000,
        round.platform == Platform::Mac ==> p.cpu == 0 && p.display@.len() == 0,
{
}

/// A process keeps the number, the parent, the memory and the age that are
/// told of it; one that has ended meanwhile shows nothing.
pub proof fn law_process_is_as_told(round: &Round<'_>, r: Reading, p: ProcInfo<'_>)
    requires
        round.is_process(r, p),
        round.takes(r),
    ensures
        p.pid == r.pid,
        match r.record.told(round.clock) {
            Some(t) => {
                &&& p.ppid == t.ppid
                &&& p.age_visible % 0x8000_0000 == t.age_secs
                &&& t.rss_bytes < 0x400_0000_0000 ==> p.rss_kib * 1024 <= t.rss_bytes < (p.rss_kib
                    + 1) * 1024
                &&& p.cpu == 0 || p.cpu == round.share(r.pid, t)
            },
            None => p.age_visible == 0 && p.cpu == 0 && p.rss_kib == 0 && p.display@.len() == 0,
        },
{
}

/// The share of a process that is no noise is that of its own number, since
/// what was remembered under it, by the clock of the round.
pub proof fn law_share_is_its_own(round: &Round<'_>, r: Reading, p: ProcInfo<'_>, t: Told)
    requires
        round.is_process(r, p),
        r.record.told(round.clock) == Some(t),
        !noise_name(program_name(t.comm, round.args(r.cmdline@))),
    ensures
        p.cpu == cpu_share(
            round.platform,
            value_of(round.prev@, r.pid),
            t.age_secs,
            t.total_ticks,
            round.base,
            round.dt_ns,
        ),
{
}

/// What is remembered of a reading is its number and the time it has used, and
/// nobody is remembered as shown yet.
pub proof fn law_time_is_remembered(round: &Round<'_>, r: Reading, e: (u32, Packed), unit: nat)
    requires
        round.is_remembered(r, e),
        unit == (match round.platform {
            Platform::Linux => 2nat,
            Platform::Mac => 128nat,
        }),
    ensures
        e.0 == r.pid,
        e.1.0 < 0x8000_0000,
        match r.record.told(round.clock) {
            Some(t) => e.1.0 == t.total_ticks as nat / unit % 0x8000_0000,
            None => e.1.0 == 0,
        },
{
}

/// A process that is shown, or is busy, shows its command: that of the
/// prover's world if its name or one of its first three arguments says so, and
/// else the plain one. One that is quiet shows its name, and noise nothing. A
/// command is cut behind 4095 bytes.
pub proof fn law_command_is_shown(round: &Round<'_>, r: Reading, p: ProcInfo<'_>, t: Told)
    requires
        round.is_process(r, p),
        r.record.told(round.clock) == Some(t),
        !noise_name(program_name(t.comm, round.args(r.cmdline@))),
    ensures
        ({
            let args = round.args(r.cmdline@);
            let own = shown_command(t.comm, args, true);
            let plain = shown_command(t.comm, args, false);
            let quiet = !p.shown() && p.cpu < 300_000 && round.platform == Platform::Linux;
            let word = has_letters(t.comm, utf8_of("lean")) || has_letters(t.comm, utf8_of("lake"))
                || has_letters(t.comm, utf8_of("certificate")) || exists|i: int|
                0 <= i < 3 && i < args.len() && (has_letters(#[trigger] args[i], utf8_of("lean"))
                    || has_letters(args[i], utf8_of("lake")) || has_letters(
                    args[i],
                    utf8_of("certificate"),
                ));
            &&& quiet && t.comm.len() <= 4095 ==> p.display@ == t.comm
            &&& (p.shown() || p.cpu >= 1_000_000 || round.platform == Platform::Mac) && word
                && own.len() <= 4095 ==> p.display@ == own
            &&& (p.shown() || p.cpu >= 1_000_000 || round.platform == Platform::Mac) && !word && !(
            lean_or_lake(t.comm) || args.len() > 0 && lean_or_lake(base_of(args[0])))
                && plain.len() <= 4095 ==> p.display@ == plain
            &&& p.display@.len() <= 4095
        }),
{
    let args = round.args(r.cmdline@);
    if exists|i: int|
        0 <= i < 3 && i < args.len() && (has_letters(#[trigger] args[i], utf8_of("lean"))
            || has_letters(args[i], utf8_of("lake")) || has_letters(
            args[i],
            utf8_of("certificate"),
        )) {
        let i = choose|i: int|
            0 <= i < 3 && i < args.len() && (has_letters(#[trigger] args[i], utf8_of("lean"))
                || has_letters(args[i], utf8_of("lake")) || has_letters(
                args[i],
                utf8_of("certificate"),
            ));
        assert(crate::classify::lean_keyword(args[i]));
        assert(lean_related(t.comm, args));
    } else if exists|i: int|
        0 <= i < 3 && i < args.len() && crate::classify::lean_keyword(#[trigger] args[i]) {
        let i = choose|i: int|
            0 <= i < 3 && i < args.len() && crate::classify::lean_keyword(#[trigger] args[i]);
        assert(has_letters(args[i], utf8_of("lean")) || has_letters(args[i], utf8_of("lake"))
            || has_letters(args[i], utf8_of("certificate")));
    }
}

/// What is told of a task: the parent, the sum of both times, the age by when
/// it started, its memory, and its name up to the first zero byte.
pub proof fn law_task_is_told(
    task: Vec<u8>,
    bsd: Vec<u8>,
    filled: i32,
    name: Vec<u8>,
    clock: Clock,
    t: Told,
    end: int,
)
    requires
        (Record::Task { task, bsd, filled, name }).told(clock) == Some(t),
        task@.len() == 96,
        bsd@.len() == 232,
        0 <= end <= name@.len(),
        forall|i: int| 0 <= i < end ==> (#[trigger] name@[i]) != 0,
        end == name@.len() || name@[end] == 0,
    ensures
        t.comm == name@.take(end),
        t.rss_bytes == long_at(task@, 8),
        long_at(task@, 16) + long_at(task@, 24) <= u64::MAX ==> t.total_ticks == long_at(task@, 16)
            + long_at(task@, 24),
        filled >= 128 ==> t.ppid == word_at(bsd@, 16),
        filled >= 128 && long_at(bsd@, 120) <= clock.now && clock.now - long_at(bsd@, 120)
            <= u32::MAX ==> t.age_secs == clock.now - long_at(bsd@, 120),
        filled < 128 ==> t.ppid == 0 && t.age_secs == 0,
{
    lemma_before_zero(name@, end);
}

proof fn lemma_before_zero(s: Seq<u8>, end: int)
    requires
        0 <= end <= s.len(),
        forall|i: int| 0 <= i < end ==> (#[trigger] s[i]) != 0,
        end == s.len() || s[end] == 0,
    ensures
        before_zero(s) == s.take(end),
    decreases end,
{
    if end > 0 {
        let rest = s.skip(1);
        assert forall|i: int| 0 <= i < end - 1 implies (#[trigger] rest[i]) != 0 by {
            assert(rest[i] == s[i + 1]);
        }
        lemma_before_zero(rest, end - 1);
        assert(seq![s[0]] + rest.take(end - 1) =~= s.take(end));
    } else {
        assert(before_zero(s) =~= s.take(0));
    }
}

/// Who is looked at: everybody in the list but the program itself, in their
/// order, and where numbers are signed only those above 0.
pub proof fn law_listed_are_the_others(platform: Platform, pids: Seq<u32>, my_pid: u32, i: int)
    requires
        0 <= i < pids.len(),
    ensures
        pids[i] != my_pid && (platform == Platform::Linux || 0 < pids[i] < 0x8000_0000) ==> listed(
            platform,
            pids,
            my_pid,
        ).contains(pids[i]),
        !listed(platform, pids, my_pid).contains(my_pid),
        listed(platform, pids, my_pid).len() <= pids.len(),
        forall|k: int|
            0 <= k < listed(platform, pids, my_pid).len() ==> pids.contains(
                #[trigger] listed(platform, pids, my_pid)[k],
            ),
    decreases pids.len(),
{
    lemma_listed(platform, pids, my_pid);
}

proof fn lemma_listed(platform: Platform, pids: Seq<u32>, my_pid: u32)
    ensures
        forall|i: int|
            0 <= i < pids.len() && (#[trigger] pids[i]) != my_pid && (platform == Platform::Linux || 0
                < pids[i] < 0x8000_0000) ==> listed(platform, pids, my_pid).contains(pids[i]),
        listed(platform, pids, my_pid).len() <= pids.len(),
        forall|k: int|
            0 <= k < listed(platform, pids, my_pid).len() ==> pids.contains(
                #[trigger] listed(platform, pids, my_pid)[k],
            ) && listed(platform, pids, my_pid)[k] != my_pid,
    decreases pids.len(),
{
    if pids.len() > 0 {
        let less = pids.drop_last();
        lemma_listed(platform, less, my_pid);
        let a = listed(platform, less, my_pid);
        let b = listed(platform, pids, my_pid);
        assert forall|i: int|
            0 <= i < pids.len() && (#[trigger] pids[i]) != my_pid && (platform == Platform::Linux || 0
                < pids[i] < 0x8000_0000) implies b.contains(pids[i]) by {
            if i < less.len() {
                assert(less[i] == pids[i]);
                assert(a.contains(pids[i]));
                let k = choose|k: int| 0 <= k < a.len() && a[k] == pids[i];
                assert(b[k] == pids[i]);
            } else {
                assert(b[b.len() - 1] == pids[i]);
            }
        }
        assert forall|k: int| 0 <= k < b.len() implies pids.contains(#[trigger] b[k]) && b[k]
            != my_pid by {
            if k < a.len() {
                assert(b[k] == a[k]);
                assert(less.contains(a[k]));
                let i = choose|i: int| 0 <= i < less.len() && less[i] == a[k];
                assert(pids[i] == b[k]);
            } else {
                assert(pids[pids.len() - 1] == b[k]);
            }
        }
    }
}

/// Who counts as a user of the graphics processor: everybody who is listed, but
/// where all shares are told only those with at least five percent.
pub proof fn law_gpu_users(platform: Platform, es: Seq<(u32, GpuProc)>, n: nat, i: int)
    requires
        n <= es.len(),
        0 <= i < n,
    ensures
        platform == Platform::Linux || es[i].1.sm_pct >= 5 ==> gpu_users(platform, es, n).contains(
            es[i].0,
        ),
        gpu_users(platform, es, n).len() <= n,
        forall|k: int|
            0 <= k < gpu_users(platform, es, n).len() ==> exists|j: int|
                0 <= j < n && (#[trigger] es[j]).0 == (#[trigger] gpu_users(platform, es, n)[k]) && (
                platform == Platform::Linux || es[j].1.sm_pct >= 5),
    decreases n,
{
    let all = gpu_users(platform, es, n);
    if n > 1 {
        law_gpu_users(
            platform,
            es,
            (n - 1) as nat,
            if i < n - 1 {
                i
            } else {
                0
            },
        );
    }
    let m = (n - 1) as nat;
    let before = gpu_users(platform, es, m);
    if i < n - 1 && before.contains(es[i].0) {
        let k = choose|k: int| 0 <= k < before.len() && before[k] == es[i].0;
        assert(all[k] == es[i].0);
    }
    if i == n - 1 && uses_gpu(platform, es[i].1) {
        assert(all[all.len() - 1] == es[i].0);
    }
    assert forall|k: int| 0 <= k < all.len() implies exists|j: int|
        0 <= j < n && (#[trigger] es[j]).0 == (#[trigger] all[k]) && (platform == Platform::Linux
            || es[j].1.sm_pct >= 5) by {
        if k < before.len() {
            assert(all[k] == before[k]);
            let j = choose|j: int|
                0 <= j < m && (#[trigger] es[j]).0 == before[k] && (platform == Platform::Linux
                    || es[j].1.sm_pct >= 5);
            assert(es[j].0 == all[k]);
        } else {
            assert(es[n - 1].0 == all[k]);
        }
    }
}

/// The processes to look at: the numbers in `pids`, but for the program itself.
/// Where numbers are signed, only those above 0.
pub open spec fn listed(platform: Platform, pids: Seq<u32>, my_pid: u32) -> Seq<u32>
    decreases pids.len(),
{
    if pids.len() == 0 {
        Seq::empty()
    } else {
        let rest = listed(platform, pids.drop_last(), my_pid);
        let pid = pids.last();
        if pid == my_pid || (platform == Platform::Mac && !(0 < pid < 0x8000_0000)) {
            rest
        } else {
            rest.push(pid)
        }
    }
}

/// The processes to look at.
pub fn list_pids(platform: Platform, pids: &Vec<u32>, my_pid: u32) -> (r: Vec<u32>)
    ensures
        r@ == listed(platform, pids@, my_pid),
{
    let mut r: Vec<u32> = Vec::new();
    assert(pids@.take(0) =~= Seq::empty());
    for i in 0..pids.len()
        invariant
            r@ == listed(platform, pids@.take(i as int), my_pid),
    {
        let pid: u32 = pids[i];
        assert(pids@.take(i + 1).drop_last() =~= pids@.take(i as int));
        let valid: bool = match platform {
            Platform::Linux => true,
            Platform::Mac => pid > 0 && pid < 0x8000_0000,
        };
        if pid != my_pid && valid {
            r.push(pid);
        }
    }
    assert(pids@.take(pids@.len() as int) =~= pids@);
    r
}

/// Each number in `pids` once, where it first comes.
pub open spec fn first_of_each(pids: Seq<u32>) -> Seq<u32>
    decreases pids.len(),
{
    if pids.len() == 0 {
        Seq::empty()
    } else {
        let rest = first_of_each(pids.drop_last());
        if rest.contains(pids.last()) {
            rest
        } else {
            rest.push(pids.last())
        }
    }
}

/// Each number once: a round takes one reading of each process.
pub fn drop_repeats(pids: &Vec<u32>) -> (r: Vec<u32>)
    ensures
        r@ == first_of_each(pids@),
        r@.no_duplicates(),
        pids@.no_duplicates() ==> r@ == pids@,
{
    let mut r: Vec<u32> = Vec::new();
    assert(pids@.take(0) =~= Seq::empty());
    for i in 0..pids.len()
        invariant
            r@ == first_of_each(pids@.take(i as int)),
            r@.no_duplicates(),
            pids@.no_duplicates() ==> r@ == pids@.take(i as int),
    {
        let pid: u32 = pids[i];
        assert(pids@.take(i + 1).drop_last() =~= pids@.take(i as int));
        assert(pids@.take(i as int).push(pid) =~= pids@.take(i + 1));
        if !in_list(&r, pid) {
            r.push(pid);
        }
    }
    assert(pids@.take(pids@.len() as int) =~= pids@);
    r
}

/// Whether `pid` is in `pids`.
fn in_list(pids: &Vec<u32>, pid: u32) -> (r: bool)
    ensures
        r == pids@.contains(pid),
{
    for i in 0..pids.len()
        invariant
            forall|k: int| 0 <= k < i ==> #[trigger] pids@[k] != pid,
    {
        if pids[i] == pid {
            assert(pids@[i as int] == pid);
            return true;
        }
    }
    false
}

/// Whether a process counts as a user of the graphics processor. Where all
/// shares are told, small ones do not count.
pub open spec fn uses_gpu(platform: Platform, g: GpuProc) -> bool {
    match platform {
        Platform::Linux => true,
        Platform::Mac => g.sm_pct >= GPU_THRESH,
    }
}

/// Who of the first `n` uses the graphics processor.
pub open spec fn gpu_users(platform: Platform, es: Seq<(u32, GpuProc)>, n: nat) -> Seq<u32>
    decreases n,
{
    if n == 0 {
        Seq::empty()
    } else if uses_gpu(platform, es[n - 1].1) {
        gpu_users(platform, es, (n - 1) as nat).push(es[n - 1].0)
    } else {
        gpu_users(platform, es, (n - 1) as nat)
    }
}

/// Who uses the graphics processor, in ascending order.
pub fn gpu_pids(platform: Platform, gpu: &GpuInfo<'_>) -> (r: Vec<u32>)
    ensures
        r@ == gpu_users(platform, gpu.procs@, gpu.procs@.len()),
        strictly_ascending(r@),
{
    let es: &[(u32, GpuProc)] = gpu.procs.iter();
    let mut r: Vec<u32> = Vec::new();
    let n: usize = es.len();
    for i in 0..n
        invariant
            n == es@.len(),
            es@ == gpu.procs@,
            strictly_ascending(es@),
            r@ == gpu_users(platform, es@, i as nat),
            strictly_ascending(r@),
            ends_before(r@, es@, i as int),
    {
        let e: (u32, GpuProc) = es[i];
        let counts: bool = match platform {
            Platform::Linux => true,
            Platform::Mac => e.1.sm_pct >= GPU_THRESH,
        };
        proof {
            lemma_ends_before(r@, es@, i as int);
        }
        if counts {
            r.push(e.0);
        }
    }
    r
}

/// Every number in `r` is below the key of entry `i`, if there is one.
spec fn ends_before(r: Seq<u32>, es: Seq<(u32, GpuProc)>, i: int) -> bool {
    i < es.len() ==> forall|k: int| 0 <= k < r.len() ==> #[trigger] r[k] < es[i].0
}

proof fn lemma_ends_before(r: Seq<u32>, es: Seq<(u32, GpuProc)>, i: int)
    requires
        0 <= i < es.len(),
        strictly_ascending(es),
        strictly_ascending(r),
        ends_before(r, es, i),
    ensures
        ends_before(r, es, i + 1),
        ends_before(r.push(es[i].0), es, i + 1),
        strictly_ascending(r.push(es[i].0)),
{
    let t = r.push(es[i].0);
    if i + 1 < es.len() {
        assert(es[i].key() < es[i + 1].key());
    }
    assert forall|a: int, b: int| 0 <= a < b < t.len() implies #[trigger] t[a].key()
        < #[trigger] t[b].key() by {
        if b < r.len() {
            assert(r[a].key() < r[b].key());
        }
    }
}

/// `p` with its share of the graphics processor.
pub open spec fn with_gpu<'a>(p: ProcInfo<'a>, usage: Option<GpuUsage>) -> ProcInfo<'a> {
    match usage {
        Some(_) => ProcInfo { gpu: usage, ..p },
        None => p,
    }
}

/// Tells the processes their shares of the graphics processor.
pub fn attach_gpu(platform: Platform, procs: &mut [ProcInfo<'_>], gpu: &GpuInfo<'_>)
    ensures
        final(procs)@.len() == old(procs)@.len(),
        forall|i: int|
            0 <= i < old(procs)@.len() ==> #[trigger] final(procs)@[i] == with_gpu(
                old(procs)@[i],
                shown_usage(platform, value_of(gpu.procs@, old(procs)@[i].pid)),
            ),
{
    let ghost before = procs@;
    let n: usize = procs.len();
    let mut i: usize = 0;
    while i < n
        invariant
            i <= n == before.len(),
            procs@.len() == n,
            before == old(procs)@,
            forall|k: int|
                0 <= k < i ==> #[trigger] procs@[k] == with_gpu(
                    before[k],
                    shown_usage(platform, value_of(gpu.procs@, before[k].pid)),
                ),
            forall|k: int| i <= k < n ==> #[trigger] procs@[k] == before[k],
        decreases n - i,
    {
        let usage: Option<GpuUsage> = gpu.usage(platform, procs[i].pid);
        set_gpu(&mut procs[i], usage);
        i = i + 1;
    }
}

/// Tells a process its share of the graphics processor.
fn set_gpu(p: &mut ProcInfo<'_>, usage: Option<GpuUsage>)
    ensures
        *final(p) == with_gpu(*old(p), usage),
{
    if usage.is_some() {
        p.gpu = usage;
    }
}

/// A round reads every listed process, and each of them once.
pub proof fn law_each_is_read_once(pids: Seq<u32>, x: u32)
    ensures
        first_of_each(pids).contains(x) <==> pids.contains(x),
        first_of_each(pids).no_duplicates(),
    decreases pids.len(),
{
    if pids.len() > 0 {
        let less = pids.drop_last();
        let rest = first_of_each(less);
        let all = first_of_each(pids);
        law_each_is_read_once(less, x);
        law_each_is_read_once(less, pids.last());
        if rest.contains(x) {
            let k = choose|k: int| 0 <= k < rest.len() && rest[k] == x;
            assert(all[k] == x);
        }
        if less.contains(x) {
            let k = choose|k: int| 0 <= k < less.len() && less[k] == x;
            assert(pids[k] == x);
        }
        if pids.contains(x) && x != pids.last() {
            let k = choose|k: int| 0 <= k < pids.len() && pids[k] == x;
            assert(less[k] == x);
        }
        if !rest.contains(pids.last()) {
            assert(all[all.len() - 1] == pids.last());
            if all.contains(x) && x != pids.last() {
                let k = choose|k: int| 0 <= k < all.len() && all[k] == x;
                assert(rest[k] == x);
            }
        }
    }
}

} // verus!
