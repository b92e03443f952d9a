//! What is known of a process, and what is remembered of it from one round to
//! the next.
//!
//! A share of processor time is counted in millionths of a percent of one
//! core.

use crate::arena::FSmallStr;
use crate::gpu::GpuUsage;
use crate::platform::Platform;
use crate::sort::U32Key;
use crate::syscall::Timebase;
use vstd::prelude::*;

verus! {

/// One percent of a core.
pub const ONE_PERCENT: u64 = 1_000_000;

/// Shown from this share on.
pub const CPU_THRESH: u64 = 5_000_000;

/// Shown from this much memory on, in MiB.
pub const MEM_MB_THRESH: u64 = 128;

/// Where all graphics shares are told, those below this percentage do not
/// count.
pub const GPU_THRESH: u32 = 5;

/// Below a shown process, shown from this share on.
pub const CHILD_CPU_THRESH: u64 = 1_000_000;

/// Below a shown process, shown on from this share on.
pub const CHILD_CPU_KEEP_THRESH: u64 = 300_000;

/// A process.
pub struct ProcInfo<'a> {
    pub pid: u32,
    pub ppid: u32,
    /// Share of processor time.
    pub cpu: u64,
    /// Resident memory in KiB.
    pub rss_kib: u32,
    /// Age in seconds, with the top bit for visibility.
    pub age_visible: u32,
    pub gpu: Option<GpuUsage>,
    /// What is shown as its command.
    pub display: FSmallStr<'a>,
}

/// What of a process lies in the arena: eight words, the last of which says
/// where its command lies.
pub struct ProcRecord {
    pub words: [u32; 8],
}

/// The bit that marks a visible process.
pub const VISIBLE_BIT: u32 = 0x8000_0000;

impl<'a> ProcInfo<'a> {
    /// Whether it is to be shown.
    pub open spec fn shown(&self) -> bool {
        self.age_visible >= VISIBLE_BIT
    }

    /// Its age.
    pub open spec fn age(&self) -> u32 {
        (self.age_visible % VISIBLE_BIT) as u32
    }

    /// An age and a visibility in one word.
    pub fn pack(age_secs: u32, visible: bool) -> (r: u32)
        requires
            age_secs < VISIBLE_BIT,
        ensures
            r == age_secs + (if visible {
                VISIBLE_BIT as int
            } else {
                0
            }),
    {
        if visible {
            age_secs + VISIBLE_BIT
        } else {
            age_secs
        }
    }

    /// Its age.
    pub fn age_secs(&self) -> (r: u32)
        ensures
            r == self.age(),
    {
        self.age_visible % VISIBLE_BIT
    }

    /// Whether it is to be shown.
    pub fn visible(&self) -> (r: bool)
        ensures
            r == self.shown(),
    {
        self.age_visible >= VISIBLE_BIT
    }

    /// Sets whether it is to be shown.
    pub fn set_visible(&mut self, v: bool)
        ensures
            *final(self) == (ProcInfo { age_visible: final(self).age_visible, ..*old(self) }),
            final(self).age_visible == with_visible(old(self).age_visible, v),
            final(self).shown() == v,
            final(self).age() == old(self).age(),
    {
        if v {
            if self.age_visible < VISIBLE_BIT {
                self.age_visible = self.age_visible + VISIBLE_BIT;
            }
        } else {
            self.age_visible = self.age_visible % VISIBLE_BIT;
        }
    }
}

/// `word` with its visibility set to `v`.
pub open spec fn with_visible(word: u32, v: bool) -> u32 {
    if v {
        (word % VISIBLE_BIT + VISIBLE_BIT) as u32
    } else {
        (word % VISIBLE_BIT) as u32
    }
}

impl<'a> U32Key for ProcInfo<'a> {
    open spec fn key(&self) -> u32 {
        self.pid
    }

    fn u32_key(&self) -> (r: u32) {
        self.pid
    }
}

/// What is remembered of a process: 31 bits of its processor time, and in the
/// top bit whether it was shown.
#[derive(Clone, Copy, Debug, PartialEq, Eq, Structural)]
pub struct Packed(pub u32);

/// The factor by which processor time is scaled down before it is remembered:
/// the coarser, the longer until the 31 bits overflow.
pub open spec fn coarseness(platform: Platform) -> nat {
    match platform {
        Platform::Linux => 2,
        Platform::Mac => 128,
    }
}

/// The remembered bits of a processor time.
pub open spec fn time_bits(platform: Platform, total: u64) -> nat {
    total as nat / coarseness(platform) % 0x8000_0000
}

impl Packed {
    /// The remembered bits.
    pub open spec fn bits(self) -> nat {
        self.0 as nat % 0x8000_0000
    }

    /// Whether the process was shown.
    pub open spec fn was_shown(self) -> bool {
        self.0 >= VISIBLE_BIT
    }

    /// The factor by which processor time is scaled down, as a shift.
    pub fn shift(platform: Platform) -> (r: u32)
        ensures
            r == (match platform {
                Platform::Linux => 1,
                Platform::Mac => 7int,
            }),
    {
        match platform {
            Platform::Linux => 1,
            Platform::Mac => 7,
        }
    }

    /// Remembers a processor time.
    pub fn new(platform: Platform, visible: bool, total: u64) -> (r: Packed)
        ensures
            r.bits() == time_bits(platform, total),
            r.was_shown() == visible,
    {
        let scaled: u64 = match platform {
            Platform::Linux => total / 2,
            Platform::Mac => total / 128,
        };
        let bits: u32 = (scaled % 0x8000_0000) as u32;
        if visible {
            Packed(bits + VISIBLE_BIT)
        } else {
            Packed(bits)
        }
    }

    /// Whether the process was shown.
    pub fn visible(self) -> (r: bool)
        ensures
            r == self.was_shown(),
    {
        self.0 >= VISIBLE_BIT
    }

    /// The remembered bits.
    pub fn cpu_bits(self) -> (r: u32)
        ensures
            r == self.bits(),
    {
        self.0 % 0x8000_0000
    }

    /// Remembers that the process was shown.
    pub fn set_visible(&mut self)
        ensures
            final(self).was_shown(),
            final(self).bits() == old(self).bits(),
            *final(self) == shown_packed(*old(self)),
    {
        if self.0 < VISIBLE_BIT {
            self.0 = self.0 + VISIBLE_BIT;
        }
    }
}

/// `p`, remembered as shown.
pub open spec fn shown_packed(p: Packed) -> Packed {
    Packed(with_visible(p.0, true))
}

/// The processor time between two rounds, as far as the remembered bits tell.
pub open spec fn time_between(platform: Platform, before: Packed, total: u64) -> nat {
    ((time_bits(platform, total) + 0x8000_0000 - before.bits()) as nat % 0x8000_0000) * coarseness(
        platform,
    )
}

/// The share of processor time of a process that has used `total` ticks, when
/// `dt_ns` nanoseconds have passed since `before` was remembered. `base` tells
/// nanoseconds per tick. A process younger than that time cannot be the one
/// that was remembered, and a time of a hundredth of a second or less is too
/// short to tell.
pub open spec fn cpu_share(
    platform: Platform,
    before: Option<Packed>,
    age_secs: u32,
    total: u64,
    base: Timebase,
    dt_ns: u64,
) -> u64 {
    if dt_ns <= 10_000_000 || age_secs * 1_000_000_000 < dt_ns {
        0
    } else {
        match before {
            None => 0,
            Some(p) => {
                let share = time_between(platform, p, total) * base.numer * 100_000_000 / (base.denom
                    * dt_ns);
                if share <= u64::MAX {
                    share as u64
                } else {
                    u64::MAX
                }
            },
        }
    }
}

/// The share of processor time since the last round.
pub fn compute_cpu(
    platform: Platform,
    before: Option<Packed>,
    age_secs: u32,
    total: u64,
    base: Timebase,
    dt_ns: u64,
) -> (r: u64)
    requires
        base.denom > 0,
    ensures
        r == cpu_share(platform, before, age_secs, total, base, dt_ns),
{
    if dt_ns <= 10_000_000 || (age_secs as u64 * 1_000_000_000) < dt_ns {
        return 0;
    }
    match before {
        None => 0,
        Some(p) => {
            let now: u32 = Packed::new(platform, false, total).cpu_bits();
            let delta: u64 = (now as u64 + 0x8000_0000 - p.cpu_bits() as u64) % 0x8000_0000;
            let ticks: u64 = match platform {
                Platform::Linux => delta * 2,
                Platform::Mac => delta * 128,
            };
            proof {
                let n = base.numer as int;
                let t = ticks as int;
                assert(t * n * 100_000_000 <= 0x40_0000_0000 * 0x1_0000_0000 * 100_000_000)
                    by (nonlinear_arith)
                    requires
                        0 <= t <= 0x40_0000_0000,
                        0 <= n <= 0x1_0000_0000,
                ;
                assert(t * n <= 0x40_0000_0000 * 0x1_0000_0000) by (nonlinear_arith)
                    requires
                        0 <= t <= 0x40_0000_0000,
                        0 <= n <= 0x1_0000_0000,
                ;
                assert(0 <= t * n) by (nonlinear_arith)
                    requires
                        0 <= t,
                        0 <= n,
                ;
                let d = base.denom as int;
                let ns = dt_ns as int;
                assert(0 < d * ns <= 0x1_0000_0000 * 0x1_0000_0000_0000_0000) by (nonlinear_arith)
                    requires
                        0 < d <= 0x1_0000_0000,
                        0 < ns <= 0x1_0000_0000_0000_0000,
                ;
            }
            let num: u128 = ticks as u128 * base.numer as u128 * 100_000_000;
            let den: u128 = base.denom as u128 * dt_ns as u128;
            let share: u128 = num / den;
            if share <= u64::MAX as u128 {
                share as u64
            } else {
                u64::MAX
            }
        },
    }
}

/// A number of a process that has changed hands is not taken for the process
/// that was remembered: one younger than the time between has no share.
pub proof fn law_reused_pid_has_no_share(
    platform: Platform,
    before: Option<Packed>,
    age_secs: u32,
    total: u64,
    base: Timebase,
    dt_ns: u64,
)
    requires
        age_secs * 1_000_000_000 < dt_ns,
    ensures
        cpu_share(platform, before, age_secs, total, base, dt_ns) == 0,
{
}

/// As long as less than 31 scaled bits of time pass between two rounds, the
/// difference is exact, but for the scaling.
pub proof fn law_time_between_survives_wrap(platform: Platform, a: u64, b: u64)
    requires
        a <= b,
        b as nat / coarseness(platform) - a as nat / coarseness(platform) < 0x8000_0000,
    ensures
        forall|p: Packed|
            p.bits() == time_bits(platform, a) ==> #[trigger] time_between(platform, p, b) == (b as nat
                / coarseness(platform) - a as nat / coarseness(platform)) * coarseness(platform),
{
    let x = a as int / coarseness(platform) as int;
    let y = b as int / coarseness(platform) as int;
    assert(y >= x) by {
        vstd::arithmetic::div_mod::lemma_div_is_ordered(
            a as int,
            b as int,
            coarseness(platform) as int,
        );
    }
    assert((y % 0x8000_0000 + 0x8000_0000 - x % 0x8000_0000) % 0x8000_0000 == y - x);
}

/// What is remembered counts time in steps of two ticks where ticks are coarse,
/// and of 128 where they are fine.
pub proof fn law_remembered_steps(platform: Platform, p: Packed, total: u64, unit: nat)
    requires
        unit == (match platform {
            Platform::Linux => 2nat,
            Platform::Mac => 128nat,
        }),
        p.bits() == time_bits(platform, total),
    ensures
        p.0 as nat % 0x8000_0000 == total as nat / unit % 0x8000_0000,
{
}

/// A share, counted in millionths of a percent, is the time that the process
/// has used over the time that has passed: `ticks * numer / denom` nanoseconds
/// of `dt_ns`, and never more than that. Ticks are counted in steps of two or
/// of 128, from the start of the step in which the last round fell.
pub proof fn law_share_is_time_over_time(
    platform: Platform,
    p: Packed,
    a: u64,
    b: u64,
    unit: nat,
    age_secs: u32,
    base: Timebase,
    dt_ns: u64,
)
    requires
        unit == (match platform {
            Platform::Linux => 2nat,
            Platform::Mac => 128nat,
        }),
        p.0 as nat % 0x8000_0000 == a as nat / unit % 0x8000_0000,
        a <= b,
        b as nat / unit - a as nat / unit < 0x8000_0000,
        base.denom > 0,
        dt_ns > 10_000_000,
        age_secs * 1_000_000_000 >= dt_ns,
    ensures
        ({
            let ticks = (b as nat / unit - a as nat / unit) * unit;
            let share = cpu_share(platform, Some(p), age_secs, b, base, dt_ns) as int;
            let whole = base.denom * dt_ns;
            &&& share * whole <= ticks * base.numer * 100_000_000
            &&& share < u64::MAX ==> ticks * base.numer * 100_000_000 < (share + 1) * whole
        }),
{
    assert(p.bits() == time_bits(platform, a));
    law_time_between_survives_wrap(platform, a, b);
    let ticks = (b as nat / unit - a as nat / unit) * unit;
    assert(time_between(platform, p, b) == ticks);
    let n = ticks * base.numer * 100_000_000;
    let whole = base.denom * dt_ns;
    assert(b as int / unit as int >= a as int / unit as int) by {
        vstd::arithmetic::div_mod::lemma_div_is_ordered(a as int, b as int, unit as int);
    }
    assert(whole > 0) by (nonlinear_arith)
        requires
            base.denom > 0,
            dt_ns > 0,
            whole == base.denom * dt_ns,
    ;
    assert(ticks >= 0) by (nonlinear_arith)
        requires
            ticks == (b as nat / unit - a as nat / unit) * unit,
            b as nat / unit - a as nat / unit >= 0,
    ;
    assert(n >= 0) by (nonlinear_arith)
        requires
            n == ticks * base.numer * 100_000_000,
            ticks >= 0,
            base.numer >= 0,
    ;
    let q = n / whole;
    vstd::arithmetic::div_mod::lemma_fundamental_div_mod(n, whole);
    vstd::arithmetic::div_mod::lemma_mod_bound(n, whole);
    vstd::arithmetic::div_mod::lemma_div_pos_is_pos(n, whole);
    vstd::arithmetic::mul::lemma_mul_is_commutative(q, whole);
    vstd::arithmetic::mul::lemma_mul_is_distributive_add_other_way(whole, q, 1);
    let share = cpu_share(platform, Some(p), age_secs, b, base, dt_ns) as int;
    assert(share <= q);
    vstd::arithmetic::mul::lemma_mul_inequality(share, q, whole);
    assert((share + 1) * whole == share * whole + whole) by (nonlinear_arith);
}

/// One core that was busy all the time since the last round is a share of
/// exactly 100 percent, however long its ticks are.
pub proof fn law_busy_core_is_hundred_percent(
    platform: Platform,
    p: Packed,
    a: u64,
    b: u64,
    unit: nat,
    age_secs: u32,
    base: Timebase,
    dt_ns: u64,
)
    requires
        unit == (match platform {
            Platform::Linux => 2nat,
            Platform::Mac => 128nat,
        }),
        p.0 as nat % 0x8000_0000 == a as nat / unit % 0x8000_0000,
        a <= b,
        (b - a) as nat % unit == 0,
        (b - a) as nat / unit < 0x8000_0000,
        (b - a) * base.numer == base.denom * dt_ns,
        base.denom > 0,
        dt_ns > 10_000_000,
        age_secs * 1_000_000_000 >= dt_ns,
    ensures
        cpu_share(platform, Some(p), age_secs, b, base, dt_ns) == 100_000_000,
{
    let ticks = b - a;
    assert(b as int / unit as int - a as int / unit as int == ticks / unit as int);
    assert((ticks / unit as int) * unit as int == ticks);
    law_share_is_time_over_time(platform, p, a, b, unit, age_secs, base, dt_ns);
    let share = cpu_share(platform, Some(p), age_secs, b, base, dt_ns) as int;
    let whole = base.denom * dt_ns;
    assert(whole > 0) by (nonlinear_arith)
        requires
            base.denom > 0,
            dt_ns > 0,
            whole == base.denom * dt_ns,
    ;
    assert(share == 100_000_000) by (nonlinear_arith)
        requires
            share * whole <= whole * 100_000_000,
            share < u64::MAX ==> whole * 100_000_000 < (share + 1) * whole,
            whole > 0,
    ;
}

/// There is no share without a past, nor over a hundredth of a second or less.
pub proof fn law_no_share_without_a_past(
    platform: Platform,
    before: Option<Packed>,
    age_secs: u32,
    total: u64,
    base: Timebase,
    dt_ns: u64,
)
    requires
        before is None || dt_ns <= 10_000_000,
    ensures
        cpu_share(platform, before, age_secs, total, base, dt_ns) == 0,
{
}

/// Age and visibility in one word do not disturb each other.
pub proof fn law_word_holds_age_and_visibility(word: u32, v: bool)
    ensures
        with_visible(word, v) % 0x8000_0000 == word % 0x8000_0000,
        with_visible(word, v) >= 0x8000_0000 <==> v,
        shown_packed(Packed(word)).0 % 0x8000_0000 == word % 0x8000_0000,
        shown_packed(Packed(word)).0 >= 0x8000_0000,
        Packed(word).was_shown() == (word >= 0x8000_0000),
{
}

} // verus!
