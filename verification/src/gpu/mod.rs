//! Load and memory of the graphics processors, per process and in all.

pub mod agx;
pub mod rm;

use crate::arena::FSpan;
use crate::bytes::{f1_wide, nearest, utf8_of, F1Wide};
use crate::map::{strictly_ascending, value_of, U32Map};
use crate::platform::Platform;
use crate::twrite::{decimal, decimal_digits, Put};
use vstd::prelude::*;

verus! {

/// What a process takes of the graphics processors, as far as it is shown.
#[derive(Clone, Copy, Debug, PartialEq, Eq, Structural)]
pub struct GpuUsage {
    /// Busy share in percent.
    pub sm_pct: u32,
    /// Memory in MiB. Never 0 on Linux; 0 where memory is shared with the
    /// main processor.
    pub mem_mib: u32,
}

/// What the driver tells of a process.
#[derive(Clone, Copy, Debug, PartialEq, Eq, Structural)]
pub struct GpuProc {
    /// Busy share in percent.
    pub sm_pct: u32,
    /// Memory in MiB.
    pub mem_mib: u32,
}

impl Default for GpuProc {
    fn default() -> (r: GpuProc)
        ensures
            r == (GpuProc { sm_pct: 0, mem_mib: 0 }),
    {
        GpuProc { sm_pct: 0, mem_mib: 0 }
    }
}

/// Number of processors, summed busy percent, used MiB, total MiB.
pub type Totals = (u32, u32, u64, u64);

/// One reading of all graphics processors.
pub struct GpuInfo<'a> {
    /// What each process takes.
    pub procs: U32Map<'a, GpuProc>,
    /// Busy percent, summed over the processors.
    pub total_util: u32,
    /// Used memory in MiB, summed.
    pub total_used_mib: u64,
    /// Memory in MiB, summed.
    pub total_mib: u64,
    /// How many processors there are.
    pub n_gpus: u32,
}

/// What is shown for a process of which the driver tells `p`: on Linux memory
/// is the sign of use, elsewhere the busy share is.
pub open spec fn shown_usage(platform: Platform, p: Option<GpuProc>) -> Option<GpuUsage> {
    match p {
        None => None,
        Some(g) => match platform {
            Platform::Linux => if g.mem_mib > 0 {
                Some(GpuUsage { sm_pct: g.sm_pct, mem_mib: g.mem_mib })
            } else {
                None
            },
            Platform::Mac => if g.sm_pct > 0 {
                Some(GpuUsage { sm_pct: g.sm_pct, mem_mib: 0 })
            } else {
                None
            },
        },
    }
}

/// `mib` MiB in tenths of a GiB, rounded to the nearest.
pub open spec fn gib_tenths(mib: u64) -> u64 {
    nearest(mib * 10, 1024)
}

impl<'a> GpuInfo<'a> {
    /// What is shown for process `pid`.
    pub fn usage(&self, platform: Platform, pid: u32) -> (r: Option<GpuUsage>)
        ensures
            r == shown_usage(platform, value_of(self.procs@, pid)),
    {
        match self.procs.get(&pid) {
            None => None,
            Some(g) => match platform {
                Platform::Linux => {
                    if g.mem_mib > 0 {
                        Some(GpuUsage { sm_pct: g.sm_pct, mem_mib: g.mem_mib })
                    } else {
                        None
                    }
                },
                Platform::Mac => {
                    if g.sm_pct > 0 {
                        Some(GpuUsage { sm_pct: g.sm_pct, mem_mib: 0 })
                    } else {
                        None
                    }
                },
            },
        }
    }

    /// The text of the status line.
    pub open spec fn status(&self, platform: Platform) -> Seq<u8> {
        if self.n_gpus == 0 {
            seq![0x3fu8]
        } else {
            let used = decimal((self.total_util / self.n_gpus) as nat) + utf8_of("%  ") + F1Wide(
                gib_tenths(self.total_used_mib),
                0,
            ).text();
            match platform {
                Platform::Linux => used + utf8_of("G / ") + F1Wide(
                    gib_tenths(self.total_mib),
                    0,
                ).text() + utf8_of("G"),
                Platform::Mac => used + utf8_of("G active"),
            }
        }
    }

    /// The text of the status line.
    pub fn status_text(&self, platform: Platform) -> (r: Vec<u8>)
        ensures
            r@ == self.status(platform),
    {
        let mut r: Vec<u8> = Vec::new();
        if self.n_gpus == 0 {
            r.push(0x3f);
            assert(r@ =~= self.status(platform));
            return r;
        }
        r = decimal_digits((self.total_util / self.n_gpus) as u64);
        r.extend_from_slice("%  ".as_bytes());
        f1_wide(self.total_used_mib, 1024, 0).put(&mut r);
        match platform {
            Platform::Linux => {
                r.extend_from_slice("G / ".as_bytes());
                f1_wide(self.total_mib, 1024, 0).put(&mut r);
                r.extend_from_slice("G".as_bytes());
            },
            Platform::Mac => {
                r.extend_from_slice("G active".as_bytes());
            },
        }
        r
    }
}

/// The reading with the given per-process entries and totals.
pub fn collect<'a, 'id>(entries: &'a FSpan<'id, (u32, GpuProc)>, totals: Totals) -> (r: GpuInfo<'a>)
    requires
        strictly_ascending(entries@),
    ensures
        r.procs@ == entries@,
        r.n_gpus == totals.0,
        r.total_util == totals.1,
        r.total_used_mib == totals.2,
        r.total_mib == totals.3,
{
    GpuInfo {
        procs: U32Map::new(entries.as_slice()),
        n_gpus: totals.0,
        total_util: totals.1,
        total_used_mib: totals.2,
        total_mib: totals.3,
    }
}

/// A process is shown with its share exactly if it uses the processor: by its
/// memory where that is told, and else by its time. The share is what the
/// driver tells.
pub proof fn law_use_is_passed_on(g: GpuProc)
    ensures
        shown_usage(Platform::Linux, Some(g)) is Some <==> g.mem_mib > 0,
        shown_usage(Platform::Mac, Some(g)) is Some <==> g.sm_pct > 0,
        shown_usage(Platform::Linux, Some(g)) matches Some(u) ==> u.sm_pct == g.sm_pct && u.mem_mib
            == g.mem_mib,
        shown_usage(Platform::Mac, Some(g)) matches Some(u) ==> u.sm_pct == g.sm_pct && u.mem_mib
            == 0,
        shown_usage(Platform::Linux, None) is None,
        shown_usage(Platform::Mac, None) is None,
{
}

/// The status shows the mean share of the processors, rounded down, and their
/// memory to the nearest tenth of a GiB.
pub proof fn law_status_shows_the_mean(info: GpuInfo<'_>) -> (r: (u32, u64, u64))
    requires
        info.n_gpus > 0,
        info.total_used_mib < 0x4000_0000_0000_0000,
        info.total_mib < 0x4000_0000_0000_0000,
    ensures
        info.status(Platform::Linux) == decimal(r.0 as nat) + utf8_of("%  ") + F1Wide(r.1, 0).text()
            + utf8_of("G / ") + F1Wide(r.2, 0).text() + utf8_of("G"),
        info.status(Platform::Mac) == decimal(r.0 as nat) + utf8_of("%  ") + F1Wide(r.1, 0).text()
            + utf8_of("G active"),
        r.0 * info.n_gpus <= info.total_util < (r.0 + 1) * info.n_gpus,
        r.1 * 1024 - 512 <= info.total_used_mib * 10 < r.1 * 1024 + 512,
        r.2 * 1024 - 512 <= info.total_mib * 10 < r.2 * 1024 + 512,
{
    let n = info.n_gpus as int;
    let u = info.total_util as int;
    let q = u / n;
    vstd::arithmetic::div_mod::lemma_fundamental_div_mod(u, n);
    vstd::arithmetic::div_mod::lemma_mod_bound(u, n);
    assert(n * q == q * n && (q + 1) * n == q * n + n) by (nonlinear_arith);
    (
        (info.total_util / info.n_gpus) as u32,
        gib_tenths(info.total_used_mib),
        gib_tenths(info.total_mib),
    )
}

} // verus!
