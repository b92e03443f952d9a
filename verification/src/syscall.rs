//! What the monitor makes of plain system-call results: clock readings, the
//! page size, and the kernel's auxiliary vector.

use crate::wire::{long_at, read_long};
use vstd::arithmetic::power2::is_pow2;
use vstd::prelude::*;

verus! {

/// Seconds and nanoseconds.
#[derive(Clone, Copy, Debug, PartialEq, Eq, Structural)]
pub struct Timespec {
    pub tv_sec: i64,
    pub tv_nsec: i64,
}

impl Timespec {
    /// No time at all.
    pub fn zero() -> (r: Timespec)
        ensures
            r == (Timespec { tv_sec: 0, tv_nsec: 0 }),
    {
        Timespec { tv_sec: 0, tv_nsec: 0 }
    }
}

/// The ratio of nanoseconds to clock ticks.
#[derive(Clone, Copy, Debug, PartialEq, Eq, Structural)]
pub struct Timebase {
    pub numer: u32,
    pub denom: u32,
}

/// The ratio that the kernel told; one to one if it told none.
pub fn timebase(numer: u32, denom: u32) -> (r: Timebase)
    ensures
        r == (if numer == 0 || denom == 0 {
            Timebase { numer: 1, denom: 1 }
        } else {
            Timebase { numer, denom }
        }),
        r.numer > 0,
        r.denom > 0,
{
    if numer == 0 || denom == 0 {
        Timebase { numer: 1, denom: 1 }
    } else {
        Timebase { numer, denom }
    }
}

/// A quotient that is rounded down is below the exact one by less than one.
proof fn lemma_floor(n: int, d: int)
    requires
        n >= 0,
        d > 0,
    ensures
        (n / d) * d <= n < (n / d + 1) * d,
        n / d >= 0,
{
    vstd::arithmetic::div_mod::lemma_fundamental_div_mod(n, d);
    vstd::arithmetic::div_mod::lemma_mod_bound(n, d);
    vstd::arithmetic::div_mod::lemma_div_pos_is_pos(n, d);
    let q = n / d;
    assert(d * q == q * d && (q + 1) * d == q * d + d) by (nonlinear_arith);
}

/// The monotonic clock's reading when it has counted `ticks`. The product
/// with the ratio is taken modulo 2^64.
pub fn clock_from_ticks(ticks: u64, base: Timebase) -> (r: Timespec)
    requires
        base.denom > 0,
    ensures
        ({
            let ns = ticks.wrapping_mul(base.numer as u64) as int / base.denom as int;
            r.tv_sec == ns / 1_000_000_000 && r.tv_nsec == ns % 1_000_000_000
        }),
        0 <= r.tv_nsec < 1_000_000_000,
        ticks * base.numer <= u64::MAX ==> {
            let ns = r.tv_sec * 1_000_000_000 + r.tv_nsec;
            ns * base.denom <= ticks * base.numer < (ns + 1) * base.denom
        },
{
    let ns: u64 = ticks.wrapping_mul(base.numer as u64) / base.denom as u64;
    proof {
        vstd::arithmetic::div_mod::lemma_div_is_ordered_by_denominator(
            ticks.wrapping_mul(base.numer as u64) as int,
            1,
            base.denom as int,
        );
        lemma_floor(ticks.wrapping_mul(base.numer as u64) as int, base.denom as int);
    }
    Timespec { tv_sec: (ns / 1_000_000_000) as i64, tv_nsec: (ns % 1_000_000_000) as i64 }
}

/// The wall clock's reading of `sec` seconds and `usec` microseconds.
pub fn clock_from_timeval(sec: i64, usec: i32) -> (r: Timespec)
    ensures
        r.tv_sec == sec,
        r.tv_nsec == usec * 1000,
{
    Timespec { tv_sec: sec, tv_nsec: usec as i64 * 1000 }
}

/// `n`, or the largest 64-bit number if that is less.
pub open spec fn at_most_u64(n: int) -> u64 {
    if n <= u64::MAX {
        n as u64
    } else {
        u64::MAX
    }
}

/// The tick at which a sleep of `req` ends that starts at tick `now`. Both
/// the length in nanoseconds and the deadline are capped at 2^64 - 1; the
/// product with the ratio is taken modulo 2^64.
pub fn sleep_deadline(now: u64, req: Timespec, base: Timebase) -> (r: u64)
    requires
        base.numer > 0,
        req.tv_sec >= 0,
        req.tv_nsec >= 0,
    ensures
        ({
            let whole = at_most_u64(req.tv_sec * 1_000_000_000);
            let ns = at_most_u64(whole + req.tv_nsec);
            r == at_most_u64(now + ns.wrapping_mul(base.denom as u64) as int / base.numer as int)
        }),
        r >= now,
        ({
            let ns = req.tv_sec * 1_000_000_000 + req.tv_nsec;
            ns * base.denom <= u64::MAX && ns <= u64::MAX && r < u64::MAX ==> (r - now)
                * base.numer <= ns * base.denom < (r - now + 1) * base.numer
        }),
{
    let sec: u64 = req.tv_sec as u64;
    let whole: u64 = if sec <= u64::MAX / 1_000_000_000 { sec * 1_000_000_000 } else { u64::MAX };
    let ns: u64 = whole.saturating_add(req.tv_nsec as u64);
    let ticks: u64 = ns.wrapping_mul(base.denom as u64) / base.numer as u64;
    proof {
        lemma_floor(ns.wrapping_mul(base.denom as u64) as int, base.numer as int);
    }
    now.saturating_add(ticks)
}

/// The auxiliary vector's key for the page size.
pub const AT_PAGESZ: u64 = 6;

/// Page size where the kernel does not tell one.
pub const FALLBACK_PAGE_SIZE: usize = 4096;

/// A page size is a power of two from 1 KiB to 1 MiB.
pub open spec fn plausible(size: u64) -> bool {
    1024 <= size <= 0x10_0000 && is_pow2(size as int)
}

/// Whether `size` is a power of two.
fn power_of_two(size: u64) -> (r: bool)
    ensures
        r == is_pow2(size as int),
{
    let mut p: u64 = size;
    reveal(is_pow2);
    while p > 1 && p % 2 == 0
        invariant
            is_pow2(size as int) == is_pow2(p as int),
        decreases p,
    {
        reveal(is_pow2);
        p = p / 2;
    }
    p == 1
}

proof fn lemma_fallback_plausible()
    ensures
        plausible(FALLBACK_PAGE_SIZE as u64),
{
    reveal_with_fuel(is_pow2, 13);
}

/// The kernel's page size, once it is known.
pub struct PageSize {
    size: usize,
}

impl PageSize {
    /// A size that is known is plausible.
    #[verifier::type_invariant]
    spec fn sound(self) -> bool {
        self.size == 0 || plausible(self.size as u64)
    }

    /// The known size, 0 if none is.
    pub closed spec fn known(&self) -> nat {
        self.size as nat
    }

    /// No size is known yet.
    pub fn unknown() -> (r: PageSize)
        ensures
            r.known() == 0,
    {
        PageSize { size: 0 }
    }

    /// Takes `size` for the page size, if it is plausible.
    pub fn set(&mut self, size: u64)
        ensures
            final(self).known() == (if plausible(size) {
                size as nat
            } else {
                old(self).known()
            }),
    {
        if 1024 <= size && size <= 0x10_0000 && power_of_two(size) {
            self.size = size as usize;
        }
    }

    /// The page size: the known one, else the one in the auxiliary vector
    /// `auxv`, else the fallback. It is known from then on.
    pub fn get(&mut self, auxv: Option<&[u8]>) -> (r: usize)
        ensures
            r == (if old(self).known() != 0 {
                old(self).known()
            } else {
                match auxv {
                    Some(b) => match page_size_in(b@, 0) {
                        Some(v) => if plausible(v) {
                            v as nat
                        } else {
                            FALLBACK_PAGE_SIZE as nat
                        },
                        None => FALLBACK_PAGE_SIZE as nat,
                    },
                    None => FALLBACK_PAGE_SIZE as nat,
                }
            }),
            final(self).known() == r,
            plausible(r as u64),
    {
        proof {
            use_type_invariant(&*self);
        }
        if self.size != 0 {
            return self.size;
        }
        match auxv {
            Some(b) => match from_proc_auxv(b) {
                Some(v) => {
                    self.set(v);
                },
                None => {},
            },
            None => {},
        }
        proof {
            use_type_invariant(&*self);
            lemma_fallback_plausible();
        }
        if self.size != 0 {
            return self.size;
        }
        self.size = FALLBACK_PAGE_SIZE;
        FALLBACK_PAGE_SIZE
    }
}

/// The value under the key for the page size, among the pairs of `auxv` from
/// `at` on. A key of 0 ends the vector.
pub open spec fn page_size_in(auxv: Seq<u8>, at: int) -> Option<u64>
    decreases auxv.len() - at,
{
    if at < 0 || at + 16 > auxv.len() || long_at(auxv, at) == 0 {
        None
    } else if long_at(auxv, at) == AT_PAGESZ {
        Some(long_at(auxv, at + 8) as u64)
    } else {
        page_size_in(auxv, at + 16)
    }
}

/// The page size in an auxiliary vector.
pub fn from_proc_auxv(auxv: &[u8]) -> (r: Option<u64>)
    ensures
        r == page_size_in(auxv@, 0),
{
    let n: usize = auxv.len();
    let mut at: usize = 0;
    while n - at >= 16
        invariant
            at <= n == auxv@.len(),
            page_size_in(auxv@, 0) == page_size_in(auxv@, at as int),
        decreases n - at,
    {
        let key: u64 = read_long(auxv, at);
        if key == 0 {
            return None;
        }
        if key == AT_PAGESZ {
            return Some(read_long(auxv, at + 8));
        }
        at = at + 16;
    }
    None
}

/// The start of the page that holds `addr`.
pub fn page_floor(addr: u64, page: u64) -> (r: u64)
    requires
        page > 0,
    ensures
        r <= addr < r + page,
        r as int % page as int == 0,
{
    proof {
        vstd::arithmetic::div_mod::lemma_fundamental_div_mod(addr as int, page as int);
        let q = addr as int / page as int;
        assert(addr - addr as int % page as int == q * page as int + 0) by (nonlinear_arith)
            requires
                addr as int == page as int * q + addr as int % page as int,
        ;
        vstd::arithmetic::div_mod::lemma_fundamental_div_mod_converse(
            addr - addr as int % page as int,
            page as int,
            q,
            0,
        );
    }
    addr - addr % page
}

/// The page size is the value of the first pair with key 6; a pair with key 0
/// before it ends the vector, and without one there is none.
pub proof fn law_page_size_is_found(auxv: Seq<u8>, i: int)
    requires
        0 <= i,
        16 * i <= auxv.len(),
        forall|k: int| 0 <= k < i ==> #[trigger] long_at(auxv, 16 * k) != 0,
        forall|k: int| 0 <= k < i ==> #[trigger] long_at(auxv, 16 * k) != 6,
    ensures
        16 * i + 16 > auxv.len() ==> page_size_in(auxv, 0) is None,
        16 * i + 16 <= auxv.len() && long_at(auxv, 16 * i) == 0 ==> page_size_in(auxv, 0) is None,
        16 * i + 16 <= auxv.len() && long_at(auxv, 16 * i) == 6 ==> page_size_in(auxv, 0) == Some(
            long_at(auxv, 16 * i + 8) as u64,
        ),
{
    lemma_page_size(auxv, 0, i);
}

proof fn lemma_page_size(auxv: Seq<u8>, from: int, i: int)
    requires
        0 <= from <= i,
        16 * i <= auxv.len(),
        forall|k: int| from <= k < i ==> #[trigger] long_at(auxv, 16 * k) != 0,
        forall|k: int| from <= k < i ==> #[trigger] long_at(auxv, 16 * k) != 6,
    ensures
        page_size_in(auxv, 16 * from) == page_size_in(auxv, 16 * i),
    decreases i - from,
{
    if from < i {
        assert(long_at(auxv, 16 * from) != 0 && long_at(auxv, 16 * from) != 6);
        lemma_page_size(auxv, from + 1, i);
    }
}

} // verus!
