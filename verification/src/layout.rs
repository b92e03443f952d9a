//! Byte arithmetic of the arena: rounding an offset up to an alignment, and
//! the number of bytes that a run of elements takes.

use vstd::arithmetic::div_mod::lemma_fundamental_div_mod;
use vstd::arithmetic::div_mod::lemma_fundamental_div_mod_converse;
use vstd::arithmetic::power2::is_pow2;
use vstd::prelude::*;

verus! {

/// The least multiple of `align` that is not below `at`.
pub open spec fn align_up(at: nat, align: nat) -> nat {
    (((at + align - 1) / align as int) * align) as nat
}

/// Bytes taken by `n` consecutive elements of type `T`.
pub open spec fn bytes_of<T>(n: nat) -> nat {
    n * vstd::layout::size_of::<T>()
}

/// Rounding up gives the multiple of `align` in `at .. at + align`.
pub proof fn lemma_align_up(at: nat, align: nat)
    requires
        align > 0,
    ensures
        at <= align_up(at, align) < at + align,
        align_up(at, align) as int % align as int == 0,
        at as int % align as int == 0 ==> align_up(at, align) == at,
{
    let a = align as int;
    let q = at as int / a;
    let m = at as int % a;
    lemma_fundamental_div_mod(at as int, a);
    if m == 0 {
        assert(at + a - 1 == q * a + (a - 1)) by (nonlinear_arith)
            requires
                at == a * q + m,
                m == 0,
        ;
        lemma_fundamental_div_mod_converse(at + a - 1, a, q, a - 1);
        assert(q * a == at) by (nonlinear_arith)
            requires
                at == a * q + m,
                m == 0,
        ;
        lemma_fundamental_div_mod_converse(at as int, a, q, 0);
    } else {
        assert(at + a - 1 == (q + 1) * a + (m - 1)) by (nonlinear_arith)
            requires
                at == a * q + m,
        ;
        lemma_fundamental_div_mod_converse(at + a - 1, a, q + 1, m - 1);
        assert((q + 1) * a == at + a - m) by (nonlinear_arith)
            requires
                at == a * q + m,
        ;
        lemma_fundamental_div_mod_converse((q + 1) * a, a, q + 1, 0);
    }
}

/// The smaller of two powers of two divides the larger.
pub proof fn lemma_pow2_divides(a: int, b: int)
    requires
        is_pow2(a),
        is_pow2(b),
        a <= b,
    ensures
        b % a == 0,
    decreases a,
{
    reveal(is_pow2);
    if a > 1 {
        assert(a % 2 == 0 && b % 2 == 0);
        lemma_pow2_divides(a / 2, b / 2);
        lemma_fundamental_div_mod(b / 2, a / 2);
        let k = (b / 2) / (a / 2);
        assert(b == k * a + 0) by (nonlinear_arith)
            requires
                b / 2 == (a / 2) * k + 0,
                b == 2 * (b / 2),
                a == 2 * (a / 2),
        ;
        lemma_fundamental_div_mod_converse(b, a, k, 0);
    }
}

/// Rounding up never passes a bound that is itself a multiple of `align`.
pub proof fn lemma_align_up_bounded(at: nat, align: nat, bound: nat)
    requires
        align > 0,
        at <= bound,
        bound as int % align as int == 0,
    ensures
        align_up(at, align) <= bound,
{
    lemma_align_up(at, align);
    let a = align as int;
    let r = align_up(at, align) as int;
    lemma_fundamental_div_mod(r, a);
    lemma_fundamental_div_mod(bound as int, a);
    let p = r / a;
    let q = bound as int / a;
    if r > bound {
        assert(p > q) by (nonlinear_arith)
            requires
                r == a * p,
                bound == a * q,
                r > bound,
                a > 0,
        ;
        assert(r >= bound + a) by (nonlinear_arith)
            requires
                r == a * p,
                bound == a * q,
                p >= q + 1,
                a > 0,
        ;
    }
}

/// Rounding up keeps order.
pub proof fn lemma_align_up_mono(a: nat, b: nat, align: nat)
    requires
        align > 0,
        a <= b,
    ensures
        align_up(a, align) <= align_up(b, align),
{
    lemma_align_up(b, align);
    lemma_align_up_bounded(a, align, align_up(b, align));
}

/// Element runs add up.
pub proof fn lemma_bytes_add<T>(m: nat, n: nat)
    ensures
        bytes_of::<T>(m + n) == bytes_of::<T>(m) + bytes_of::<T>(n),
        bytes_of::<T>(1) == vstd::layout::size_of::<T>(),
        bytes_of::<T>(0) == 0,
{
    let s = vstd::layout::size_of::<T>();
    assert((m + n) * s == m * s + n * s) by (nonlinear_arith);
    assert(1 * s == s) by (nonlinear_arith);
    assert(0 * s == 0) by (nonlinear_arith);
}

/// A longer run takes at least as many bytes.
pub proof fn lemma_bytes_mono<T>(m: nat, n: nat)
    requires
        m <= n,
    ensures
        bytes_of::<T>(m) <= bytes_of::<T>(n),
{
    lemma_bytes_add::<T>(m, (n - m) as nat);
}

/// Rounds `at` up to a multiple of `align`.
pub fn round_up(at: usize, align: usize) -> (r: usize)
    requires
        align > 0,
        align_up(at as nat, align as nat) <= usize::MAX,
    ensures
        r == align_up(at as nat, align as nat),
{
    proof {
        lemma_align_up(at as nat, align as nat);
        lemma_fundamental_div_mod(at as int, align as int);
    }
    let rest: usize = at % align;
    if rest == 0 {
        at
    } else {
        proof {
            let a = align as int;
            let q = at as int / a;
            assert(at + a - 1 == (q + 1) * a + (rest - 1)) by (nonlinear_arith)
                requires
                    at == a * q + rest,
            ;
            lemma_fundamental_div_mod_converse(at + a - 1, a, q + 1, rest - 1);
            assert((q + 1) * a == at + a - rest) by (nonlinear_arith)
                requires
                    at == a * q + rest,
            ;
        }
        at + (align - rest)
    }
}

} // verus!
