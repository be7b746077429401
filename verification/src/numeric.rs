//! Fixed-point arithmetic helpers.
//!
//! A scalar in [0, 1] is represented by an integer number of units of
//! `1 / SCALE`; a raw (possibly out-of-range) scalar is an `i64` in the
//! same units.  This module provides the shared spec-level machinery:
//! sums of sequences, clamping, an integer square root, a fixed-point
//! power, and a fixed-point decaying exponential.

use vstd::prelude::*;

verus! {

/// Number of fixed-point units that represent the scalar 1.0.
pub const SCALE: u64 = 1_000_000;

/// Number of halvings used by the decaying exponential: `exp_neg`
/// approximates exp(-x) by (1 - x/2^10)^(2^10) in fixed point.
pub const EXP_STEPS: u64 = 10;

/// 2^EXP_STEPS.
pub const EXP_CHUNK: u64 = 1024;

/// Arguments at or above this threshold make the exponential underflow
/// to the smallest representable positive value.
pub const EXP_ARG_MAX: u64 = EXP_CHUNK * SCALE;

/// Largest weight-vector length accepted by the selection functions, so
/// that a total weight always fits the random draw's 64-bit bound.
pub const MAX_CHOICES: u64 = 100_000;

/// Clamp an arbitrary fixed-point scalar into [0, SCALE].
pub open spec fn clamp_spec(x: int) -> int {
    if x < 0 {
        0
    } else if x > SCALE {
        SCALE as int
    } else {
        x
    }
}

/// Clamp a raw scalar into the unit interval, in fixed-point units.
pub fn clamp_unit(x: i64) -> (r: u64)
    ensures
        r as int == clamp_spec(x as int),
{
    if x < 0 {
        0
    } else if x > SCALE as i64 {
        SCALE
    } else {
        x as u64
    }
}

/// Sum of a sequence of fixed-point scalars, as a mathematical integer.
pub open spec fn sum_seq(s: Seq<u64>) -> int
    decreases s.len(),
{
    if s.len() == 0 {
        0
    } else {
        sum_seq(s.drop_last()) + s.last()
    }
}

pub proof fn lemma_sum_seq_nonneg(s: Seq<u64>)
    ensures
        sum_seq(s) >= 0,
    decreases s.len(),
{
    if s.len() > 0 {
        lemma_sum_seq_nonneg(s.drop_last());
    }
}

/// Every element bounded by `b` bounds the sum by `len * b`.
pub proof fn lemma_sum_seq_bounded(s: Seq<u64>, b: int)
    requires
        forall|i: int| 0 <= i < s.len() ==> s[i] <= b,
    ensures
        sum_seq(s) <= s.len() * b,
    decreases s.len(),
{
    if s.len() > 0 {
        lemma_sum_seq_bounded(s.drop_last(), b);
        assert(s.len() * b == (s.len() - 1) * b + b) by (nonlinear_arith);
    }
}

/// Growing a sequence by one element adds that element to the sum.
pub proof fn lemma_sum_seq_push(s: Seq<u64>, v: u64)
    ensures
        sum_seq(s.push(v)) == sum_seq(s) + v,
{
    assert(s.push(v).drop_last() =~= s);
}

/// Updating one element shifts the sum by the difference.
pub proof fn lemma_sum_seq_update(s: Seq<u64>, i: int, v: u64)
    requires
        0 <= i < s.len(),
    ensures
        sum_seq(s.update(i, v)) == sum_seq(s) - s[i] + v,
    decreases s.len(),
{
    let t = s.update(i, v);
    if i == s.len() - 1 {
        assert(t.drop_last() =~= s.drop_last());
    } else {
        assert(t.drop_last() =~= s.drop_last().update(i, v));
        lemma_sum_seq_update(s.drop_last(), i, v);
    }
}

/// Every element at least `b` bounds the sum from below by `len * b`.
pub proof fn lemma_sum_seq_lower(s: Seq<u64>, b: int)
    requires
        forall|i: int| 0 <= i < s.len() ==> s[i] >= b,
    ensures
        sum_seq(s) >= s.len() * b,
    decreases s.len(),
{
    if s.len() > 0 {
        lemma_sum_seq_lower(s.drop_last(), b);
        assert(s.len() * b == (s.len() - 1) * b + b) by (nonlinear_arith);
    }
}

/// The smallest element of a nonempty sequence.
pub open spec fn seq_min(s: Seq<u64>) -> int
    recommends
        s.len() >= 1,
    decreases s.len(),
{
    if s.len() <= 1 {
        s[0] as int
    } else if s.last() < seq_min(s.drop_last()) {
        s.last() as int
    } else {
        seq_min(s.drop_last())
    }
}

pub proof fn lemma_seq_min_le(s: Seq<u64>, i: int)
    requires
        0 <= i < s.len(),
    ensures
        seq_min(s) <= s[i],
    decreases s.len(),
{
    if s.len() > 1 && i < s.len() - 1 {
        lemma_seq_min_le(s.drop_last(), i);
    }
}

pub proof fn lemma_seq_min_in_range(s: Seq<u64>, lo: int, hi: int)
    requires
        s.len() >= 1,
        forall|i: int| 0 <= i < s.len() ==> lo <= #[trigger] s[i] <= hi,
    ensures
        lo <= seq_min(s) <= hi,
    decreases s.len(),
{
    if s.len() > 1 {
        lemma_seq_min_in_range(s.drop_last(), lo, hi);
    }
}

/// The largest element of a nonempty sequence of integers.
pub open spec fn seq_max_int(s: Seq<int>) -> int
    recommends
        s.len() >= 1,
    decreases s.len(),
{
    if s.len() <= 1 {
        s[0]
    } else if s.last() > seq_max_int(s.drop_last()) {
        s.last()
    } else {
        seq_max_int(s.drop_last())
    }
}

pub proof fn lemma_seq_max_int_ge(s: Seq<int>, i: int)
    requires
        0 <= i < s.len(),
    ensures
        seq_max_int(s) >= s[i],
    decreases s.len(),
{
    if s.len() > 1 && i < s.len() - 1 {
        lemma_seq_max_int_ge(s.drop_last(), i);
    }
}

pub proof fn lemma_seq_max_int_in_range(s: Seq<int>, lo: int, hi: int)
    requires
        s.len() >= 1,
        forall|i: int| 0 <= i < s.len() ==> lo <= #[trigger] s[i] <= hi,
    ensures
        lo <= seq_max_int(s) <= hi,
    decreases s.len(),
{
    if s.len() > 1 {
        lemma_seq_max_int_in_range(s.drop_last(), lo, hi);
    }
}

/// A square root of something below `b * b` is below `b`.
pub proof fn lemma_isqrt_below(n: int, r: int, b: int)
    requires
        is_isqrt(n, r),
        0 <= b,
        n < b * b,
    ensures
        r < b,
{
    if r >= b {
        assert(b * b <= r * r) by (nonlinear_arith)
            requires 0 <= b <= r;
    }
}

/// `r` is the integer square root of `n`.
pub open spec fn is_isqrt(n: int, r: int) -> bool {
    &&& 0 <= r
    &&& r * r <= n
    &&& n < (r + 1) * (r + 1)
}

/// The integer square root, as a spec-level value.
pub open spec fn isqrt_spec(n: int) -> int {
    choose|r: int| is_isqrt(n, r)
}

/// The integer square root exists and is unique, so `isqrt_spec`
/// denotes exactly the witness produced by the executable search.
pub proof fn lemma_isqrt_unique(n: int, r: int)
    requires
        is_isqrt(n, r),
    ensures
        isqrt_spec(n) == r,
{
    assert(is_isqrt(n, r));
    let w = isqrt_spec(n);
    assert(is_isqrt(n, w));
    if w < r {
        assert((w + 1) * (w + 1) <= r * r) by (nonlinear_arith)
            requires 0 <= w, w + 1 <= r;
    }
    if r < w {
        assert((r + 1) * (r + 1) <= w * w) by (nonlinear_arith)
            requires 0 <= r, r + 1 <= w;
    }
}

pub proof fn lemma_isqrt_zero()
    ensures
        isqrt_spec(0) == 0,
{
    lemma_isqrt_unique(0, 0);
}

/// Every non-negative integer has an integer square root.
pub proof fn lemma_isqrt_exists(n: int)
    requires
        0 <= n,
    ensures
        is_isqrt(n, isqrt_spec(n)),
    decreases n,
{
    if n == 0 {
        assert(is_isqrt(0, 0));
    } else {
        lemma_isqrt_exists(n - 1);
        let r = isqrt_spec(n - 1);
        if (r + 1) * (r + 1) <= n {
            assert(is_isqrt(n, r + 1)) by (nonlinear_arith)
                requires
                    0 <= r,
                    r * r <= n - 1,
                    n - 1 < (r + 1) * (r + 1),
                    (r + 1) * (r + 1) <= n;
        } else {
            assert(is_isqrt(n, r));
        }
    }
}

/// The smallest element is attained somewhere in the sequence.
pub proof fn lemma_seq_min_witness(s: Seq<u64>) -> (m: int)
    requires
        s.len() >= 1,
    ensures
        0 <= m < s.len(),
        s[m] == seq_min(s),
    decreases s.len(),
{
    if s.len() == 1 {
        0
    } else if s.last() < seq_min(s.drop_last()) {
        s.len() - 1
    } else {
        lemma_seq_min_witness(s.drop_last())
    }
}

/// Integer square root by binary search.
pub fn isqrt(n: u128) -> (r: u128)
    ensures
        is_isqrt(n as int, r as int),
        r as int == isqrt_spec(n as int),
        r < 0x1_0000_0000_0000_0000,
{
    let r = if n < 2 {
        n
    } else {
        let mut lo: u128 = 1;
        let mut hi: u128 = if n / 2 + 1 > 0x1_0000_0000_0000_0000 {
            0x1_0000_0000_0000_0000
        } else {
            n / 2 + 1
        };
        proof {
            assert(hi * hi > n) by (nonlinear_arith)
                requires
                    n >= 2,
                    hi == if n / 2 + 1 > 0x1_0000_0000_0000_0000 { 0x1_0000_0000_0000_0000 as int } else { n / 2 + 1 };
        }
        while lo + 1 < hi
            invariant
                1 <= lo < hi <= 0x1_0000_0000_0000_0000,
                lo * lo <= n,
                hi * hi > n,
            decreases hi - lo,
        {
            let mid = lo + (hi - lo) / 2;
            proof {
                assert(mid * mid < 0x1_0000_0000_0000_0000_0000_0000_0000_0000) by (nonlinear_arith)
                    requires 0 <= mid < 0x1_0000_0000_0000_0000;
            }
            if mid * mid <= n {
                lo = mid;
            } else {
                hi = mid;
            }
        }
        lo
    };
    proof {
        if n < 2 {
            assert(is_isqrt(n as int, r as int)) by (nonlinear_arith)
                requires 0 <= n < 2, r == n;
        }
        lemma_isqrt_unique(n as int, r as int);
    }
    r
}

/// Fixed-point power: `v` (a scalar in [0, SCALE]) raised to the
/// integer power `n`, staying in fixed-point form.
pub open spec fn pow_fixed_spec(v: int, n: nat) -> int
    decreases n,
{
    if n == 0 {
        SCALE as int
    } else {
        v * pow_fixed_spec(v, (n - 1) as nat) / (SCALE as int)
    }
}

pub proof fn lemma_pow_fixed_in_range(v: int, n: nat)
    requires
        0 <= v <= SCALE,
    ensures
        0 <= pow_fixed_spec(v, n) <= SCALE,
    decreases n,
{
    if n > 0 {
        lemma_pow_fixed_in_range(v, (n - 1) as nat);
        let p = pow_fixed_spec(v, (n - 1) as nat);
        assert(0 <= v * p / (SCALE as int) <= SCALE) by (nonlinear_arith)
            requires 0 <= v <= SCALE, 0 <= p <= SCALE;
    }
}

/// One squaring step of the decaying exponential: v -> v*v / SCALE.
pub open spec fn sq_step(v: int) -> int {
    v * v / (SCALE as int)
}

/// `n` squaring steps applied to `v`.
pub open spec fn iter_sq(v: int, n: nat) -> int
    decreases n,
{
    if n == 0 {
        v
    } else {
        iter_sq(sq_step(v), (n - 1) as nat)
    }
}

pub proof fn lemma_sq_step_in_range(v: int)
    requires
        0 <= v <= SCALE,
    ensures
        0 <= sq_step(v) <= v,
{
    assert(0 <= v * v / (SCALE as int) <= v) by (nonlinear_arith)
        requires 0 <= v <= SCALE;
}

pub proof fn lemma_iter_sq_in_range(v: int, n: nat)
    requires
        0 <= v <= SCALE,
    ensures
        0 <= iter_sq(v, n) <= v,
    decreases n,
{
    if n > 0 {
        lemma_sq_step_in_range(v);
        lemma_iter_sq_in_range(sq_step(v), (n - 1) as nat);
    }
}

pub proof fn lemma_sq_step_monotone(a: int, b: int)
    requires
        0 <= a <= b,
    ensures
        sq_step(a) <= sq_step(b),
{
    assert(a * a / (SCALE as int) <= b * b / (SCALE as int)) by (nonlinear_arith)
        requires 0 <= a <= b;
}

pub proof fn lemma_iter_sq_monotone(a: int, b: int, n: nat)
    requires
        0 <= a <= b,
    ensures
        iter_sq(a, n) <= iter_sq(b, n),
    decreases n,
{
    if n > 0 {
        lemma_sq_step_monotone(a, b);
        assert(0 <= sq_step(a)) by (nonlinear_arith)
            requires 0 <= a;
        lemma_iter_sq_monotone(sq_step(a), sq_step(b), (n - 1) as nat);
    }
}

/// Squaring fixes the scalar 1.0 exactly.
pub proof fn lemma_iter_sq_scale(n: nat)
    ensures
        iter_sq(SCALE as int, n) == SCALE,
    decreases n,
{
    if n > 0 {
        assert(sq_step(SCALE as int) == SCALE);
        lemma_iter_sq_scale((n - 1) as nat);
    }
}

/// Fixed-point decaying exponential: approximates `SCALE * exp(-x / SCALE)`
/// by (SCALE - x/EXP_CHUNK) squared EXP_STEPS times, floored at 1 so a
/// weight never fully vanishes.
pub open spec fn exp_neg_spec(x: u64) -> int {
    if x >= EXP_ARG_MAX {
        1
    } else {
        let v = iter_sq(SCALE - x as int / (EXP_CHUNK as int), EXP_STEPS as nat);
        if v < 1 {
            1
        } else {
            v
        }
    }
}

pub proof fn lemma_exp_neg_in_range(x: u64)
    ensures
        1 <= exp_neg_spec(x) <= SCALE,
{
    if x < EXP_ARG_MAX {
        let base = SCALE - x as int / (EXP_CHUNK as int);
        vstd::arithmetic::div_mod::lemma_div_pos_is_pos(x as int, EXP_CHUNK as int);
        assert(x as int / (EXP_CHUNK as int) <= SCALE) by (nonlinear_arith)
            requires x < EXP_ARG_MAX, EXP_ARG_MAX == EXP_CHUNK * SCALE;
        lemma_iter_sq_in_range(base, EXP_STEPS as nat);
    }
}

/// The exponential is exact at 0: exp_neg(0) is the scalar 1.0.
pub proof fn lemma_exp_neg_zero()
    ensures
        exp_neg_spec(0) == SCALE,
{
    lemma_iter_sq_scale(EXP_STEPS as nat);
}

/// The decaying exponential is weakly decreasing in its argument.
pub proof fn lemma_exp_neg_monotone(x1: u64, x2: u64)
    requires
        x1 <= x2,
    ensures
        exp_neg_spec(x1) >= exp_neg_spec(x2),
{
    lemma_exp_neg_in_range(x1);
    lemma_exp_neg_in_range(x2);
    if x2 < EXP_ARG_MAX {
        let b1 = SCALE - x1 as int / (EXP_CHUNK as int);
        let b2 = SCALE - x2 as int / (EXP_CHUNK as int);
        vstd::arithmetic::div_mod::lemma_div_is_ordered(x1 as int, x2 as int, EXP_CHUNK as int);
        vstd::arithmetic::div_mod::lemma_div_pos_is_pos(x1 as int, EXP_CHUNK as int);
        assert(x2 as int / (EXP_CHUNK as int) <= SCALE) by (nonlinear_arith)
            requires x2 < EXP_ARG_MAX, EXP_ARG_MAX == EXP_CHUNK * SCALE;
        lemma_iter_sq_monotone(b2, b1, EXP_STEPS as nat);
    }
}

/// Executable decaying exponential.
pub fn exp_neg(x: u64) -> (r: u64)
    ensures
        r as int == exp_neg_spec(x),
        1 <= r <= SCALE,
{
    proof {
        lemma_exp_neg_in_range(x);
    }
    if x >= EXP_ARG_MAX {
        return 1;
    }
    let base: u64 = SCALE - x / EXP_CHUNK;
    proof {
        vstd::arithmetic::div_mod::lemma_div_pos_is_pos(x as int, EXP_CHUNK as int);
        assert(x as int / (EXP_CHUNK as int) <= SCALE) by (nonlinear_arith)
            requires x < EXP_ARG_MAX, EXP_ARG_MAX == EXP_CHUNK * SCALE;
    }
    let mut v: u64 = base;
    let mut i: u64 = 0;
    while i < EXP_STEPS
        invariant
            0 <= i <= EXP_STEPS,
            v <= SCALE,
            iter_sq(base as int, EXP_STEPS as nat) == iter_sq(v as int, (EXP_STEPS - i) as nat),
        decreases EXP_STEPS - i,
    {
        proof {
            assert(v * v <= SCALE * SCALE) by (nonlinear_arith)
                requires 0 <= v <= SCALE;
            assert(sq_step(v as int) <= SCALE) by (nonlinear_arith)
                requires 0 <= v <= SCALE;
            assert(sq_step(v as int) >= 0) by (nonlinear_arith)
                requires 0 <= v;
        }
        v = (v * v) / SCALE;
        i = i + 1;
    }
    if v < 1 {
        1
    } else {
        v
    }
}

} // verus!
