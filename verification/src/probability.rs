//! Bounded scalars and preference vectors.
//!
//! A `Probability` is a scalar clamped into [0, 1], held in fixed-point
//! units of `1 / SCALE`.  A `Preferences` value is an ordered vector of
//! such scalars: a position in an n-dimensional ideological space, or a
//! discrete distribution over choices.

use vstd::prelude::*;

use crate::errors::ElectionError;
use crate::numeric::{
    clamp_spec, clamp_unit, isqrt, isqrt_spec, lemma_isqrt_zero, lemma_sum_seq_push,
    pow_fixed_spec, sum_seq, MAX_CHOICES, SCALE,
};

verus! {

/// A scalar that can only hold values in [0, 1], in fixed-point units
/// of `1 / SCALE`.
#[derive(Debug, Clone, Copy, PartialEq, Eq, Structural)]
pub struct Probability {
    value: u64,
}

impl View for Probability {
    type V = u64;

    closed spec fn view(&self) -> u64 {
        self.value
    }
}

impl Probability {
    /// The scalar is within the unit interval.
    pub open spec fn wf(&self) -> bool {
        self@ <= SCALE
    }

    /// Creates a new probability with the given fixed-point value,
    /// clamped into [0, SCALE]: negative inputs become 0 and inputs
    /// above SCALE become SCALE.
    pub fn new(value: i64) -> (r: Probability)
        ensures
            r@ as int == clamp_spec(value as int),
            r.wf(),
    {
        Probability { value: clamp_unit(value) }
    }

    /// The absolute difference between two probabilities.
    pub fn difference(&self, other: &Probability) -> (r: Probability)
        ensures
            r@ as int == if self@ >= other@ {
                self@ - other@
            } else {
                other@ - self@
            },
            self.wf() && other.wf() ==> r.wf(),
    {
        if self.value >= other.value {
            Probability { value: self.value - other.value }
        } else {
            Probability { value: other.value - self.value }
        }
    }

    /// Raises a probability to an integer power, in fixed point.
    /// The power of a scalar in [0, 1] stays in [0, 1].
    pub fn powi(&self, n: u32) -> (r: Probability)
        requires
            self.wf(),
        ensures
            r@ as int == pow_fixed_spec(self@ as int, n as nat),
            r.wf(),
    {
        let mut acc: u64 = SCALE;
        let mut i: u32 = 0;
        while i < n
            invariant
                self.wf(),
                0 <= i <= n,
                acc as int == pow_fixed_spec(self@ as int, i as nat),
                acc <= SCALE,
            decreases n - i,
        {
            proof {
                assert(self@ * acc <= SCALE * SCALE) by (nonlinear_arith)
                    requires self@ <= SCALE, acc <= SCALE;
                assert(0 <= self@ * acc / (SCALE as int) <= SCALE) by (nonlinear_arith)
                    requires 0 <= self@ <= SCALE, 0 <= acc <= SCALE;
            }
            acc = self.value * acc / SCALE;
            i = i + 1;
        }
        Probability { value: acc }
    }

    /// Returns the underlying fixed-point value of the probability.
    pub fn get_value(&self) -> (r: u64)
        ensures
            r == self@,
    {
        self.value
    }
}

/// The non-negative part of a raw scalar: negative inputs are floored
/// to zero before normalization.
pub open spec fn zero_floor(x: int) -> int {
    if x < 0 {
        0
    } else {
        x
    }
}

/// The total positive weight of a raw vector.
pub open spec fn pos_total(s: Seq<i64>) -> int
    decreases s.len(),
{
    if s.len() == 0 {
        0
    } else {
        pos_total(s.drop_last()) + zero_floor(s.last() as int)
    }
}

pub proof fn lemma_pos_total_nonneg(s: Seq<i64>)
    ensures
        pos_total(s) >= 0,
    decreases s.len(),
{
    if s.len() > 0 {
        lemma_pos_total_nonneg(s.drop_last());
    }
}

/// Each floored element is at most the total positive weight.
pub proof fn lemma_pos_total_elem(s: Seq<i64>, i: int)
    requires
        0 <= i < s.len(),
    ensures
        zero_floor(s[i] as int) <= pos_total(s),
    decreases s.len(),
{
    if i == s.len() - 1 {
        lemma_pos_total_nonneg(s.drop_last());
    } else {
        lemma_pos_total_elem(s.drop_last(), i);
    }
}

/// A raw vector that mirrors a non-negative weight vector element for
/// element has its weight total as its positive total.
pub proof fn lemma_pos_total_matches(values: Seq<i64>, raws: Seq<u64>)
    requires
        values.len() == raws.len(),
        forall|i: int| 0 <= i < values.len() ==> values[i] == raws[i],
    ensures
        pos_total(values) == sum_seq(raws),
    decreases values.len(),
{
    if values.len() > 0 {
        lemma_pos_total_matches(values.drop_last(), raws.drop_last());
    }
}

/// The squared Euclidean distance between two equal-length vectors.
pub open spec fn sq_dist(a: Seq<u64>, b: Seq<u64>) -> int
    recommends
        a.len() == b.len(),
    decreases a.len(),
{
    if a.len() == 0 {
        0
    } else {
        sq_dist(a.drop_last(), b.drop_last()) + (a.last() - b.last()) * (a.last() - b.last())
    }
}

pub proof fn lemma_sq_dist_nonneg(a: Seq<u64>, b: Seq<u64>)
    ensures
        sq_dist(a, b) >= 0,
    decreases a.len(),
{
    if a.len() > 0 {
        lemma_sq_dist_nonneg(a.drop_last(), b.drop_last());
        let d = a.last() - b.last();
        assert(d * d >= 0) by (nonlinear_arith);
    }
}

pub proof fn lemma_sq_dist_bounded(a: Seq<u64>, b: Seq<u64>, m: int)
    requires
        a.len() == b.len(),
        forall|i: int| 0 <= i < a.len() ==> a[i] <= m,
        forall|i: int| 0 <= i < b.len() ==> b[i] <= m,
        0 <= m,
    ensures
        sq_dist(a, b) <= a.len() * (m * m),
    decreases a.len(),
{
    if a.len() > 0 {
        lemma_sq_dist_bounded(a.drop_last(), b.drop_last(), m);
        let d = a.last() - b.last();
        assert(d * d <= m * m) by (nonlinear_arith)
            requires -m <= d <= m;
        assert(a.len() * (m * m) == (a.len() - 1) * (m * m) + m * m) by (nonlinear_arith);
    }
}

/// The Euclidean distance between two equal-length vectors, rounded
/// down to an integer number of fixed-point units.
pub open spec fn distance_spec(a: Seq<u64>, b: Seq<u64>) -> int {
    isqrt_spec(sq_dist(a, b))
}

/// The distance from a vector to itself is zero.
pub proof fn lemma_distance_self(a: Seq<u64>)
    ensures
        distance_spec(a, a) == 0,
    decreases a.len(),
{
    if a.len() > 0 {
        lemma_distance_self(a.drop_last());
    }
    lemma_isqrt_zero();
}

proof fn lemma_sq_dist_symmetric(a: Seq<u64>, b: Seq<u64>)
    requires
        a.len() == b.len(),
    ensures
        sq_dist(a, b) == sq_dist(b, a),
    decreases a.len(),
{
    if a.len() > 0 {
        lemma_sq_dist_symmetric(a.drop_last(), b.drop_last());
        let d = a.last() - b.last();
        let e = b.last() - a.last();
        assert(d * d == e * e) by (nonlinear_arith)
            requires d == -e;
    }
}

/// The distance between two vectors does not depend on their order.
pub proof fn lemma_distance_symmetric(a: Seq<u64>, b: Seq<u64>)
    requires
        a.len() == b.len(),
    ensures
        distance_spec(a, b) == distance_spec(b, a),
{
    lemma_sq_dist_symmetric(a, b);
}

/// The index selected by a weighted draw, scanning from position `i`:
/// the first index whose cumulative weight reaches the draw, with the
/// last index as the fallback.
pub open spec fn choose_from(s: Seq<u64>, draw: int, i: int) -> int
    recommends
        s.len() >= 1,
        0 <= i < s.len(),
    decreases s.len() - i,
{
    if i >= s.len() - 1 {
        s.len() - 1
    } else if draw <= sum_seq(s.take(i + 1)) {
        i
    } else {
        choose_from(s, draw, i + 1)
    }
}

/// The index selected by a weighted draw over the whole vector.
pub open spec fn choose_spec(s: Seq<u64>, draw: int) -> int
    recommends
        s.len() >= 1,
{
    choose_from(s, draw, 0)
}

/// An ordered, fixed-length sequence of probabilities: a position in an
/// n-dimensional ideological space, or a distribution over choices.
#[derive(Debug)]
pub struct Preferences {
    preferences: Vec<Probability>,
}

impl View for Preferences {
    type V = Seq<u64>;

    closed spec fn view(&self) -> Seq<u64> {
        self.preferences@.map_values(|p: Probability| p@)
    }
}

impl Clone for Preferences {
    fn clone(&self) -> (r: Self)
        ensures
            r@ == self@,
    {
        let mut out: Vec<Probability> = Vec::new();
        let mut i: usize = 0;
        while i < self.preferences.len()
            invariant
                0 <= i <= self.preferences@.len(),
                out@.len() == i,
                forall|j: int| 0 <= j < i ==> out@[j] == self.preferences@[j],
            decreases self.preferences@.len() - i,
        {
            out.push(self.preferences[i]);
            i = i + 1;
        }
        let r = Preferences { preferences: out };
        proof {
            assert(r@ =~= self@);
        }
        r
    }
}

impl Preferences {
    /// Every element lies within the unit interval.
    pub open spec fn wf(&self) -> bool {
        forall|i: int| 0 <= i < self@.len() ==> self@[i] <= SCALE
    }

    /// Creates a new preference vector, clamping each raw fixed-point
    /// value independently into [0, SCALE].
    pub fn new(values: &Vec<i64>) -> (r: Preferences)
        ensures
            r@.len() == values@.len(),
            forall|i: int| 0 <= i < values@.len() ==> r@[i] as int == clamp_spec(values@[i] as int),
            r.wf(),
    {
        let mut out: Vec<Probability> = Vec::new();
        let mut i: usize = 0;
        while i < values.len()
            invariant
                0 <= i <= values@.len(),
                out@.len() == i,
                forall|j: int| 0 <= j < i ==> out@[j]@ as int == clamp_spec(values@[j] as int),
            decreases values@.len() - i,
        {
            out.push(Probability::new(values[i]));
            i = i + 1;
        }
        Preferences { preferences: out }
    }

    /// Creates a new preference vector from an owned list of raw
    /// values, clamping each one independently.
    pub fn from_iter(values: Vec<i64>) -> (r: Preferences)
        ensures
            r@.len() == values@.len(),
            forall|i: int| 0 <= i < values@.len() ==> r@[i] as int == clamp_spec(values@[i] as int),
            r.wf(),
    {
        Preferences::new(&values)
    }

    /// Creates a preference vector whose elements sum to 1: raw values
    /// are floored at zero, then divided by their total.  An empty
    /// input yields an empty vector; a zero total is rejected, since a
    /// zero-weight distribution is undefined for the weighted draw.
    pub fn new_normalize(values: &Vec<i64>) -> (r: Result<Preferences, ElectionError>)
        ensures
            values@.len() == 0 ==> (r matches Ok(p) && p@.len() == 0),
            values@.len() > 0 && pos_total(values@) == 0 ==> r == Err::<Preferences, ElectionError>(
                ElectionError::DegenerateNormalization,
            ),
            values@.len() > 0 && pos_total(values@) > 0 ==> (r matches Ok(p) && {
                let t = pos_total(values@);
                &&& p@.len() == values@.len()
                &&& forall|i: int|
                    0 <= i < values@.len() ==> p@[i] as int == zero_floor(values@[i] as int) * SCALE
                        / t
                &&& SCALE - values@.len() < sum_seq(p@) <= SCALE
                &&& p.wf()
            }),
    {
        proof {
            lemma_pos_total_nonneg(values@);
        }
        if values.len() == 0 {
            return Ok(Preferences { preferences: Vec::new() });
        }

        // First pass: floor negative values at zero and accumulate the
        // total weight.
        let mut floored: Vec<u64> = Vec::new();
        let mut total: u128 = 0;
        let mut i: usize = 0;
        while i < values.len()
            invariant
                0 <= i <= values@.len(),
                floored@.len() == i,
                forall|j: int| 0 <= j < i ==> floored@[j] as int == zero_floor(values@[j] as int),
                total == pos_total(values@.take(i as int)),
                total <= i * 0x8000_0000_0000_0000,
            decreases values@.len() - i,
        {
            let x: i64 = values[i];
            let f: u64 = if x < 0 {
                0
            } else {
                x as u64
            };
            proof {
                assert(values@.take(i + 1).drop_last() =~= values@.take(i as int));
                assert(total + f <= (i + 1) * 0x8000_0000_0000_0000) by (nonlinear_arith)
                    requires
                        total <= i * 0x8000_0000_0000_0000,
                        f < 0x8000_0000_0000_0000,
                        i >= 0;
                assert((i + 1) * 0x8000_0000_0000_0000 < 0x1_0000_0000_0000_0000_0000_0000_0000_0000)
                    by (nonlinear_arith)
                    requires 0 <= i < 0x1_0000_0000_0000_0000;
            }
            total = total + f as u128;
            floored.push(f);
            i = i + 1;
        }
        proof {
            assert(values@.take(values@.len() as int) =~= values@);
        }

        if total == 0 {
            return Err(ElectionError::DegenerateNormalization);
        }

        // Second pass: divide each floored value by the total.  The
        // ghost remainder accounting shows the rounded results still
        // sum to within `len` units below 1.
        let t: u128 = total;
        let ghost gt: int = t as int;
        let mut out: Vec<Probability> = Vec::new();
        let ghost mut rem: int = 0;
        let mut k: usize = 0;
        while k < floored.len()
            invariant
                0 < gt == t == total,
                total == pos_total(values@),
                floored@.len() == values@.len(),
                forall|j: int|
                    0 <= j < floored@.len() ==> floored@[j] as int == zero_floor(values@[j] as int),
                0 <= k <= floored@.len(),
                out@.len() == k,
                forall|j: int|
                    0 <= j < k ==> out@[j]@ as int == zero_floor(values@[j] as int) * SCALE / gt,
                forall|j: int| 0 <= j < k ==> out@[j]@ <= SCALE,
                sum_seq(out@.map_values(|p: Probability| p@)) * gt + rem == pos_total(
                    values@.take(k as int),
                ) * SCALE,
                0 <= rem <= k * (gt - 1),
            decreases floored@.len() - k,
        {
            let x: u64 = floored[k];
            proof {
                lemma_pos_total_elem(values@, k as int);
                assert(x as int * SCALE < 0x1_0000_0000_0000_0000_0000_0000_0000_0000)
                    by (nonlinear_arith)
                    requires 0 <= x < 0x8000_0000_0000_0000, SCALE == 1_000_000;
            }
            let q128: u128 = (x as u128) * (SCALE as u128) / t;
            proof {
                assert(q128 as int == x as int * SCALE / gt);
                assert(x as int * SCALE / gt <= SCALE) by (nonlinear_arith)
                    requires 0 <= x <= gt, 0 < gt, SCALE > 0;
            }
            let q: u64 = q128 as u64;
            let ghost r_step: int = (x as int * SCALE) % gt;
            proof {
                vstd::arithmetic::div_mod::lemma_fundamental_div_mod(x as int * SCALE, gt);
                vstd::arithmetic::div_mod::lemma_mod_division_less_than_divisor(
                    x as int * SCALE,
                    gt,
                );
                let oldview = out@.map_values(|p: Probability| p@);
                lemma_sum_seq_push(oldview, q);
                assert((sum_seq(oldview) + q) * gt == sum_seq(oldview) * gt + q * gt)
                    by (nonlinear_arith);
                assert(q * gt + r_step == x as int * SCALE) by {
                    assert(x as int * SCALE == gt * (x as int * SCALE / gt) + (x as int * SCALE)
                        % gt);
                    assert(gt * (q as int) == (q as int) * gt) by (nonlinear_arith);
                }
                assert(out@.push(Probability { value: q }).map_values(|p: Probability| p@) =~= oldview.push(
                    q,
                ));
                assert(values@.take(k + 1).drop_last() =~= values@.take(k as int));
                rem = rem + r_step;
                assert(rem <= (k + 1) * (gt - 1)) by (nonlinear_arith)
                    requires rem - r_step <= k * (gt - 1), r_step <= gt - 1, k >= 0, gt >= 1;
            }
            out.push(Probability { value: q });
            k = k + 1;
        }
        proof {
            assert(values@.take(values@.len() as int) =~= values@);
        }
        let r = Preferences { preferences: out };
        proof {
            let sv = r@;
            let n = values@.len() as int;
            assert(sum_seq(sv) * gt + rem == gt * SCALE);
            assert(sum_seq(sv) <= SCALE) by (nonlinear_arith)
                requires
                    sum_seq(sv) * gt + rem == gt * SCALE,
                    rem >= 0,
                    gt > 0;
            assert(sum_seq(sv) > SCALE - n) by (nonlinear_arith)
                requires
                    sum_seq(sv) * gt + rem == gt * SCALE,
                    rem <= n * (gt - 1),
                    gt > 0,
                    n > 0;
        }
        Ok(r)
    }

    /// Gets the probability at the given index.
    pub fn get_preference(&self, index: usize) -> (r: Probability)
        requires
            index < self@.len(),
        ensures
            r@ == self@[index as int],
    {
        self.preferences[index]
    }

    /// Calculates the Euclidean distance between two preference vectors
    /// of the same dimension; vectors of different dimensions are
    /// rejected with a `DimensionMismatch`.
    pub fn distance(&self, other: &Preferences) -> (r: Result<u64, ElectionError>)
        requires
            self.wf(),
            other.wf(),
        ensures
            self@.len() != other@.len() ==> r == Err::<u64, ElectionError>(
                ElectionError::DimensionMismatch,
            ),
            self@.len() == other@.len() ==> (r matches Ok(d) && d as int == distance_spec(
                self@,
                other@,
            ) && d < 0x10_0000_0000_0000),
    {
        if self.preferences.len() != other.preferences.len() {
            return Err(ElectionError::DimensionMismatch);
        }
        let n: usize = self.preferences.len();
        let mut acc: u128 = 0;
        let mut i: usize = 0;
        while i < n
            invariant
                self.wf(),
                other.wf(),
                self@.len() == n,
                other@.len() == n,
                0 <= i <= n,
                acc == sq_dist(self@.take(i as int), other@.take(i as int)),
                acc <= i * ((SCALE * SCALE) as int),
            decreases n - i,
        {
            let a: u64 = self.preferences[i].value;
            let b: u64 = other.preferences[i].value;
            proof {
                assert(a == self@[i as int]);
                assert(b == other@[i as int]);
            }
            let d: u64 = if a >= b {
                a - b
            } else {
                b - a
            };
            proof {
                assert(d * d <= SCALE * SCALE) by (nonlinear_arith)
                    requires 0 <= d <= SCALE;
                assert(acc + d * d <= (i + 1) * ((SCALE * SCALE) as int)) by (nonlinear_arith)
                    requires
                        acc <= i * ((SCALE * SCALE) as int),
                        d * d <= SCALE * SCALE,
                        i >= 0;
                assert((i + 1) * ((SCALE * SCALE) as int) < 0x1_0000_0000_0000_0000_0000_0000_0000_0000)
                    by (nonlinear_arith)
                    requires 0 <= i < 0x1_0000_0000_0000_0000, SCALE == 1_000_000;
                assert(self@.take(i + 1).drop_last() =~= self@.take(i as int));
                assert(other@.take(i + 1).drop_last() =~= other@.take(i as int));
                let dd = self@.take(i + 1).last() - other@.take(i + 1).last();
                assert(dd * dd == d * d) by (nonlinear_arith)
                    requires dd == d || dd == -(d as int);
            }
            acc = acc + (d * d) as u128;
            i = i + 1;
        }
        proof {
            assert(self@.take(n as int) =~= self@);
            assert(other@.take(n as int) =~= other@);
        }
        let root: u128 = isqrt(acc);
        proof {
            assert(acc < 0x10_0000_0000_0000 * 0x10_0000_0000_0000) by (nonlinear_arith)
                requires
                    acc <= n * ((SCALE * SCALE) as int),
                    n < 0x1_0000_0000_0000_0000,
                    SCALE == 1_000_000;
            crate::numeric::lemma_isqrt_below(acc as int, root as int, 0x10_0000_0000_0000);
        }
        Ok(root as u64)
    }

    /// Selects an index at random, treating the vector as a list of
    /// weights and `draw` as a uniformly random value in [0, total].
    /// Walks the vector accumulating partial sums and returns the first
    /// index whose cumulative sum meets the draw; the last index is the
    /// fallback if rounding pushes the draw past every partial sum.
    pub fn choose_weighted(&self, draw: u64) -> (r: usize)
        requires
            self@.len() >= 1,
        ensures
            r < self@.len(),
            r as int == choose_spec(self@, draw as int),
    {
        let n: usize = self.preferences.len();
        let mut partial: u128 = 0;
        let mut i: usize = 0;
        while i < n - 1
            invariant
                self@.len() == n,
                1 <= n,
                0 <= i <= n - 1,
                partial == sum_seq(self@.take(i as int)),
                partial <= i * 0xffff_ffff_ffff_ffffu64,
                choose_spec(self@, draw as int) == choose_from(self@, draw as int, i as int),
            decreases n - i,
        {
            let p: u64 = self.preferences[i].value;
            proof {
                assert(self@.take(i + 1).drop_last() =~= self@.take(i as int));
                assert(partial + p <= (i + 1) * 0xffff_ffff_ffff_ffffu64) by (nonlinear_arith)
                    requires
                        partial <= i * 0xffff_ffff_ffff_ffffu64,
                        p <= 0xffff_ffff_ffff_ffffu64,
                        i >= 0;
                assert((i + 1) * 0xffff_ffff_ffff_ffffu64 < 0x1_0000_0000_0000_0000_0000_0000_0000_0000)
                    by (nonlinear_arith)
                    requires 0 <= i < 0x1_0000_0000_0000_0000;
            }
            partial = partial + p as u128;
            if draw as u128 <= partial {
                return i;
            }
            i = i + 1;
        }
        n - 1
    }

    /// Element-wise product of two equal-length preference vectors, in
    /// fixed point.  The product of two scalars in [0, 1] stays in
    /// [0, 1].
    pub fn pointwise_mul(&self, other: &Preferences) -> (r: Preferences)
        requires
            self.wf(),
            other.wf(),
            self@.len() == other@.len(),
        ensures
            r@.len() == self@.len(),
            forall|i: int|
                0 <= i < self@.len() ==> r@[i] as int == self@[i] * other@[i] / (SCALE as int),
            r.wf(),
    {
        let n: usize = self.preferences.len();
        let mut out: Vec<Probability> = Vec::new();
        let mut i: usize = 0;
        while i < n
            invariant
                self.wf(),
                other.wf(),
                self@.len() == n,
                other@.len() == n,
                0 <= i <= n,
                out@.len() == i,
                forall|j: int|
                    0 <= j < i ==> out@[j]@ as int == self@[j] * other@[j] / (SCALE as int),
                forall|j: int| 0 <= j < i ==> out@[j]@ <= SCALE,
            decreases n - i,
        {
            let a: u64 = self.preferences[i].value;
            let b: u64 = other.preferences[i].value;
            proof {
                assert(a == self@[i as int]);
                assert(b == other@[i as int]);
                assert(a * b <= SCALE * SCALE) by (nonlinear_arith)
                    requires a <= SCALE, b <= SCALE;
                assert(0 <= a * b / (SCALE as int) <= SCALE) by (nonlinear_arith)
                    requires 0 <= a <= SCALE, 0 <= b <= SCALE;
            }
            out.push(Probability { value: a * b / SCALE });
            i = i + 1;
        }
        Preferences { preferences: out }
    }

    /// The total weight of the vector: the sum of its elements.
    pub fn total_weight(&self) -> (r: u64)
        requires
            self.wf(),
            self@.len() <= MAX_CHOICES,
        ensures
            r == sum_seq(self@),
    {
        let n: usize = self.preferences.len();
        let mut total: u64 = 0;
        let mut i: usize = 0;
        while i < n
            invariant
                self.wf(),
                self@.len() == n <= MAX_CHOICES,
                0 <= i <= n,
                total == sum_seq(self@.take(i as int)),
                total <= i * (SCALE as int),
            decreases n - i,
        {
            let p: u64 = self.preferences[i].value;
            proof {
                assert(p == self@[i as int]);
                assert(self@.take(i + 1).drop_last() =~= self@.take(i as int));
                assert(total + p <= (i + 1) * (SCALE as int)) by (nonlinear_arith)
                    requires total <= i * (SCALE as int), p <= SCALE, i >= 0;
                assert((i + 1) * (SCALE as int) <= MAX_CHOICES * SCALE) by (nonlinear_arith)
                    requires 0 <= i + 1 <= MAX_CHOICES, SCALE > 0;
            }
            total = total + p;
            i = i + 1;
        }
        proof {
            assert(self@.take(n as int) =~= self@);
        }
        total
    }

    /// The dimension of the vector.
    pub fn len(&self) -> (r: usize)
        ensures
            r == self@.len(),
    {
        self.preferences.len()
    }
}

} // verus!
