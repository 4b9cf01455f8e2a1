//! A cubic Bézier timing curve with end points (0, 0) and (1, 1), solved for y given x.
use vstd::prelude::*;

use crate::fixed::{
    clamp_to_unit, clamp_unit, fx_div, fx_div_spec, fx_mul, fx_mul_spec, in_unit,
    lemma_fx_mul_bound, lemma_fx_mul_one, ONE,
};

verus! {

/// Number of entries in the sample table.
pub const SAMPLE_TABLE_SIZE: usize = 11;

/// Distance in t between two neighbouring samples: 0.1.
pub const SAMPLE_STEP: i64 = 100_000_000;

/// Number of Newton–Raphson steps.
pub const NEWTON_ITERATIONS: usize = 4;

/// Below this slope Newton–Raphson gives way to bisection: 0.001.
pub const NEWTON_MIN_SLOPE: i64 = 1_000_000;

/// Bisection stops once the residual is no larger than this: 1e-7.
pub const SUBDIVISION_PRECISION: i64 = 100;

/// Bisection tries at most this many midpoints.
pub const SUBDIVISION_MAX_ITERATIONS: usize = 10;

/// The largest magnitude of the curve parameter t: 1000. Up to it the polynomial fits in
/// `i64`; Newton–Raphson saturates there.
pub const PARAMETER_LIMIT: i64 = 1_000_000_000_000;

/// `v` saturated to the parameter limit.
pub open spec fn clamp_parameter(v: int) -> int {
    if v < -PARAMETER_LIMIT {
        -PARAMETER_LIMIT
    } else if v > PARAMETER_LIMIT {
        PARAMETER_LIMIT as int
    } else {
        v
    }
}

/// `v` saturated to the parameter limit.
pub fn saturate_parameter(v: i128) -> (r: i64)
    ensures
        r == clamp_parameter(v as int),
{
    if v < -(PARAMETER_LIMIT as i128) {
        -PARAMETER_LIMIT
    } else if v > PARAMETER_LIMIT as i128 {
        PARAMETER_LIMIT
    } else {
        v as i64
    }
}

/// A point in the plane, each coordinate in fixed point.
#[derive(Clone, Copy, Debug, PartialEq, Eq)]
pub struct Vector2 {
    pub x: i64,
    pub y: i64,
}

/// The cubic coefficient of the polynomial with control values `x1`, `x2`.
pub open spec fn coef_a(x1: int, x2: int) -> int {
    ONE - 3 * x2 + 3 * x1
}

/// The quadratic coefficient.
pub open spec fn coef_b(x1: int, x2: int) -> int {
    3 * x2 - 6 * x1
}

/// The linear coefficient.
pub open spec fn coef_c(x1: int) -> int {
    3 * x1
}

/// The Bézier polynomial with control values 0, `x1`, `x2`, 1, at `t`, in Horner form.
pub open spec fn cubic(t: int, x1: int, x2: int) -> int {
    fx_mul_spec(
        fx_mul_spec(fx_mul_spec(coef_a(x1, x2), t) + coef_b(x1, x2), t) + coef_c(x1),
        t,
    )
}

/// The derivative of `cubic` with respect to `t`.
pub open spec fn cubic_slope(t: int, x1: int, x2: int) -> int {
    fx_mul_spec(fx_mul_spec(3 * coef_a(x1, x2), t), t) + fx_mul_spec(2 * coef_b(x1, x2), t)
        + coef_c(x1)
}

/// The point with both coordinates clamped to [0, 1].
pub open spec fn clamp_point(p: Vector2) -> Vector2 {
    Vector2 { x: clamp_unit(p.x as int) as i64, y: clamp_unit(p.y as int) as i64 }
}

/// Whether both coordinates of `p` lie in [0, 1].
pub open spec fn point_in_unit(p: Vector2) -> bool {
    in_unit(p.x as int) && in_unit(p.y as int)
}

/// The entry `k` of the sample table: the polynomial at t = k / 10.
pub open spec fn sample(x1: int, x2: int, k: int) -> int {
    cubic(k * SAMPLE_STEP, x1, x2)
}

/// Bounds on the polynomial and its slope, for control values in [0, 1] and t within
/// the parameter limit.
pub proof fn lemma_cubic_bounds(t: int, x1: int, x2: int)
    requires
        in_unit(x1),
        in_unit(x2),
        -PARAMETER_LIMIT <= t <= PARAMETER_LIMIT,
    ensures
        -4_006_003_000 * ONE <= cubic(t, x1, x2) <= 4_006_003_000 * ONE,
        -12_012_003 * ONE <= cubic_slope(t, x1, x2) <= 12_012_003 * ONE,
{
    let a = coef_a(x1, x2);
    let b = coef_b(x1, x2);
    let c = coef_c(x1);
    lemma_fx_mul_bound(a, t, 4, 1000);
    let h1 = fx_mul_spec(a, t) + b;
    lemma_fx_mul_bound(h1, t, 4006, 1000);
    let h2 = fx_mul_spec(h1, t) + c;
    lemma_fx_mul_bound(h2, t, 4_006_003, 1000);
    lemma_fx_mul_bound(3 * a, t, 12, 1000);
    lemma_fx_mul_bound(fx_mul_spec(3 * a, t), t, 12000, 1000);
    lemma_fx_mul_bound(2 * b, t, 12, 1000);
}

/// The polynomial is 0 at t = 0 and 1 at t = 1.
pub proof fn lemma_cubic_ends(x1: int, x2: int)
    ensures
        cubic(0, x1, x2) == 0,
        cubic(ONE as int, x1, x2) == ONE,
{
    let a = coef_a(x1, x2);
    let b = coef_b(x1, x2);
    let c = coef_c(x1);
    lemma_fx_mul_one(fx_mul_spec(fx_mul_spec(a, 0) + b, 0) + c);
    lemma_fx_mul_one(a);
    lemma_fx_mul_one(a + b);
    lemma_fx_mul_one(a + b + c);
}

/// Newton–Raphson on `cubic(t) == x` from `guess`, `n` steps of
/// `t - (cubic(t) - x) / slope(t)`; it stops early where the slope is exactly 0. A step
/// that would leave the parameter limit, past which the polynomial no longer fits in
/// `i64`, saturates at the limit.
pub open spec fn newton(x: int, guess: int, x1: int, x2: int, n: nat) -> int
    decreases n,
{
    if n == 0 {
        guess
    } else {
        let s = cubic_slope(guess, x1, x2);
        if s == 0 {
            guess
        } else {
            let next = clamp_parameter(guess - fx_div_spec(cubic(guess, x1, x2) - x, s));
            newton(x, next, x1, x2, (n - 1) as nat)
        }
    }
}

/// The midpoint of [a, b].
pub open spec fn midpoint(a: int, b: int) -> int {
    a + (b - a) / 2
}

/// Bisection of [a, b] for `cubic(t) == x`: it tries the midpoint, and stops there when
/// the residual is within the precision or `n` midpoints have been tried; otherwise it
/// goes on in the left half where the residual is positive, else in the right half.
pub open spec fn subdivide(x: int, a: int, b: int, x1: int, x2: int, n: nat) -> int
    decreases n,
{
    let t = midpoint(a, b);
    let r = cubic(t, x1, x2) - x;
    if n <= 1 || -SUBDIVISION_PRECISION <= r <= SUBDIVISION_PRECISION {
        t
    } else if r > 0 {
        subdivide(x, a, t, x1, x2, (n - 1) as nat)
    } else {
        subdivide(x, t, b, x1, x2, (n - 1) as nat)
    }
}

/// The scan of the sample table from entry `k`: the first entry that exceeds `x`, or the
/// last entry.
pub open spec fn scan(x1: int, x2: int, x: int, k: int) -> int
    decreases SAMPLE_TABLE_SIZE - k,
{
    if k >= SAMPLE_TABLE_SIZE - 1 || sample(x1, x2, k) > x {
        k
    } else {
        scan(x1, x2, x, k + 1)
    }
}

/// The index of the table interval that brackets `x`: the scan starts at entry 1 and
/// never goes past the second-to-last interval.
pub open spec fn bracket(x1: int, x2: int, x: int) -> int {
    scan(x1, x2, x, 1) - 1
}

/// The first guess for t: the start of the bracketing interval, plus the linear
/// interpolation of `x` between its two samples, scaled to one table step.
pub open spec fn first_guess(x1: int, x2: int, x: int) -> int {
    let i = bracket(x1, x2, x);
    let lo = sample(x1, x2, i);
    let hi = sample(x1, x2, i + 1);
    let dist = if hi - lo > 0 {
        fx_div_spec(x - lo, hi - lo)
    } else {
        0
    };
    i * SAMPLE_STEP + fx_mul_spec(dist, SAMPLE_STEP as int)
}

/// The parameter t that the solver finds for `x`: Newton–Raphson where the slope at the
/// first guess is at least the minimum, the first guess itself where the slope is 0, and
/// bisection of [start, start + 1] from the bracketing interval's start otherwise.
pub open spec fn solve_t(x1: int, x2: int, x: int) -> int {
    let t0 = first_guess(x1, x2, x);
    let s = cubic_slope(t0, x1, x2);
    let start = bracket(x1, x2, x) * SAMPLE_STEP;
    if s >= NEWTON_MIN_SLOPE {
        newton(x, t0, x1, x2, NEWTON_ITERATIONS as nat)
    } else if s == 0 {
        t0
    } else {
        subdivide(x, start, start + ONE, x1, x2, SUBDIVISION_MAX_ITERATIONS as nat)
    }
}

/// The eased value at `x` of the curve with control points `p1`, `p2`: exactly 0 at 0
/// and 1 at 1, and the y polynomial at the parameter found for `x` elsewhere.
pub open spec fn ease(p1: Vector2, p2: Vector2, x: int) -> int {
    if x == 0 {
        0
    } else if x == ONE {
        ONE as int
    } else {
        cubic(solve_t(p1.x as int, p2.x as int, x), p1.y as int, p2.y as int)
    }
}

/// The first guess lies in [0, 1] when `x` does.
pub proof fn lemma_first_guess_in_unit(x1: int, x2: int, x: int)
    requires
        in_unit(x1),
        in_unit(x2),
        in_unit(x),
    ensures
        0 <= bracket(x1, x2, x) < SAMPLE_TABLE_SIZE - 1,
        in_unit(first_guess(x1, x2, x)),
{
    let i = bracket(x1, x2, x);
    lemma_scan(x1, x2, x, 1);
    lemma_cubic_ends(x1, x2);
    assert(sample(x1, x2, 0) == 0);
    assert(sample(x1, x2, 10) == ONE);
    let lo = sample(x1, x2, i);
    let hi = sample(x1, x2, i + 1);
    assert(lo <= x);
    if hi - lo > 0 {
        assert(x - lo <= hi - lo);
        let n = x - lo;
        let d = hi - lo;
        let one = ONE as int;
        assert(0 <= (n * one) / d <= one) by (nonlinear_arith)
            requires
                0 <= n <= d,
                d > 0,
                one > 0,
        ;
    }
    let dist = if hi - lo > 0 {
        fx_div_spec(x - lo, hi - lo)
    } else {
        0
    };
    let step = SAMPLE_STEP as int;
    let one = ONE as int;
    assert(0 <= (dist * step) / one <= step) by (nonlinear_arith)
        requires
            0 <= dist <= one,
            0 < step,
            0 < one,
    ;
}

/// With control values in [0, 1] the x polynomial is monotonic, and so is its table:
/// no sample is smaller than the one before it.
pub proof fn lemma_samples_nondecreasing(x1: int, x2: int)
    requires
        in_unit(x1),
        in_unit(x2),
    ensures
        forall|j: int, k: int|
            0 <= j <= k < SAMPLE_TABLE_SIZE ==> sample(x1, x2, j) <= sample(x1, x2, k),
{
    assert(sample(x1, x2, 0) <= sample(x1, x2, 1));
    assert(sample(x1, x2, 1) <= sample(x1, x2, 2));
    assert(sample(x1, x2, 2) <= sample(x1, x2, 3));
    assert(sample(x1, x2, 3) <= sample(x1, x2, 4));
    assert(sample(x1, x2, 4) <= sample(x1, x2, 5));
    assert(sample(x1, x2, 5) <= sample(x1, x2, 6));
    assert(sample(x1, x2, 6) <= sample(x1, x2, 7));
    assert(sample(x1, x2, 7) <= sample(x1, x2, 8));
    assert(sample(x1, x2, 8) <= sample(x1, x2, 9));
    assert(sample(x1, x2, 9) <= sample(x1, x2, 10));
    assert forall|i: int| 0 <= i < SAMPLE_TABLE_SIZE - 1 implies #[trigger] sample(x1, x2, i)
        <= sample(x1, x2, i + 1) by {
        assert(i == 0 || i == 1 || i == 2 || i == 3 || i == 4 || i == 5 || i == 6 || i == 7
            || i == 8 || i == 9);
    }
    assert forall|j: int, k: int|
        0 <= j <= k < SAMPLE_TABLE_SIZE implies sample(x1, x2, j) <= sample(x1, x2, k) by {
        lemma_samples_chain(x1, x2, j, k);
    }
}

/// Samples that do not decrease step by step do not decrease at all.
proof fn lemma_samples_chain(x1: int, x2: int, j: int, k: int)
    requires
        0 <= j <= k < SAMPLE_TABLE_SIZE,
        forall|i: int|
            0 <= i < SAMPLE_TABLE_SIZE - 1 ==> #[trigger] sample(x1, x2, i) <= sample(
                x1,
                x2,
                i + 1,
            ),
    ensures
        sample(x1, x2, j) <= sample(x1, x2, k),
    decreases k - j,
{
    if j < k {
        lemma_samples_chain(x1, x2, j, k - 1);
        assert(sample(x1, x2, k - 1) <= sample(x1, x2, k));
    }
}

/// The bracketing interval starts at the largest of the first ten samples that is at
/// most `x`, and for `x` in [0, 1] its two samples enclose `x`.
pub proof fn lemma_bracket_is_largest(x1: int, x2: int, x: int)
    requires
        in_unit(x1),
        in_unit(x2),
        0 <= x,
    ensures
        0 <= bracket(x1, x2, x) < SAMPLE_TABLE_SIZE - 1,
        sample(x1, x2, bracket(x1, x2, x)) <= x,
        x <= ONE ==> x <= sample(x1, x2, bracket(x1, x2, x) + 1),
        forall|k: int|
            bracket(x1, x2, x) < k < SAMPLE_TABLE_SIZE - 1 ==> sample(x1, x2, k) > x,
{
    lemma_samples_nondecreasing(x1, x2);
    lemma_scan(x1, x2, x, 1);
    lemma_cubic_ends(x1, x2);
    assert(sample(x1, x2, 0) == 0);
    let i = bracket(x1, x2, x);
    assert forall|k: int| i < k < SAMPLE_TABLE_SIZE - 1 implies sample(x1, x2, k) > x by {
        assert(sample(x1, x2, i + 1) <= sample(x1, x2, k));
    }
}

/// What the scan from entry `k` finds: every entry it passed is at most `x`, and it
/// stopped at the last entry or at one above `x`.
pub proof fn lemma_scan(x1: int, x2: int, x: int, k: int)
    requires
        1 <= k <= SAMPLE_TABLE_SIZE - 1,
    ensures
        k <= scan(x1, x2, x, k) <= SAMPLE_TABLE_SIZE - 1,
        forall|j: int| k <= j < scan(x1, x2, x, k) ==> sample(x1, x2, j) <= x,
        scan(x1, x2, x, k) == SAMPLE_TABLE_SIZE - 1 || sample(x1, x2, scan(x1, x2, x, k)) > x,
    decreases SAMPLE_TABLE_SIZE - k,
{
    if k < SAMPLE_TABLE_SIZE - 1 && sample(x1, x2, k) <= x {
        lemma_scan(x1, x2, x, k + 1);
    }
}

/// On the curve with x1 = 1/3 and x2 = 2/3 (in fixed point) the polynomial stays within
/// three units of t, and its slope within ten units of 1, for t near [0, 1].
proof fn lemma_third_curve_near_identity(g: int)
    requires
        -1000 <= g <= ONE + 1000,
    ensures
        g - 3 <= cubic(g, 333_333_333, 666_666_667) <= g + 3,
        ONE - 10 <= cubic_slope(g, 333_333_333, 666_666_667) <= ONE + 6,
{
    let one = ONE as int;
    assert(coef_a(333_333_333, 666_666_667) == -2);
    assert(coef_b(333_333_333, 666_666_667) == 3);
    assert(coef_c(333_333_333) == one - 1);
    let q1 = fx_mul_spec(-2, g);
    assert(-3 <= q1 <= 0);
    let h1 = q1 + 3;
    let q2 = fx_mul_spec(h1, g);
    assert(-1 <= q2 <= 3) by (nonlinear_arith)
        requires
            0 <= h1 <= 3,
            -1000 <= g <= one + 1000,
            q2 == (h1 * g) / one,
            one == 1_000_000_000,
    ;
    let d = q2 - 1;
    let h2 = one + d;
    assert((h2 * g) / one == g + (d * g) / one) by (nonlinear_arith)
        requires
            h2 == one + d,
            one > 0,
    {
        assert(h2 * g == one * g + d * g);
        vstd::arithmetic::div_mod::lemma_fundamental_div_mod_converse(
            h2 * g,
            one,
            g + (d * g) / one,
            (d * g) % one,
        );
    }
    assert(-3 <= (d * g) / one <= 3) by (nonlinear_arith)
        requires
            -2 <= d <= 2,
            -1000 <= g <= one + 1000,
            one == 1_000_000_000,
    ;
    let r1 = fx_mul_spec(-6, g);
    assert(-7 <= r1 <= 0);
    let r2 = fx_mul_spec(r1, g);
    assert(-8 <= r2 <= 1) by (nonlinear_arith)
        requires
            -7 <= r1 <= 0,
            -1000 <= g <= one + 1000,
            r2 == (r1 * g) / one,
            one == 1_000_000_000,
    ;
    let r3 = fx_mul_spec(6, g);
    assert(-1 <= r3 <= 6);
}

/// A division by a slope within ten units of 1 moves a residual `e` by at most twelve
/// units, and by at most two once `e` is small.
proof fn lemma_near_unit_quotient(e: int, s: int)
    requires
        -(ONE + 1003) <= e <= ONE + 1003,
        ONE - 10 <= s <= ONE + 6,
    ensures
        -12 <= fx_div_spec(e, s) - e <= 12,
        -18 <= e <= 18 ==> -2 <= fx_div_spec(e, s) - e <= 2,
{
    let one = ONE as int;
    let q = (e * one) / s;
    assert(s * q <= e * one < s * q + s) by (nonlinear_arith)
        requires
            q == (e * one) / s,
            s > 0,
    ;
    assert(-12 <= q - e <= 12) by (nonlinear_arith)
        requires
            s * q <= e * one < s * q + s,
            -(one + 1003) <= e <= one + 1003,
            one - 10 <= s <= one + 6,
            one == 1_000_000_000,
    ;
    if -18 <= e <= 18 {
        assert(-2 <= q - e <= 2) by (nonlinear_arith)
            requires
                s * q <= e * one < s * q + s,
                -18 <= e <= 18,
                one - 10 <= s <= one + 6,
                one == 1_000_000_000,
        ;
    }
}

/// Newton–Raphson on the curve with x1 = 1/3 and x2 = 2/3 brings any guess near [0, 1]
/// within fifteen units of `x` in one step, and keeps it there.
proof fn lemma_third_curve_newton(x: int, g: int, n: nat)
    requires
        in_unit(x),
        -20 <= g <= ONE + 20,
    ensures
        n == 0 ==> newton(x, g, 333_333_333, 666_666_667, n) == g,
        n > 0 ==> -15 <= newton(x, g, 333_333_333, 666_666_667, n) - x <= 15,
    decreases n,
{
    if n > 0 {
        lemma_third_curve_near_identity(g);
        let s = cubic_slope(g, 333_333_333, 666_666_667);
        let e = cubic(g, 333_333_333, 666_666_667) - x;
        lemma_near_unit_quotient(e, s);
        let next = g - fx_div_spec(e, s);
        assert(clamp_parameter(next) == next);
        lemma_third_curve_newton(x, next, (n - 1) as nat);
    }
}

/// The curve with control points (1/3, 1/3) and (2/3, 2/3), in fixed point, is the
/// identity up to rounding: its eased value is within eighteen units (1.8e-8) of `x`.
pub proof fn lemma_third_curve_identity(x: int)
    requires
        in_unit(x),
    ensures
        -18 <= ease(
            Vector2 { x: 333_333_333, y: 333_333_333 },
            Vector2 { x: 666_666_667, y: 666_666_667 },
            x,
        ) - x <= 18,
{
    if 0 < x < ONE {
        lemma_first_guess_in_unit(333_333_333, 666_666_667, x);
        let t0 = first_guess(333_333_333, 666_666_667, x);
        lemma_third_curve_near_identity(t0);
        lemma_third_curve_newton(x, t0, NEWTON_ITERATIONS as nat);
        let t = solve_t(333_333_333, 666_666_667, x);
        lemma_third_curve_near_identity(t);
    }
}

/// A cubic Bézier easing curve: its two control points, clamped to [0, 1], and a table
/// of the x polynomial sampled at t = 0, 0.1, ..., 1.
#[derive(Clone, Copy, Debug, PartialEq, Eq)]
pub struct BezierCurve {
    sample_table: [i64; SAMPLE_TABLE_SIZE],
    p1: Vector2,
    p2: Vector2,
}

impl BezierCurve {
    /// The first control point.
    pub closed spec fn control1(&self) -> Vector2 {
        self.p1
    }

    /// The second control point.
    pub closed spec fn control2(&self) -> Vector2 {
        self.p2
    }

    /// The control points lie in [0, 1] and the table holds the samples of x.
    pub closed spec fn wf(&self) -> bool {
        &&& point_in_unit(self.p1)
        &&& point_in_unit(self.p2)
        &&& forall|k: int|
            0 <= k < SAMPLE_TABLE_SIZE ==> #[trigger] self.sample_table[k] == sample(
                self.p1.x as int,
                self.p2.x as int,
                k,
            )
    }

    /// The curve that `from` builds out of `p1` and `p2`.
    pub open spec fn built_from(&self, p1: Vector2, p2: Vector2) -> bool {
        &&& self.wf()
        &&& self.control1() == clamp_point(p1)
        &&& self.control2() == clamp_point(p2)
    }

    /// The cubic coefficient.
    pub fn a(x1: i64, x2: i64) -> (r: i64)
        requires
            in_unit(x1 as int),
            in_unit(x2 as int),
        ensures
            r == coef_a(x1 as int, x2 as int),
    {
        ONE - 3 * x2 + 3 * x1
    }

    /// The quadratic coefficient.
    pub fn b(x1: i64, x2: i64) -> (r: i64)
        requires
            in_unit(x1 as int),
            in_unit(x2 as int),
        ensures
            r == coef_b(x1 as int, x2 as int),
    {
        3 * x2 - 6 * x1
    }

    /// The linear coefficient.
    pub fn c(x1: i64) -> (r: i64)
        requires
            in_unit(x1 as int),
        ensures
            r == coef_c(x1 as int),
    {
        3 * x1
    }

    /// The Bézier polynomial with control values 0, `x1`, `x2`, 1, at `t`.
    pub fn at(t: i64, x1: i64, x2: i64) -> (r: i64)
        requires
            in_unit(x1 as int),
            in_unit(x2 as int),
            -PARAMETER_LIMIT <= t <= PARAMETER_LIMIT,
        ensures
            r == cubic(t as int, x1 as int, x2 as int),
    {
        proof {
            lemma_cubic_bounds(t as int, x1 as int, x2 as int);
            lemma_fx_mul_bound(coef_a(x1 as int, x2 as int), t as int, 4, 1000);
            lemma_fx_mul_bound(
                fx_mul_spec(coef_a(x1 as int, x2 as int), t as int) + coef_b(x1 as int, x2 as int),
                t as int,
                4006,
                1000,
            );
        }
        let h1 = fx_mul(Self::a(x1, x2), t) + Self::b(x1, x2);
        let h2 = fx_mul(h1, t) + Self::c(x1);
        fx_mul(h2, t)
    }

    /// The slope of the polynomial at `t`.
    pub fn slope(t: i64, x1: i64, x2: i64) -> (r: i64)
        requires
            in_unit(x1 as int),
            in_unit(x2 as int),
            -PARAMETER_LIMIT <= t <= PARAMETER_LIMIT,
        ensures
            r == cubic_slope(t as int, x1 as int, x2 as int),
    {
        proof {
            lemma_cubic_bounds(t as int, x1 as int, x2 as int);
            lemma_fx_mul_bound(3 * coef_a(x1 as int, x2 as int), t as int, 12, 1000);
            lemma_fx_mul_bound(
                fx_mul_spec(3 * coef_a(x1 as int, x2 as int), t as int),
                t as int,
                12000,
                1000,
            );
            lemma_fx_mul_bound(2 * coef_b(x1 as int, x2 as int), t as int, 12, 1000);
        }
        let s = fx_mul(fx_mul(3 * Self::a(x1, x2), t), t);
        s + fx_mul(2 * Self::b(x1, x2), t) + Self::c(x1)
    }

    /// Newton–Raphson from `guess` for the t at which the polynomial is `x`.
    pub fn newton_raphson(x: i64, guess: i64, x1: i64, x2: i64) -> (r: i64)
        requires
            in_unit(x as int),
            -PARAMETER_LIMIT <= guess <= PARAMETER_LIMIT,
            in_unit(x1 as int),
            in_unit(x2 as int),
        ensures
            r == newton(x as int, guess as int, x1 as int, x2 as int, NEWTON_ITERATIONS as nat),
            -PARAMETER_LIMIT <= r <= PARAMETER_LIMIT,
    {
        let mut guess_now = guess;
        let mut i: usize = 0;
        while i < NEWTON_ITERATIONS
            invariant
                i <= NEWTON_ITERATIONS,
                in_unit(x as int),
                in_unit(x1 as int),
                in_unit(x2 as int),
                -PARAMETER_LIMIT <= guess_now <= PARAMETER_LIMIT,
                newton(x as int, guess as int, x1 as int, x2 as int, NEWTON_ITERATIONS as nat)
                    == newton(
                    x as int,
                    guess_now as int,
                    x1 as int,
                    x2 as int,
                    (NEWTON_ITERATIONS - i) as nat,
                ),
            ensures
                newton(x as int, guess as int, x1 as int, x2 as int, NEWTON_ITERATIONS as nat)
                    == guess_now,
                -PARAMETER_LIMIT <= guess_now <= PARAMETER_LIMIT,
            decreases NEWTON_ITERATIONS - i,
        {
            let current_slope = Self::slope(guess_now, x1, x2);
            if current_slope == 0 {
                break;
            }
            proof {
                lemma_cubic_bounds(guess_now as int, x1 as int, x2 as int);
            }
            let current_x = Self::at(guess_now, x1, x2) - x;
            let step = fx_div(current_x, current_slope);
            guess_now = saturate_parameter(guess_now as i128 - step);
            i += 1;
        }
        guess_now
    }

    /// Bisection of [a, b] for the t at which the polynomial is `x`.
    pub fn binary_subdivide(x: i64, a: i64, b: i64, x1: i64, x2: i64) -> (r: i64)
        requires
            in_unit(x as int),
            0 <= a <= b <= 2 * ONE,
            in_unit(x1 as int),
            in_unit(x2 as int),
        ensures
            r == subdivide(
                x as int,
                a as int,
                b as int,
                x1 as int,
                x2 as int,
                SUBDIVISION_MAX_ITERATIONS as nat,
            ),
            a <= r <= b,
    {
        let mut lo = a;
        let mut hi = b;
        let mut current_t = lo + (hi - lo) / 2;
        proof {
            lemma_cubic_bounds(current_t as int, x1 as int, x2 as int);
        }
        let mut current_x = Self::at(current_t, x1, x2) - x;
        let mut i: usize = 1;
        while i < SUBDIVISION_MAX_ITERATIONS
            && (current_x > SUBDIVISION_PRECISION || current_x < -SUBDIVISION_PRECISION)
            invariant
                1 <= i <= SUBDIVISION_MAX_ITERATIONS,
                in_unit(x as int),
                in_unit(x1 as int),
                in_unit(x2 as int),
                0 <= a <= b <= 2 * ONE,
                a <= lo <= current_t <= hi <= b,
                current_t == midpoint(lo as int, hi as int),
                current_x == cubic(current_t as int, x1 as int, x2 as int) - x,
                subdivide(
                    x as int,
                    a as int,
                    b as int,
                    x1 as int,
                    x2 as int,
                    SUBDIVISION_MAX_ITERATIONS as nat,
                ) == subdivide(
                    x as int,
                    lo as int,
                    hi as int,
                    x1 as int,
                    x2 as int,
                    (SUBDIVISION_MAX_ITERATIONS - i + 1) as nat,
                ),
            decreases SUBDIVISION_MAX_ITERATIONS - i,
        {
            if current_x > 0 {
                hi = current_t;
            } else {
                lo = current_t;
            }
            current_t = lo + (hi - lo) / 2;
            proof {
                lemma_cubic_bounds(current_t as int, x1 as int, x2 as int);
            }
            current_x = Self::at(current_t, x1, x2) - x;
            i += 1;
        }
        current_t
    }

    /// The parameter t at which the x polynomial of this curve is `x`.
    pub fn t_for_x(&self, x: i64) -> (r: i64)
        requires
            self.wf(),
            in_unit(x as int),
        ensures
            r == solve_t(self.control1().x as int, self.control2().x as int, x as int),
            -PARAMETER_LIMIT <= r <= PARAMETER_LIMIT,
    {
        let x1 = self.p1.x;
        let x2 = self.p2.x;
        let mut interval_start: i64 = 0;
        let mut current_sample: usize = 1;
        let last_sample: usize = SAMPLE_TABLE_SIZE - 1;
        while current_sample != last_sample && self.sample_table[current_sample] <= x
            invariant
                self.wf(),
                x1 == self.p1.x,
                x2 == self.p2.x,
                1 <= current_sample <= last_sample,
                last_sample == SAMPLE_TABLE_SIZE - 1,
                interval_start == (current_sample - 1) * SAMPLE_STEP,
                scan(x1 as int, x2 as int, x as int, 1) == scan(
                    x1 as int,
                    x2 as int,
                    x as int,
                    current_sample as int,
                ),
            decreases last_sample - current_sample,
        {
            interval_start += SAMPLE_STEP;
            current_sample += 1;
        }
        current_sample -= 1;
        proof {
            lemma_first_guess_in_unit(x1 as int, x2 as int, x as int);
            lemma_scan(x1 as int, x2 as int, x as int, 1);
            assert(bracket(x1 as int, x2 as int, x as int) == current_sample);
            lemma_cubic_bounds(current_sample * SAMPLE_STEP, x1 as int, x2 as int);
            lemma_cubic_bounds((current_sample + 1) * SAMPLE_STEP, x1 as int, x2 as int);
        }
        let lo = self.sample_table[current_sample];
        let hi = self.sample_table[current_sample + 1];
        let dist: i64 = if hi - lo > 0 {
            fx_div(x - lo, hi - lo) as i64
        } else {
            0
        };
        let guess_for_t = interval_start + fx_mul(dist, SAMPLE_STEP);
        let initial_slope = Self::slope(guess_for_t, x1, x2);
        if initial_slope >= NEWTON_MIN_SLOPE {
            Self::newton_raphson(x, guess_for_t, x1, x2)
        } else if initial_slope == 0 {
            guess_for_t
        } else {
            Self::binary_subdivide(x, interval_start, interval_start + ONE, x1, x2)
        }
    }

    /// The eased value at `x`: exactly 0 at 0, exactly 1 at 1, and the y polynomial at
    /// the parameter found for `x` in between.
    pub fn y(&self, x: i64) -> (r: i64)
        requires
            self.wf(),
            in_unit(x as int),
        ensures
            r == ease(self.control1(), self.control2(), x as int),
            x == 0 ==> r == 0,
            x == ONE ==> r == ONE,
    {
        if x == 0 {
            0
        } else if x == ONE {
            ONE
        } else {
            let t = self.t_for_x(x);
            proof {
                lemma_cubic_bounds(t as int, self.p1.y as int, self.p2.y as int);
            }
            Self::at(t, self.p1.y, self.p2.y)
        }
    }

    /// The point with its coordinates clamped to [0, 1].
    pub fn limit_vector(c: Vector2) -> (r: Vector2)
        ensures
            r == clamp_point(c),
            point_in_unit(r),
    {
        Vector2 { x: clamp_to_unit(c.x as i128), y: clamp_to_unit(c.y as i128) }
    }

    /// The curve with control points `p1` and `p2`, each coordinate clamped to [0, 1].
    pub fn from(p1: Vector2, p2: Vector2) -> (r: BezierCurve)
        ensures
            r.built_from(p1, p2),
    {
        let p1 = Self::limit_vector(p1);
        let p2 = Self::limit_vector(p2);
        let mut arr = [0i64; SAMPLE_TABLE_SIZE];
        let mut i: usize = 0;
        while i < SAMPLE_TABLE_SIZE
            invariant
                i <= SAMPLE_TABLE_SIZE,
                point_in_unit(p1),
                point_in_unit(p2),
                forall|k: int| 0 <= k < i ==> #[trigger] arr[k] == sample(p1.x as int, p2.x as int, k),
            decreases SAMPLE_TABLE_SIZE - i,
        {
            arr[i] = Self::at((i as i64) * SAMPLE_STEP, p1.x, p2.x);
            i += 1;
        }
        BezierCurve { sample_table: arr, p1, p2 }
    }
}

/// Coordinates out of [0, 1] are clamped before anything is computed: two curves built
/// from control points that clamp to the same points are the same curve.
pub proof fn lemma_clamping(
    c: BezierCurve,
    d: BezierCurve,
    p1: Vector2,
    p2: Vector2,
    q1: Vector2,
    q2: Vector2,
)
    requires
        c.built_from(p1, p2),
        d.built_from(q1, q2),
        clamp_point(p1) == clamp_point(q1),
        clamp_point(p2) == clamp_point(q2),
    ensures
        c == d,
{
    assert(c.sample_table =~= d.sample_table);
}

/// A query is a function of the curve and the input: the same query on the same curve
/// gives the same value every time.
pub proof fn lemma_deterministic(c: BezierCurve, x: int, r1: int, r2: int)
    requires
        c.wf(),
        r1 == ease(c.control1(), c.control2(), x),
        r2 == ease(c.control1(), c.control2(), x),
    ensures
        r1 == r2,
{
}

/// On a curve whose control points lie on the diagonal, the eased value at any x strictly
/// inside (0, 1) is the x polynomial at the parameter found for x, so it differs from x
/// exactly by the solver's residual.
pub proof fn lemma_diagonal(p1: Vector2, p2: Vector2, x: int)
    requires
        p1.x == p1.y,
        p2.x == p2.y,
        0 < x < ONE,
    ensures
        ease(p1, p2, x) == cubic(solve_t(p1.x as int, p2.x as int, x), p1.x as int, p2.x as int),
{
}

} // verus!
