//! Decimal fixed-point arithmetic: a value `v` stands for `v / ONE`.
use vstd::prelude::*;

verus! {

/// The fixed-point value of 1.0.
pub const ONE: i64 = 1_000_000_000;

/// A bound on every fixed-point quotient of two `i64` values: 10^28.
pub const QUOTIENT_BOUND: i128 = 10_000_000_000_000_000_000_000_000_000;

/// Whether `v` lies in the unit interval [0, 1].
pub open spec fn in_unit(v: int) -> bool {
    0 <= v <= ONE
}

/// `v` clamped to the unit interval [0, 1].
pub open spec fn clamp_unit(v: int) -> int {
    if v < 0 {
        0
    } else if v > ONE {
        ONE as int
    } else {
        v
    }
}

/// Fixed-point product, rounded down.
pub open spec fn fx_mul_spec(a: int, b: int) -> int {
    (a * b) / (ONE as int)
}

/// Fixed-point quotient, rounded as Euclidean division rounds.
pub open spec fn fx_div_spec(a: int, b: int) -> int {
    (a * ONE) / b
}

/// A product of factors bounded by `m` and `n` (in units of `ONE`) is bounded by `m * n`.
pub proof fn lemma_fx_mul_bound(a: int, b: int, m: int, n: int)
    requires
        0 <= m,
        0 <= n,
        -m * ONE <= a <= m * ONE,
        -n * ONE <= b <= n * ONE,
    ensures
        -(m * n * ONE) <= fx_mul_spec(a, b) <= m * n * ONE,
{
    let one = ONE as int;
    assert(-(m * n * one * one) <= a * b <= m * n * one * one) by (nonlinear_arith)
        requires
            0 <= m,
            0 <= n,
            -m * one <= a <= m * one,
            -n * one <= b <= n * one,
            one > 0,
    ;
    let p = a * b;
    let k = m * n * one;
    assert(-k <= p / one <= k) by (nonlinear_arith)
        requires
            -(k * one) <= p <= k * one,
            one > 0,
    ;
}

/// Multiplying by 1.0 changes nothing.
pub proof fn lemma_fx_mul_one(a: int)
    ensures
        fx_mul_spec(a, ONE as int) == a,
        fx_mul_spec(a, 0) == 0,
{
    let one = ONE as int;
    assert((a * one) / one == a) by (nonlinear_arith)
        requires
            one > 0,
    ;
}

/// The fixed-point product of `a` and `b`; the product of two `i64` always fits in `i128`,
/// and the caller vouches that the rounded result fits in `i64`.
pub fn fx_mul(a: i64, b: i64) -> (r: i64)
    requires
        i64::MIN <= fx_mul_spec(a as int, b as int) <= i64::MAX,
    ensures
        r == fx_mul_spec(a as int, b as int),
{
    proof {
        let aa = a as int;
        let bb = b as int;
        assert(-0x4000_0000_0000_0000_0000_0000_0000_0000 <= aa * bb
            <= 0x4000_0000_0000_0000_0000_0000_0000_0000) by (nonlinear_arith)
            requires
                -0x8000_0000_0000_0000 <= aa <= 0x8000_0000_0000_0000,
                -0x8000_0000_0000_0000 <= bb <= 0x8000_0000_0000_0000,
        ;
    }
    let p: i128 = (a as i128) * (b as i128);
    match p.checked_div_euclid(ONE as i128) {
        Some(q) => q as i64,
        None => 0,
    }
}

/// The fixed-point quotient of `a` by `b`.
pub fn fx_div(a: i64, b: i64) -> (r: i128)
    requires
        b != 0,
    ensures
        r == fx_div_spec(a as int, b as int),
        -QUOTIENT_BOUND <= r <= QUOTIENT_BOUND,
{
    proof {
        let one = ONE as int;
        let aa = a as int;
        let bb = b as int;
        let k = QUOTIENT_BOUND as int;
        assert(-k <= aa * one <= k) by (nonlinear_arith)
            requires
                -0x8000_0000_0000_0000 <= aa <= 0x8000_0000_0000_0000,
                one == 1_000_000_000,
                k == 10_000_000_000_000_000_000_000_000_000,
        ;
        assert(-k <= (aa * one) / bb <= k) by (nonlinear_arith)
            requires
                -k <= aa * one <= k,
                bb != 0,
                k > 0,
        ;
    }
    let p: i128 = (a as i128) * (ONE as i128);
    match p.checked_div_euclid(b as i128) {
        Some(q) => q,
        None => 0,
    }
}

/// `v` clamped to the unit interval.
pub fn clamp_to_unit(v: i128) -> (r: i64)
    ensures
        r == clamp_unit(v as int),
{
    if v < 0 {
        0
    } else if v > ONE as i128 {
        ONE
    } else {
        v as i64
    }
}

} // verus!
