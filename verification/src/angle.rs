//! Sine and cosine of the angles at which the paddle returns the ball.
//!
//! Both are taken from their series, in multiples of `2^-60`, and rounded to a
//! single once. The multiples are fine enough that what is cut off at each
//! term is far under the last bit that a single keeps.
use crate::single::{lemma_exact, lemma_rounded_bounds, lemma_rounded_sign, Single};
use vstd::arithmetic::div_mod::*;
use vstd::arithmetic::mul::*;
use vstd::arithmetic::power2::*;
use vstd::prelude::*;

verus! {

/// One, as a multiple of `2^-60`.
pub const ONE: u128 = 0x1000_0000_0000_0000;

/// The largest angle that is taken, five quarters, as a multiple of `2^-60`.
pub const WIDEST: u128 = 0x1400_0000_0000_0000;

/// Terms of a series. The last is under `2^-60` for every angle that is taken.
pub const TERMS: u32 = 12;

/// The term of a series that follows `t`, whose degree is `k`: `t` times the
/// square of `x` over the next two degrees.
pub open spec fn next_term(x: nat, t: nat, k: nat) -> nat {
    ((((t * x) / ONE as nat) * x) / ONE as nat) / ((k + 1) * (k + 2))
}

/// The alternating sum of `n` terms, starting with `t` of degree `k`.
pub open spec fn series(x: nat, t: nat, k: nat, n: nat) -> int
    decreases n,
{
    if n == 0 {
        0
    } else {
        t - series(x, next_term(x, t, k), k + 2, (n - 1) as nat)
    }
}

/// The terms of a series fall.
pub proof fn lemma_next_term(x: nat, t: nat, k: nat)
    requires
        x <= WIDEST,
    ensures
        next_term(x, t, k) <= t,
        t * x <= t * WIDEST,
        ((t * x) / ONE as nat) * x <= (2 * t) * WIDEST,
        t > 0 ==> next_term(x, t, k) < t,
{
    let one = ONE as nat;
    let wide = WIDEST as nat;
    assert(t * x <= t * wide) by (nonlinear_arith)
        requires
            x <= wide,
            t >= 0,
    ;
    let a = (t * x) / one;
    lemma_fundamental_div_mod((t * x) as int, one as int);
    assert(4 * a <= 5 * t) by (nonlinear_arith)
        requires
            one * a <= t * x,
            x <= wide,
            4 * wide == 5 * one,
            one > 0,
            t >= 0,
    ;
    assert(a * x <= (2 * t) * wide) by (nonlinear_arith)
        requires
            4 * a <= 5 * t,
            0 <= x <= wide,
            a >= 0,
            t >= 0,
    ;
    let b = (a * x) / one;
    lemma_fundamental_div_mod((a * x) as int, one as int);
    assert(4 * b <= 5 * a) by (nonlinear_arith)
        requires
            one * b <= a * x,
            x <= wide,
            4 * wide == 5 * one,
            one > 0,
            a >= 0,
    ;
    let d = (k + 1) * (k + 2);
    assert(d >= 2) by (nonlinear_arith)
        requires
            d == (k + 1) * (k + 2),
            k >= 0,
    ;
    lemma_fundamental_div_mod(b as int, d as int);
    let c = b / d;
    assert(2 * c <= b) by (nonlinear_arith)
        requires
            d * c <= b,
            d >= 2,
            c >= 0,
    ;
    assert(16 * b <= 25 * t);
}

/// An alternating sum of falling terms lies between zero and its first term,
/// and is not under the first two.
pub proof fn lemma_series_bounds(x: nat, t: nat, k: nat, n: nat)
    requires
        x <= WIDEST,
    ensures
        0 <= series(x, t, k, n) <= t,
        n > 0 ==> series(x, t, k, n) >= t - next_term(x, t, k),
    decreases n,
{
    if n > 0 {
        lemma_next_term(x, t, k);
        lemma_series_bounds(x, next_term(x, t, k), k + 2, (n - 1) as nat);
    }
}

/// The alternating sum of the terms of a series.
fn sum(x: u128, first: u128, degree: u32) -> (s: u128)
    requires
        x <= WIDEST,
        first <= WIDEST,
        degree <= 1,
    ensures
        s == series(x as nat, first as nat, degree as nat, TERMS as nat),
        s <= first,
{
    let mut plus: u128 = 0;
    let mut minus: u128 = 0;
    let mut t: u128 = first;
    let mut k: u32 = degree;
    let mut left: u32 = TERMS;
    while left > 0
        invariant
            left <= TERMS,
            x <= WIDEST,
            t <= WIDEST,
            degree <= 1,
            k == degree + 2 * (TERMS - left),
            plus <= (TERMS - left) * WIDEST,
            minus <= (TERMS - left) * WIDEST,
            left % 2 == 0 ==> plus - minus + series(x as nat, t as nat, k as nat, left as nat)
                == series(x as nat, first as nat, degree as nat, TERMS as nat),
            left % 2 == 1 ==> plus - minus - series(x as nat, t as nat, k as nat, left as nat)
                == series(x as nat, first as nat, degree as nat, TERMS as nat),
        decreases left,
    {
        if left % 2 == 0 {
            plus = plus + t;
        } else {
            minus = minus + t;
        }
        proof {
            lemma_next_term(x as nat, t as nat, k as nat);
            assert(t * x <= WIDEST * WIDEST) by (nonlinear_arith)
                requires
                    t <= WIDEST,
                    x <= WIDEST,
            ;
            assert((2 * t) * WIDEST <= (2 * WIDEST) * WIDEST) by (nonlinear_arith)
                requires
                    t <= WIDEST,
            ;
            assert(0 < (k + 1) * (k + 2) <= 26 * 27) by (nonlinear_arith)
                requires
                    0 <= k <= 25,
            ;
        }
        let d: u32 = (k + 1) * (k + 2);
        t = ((((t * x) / ONE) * x) / ONE) / (d as u128);
        k = k + 2;
        left = left - 1;
    }
    proof {
        lemma_series_bounds(x as nat, first as nat, degree as nat, TERMS as nat);
    }
    plus - minus
}

/// The size of a number as a multiple of `2^-60`, cut off.
pub open spec fn fixed_spec(a: Single) -> nat {
    a.size() / pow2(89)
}

/// An angle that is taken: no number, or at most five quarters.
pub open spec fn narrow(a: Single) -> bool {
    a.nan() || (a.finite() && a.size() <= 5 * pow2(147))
}

/// The size of an angle as a multiple of `2^-60`, cut off.
fn fixed(a: Single) -> (x: u128)
    requires
        a.finite(),
        narrow(a),
    ensures
        x == fixed_spec(a),
        x <= WIDEST,
{
    proof {
        lemma_fixed(a);
    }
    a.cut(89)
}

/// An angle that is taken is a small enough multiple of `2^-60`.
proof fn lemma_fixed(a: Single)
    requires
        a.finite(),
        narrow(a),
    ensures
        fixed_spec(a) <= WIDEST,
{
    lemma2_to64();
    lemma_pow2_adds(58, 89);
    lemma_pow2_pos(89);
    lemma2_to64_rest();
    assert(5 * pow2(147) == WIDEST * pow2(89)) by (nonlinear_arith)
        requires
            pow2(147) == pow2(58) * pow2(89),
            pow2(58) == 0x400_0000_0000_0000,
            WIDEST == 5 * 0x400_0000_0000_0000,
    ;
    lemma_div_is_ordered(a.size() as int, (WIDEST * pow2(89)) as int, pow2(89) as int);
    lemma_div_multiples_vanish(WIDEST as int, pow2(89) as int);
    lemma_mul_is_commutative(WIDEST as int, pow2(89) as int);
}

/// The sine of an angle.
pub open spec fn sine_spec(a: Single) -> Single {
    if a.nan() {
        Single::nan_spec()
    } else {
        let x = fixed_spec(a);
        Single::rounded(a.neg(), (series(x, x, 1, TERMS as nat) * pow2(89)) as nat, 1)
    }
}

/// The cosine of an angle.
pub open spec fn cosine_spec(a: Single) -> Single {
    if a.nan() {
        Single::nan_spec()
    } else {
        let x = fixed_spec(a);
        Single::rounded(false, (series(x, ONE as nat, 0, TERMS as nat) * pow2(89)) as nat, 1)
    }
}

/// The sine of an angle that is not too small for the series is not zero, and
/// has the sign of the angle.
pub proof fn lemma_sine(a: Single)
    requires
        a.finite(),
        narrow(a),
        a.size() >= pow2(89),
    ensures
        sine_spec(a).finite(),
        sine_spec(a).size() >= pow2(89),
        sine_spec(a).neg() == a.neg(),
{
    let x = fixed_spec(a);
    lemma_fixed(a);
    lemma_pow2_pos(89);
    lemma_div_is_ordered(pow2(89) as int, a.size() as int, pow2(89) as int);
    lemma_div_basics(pow2(89) as int);
    lemma_next_term(x, x, 1);
    lemma_series_bounds(x, x, 1, TERMS as nat);
    lemma_share(a.neg(), series(x, x, 1, TERMS as nat) as nat);
}

/// The cosine of an angle that is taken is over zero.
pub proof fn lemma_cosine(a: Single)
    requires
        a.finite(),
        narrow(a),
    ensures
        cosine_spec(a).finite(),
        cosine_spec(a).size() >= pow2(89),
        !cosine_spec(a).neg(),
{
    let x = fixed_spec(a);
    lemma_fixed(a);
    lemma_next_term(x, ONE as nat, 0);
    lemma_series_bounds(x, ONE as nat, 0, TERMS as nat);
    lemma_share(false, series(x, ONE as nat, 0, TERMS as nat) as nat);
}

/// A multiple of `2^-60` that is over zero rounds to a number over zero.
proof fn lemma_share(neg: bool, m: nat)
    requires
        1 <= m <= WIDEST,
    ensures
        ({
            let r = Single::rounded(neg, m * pow2(89), 1);
            r.finite() && r.size() >= pow2(89) && r.neg() == neg
        }),
{
    let least = Single::rounded(false, 1 * pow2(89), 1);
    let most = Single::rounded(false, 5 * pow2(147), 1);
    let n = m * pow2(89);
    lemma_exact(1, 89);
    lemma_exact(5, 147);
    lemma2_to64_rest();
    lemma_pow2_adds(58, 89);
    assert(1 * pow2(89) <= n <= 5 * pow2(147)) by (nonlinear_arith)
        requires
            n == m * pow2(89),
            1 <= m <= 5 * 0x400_0000_0000_0000,
            pow2(147) == pow2(58) * pow2(89),
            pow2(58) == 0x400_0000_0000_0000,
    ;
    lemma_mul_basics(least.size() as int);
    lemma_mul_basics(most.size() as int);
    lemma_rounded_bounds(n, 1, least);
    lemma_rounded_bounds(n, 1, most);
    lemma_rounded_sign(n, 1);
    let r = Single::rounded(false, n, 1);
    assert(r.negated_spec().size() == r.size());
}

/// The sine of an angle.
pub fn sine(a: Single) -> (r: Single)
    requires
        narrow(a),
    ensures
        r == sine_spec(a),
{
    if a.is_nan() {
        return Single::no_number();
    }
    let x: u128 = fixed(a);
    Single::binary(a.is_negative(), sum(x, x, 1), 89)
}

/// The cosine of an angle.
pub fn cosine(a: Single) -> (r: Single)
    requires
        narrow(a),
    ensures
        r == cosine_spec(a),
{
    if a.is_nan() {
        return Single::no_number();
    }
    let x: u128 = fixed(a);
    Single::binary(false, sum(x, ONE, 0), 89)
}

} // verus!
