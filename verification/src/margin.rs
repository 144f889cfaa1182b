//! How far rounded sums, products and quotients are from the exact ones.
use crate::single::{
    lemma_exact, lemma_negated, lemma_rounded_bounds, lemma_rounded_close, lemma_rounded_sign,
    lemma_zero, Single,
};
use vstd::arithmetic::div_mod::*;
use vstd::arithmetic::mul::*;
use vstd::arithmetic::power2::*;
use vstd::prelude::*;

verus! {

/// Two integers are no further apart than a margin.
pub open spec fn within(a: int, b: int, margin: nat) -> bool {
    b - margin <= a <= b + margin
}

/// What is rounded is off by at most a part in `2^24` of the least power of two
/// that it is not over.
pub proof fn lemma_rounded_off(n: nat, d: nat, k: nat)
    requires
        d > 0,
        k <= 229,
        n <= (0x100_0000 * pow2(k)) * d,
    ensures
        Single::rounded(false, n, d).finite(),
        !Single::rounded(false, n, d).neg(),
        Single::rounded(false, n, d).size() <= 0x100_0000 * pow2(k),
        within((Single::rounded(false, n, d).size() * d) as int, n as int, pow2(k) * d),
{
    let r = Single::rounded(false, n, d);
    let g = pow2(k);
    let top = Single::rounded(false, 1 * pow2(k + 24), 1);
    lemma_exact(1, k + 24);
    lemma_pow2_adds(24, k);
    lemma2_to64();
    lemma_pow2_pos(k);
    lemma_rounded_bounds(n, d, top);
    let z: int = (r.size() * d) as int;
    if n >= 0x80_0000 * d {
        lemma_rounded_close(n, d);
        assert((0x100_0000 * g) * d == 0x100_0000 * (g * d)) by (nonlinear_arith);
    } else {
        let q = n / d;
        lemma_fundamental_div_mod(n as int, d as int);
        lemma_mul_is_commutative(d as int, q as int);
        if q >= 0x80_0000 {
            lemma_mul_inequality(0x80_0000, q as int, d as int);
        }
        lemma2_to64();
        lemma_exact(q, 0);
        lemma_exact(q + 1, 0);
        let lo = Single::rounded(false, q * pow2(0), 1);
        let hi = Single::rounded(false, (q + 1) * pow2(0), 1);
        assert(lo.size() == q && hi.size() == q + 1);
        lemma_mul_is_distributive_add_other_way(d as int, q as int, 1);
        lemma_rounded_bounds(n, d, lo);
        lemma_rounded_bounds(n, d, hi);
        lemma_mul_inequality(q as int, r.size() as int, d as int);
        lemma_mul_inequality(r.size() as int, (q + 1) as int, d as int);
        lemma_mul_inequality(1, g as int, d as int);
    }
}

/// A sum is off by a part in `2^24` at most.
pub proof fn lemma_plus_off(a: Single, b: Single, k: nat)
    requires
        a.finite(),
        b.finite(),
        k <= 229,
        within(a.value() + b.value(), 0, 0x100_0000 * pow2(k)),
    ensures
        a.plus_spec(b).finite(),
        within(a.plus_spec(b).value(), 0, 0x100_0000 * pow2(k)),
        within(a.plus_spec(b).value(), a.value() + b.value(), pow2(k)),
{
    reveal(Single::plus_spec);
    let u = a.value() + b.value();
    let n: nat = if u < 0 {
        (-u) as nat
    } else {
        u as nat
    };
    let r = Single::rounded(false, n, 1);
    lemma_pow2_pos(k);
    lemma_rounded_off(n, 1, k);
    lemma_rounded_sign(n, 1);
    lemma_negated(r);
    lemma_zero(a.plus_spec(b));
}

/// A difference is off by a part in `2^24` at most.
pub proof fn lemma_minus_off(a: Single, b: Single, k: nat)
    requires
        a.finite(),
        b.finite(),
        k <= 229,
        within(a.value() - b.value(), 0, 0x100_0000 * pow2(k)),
    ensures
        a.minus_spec(b).finite(),
        within(a.minus_spec(b).value(), 0, 0x100_0000 * pow2(k)),
        within(a.minus_spec(b).value(), a.value() - b.value(), pow2(k)),
{
    lemma_negated(b);
    lemma_plus_off(a, b.negated_spec(), k);
}

/// A product is off by a part in `2^24` at most.
pub proof fn lemma_times_off(a: Single, b: Single, k: nat)
    requires
        a.finite(),
        b.finite(),
        k <= 229,
        a.size() * b.size() <= (0x100_0000 * pow2(k)) * pow2(149),
    ensures
        a.times_spec(b).finite(),
        within(a.times_spec(b).value(), 0, 0x100_0000 * pow2(k)),
        within(a.times_spec(b).value() * pow2(149), a.value() * b.value(), pow2(k) * pow2(149)),
        a.times_spec(b).neg() == (a.neg() != b.neg()),
{
    reveal(Single::times_spec);
    let t = pow2(149);
    let n = a.size() * b.size();
    let r = Single::rounded(false, n, t);
    lemma_pow2_pos(149);
    lemma_pow2_pos(k);
    lemma_rounded_off(n, t, k);
    lemma_rounded_sign(n, t);
    lemma_negated(r);
    lemma_signs(a.size() as int, b.size() as int);
    lemma_signs(r.size() as int, t as int);
}

/// A sign moves out of a product.
proof fn lemma_signs(a: int, b: int)
    ensures
        (-a) * b == -(a * b),
        a * (-b) == -(a * b),
        (-a) * (-b) == a * b,
{
    lemma_mul_unary_negation(a, b);
    lemma_mul_cancels_negatives(a, b);
}

/// A quotient is off by a part in `2^24` at most.
pub proof fn lemma_over_off(a: Single, b: Single, k: nat)
    requires
        a.finite(),
        b.finite(),
        b.value() > 0,
        k <= 229,
        a.size() * pow2(149) <= (0x100_0000 * pow2(k)) * b.size(),
    ensures
        a.over_spec(b).finite(),
        a.over_spec(b).size() <= 0x100_0000 * pow2(k),
        within(a.over_spec(b).value() * b.value(), a.value() * pow2(149), pow2(k) * b.size()),
        a.value() > 0 ==> !a.over_spec(b).neg(),
        a.value() < 0 ==> a.over_spec(b).neg(),
{
    reveal(Single::over_spec);
    let t = pow2(149);
    let n = a.size() * t;
    let r = Single::rounded(false, n, b.size());
    lemma_pow2_pos(149);
    lemma_pow2_pos(k);
    lemma_zero(a);
    lemma_zero(b);
    lemma_rounded_off(n, b.size(), k);
    lemma_rounded_sign(n, b.size());
    lemma_negated(r);
    lemma_signs(a.size() as int, t as int);
    lemma_signs(r.size() as int, b.size() as int);
    lemma_mul_nonnegative(pow2(k) as int, b.size() as int);
    lemma_mul_basics(b.value());
    lemma_mul_basics(t as int);
    lemma_zero(a.over_spec(b));
}

} // verus!
