//! Bounds on products, quotients and sums, in multiples of a power of two.
use crate::single::{
    lemma_exact, lemma_negated, lemma_plus_between, lemma_rounded_bounds, lemma_rounded_sign,
    lemma_times_bound, lemma_times_order, lemma_zero, Single,
};
use vstd::arithmetic::div_mod::*;
use vstd::arithmetic::mul::*;
use vstd::arithmetic::power2::*;
use vstd::prelude::*;

verus! {

/// So many parts, each `2^e` of the least number.
pub open spec fn parts(e: nat, n: nat) -> Single {
    Single::rounded(false, n * pow2(e), 1)
}

/// So many parts are a number, and one is a power of two of parts.
pub proof fn lemma_part(e: nat, n: nat)
    requires
        n < 0x100_0000,
        e <= 149,
    ensures
        parts(e, n).finite(),
        !parts(e, n).neg(),
        parts(e, n).size() == n * pow2(e),
        parts(e, n).value() == n * pow2(e),
        pow2(149) == pow2((149 - e) as nat) * pow2(e),
        pow2(e) > 0,
{
    lemma_exact(n, e);
    lemma_pow2_adds((149 - e) as nat, e);
    lemma_pow2_pos(e);
}

/// A product of numbers that lie between parts.
pub proof fn lemma_times_in(
    e: nat,
    a: Single,
    b: Single,
    a0: nat,
    a1: nat,
    b0: nat,
    b1: nat,
    c0: nat,
    c1: nat,
)
    requires
        100 <= e <= 149,
        a.finite(),
        b.finite(),
        a0 * pow2(e) <= a.size() <= a1 * pow2(e),
        b0 * pow2(e) <= b.size() <= b1 * pow2(e),
        pow2((149 - e) as nat) * c0 <= a0 * b0,
        a1 * b1 <= pow2((149 - e) as nat) * c1,
        c0 < 0x100_0000,
        c1 < 0x100_0000,
    ensures
        a.times_spec(b).finite(),
        c0 * pow2(e) <= a.times_spec(b).size() <= c1 * pow2(e),
        a.times_spec(b).neg() == (a.neg() != b.neg()),
{
    let h = pow2(e);
    let n1 = pow2((149 - e) as nat);
    let t = pow2(149);
    let n = a.size() * b.size();
    lemma_pow2_pos(149);
    lemma_part(e, c0);
    lemma_part(e, c1);
    lemma_scale(a.size(), b.size(), a0, b0, c0, h, n1, true);
    lemma_scale(a.size(), b.size(), a1, b1, c1, h, n1, false);
    lemma_rounded_bounds(n, t, parts(e, c0));
    lemma_times_bound(a, b, parts(e, c1));
    lemma_times_order(a, b, a, b);
    let r = Single::rounded(false, n, t);
    lemma_rounded_sign(n, t);
    assert(a.times_spec(b).size() == r.size() && r.finite()) by {
        reveal(Single::times_spec);
        lemma_rounded_bounds(n, t, parts(e, c1));
        lemma_negated(r);
    }
}

/// Products of bounds, in parts.
proof fn lemma_scale(x: nat, y: nat, a: nat, b: nat, c: nat, h: nat, n: nat, below: bool)
    requires
        below ==> a * h <= x && b * h <= y && n * c <= a * b,
        !below ==> x <= a * h && y <= b * h && a * b <= n * c,
    ensures
        below ==> (c * h) * (n * h) <= x * y,
        !below ==> x * y <= (c * h) * (n * h),
{
    let hh = h * h;
    assert((c * h) * (n * h) == (n * c) * (h * h)) by (nonlinear_arith);
    assert((a * h) * (b * h) == (a * b) * (h * h)) by (nonlinear_arith);
    lemma_mul_nonnegative(h as int, h as int);
    if below {
        lemma_mul_inequality((n * c) as int, (a * b) as int, hh as int);
        lemma_mul_nonnegative(a as int, h as int);
        lemma_mul_nonnegative(b as int, h as int);
        lemma_mul_upper_bound((a * h) as int, x as int, (b * h) as int, y as int);
    } else {
        lemma_mul_inequality((a * b) as int, (n * c) as int, hh as int);
        lemma_mul_upper_bound(x as int, (a * h) as int, y as int, (b * h) as int);
    }
}

/// A quotient of numbers that lie between parts.
pub proof fn lemma_over_in(
    e: nat,
    a: Single,
    b: Single,
    a0: nat,
    a1: nat,
    b0: nat,
    b1: nat,
    c0: nat,
    c1: nat,
)
    requires
        100 <= e <= 149,
        a.finite(),
        b.finite(),
        a0 * pow2(e) <= a.size() <= a1 * pow2(e),
        b0 * pow2(e) <= b.size() <= b1 * pow2(e),
        0 < a0,
        0 < b0,
        c0 * b1 <= pow2((149 - e) as nat) * a0,
        pow2((149 - e) as nat) * a1 <= c1 * b0,
        c0 < 0x100_0000,
        c1 < 0x100_0000,
    ensures
        a.over_spec(b).finite(),
        c0 * pow2(e) <= a.over_spec(b).size() <= c1 * pow2(e),
        a.over_spec(b).neg() == (a.neg() != b.neg()),
{
    let h = pow2(e);
    let n1 = pow2((149 - e) as nat);
    let t = pow2(149);
    let n = a.size() * t;
    let d = b.size();
    lemma_part(e, c0);
    lemma_part(e, c1);
    lemma_mul_strictly_positive(a0 as int, h as int);
    lemma_mul_strictly_positive(b0 as int, h as int);
    lemma_zero(a);
    lemma_zero(b);
    let hh = h * h;
    lemma_mul_nonnegative(h as int, h as int);
    assert((c0 * h) * d <= n) by {
        lemma_mul_nonnegative(c0 as int, h as int);
        lemma_mul_inequality(d as int, (b1 * h) as int, (c0 * h) as int);
        lemma_mul_is_commutative(d as int, (c0 * h) as int);
        lemma_mul_is_commutative((b1 * h) as int, (c0 * h) as int);
        assert((c0 * h) * (b1 * h) == (c0 * b1) * (h * h)) by (nonlinear_arith);
        lemma_mul_inequality((c0 * b1) as int, (n1 * a0) as int, hh as int);
        assert((n1 * a0) * (h * h) == (a0 * h) * (n1 * h)) by (nonlinear_arith);
        lemma_mul_inequality((a0 * h) as int, a.size() as int, t as int);
    }
    assert(n <= (c1 * h) * d) by {
        lemma_mul_inequality(a.size() as int, (a1 * h) as int, t as int);
        assert((a1 * h) * (n1 * h) == (n1 * a1) * (h * h)) by (nonlinear_arith);
        lemma_mul_inequality((n1 * a1) as int, (c1 * b0) as int, hh as int);
        assert((c1 * b0) * (h * h) == (c1 * h) * (b0 * h)) by (nonlinear_arith);
        lemma_mul_nonnegative(c1 as int, h as int);
        lemma_mul_inequality((b0 * h) as int, d as int, (c1 * h) as int);
        lemma_mul_is_commutative(d as int, (c1 * h) as int);
        lemma_mul_is_commutative((b0 * h) as int, (c1 * h) as int);
    }
    lemma_rounded_bounds(n, d, parts(e, c0));
    lemma_rounded_bounds(n, d, parts(e, c1));
    lemma_rounded_sign(n, d);
    let r = Single::rounded(false, n, d);
    lemma_negated(r);
    assert(a.over_spec(b) == Single::rounded(a.neg() != b.neg(), n, d)) by {
        reveal(Single::over_spec);
    }
}

/// Numbers that are so many parts apart are nearly so when the same is added.
pub proof fn lemma_apart(e: nat, a: Single, b: Single, v: Single, m: nat)
    requires
        e <= 149,
        a.finite(),
        b.finite(),
        v.finite(),
        0 <= a.value(),
        0 <= v.value(),
        a.value() + m * pow2(e) <= b.value(),
        b.value() + v.value() < 0xff_0000 * pow2(e),
        m >= 2,
    ensures
        a.plus_spec(v).finite(),
        b.plus_spec(v).finite(),
        0 <= a.plus_spec(v).value(),
        a.plus_spec(v).value() + (m - 2) * pow2(e) <= b.plus_spec(v).value(),
        b.plus_spec(v).value() <= b.value() + v.value() + pow2(e),
{
    let q: int = pow2(e) as int;
    let u: int = a.value() + v.value();
    let w: int = b.value() + v.value();
    lemma_pow2_pos(e);
    let k: nat = (u / q + 1) as nat;
    let l: nat = (w / q) as nat;
    lemma_fundamental_div_mod(u, q);
    lemma_fundamental_div_mod(w, q);
    lemma_div_pos_is_pos(u, q);
    lemma_mul_nonnegative(m as int, q);
    lemma_div_pos_is_pos(w, q);
    lemma_mul_is_commutative(q, u / q);
    lemma_mul_is_commutative(q, w / q);
    lemma_mul_is_distributive_add_other_way(q, u / q, 1);
    lemma_mul_is_distributive_add_other_way(q, w / q, 1);
    assert(l * q <= w < l * q + q);
    assert(u < k * q <= u + q);
    assert(l + 2 > k + m) by {
        if l + 2 <= k + m {
            lemma_mul_inequality((l + 2) as int, (k + m) as int, q);
            lemma_mul_is_distributive_add_other_way(q, l as int, 2);
            lemma_mul_is_distributive_add_other_way(q, k as int, m as int);
        }
    }
    assert(l < 0xff_0000) by {
        if l >= 0xff_0000 {
            lemma_mul_inequality(0xff_0000, l as int, q);
        }
    }
    let zero = Single::zero_spec();
    lemma_zero(zero);
    lemma_part(e, k);
    lemma_part(e, l);
    lemma_part(e, l + 1);
    lemma_mul_nonnegative(l as int, q);
    lemma_plus_between(a, v, zero, parts(e, k));
    lemma_plus_between(b, v, parts(e, l), parts(e, l + 1));
    lemma_mul_inequality(k + m - 2, l as int, q);
    lemma_mul_is_distributive_add_other_way(q, k as int, m - 2);
}

} // verus!
