//! The speed of the ball: a block and a wall keep it exactly, and the paddle but
//! for three parts in a million.
use crate::angle::{
    cosine_spec, fixed_spec, lemma_cosine, lemma_next_term, lemma_series_bounds, lemma_sine, narrow,
    next_term, series, sine_spec, ONE, TERMS, WIDEST,
};
use crate::circle::{lemma_head, lemma_term, sine_and_cosine_lie_on_the_circle};
use crate::lung::length_spec;
use crate::motion::{
    min_angle_spec, off_centre_spec, paddle_return_spec, return_angle_is_never_vertical,
    return_angle_spec, Ball,
};
use crate::single::{
    fit, isqrt, lemma_carried, lemma_clamp_unit, lemma_exact, lemma_fit, lemma_isqrt, lemma_negated,
    lemma_parts, lemma_rounded_bounds, lemma_rounded_close, lemma_rounded_sign, lemma_size_order,
    lemma_times_bound, lemma_times_order, lemma_value_order, lemma_whole, lemma_zero, Single,
};
use vstd::arithmetic::div_mod::*;
use vstd::arithmetic::mul::*;
use vstd::arithmetic::power2::*;
use vstd::prelude::*;

verus! {

/// The square of how fast the ball is, in units of the least number.
pub open spec fn energy(ball: Ball) -> int {
    (ball.vx.size() * ball.vx.size() + ball.vy.size() * ball.vy.size()) as int
}

/// `a` is `b`, but for `k` parts in a thousand million.
pub open spec fn near(a: int, b: int, k: int) -> bool {
    &&& 0 <= b
    &&& -(k * b) <= 1_000_000_000 * (a - b) <= k * b
}

/// What is near what is near is nearly as near.
proof fn lemma_near_near(a: int, b: int, c: int, k: int, l: int)
    requires
        near(a, b, k),
        near(b, c, l),
        0 <= k <= 10_000,
        0 <= l <= 10_000,
    ensures
        near(a, c, k + l + 1),
{
    let g: int = 1_000_000_000;
    let z = (g + l) * c;
    lemma_mul_is_distributive_add_other_way(c, g, l);
    lemma_mul_inequality(g * b, z, k);
    lemma_mul_is_commutative(g * b, k);
    lemma_mul_is_commutative(z, k);
    assert(k * (g * b) == g * (k * b)) by {
        lemma_mul_is_associative(k, g, b);
        lemma_mul_is_commutative(k, g);
        lemma_mul_is_associative(g, k, b);
    }
    assert(k * z == g * (k * c) + (k * l) * c) by {
        lemma_mul_is_distributive_add(k, g * c, l * c);
        lemma_mul_is_associative(k, g, c);
        lemma_mul_is_commutative(k, g);
        lemma_mul_is_associative(g, k, c);
        lemma_mul_is_associative(k, l, c);
    }
    lemma_mul_upper_bound(k, 10_000, l, 10_000);
    lemma_mul_inequality(k * l, g, c);
    lemma_mul_is_distributive_add_other_way(c, k, l);
    lemma_mul_is_distributive_add_other_way(c, k + l, 1);
    assert(k * b <= k * c + c);
}

/// Nearness survives a factor.
proof fn lemma_near_times(a: int, b: int, m: int, k: int)
    requires
        near(a, b, k),
        m >= 0,
    ensures
        near(a * m, b * m, k),
{
    let g: int = 1_000_000_000;
    let d = g * (a - b);
    lemma_mul_inequality(-(k * b), d, m);
    lemma_mul_inequality(d, k * b, m);
    lemma_mul_unary_negation(k * b, m);
    lemma_mul_is_associative(k, b, m);
    lemma_mul_is_associative(g, a - b, m);
    lemma_mul_is_distributive_sub_other_way(m, a, b);
    lemma_mul_nonnegative(b, m);
}

/// What survives a factor was so without it.
proof fn lemma_near_over(a: int, b: int, m: int, k: int)
    requires
        near(a * m, b * m, k),
        m > 0,
        b >= 0,
    ensures
        near(a, b, k),
{
    let g: int = 1_000_000_000;
    let d = g * (a - b);
    lemma_mul_unary_negation(k * b, m);
    lemma_mul_is_associative(k, b, m);
    lemma_mul_is_associative(g, a - b, m);
    lemma_mul_is_distributive_sub_other_way(m, a, b);
    if d > k * b {
        lemma_mul_strict_inequality(k * b, d, m);
    }
    if d < -(k * b) {
        lemma_mul_strict_inequality(d, -(k * b), m);
    }
}

/// Products of what is near are near.
proof fn lemma_near_product(a: int, b: int, c: int, d: int, k: int, l: int)
    requires
        near(a, b, k),
        near(c, d, l),
        c >= 0,
        0 <= k <= 10_000,
        0 <= l <= 10_000,
    ensures
        near(a * c, b * d, k + l + 1),
{
    lemma_near_times(a, b, c, k);
    lemma_near_times(c, d, b, l);
    lemma_mul_is_commutative(c, b);
    lemma_mul_is_commutative(d, b);
    lemma_near_near(a * c, b * c, b * d, k, l);
}

/// Sums of what is near are near.
proof fn lemma_near_sum(a: int, b: int, c: int, d: int, k: int)
    requires
        near(a, b, k),
        near(c, d, k),
    ensures
        near(a + c, b + d, k),
{
    lemma_mul_is_distributive_add(k, b, d);
}

/// A normal number is rounded to one that is near.
proof fn lemma_round_near(n: nat, d: nat)
    requires
        d > 0,
        n >= 0x80_0000 * d,
        Single::rounded(false, n, d).finite(),
    ensures
        near((Single::rounded(false, n, d).size() * d) as int, n as int, 60),
{
    lemma_rounded_close(n, d);
}

/// The square of a component, rounded, but for one unit.
proof fn lemma_component(v: Single)
    requires
        v.finite(),
        v.size() <= 8192 * pow2(149),
    ensures
        ({
            let q = v.times_spec(v);
            let n = v.size() * v.size();
            let t = pow2(149);
            &&& q.finite() && !q.neg()
            &&& -60 * n - 1_000_000_000 * t <= 1_000_000_000 * (q.size() * t - n) <= 60 * n
                + 1_000_000_000 * t
        }),
{
    let t = pow2(149);
    let n = v.size() * v.size();
    let q = Single::rounded(false, n, t);
    lemma_pow2_pos(149);
    lemma_mul_nonnegative(v.size() as int, v.size() as int);
    assert(n <= 0x400_0000 * t * t) by {
        lemma_mul_upper_bound(
            v.size() as int,
            (8192 * t) as int,
            v.size() as int,
            (8192 * t) as int,
        );
        assert((8192 * t) * (8192 * t) == 0x400_0000 * t * t) by (nonlinear_arith);
    }
    lemma_exact(0x40_0000, 153);
    let top = Single::rounded(false, 0x40_0000 * pow2(153), 1);
    lemma2_to64();
    lemma_pow2_adds(4, 149);
    assert(top.size() == 0x400_0000 * t);
    lemma_rounded_bounds(n, t, top);
    assert(v.times_spec(v) == q) by {
        reveal(Single::times_spec);
    }
    if n >= 0x80_0000 * t {
        lemma_round_near(n, t);
    } else {
        let k = n / t;
        lemma_fundamental_div_mod(n as int, t as int);
        assert(k < 0x80_0000) by {
            if k >= 0x80_0000 {
                lemma_mul_inequality(0x80_0000, k as int, t as int);
                lemma_mul_is_commutative(k as int, t as int);
            }
        }
        lemma_exact(k, 0);
        lemma_exact(k + 1, 0);
        lemma_mul_basics(k as int);
        lemma_mul_is_distributive_add_other_way(t as int, k as int, 1);
        lemma_mul_is_commutative(k as int, t as int);
        lemma_rounded_bounds(n, t, Single::rounded(false, k * pow2(0), 1));
        lemma_rounded_bounds(n, t, Single::rounded(false, (k + 1) * pow2(0), 1));
        lemma_mul_inequality(k as int, q.size() as int, t as int);
        lemma_mul_inequality(q.size() as int, (k + 1) as int, t as int);
    }
}

/// The root of a number over one, squared, is near it.
pub proof fn lemma_root_near(a: Single)
    requires
        a.finite(),
        !a.neg(),
        0 < a.size(),
    ensures
        a.root_spec().finite(),
        !a.root_spec().neg(),
        near(
            (a.root_spec().size() * a.root_spec().size()) as int,
            (a.size() * pow2(149)) as int,
            241,
        ),
{
    reveal(Single::root_spec);
    let t = pow2(149);
    let n = a.size() * t;
    let w = isqrt(n);
    let j = fit(w, 1);
    let p = pow2(j);
    let q = w / p;
    lemma_zero(a);
    lemma_pow2_pos(149);
    lemma_pow2_pos(j);
    lemma_isqrt(n);
    lemma_fit(w, 1);
    lemma_mul_basics(p as int);
    lemma_fundamental_div_mod(w as int, p as int);
    lemma2_to64();
    lemma_root_size(a, n, w);
    if j == 0 {
        lemma_pow2_adds(24, 50);
        lemma_pow2_pos(50);
        assert(false);
    }
    lemma_pow2_unfold(j);
    let h = pow2((j - 1) as nat);
    lemma_mul_basics(h as int);
    assert(0x80_0000 * p <= w < 0x100_0000 * p);
    assert(0x80_0000 <= q < 0x100_0000) by {
        if q < 0x80_0000 {
            lemma_mul_inequality((q + 1) as int, 0x80_0000, p as int);
            lemma_mul_is_distributive_add_other_way(p as int, q as int, 1);
            lemma_mul_is_commutative(q as int, p as int);
        }
        if q >= 0x100_0000 {
            lemma_mul_inequality(0x100_0000, q as int, p as int);
            lemma_mul_is_commutative(q as int, p as int);
        }
    }
    let mid = (2 * q + 1) * p;
    let m = if mid * mid < 4 * n {
        q + 1
    } else {
        q
    };
    assert(j * 0x80_0000 + m < 0x7f80_0000) by {
        lemma_place_of_root(w, j);
    }
    lemma_carried(m, j);
    let r = m * p;
    assert(w - p <= r <= w + p) by {
        lemma_mul_is_distributive_add_other_way(p as int, q as int, 1);
        lemma_mul_is_commutative(q as int, p as int);
    }
    lemma_mul_nonnegative(m as int, p as int);
    lemma_pow2_adds(32, 42);
    lemma_pow2_pos(42);
    lemma_root_square(n as int, w as int, p as int, r as int);
}

/// The size of an integer root.
proof fn lemma_root_size(a: Single, n: nat, w: nat)
    requires
        a.finite(),
        0 < a.size(),
        n == a.size() * pow2(149),
        w * w <= n < (w + 1) * (w + 1),
    ensures
        pow2(74) <= w < pow2(232),
{
    let t = pow2(149);
    lemma_pow2_pos(149);
    lemma_mul_inequality(1, a.size() as int, t as int);
    let least = pow2(74);
    lemma_pow2_adds(74, 74);
    lemma_pow2_adds(1, 148);
    lemma2_to64();
    if w < least {
        lemma_pow2_pos(148);
        lemma_mul_upper_bound((w + 1) as int, least as int, (w + 1) as int, least as int);
    }
    // The largest number is under 2^277.
    lemma_parts(a);
    lemma_pow2_pos(a.lift());
    lemma2_to64();
    lemma_pow2_adds(24, 253);
    if a.lift() < 253 {
        lemma_pow2_strictly_increases(a.lift(), 253);
    }
    lemma_mul_upper_bound(a.sig() as int, 0x100_0000, pow2(a.lift()) as int, pow2(253) as int);
    let b = pow2(232);
    lemma_pow2_adds(232, 232);
    lemma_pow2_adds(277, 149);
    lemma_pow2_strictly_increases(426, 464);
    lemma_mul_inequality(a.size() as int, pow2(277) as int, t as int);
    if w >= b {
        lemma_pow2_pos(232);
        lemma_mul_upper_bound(b as int, w as int, b as int, w as int);
    }
}

/// The place of a root is not too high.
proof fn lemma_place_of_root(w: nat, j: nat)
    requires
        w < pow2(232),
        j > 0,
        w >= 0x100_0000 * pow2((j - 1) as nat),
    ensures
        j <= 208,
{
    lemma2_to64();
    if j > 208 {
        lemma_pow2_adds(24, (j - 1) as nat);
        if 232 < 24 + j - 1 {
            lemma_pow2_strictly_increases(232, (24 + j - 1) as nat);
        }
    }
}

/// The square of what is close to a root.
proof fn lemma_root_square(n: int, w: int, p: int, r: int)
    requires
        w * w <= n < (w + 1) * (w + 1),
        0x80_0000 * p <= w,
        w >= 0x1_0000_0000,
        p > 0,
        w - p <= r <= w + p,
    ensures
        near(r * r, n, 241),
{
    let x = w * w;
    assert((w + 1) * (w + 1) == x + 2 * w + 1) by {
        lemma_mul_is_distributive_add(w + 1, w, 1);
        lemma_mul_is_distributive_add_other_way(w, w, 1);
    }
    let y = w * p;
    let z = p * p;
    assert(0x80_0000 * y <= x) by {
        lemma_mul_inequality(0x80_0000 * p, w, w);
        lemma_mul_is_associative(0x80_0000, p, w);
        lemma_mul_is_commutative(p, w);
    }
    assert(0x80_0000 * z <= y) by {
        lemma_mul_inequality(0x80_0000 * p, w, p);
        lemma_mul_is_associative(0x80_0000, p, p);
    }
    assert(0x1_0000_0000 * w <= x) by {
        lemma_mul_inequality(0x1_0000_0000, w, w);
    }
    assert((w + p) * (w + p) == x + 2 * y + z) by {
        lemma_mul_is_distributive_add(w + p, w, p);
        lemma_mul_is_distributive_add_other_way(w, w, p);
        lemma_mul_is_distributive_add_other_way(p, w, p);
        lemma_mul_is_commutative(w, p);
    }
    assert((w - p) * (w - p) == x - 2 * y + z) by {
        lemma_mul_is_distributive_sub(w - p, w, p);
        lemma_mul_is_distributive_sub_other_way(w, w, p);
        lemma_mul_is_distributive_sub_other_way(p, w, p);
        lemma_mul_is_commutative(w, p);
    }
    lemma_mul_strictly_positive(p, p);
    lemma_mul_upper_bound(r, w + p, r, w + p);
    lemma_mul_upper_bound(w - p, r, w - p, r);
    assert(x - 2 * y <= r * r <= x + 2 * y + z);
}

/// Nearness within less is nearness within more.
proof fn lemma_near_more(a: int, b: int, k: int, l: int)
    requires
        near(a, b, k),
        k <= l,
    ensures
        near(a, b, l),
{
    lemma_mul_inequality(k, l, b);
}

/// The length of a velocity, squared, is near the sum of the squares.
pub proof fn lemma_length_near(vx: Single, vy: Single)
    requires
        vx.finite(),
        vy.finite(),
        vx.size() <= 8192 * pow2(149),
        vy.size() <= 8192 * pow2(149),
        4 * (pow2(149) * pow2(149)) <= vx.size() * vx.size() + vy.size() * vy.size(),
    ensures
        ({
            let r = length_spec(vx, vy);
            let e = vx.size() * vx.size() + vy.size() * vy.size();
            &&& r.finite() && !r.neg()
            &&& near((r.size() * r.size()) as int, e as int, 364)
        }),
{
    let t = pow2(149);
    let p = vx.times_spec(vx);
    let q = vy.times_spec(vy);
    let e: int = (vx.size() * vx.size() + vy.size() * vy.size()) as int;
    let a: nat = p.size() + q.size();
    let tt: int = (t * t) as int;
    lemma_component(vx);
    lemma_component(vy);
    lemma_pow2_pos(149);
    lemma_big();
    assert(2_000_000_000 * t <= tt) by {
        lemma_mul_inequality(2_000_000_000, t as int, t as int);
    }
    let at: int = (a * t) as int;
    assert(near(at, e, 61)) by {
        lemma_mul_is_distributive_add_other_way(t as int, p.size() as int, q.size() as int);
    }
    assert(a >= 0x80_0000) by {
        if a < 0x80_0000 {
            lemma_mul_inequality(a as int, 0x80_0000, t as int);
        }
    }
    // The sum, rounded.
    let s = p.plus_spec(q);
    let most = Single::rounded(false, 0xff_ffff * pow2(153), 1);
    lemma_exact(0xff_ffff, 153);
    lemma2_to64();
    lemma_pow2_adds(4, 149);
    lemma_mul_upper_bound(
        vx.size() as int,
        (8192 * t) as int,
        vx.size() as int,
        (8192 * t) as int,
    );
    lemma_mul_upper_bound(
        vy.size() as int,
        (8192 * t) as int,
        vy.size() as int,
        (8192 * t) as int,
    );
    assert((8192 * t) * (8192 * t) == 0x400_0000 * tt) by (nonlinear_arith)
        requires
            tt == t * t,
    ;
    assert(a <= most.size()) by {
        if a > most.size() {
            lemma_mul_strict_inequality(most.size() as int, a as int, t as int);
            lemma_mul_is_associative(0xfff_fff0, t as int, t as int);
        }
    }
    lemma_mul_basics(most.size() as int);
    lemma_mul_basics(a as int);
    lemma_rounded_bounds(a, 1, most);
    assert(s == Single::rounded(false, a, 1)) by {
        reveal(Single::plus_spec);
    }
    lemma_round_near(a, 1);
    lemma_mul_basics(s.size() as int);
    lemma_near_times(s.size() as int, a as int, t as int, 60);
    let st: int = (s.size() * t) as int;
    lemma_near_near(st, at, e, 60, 61);
    // Its root.
    assert(s.size() >= t) by {
        if s.size() < t {
            lemma_mul_inequality(s.size() as int, t as int, t as int);
        }
    }
    lemma_root_near(s);
    let r = s.root_spec();
    lemma_near_near((r.size() * r.size()) as int, st, e, 241, 122);
}

/// The unit is many of the least number.
proof fn lemma_big()
    ensures
        pow2(149) >= 2_000_000_000,
        pow2(149) == pow2(60) * pow2(89),
        pow2(60) == ONE,
        pow2(89) >= 0x80_0000,
{
    lemma2_to64();
    lemma2_to64_rest();
    lemma_pow2_adds(32, 117);
    lemma_pow2_pos(117);
    lemma_pow2_adds(60, 89);
    lemma_pow2_adds(24, 65);
    lemma_pow2_pos(65);
}

/// A component of a return is the speed times the sine or the cosine.
proof fn lemma_part(v: Single, w: Single, k: nat, r: nat)
    requires
        v.finite(),
        w.finite(),
        v.size() == r,
        pow2(149) <= r <= 16384 * pow2(149),
        1 <= k <= WIDEST,
        w.size() == Single::rounded(false, k * pow2(89), 1).size(),
    ensures
        v.times_spec(w).finite(),
        near((v.times_spec(w).size() * ONE) as int, (r * k) as int, 121),
        near(
            (v.times_spec(w).size() * v.times_spec(w).size()) * (ONE * ONE),
            ((r * r) * (k * k)) as int,
            243,
        ),
{
    let t = pow2(149);
    let h = pow2(89);
    let n = k * h;
    let one: int = ONE as int;
    lemma_big();
    lemma_pow2_pos(149);
    // The sine.
    let top = Single::whole_spec(2);
    lemma_whole(2);
    assert(h <= n <= 2 * t) by {
        lemma_mul_inequality(1, k as int, h as int);
        lemma_mul_inequality(k as int, 2 * one, h as int);
        lemma_mul_is_associative(2, one, h as int);
    }
    lemma_mul_basics(top.size() as int);
    lemma_mul_basics(n as int);
    lemma_rounded_bounds(n, 1, top);
    lemma_round_near(n, 1);
    let z = w.size();
    lemma_mul_basics(z as int);
    assert(near(z as int, n as int, 60));
    // The product.
    let m = r * z;
    lemma_near_times(z as int, n as int, r as int, 60);
    lemma_mul_is_commutative(z as int, r as int);
    lemma_mul_is_commutative(n as int, r as int);
    assert(near(m as int, (r * n) as int, 60));
    assert(2 * z >= n);
    assert(m >= 0x80_0000 * t) by {
        lemma_mul_inequality(0x40_0000, z as int, r as int);
        lemma_mul_is_commutative(z as int, r as int);
        assert(z >= 0x100_0000) by {
            lemma2_to64();
            lemma_pow2_adds(26, 63);
            lemma_pow2_pos(63);
        }
        lemma_mul_inequality(0x80_0000, z as int, r as int);
    }
    let far = Single::whole_spec(0x8000);
    lemma_whole(0x8000);
    assert(m <= far.size() * t) by {
        lemma_mul_upper_bound(r as int, (16384 * t) as int, z as int, (2 * t) as int);
        assert((16384 * t) * (2 * t) == (0x8000 * t) * t) by (nonlinear_arith);
    }
    lemma_times_bound(v, w, far);
    let x = v.times_spec(w).size();
    lemma_rounded_sign(m, t);
    let q = Single::rounded(false, m, t);
    assert(q.finite() && q.size() == x) by {
        reveal(Single::times_spec);
        lemma_rounded_bounds(m, t, far);
        lemma_negated(q);
    }
    lemma_round_near(m, t);
    let rk: int = (r * k) as int;
    assert(r * n == rk * h) by {
        lemma_mul_is_associative(r as int, k as int, h as int);
    }
    lemma_near_near((x * t) as int, m as int, rk * h, 60, 60);
    assert(x * t == (x * one) * h) by {
        lemma_mul_is_associative(x as int, one, h as int);
    }
    lemma_mul_nonnegative(r as int, k as int);
    lemma_near_over(x * one, rk, h as int, 121);
    lemma_mul_nonnegative(x as int, one);
    lemma_near_product(x * one, rk, x * one, rk, 121, 121);
    assert((x * one) * (x * one) == (x * x) * (one * one)) by (nonlinear_arith);
    assert((r * k) * (r * k) == (r * r) * (k * k)) by (nonlinear_arith);
}

/// The angles of a return, by size: from 0.06 to 1.05.
proof fn lemma_angle_sizes()
    ensures
        ({
            let top = Single::ratio_spec(105, 100);
            let least = min_angle_spec();
            &&& top.finite() && !top.neg()
            &&& pow2(149) <= top.size() <= 68817 * pow2(133)
            &&& least.finite() && !least.neg()
            &&& 3927 * pow2(133) <= least.size() <= top.size()
        }),
{
    let t = pow2(149);
    let one = Single::whole_spec(1);
    let most = Single::rounded(false, 68817 * pow2(133), 1);
    let less = Single::rounded(false, 3927 * pow2(133), 1);
    lemma_whole(1);
    lemma_exact(68817, 133);
    lemma_exact(3927, 133);
    lemma2_to64();
    lemma_pow2_adds(16, 133);
    lemma_pow2_pos(133);
    lemma_rounded_bounds(105 * t, 100, one);
    lemma_rounded_bounds(105 * t, 100, most);
    lemma_rounded_bounds(6 * t, 100, less);
    lemma_rounded_bounds(6 * t, 100, one);
}

/// The offset, brought between minus one and one, keeps its side.
proof fn lemma_side(off: Single)
    requires
        !off.nan(),
    ensures
        ({
            let one = Single::whole_spec(1);
            let c = off.clamp_spec(one.negated_spec(), one);
            &&& c.finite()
            &&& c.size() <= pow2(149)
            &&& (c.neg() && c.size() > 0) == off.lt_spec(Single::zero_spec())
        }),
{
    let one = Single::whole_spec(1);
    let c = off.clamp_spec(one.negated_spec(), one);
    lemma_clamp_unit(off);
    lemma_whole(1);
    lemma_pow2_pos(149);
    lemma_mul_basics(pow2(149) as int);
    lemma_zero(c);
    lemma_zero(one);
}

/// An offset turned into an angle.
proof fn lemma_turned(c: Single)
    requires
        c.finite(),
        c.size() <= pow2(149),
    ensures
        ({
            let top = Single::ratio_spec(105, 100);
            let turn = c.times_spec(top);
            &&& turn.finite()
            &&& turn.size() <= top.size()
            &&& (turn.size() == 0) == (c.size() == 0)
            &&& turn.neg() == c.neg()
        }),
{
    let top = Single::ratio_spec(105, 100);
    lemma_angle_sizes();
    lemma_mul_inequality(c.size() as int, pow2(149) as int, top.size() as int);
    lemma_mul_is_commutative(top.size() as int, pow2(149) as int);
    lemma_times_bound(c, top, top);
    lemma_times_order(c, top, c, top);
    lemma_turn(c, top);
}

/// The angle of a return, from an offset turned into one.
proof fn lemma_least_or_turn(turn: Single)
    requires
        turn.finite(),
    ensures
        ({
            let least = min_angle_spec();
            let angle = if turn.abs_spec().lt_spec(least) {
                least.with_sign_spec(
                    if turn.eq_spec(Single::zero_spec()) {
                        Single::whole_spec(1)
                    } else {
                        turn
                    },
                )
            } else {
                turn
            };
            &&& angle.finite()
            &&& angle.size() == if turn.size() < least.size() {
                least.size()
            } else {
                turn.size()
            }
            &&& angle.neg() == (turn.neg() && turn.size() > 0)
        }),
{
    let least = min_angle_spec();
    let one = Single::whole_spec(1);
    lemma_angle_sizes();
    lemma_pow2_pos(133);
    lemma_whole(1);
    lemma_zero(turn);
    lemma_zero(Single::zero_spec());
    lemma_value_order(turn, Single::zero_spec());
    lemma_sign_size(least, one);
    lemma_sign_size(least, turn);
    lemma_size_order(least, turn);
}

/// The angle of a return lies between the least and the widest, on the side of
/// the middle of the paddle on which the ball lands.
pub proof fn a_return_aims(off: Single)
    requires
        !off.nan(),
    ensures
        ({
            let angle = return_angle_spec(off);
            &&& angle.finite() && narrow(angle)
            &&& 3927 * pow2(133) <= angle.size() <= 68817 * pow2(133)
            &&& min_angle_spec().le_spec(angle.abs_spec())
            &&& angle.abs_spec().le_spec(Single::ratio_spec(105, 100))
            &&& angle.neg() == off.lt_spec(Single::zero_spec())
        }),
{
    let one = Single::whole_spec(1);
    let top = Single::ratio_spec(105, 100);
    let c = off.clamp_spec(one.negated_spec(), one);
    let turn = c.times_spec(top);
    lemma_side(off);
    lemma_turned(c);
    lemma_least_or_turn(turn);
    lemma_angle_sizes();
    return_angle_is_never_vertical(off);
    lemma_size_order(return_angle_spec(off), top);
}

/// A sign does not change a size.
proof fn lemma_sign_size(a: Single, s: Single)
    requires
        a.finite(),
        !a.neg(),
    ensures
        a.with_sign_spec(s).finite(),
        a.with_sign_spec(s).size() == a.size(),
        a.with_sign_spec(s).neg() == s.neg(),
{
}

/// What is turned by more than one is not lost.
proof fn lemma_turn(c: Single, top: Single)
    requires
        c.finite(),
        top.finite(),
        pow2(149) <= top.size(),
        c.times_spec(top).finite(),
    ensures
        c.times_spec(top).size() >= c.size(),
        c.size() == 0 ==> c.times_spec(top).size() == 0,
{
    let t = pow2(149);
    let n = c.size() * top.size();
    lemma_pow2_pos(149);
    lemma_mul_inequality(t as int, top.size() as int, c.size() as int);
    lemma_mul_is_commutative(t as int, c.size() as int);
    lemma_mul_is_commutative(top.size() as int, c.size() as int);
    lemma_rounded_bounds(n, t, c);
    lemma_rounded_sign(n, t);
    let r = Single::rounded(false, n, t);
    reveal(Single::times_spec);
    if r.finite() {
        lemma_negated(r);
    }
    lemma_mul_basics(top.size() as int);
    lemma_mul_basics(t as int);
}

/// How large the sine of an angle of a return is, as a multiple of `2^-60`.
proof fn lemma_sine_size(x: nat)
    requires
        10000 * x <= 10501 * ONE,
        65536 * (x + 1) >= 3927 * ONE,
    ensures
        series(x, x, 1, TERMS as nat) * 10000 >= 595 * ONE,
        series(x, x, 1, TERMS as nat) <= x,
{
    let m = ONE * ONE;
    let one: int = ONE as int;
    let u: int = (x * x) as int;
    let xi: int = x as int;
    let t = next_term(x, x, 1);
    lemma_series_bounds(x, x, 1, TERMS as nat);
    lemma_term(x, x, 1, u, m);
    assert((1 + 1) * (1 + 2) == 6) by (nonlinear_arith);
    let ti: int = t as int;
    assert(m * (6 * ti) <= xi * u);
    if 8 * x <= ONE {
        assert(64 * u <= m) by {
            lemma_mul_upper_bound(8 * xi, one, 8 * xi, one);
            assert((8 * xi) * (8 * xi) == 64 * u) by (nonlinear_arith)
                requires
                    u == xi * xi,
            ;
        }
        lemma_mul_inequality(64 * u, m, xi);
        lemma_mul_is_associative(64, u, xi);
        lemma_mul_is_commutative(u, xi);
        lemma_mul_is_commutative(m, xi);
        // 384 * t is at most x.
        if 384 * ti > xi {
            lemma_mul_strict_inequality(xi, 384 * ti, m);
            lemma_mul_is_commutative(xi, m);
            lemma_mul_is_commutative(384 * ti, m);
            lemma_mul_is_associative(m, 384, ti);
            lemma_mul_is_associative(m, 6, ti);
            lemma_mul_is_commutative(m, 384);
            lemma_mul_is_commutative(m, 6);
            lemma_mul_is_associative(384, m, ti);
            lemma_mul_is_associative(6, m, ti);
        }
    } else {
        assert(100 * u <= 111 * m) by {
            lemma_mul_upper_bound(10000 * xi, 10501 * one, 10000 * xi, 10501 * one);
            assert((10000 * xi) * (10000 * xi) == 100000000 * u) by (nonlinear_arith)
                requires
                    u == xi * xi,
            ;
            assert((10501 * one) * (10501 * one) == 110271001 * m) by (nonlinear_arith)
                requires
                    m == one * one,
            ;
        }
        lemma_mul_inequality(100 * u, 111 * m, xi);
        lemma_mul_is_associative(100, u, xi);
        lemma_mul_is_associative(111, m, xi);
        lemma_mul_is_commutative(u, xi);
        lemma_mul_is_commutative(m, xi);
        // 600 * t is at most 111 * x.
        if 600 * ti > 111 * xi {
            lemma_mul_strict_inequality(111 * xi, 600 * ti, m);
            lemma_mul_is_associative(111, xi, m);
            lemma_mul_is_associative(600, ti, m);
            lemma_mul_is_commutative(xi, m);
            lemma_mul_is_commutative(ti, m);
            lemma_mul_is_associative(m, 6, ti);
            lemma_mul_is_commutative(m, 6);
            lemma_mul_is_associative(6, m, ti);
        }
    }
}

/// How large the cosine of an angle of a return is, as a multiple of `2^-60`.
proof fn lemma_cosine_size(x: nat)
    requires
        10000 * x <= 10501 * ONE,
    ensures
        series(x, ONE as nat, 0, TERMS as nat) * 100 >= 49 * ONE,
        series(x, ONE as nat, 0, TERMS as nat) <= ONE,
{
    let m = ONE * ONE;
    let one: int = ONE as int;
    let u: int = (x * x) as int;
    let xi: int = x as int;
    let t = lemma_head(x, ONE as nat, 0);
    let b: int = t.1 as int;
    let c: int = t.2 as int;
    let d: int = t.3 as int;
    lemma_series_bounds(x, ONE as nat, 0, TERMS as nat);
    lemma_next_term(x, t.4, 8);
    lemma_term(x, t.0, 0, u, m);
    lemma_term(x, t.1, 2, u, m);
    lemma_term(x, t.2, 4, u, m);
    assert((0 + 1) * (0 + 2) == 2 && (2 + 1) * (2 + 2) == 12 && (4 + 1) * (4 + 2) == 30)
        by (nonlinear_arith);
    lemma_mul_nonnegative(xi, xi);
    assert(10000 * u <= 11028 * m) by {
        lemma_mul_upper_bound(10000 * xi, 10501 * one, 10000 * xi, 10501 * one);
        assert((10000 * xi) * (10000 * xi) == 100000000 * u) by (nonlinear_arith)
            requires
                u == xi * xi,
        ;
        assert((10501 * one) * (10501 * one) == 110271001 * m) by (nonlinear_arith)
            requires
                m == one * one,
        ;
    }
    // The second term is at most 0.5514.
    assert(10000 * b <= 5514 * one) by {
        assert(m * (2 * b) == one * (2 * (one * b))) by (nonlinear_arith)
            requires
                m == one * one,
        ;
        lemma_mul_inequality(10000 * u, 11028 * m, one);
        if 10000 * b > 5514 * one {
            lemma_mul_strict_inequality(5514 * one, 10000 * b, m);
            assert((5514 * one) * m == 5514 * (one * m)) by (nonlinear_arith);
            assert((10000 * b) * m == 10000 * (m * b)) by (nonlinear_arith);
            assert(m * (2 * b) == 2 * (m * b)) by (nonlinear_arith);
            assert((10000 * u) * one == 10000 * (one * u)) by (nonlinear_arith);
            assert((11028 * m) * one == 11028 * (one * m)) by (nonlinear_arith);
        }
    }
    // The fourth is little next to the third.
    assert(10000 * (30 * d) <= 11028 * c) by {
        lemma_mul_inequality(10000 * u, 11028 * m, c);
        if 10000 * (30 * d) > 11028 * c {
            lemma_mul_strict_inequality(11028 * c, 10000 * (30 * d), m);
            assert((11028 * c) * m == 11028 * (m * c)) by (nonlinear_arith);
            assert((10000 * (30 * d)) * m == 10000 * (m * (30 * d))) by (nonlinear_arith);
            assert((10000 * u) * c == 10000 * (c * u)) by (nonlinear_arith);
            assert((11028 * m) * c == 11028 * (m * c)) by (nonlinear_arith);
        }
    }
    // The third is at least a sixth of the square of the second.
    let e: int = c + 3;
    assert(b * b <= 6 * (one * e)) by {
        // 2 * m * b is at most one * u, and b * u at most m * 12 * e.
        assert(m * (12 * e) == 12 * (m * e)) by (nonlinear_arith);
        lemma_mul_inequality(m * (2 * b), one * u, b);
        assert((m * (2 * b)) * b == 2 * (m * (b * b))) by (nonlinear_arith);
        assert((one * u) * b == one * (b * u)) by (nonlinear_arith);
        lemma_mul_inequality(b * u, 12 * (m * e), one);
        assert((b * u) * one == one * (b * u)) by (nonlinear_arith);
        assert((12 * (m * e)) * one == 12 * (m * (one * e))) by (nonlinear_arith);
        if b * b > 6 * (one * e) {
            lemma_mul_strict_inequality(6 * (one * e), b * b, m);
            assert((6 * (one * e)) * m == 6 * (m * (one * e))) by (nonlinear_arith);
            assert((b * b) * m == m * (b * b)) by (nonlinear_arith);
        }
    }
    // One less the second and more than the third.
    assert(100 * (one - b + c - d) >= 49 * one) by {
        lemma_mul_nonnegative(5514 * one - 10000 * b, 10000 * one - 1600 * b);
        assert((5514 * one - 10000 * b) * (10000 * one - 1600 * b) == 55140000 * (one * one)
            - 108822400 * (one * b) + 16000000 * (b * b)) by (nonlinear_arith);
        let k: int = 100 * (one - b + c - d) - 49 * one;
        if k < 0 {
            // Ten thousand times c - d is at least 9632 times c.
            assert(1_000_000 * (one - b) + 96 * 10000 * c < 490000 * one + 1_000_000);
            let w: int = 510000 * one - 1_000_000 * b + 960000 * c;
            assert(w < 1_000_000);
            lemma_mul_inequality(w, 1_000_000, one);
            assert(w * one == 510000 * (one * one) - 1_000_000 * (one * b) + 960000 * (one * c))
                by (nonlinear_arith)
                requires
                    w == 510000 * one - 1_000_000 * b + 960000 * c,
            ;
            assert(one * e == one * c + 3 * one) by (nonlinear_arith)
                requires
                    e == c + 3,
            ;
            lemma_mul_nonnegative(b, b);
            lemma_mul_nonnegative(one, b);
            assert(false);
        }
    }
}

/// The angle of a return as a multiple of `2^-60`.
proof fn lemma_angle_fixed(angle: Single)
    requires
        angle.finite(),
        3927 * pow2(133) <= angle.size() <= 68817 * pow2(133),
    ensures
        ({
            let x = fixed_spec(angle);
            &&& 10000 * x <= 10501 * ONE
            &&& 65536 * (x + 1) >= 3927 * ONE
            &&& angle.size() >= pow2(89)
        }),
{
    let h = pow2(89);
    let x = fixed_spec(angle);
    lemma2_to64_rest();
    lemma_pow2_adds(44, 89);
    lemma_pow2_pos(89);
    let k: int = 0x1000_0000_0000;
    assert(pow2(133) == k * h);
    lemma_fundamental_div_mod(angle.size() as int, h as int);
    assert(h * x <= angle.size() < h * x + h);
    lemma_mul_is_commutative(h as int, x as int);
    if x > 68817 * k {
        lemma_mul_inequality(68817 * k + 1, x as int, h as int);
        lemma_mul_is_distributive_add_other_way(h as int, 68817 * k, 1);
        lemma_mul_is_associative(68817, k, h as int);
    }
    if x + 1 < 3927 * k {
        lemma_mul_inequality((x + 1) as int, 3927 * k, h as int);
        lemma_mul_is_distributive_add_other_way(h as int, x as int, 1);
        lemma_mul_is_associative(3927, k, h as int);
    }
}

/// How long a velocity is, by size.
proof fn lemma_length_size(r: nat, e: int)
    requires
        near((r * r) as int, e, 364),
        4 * (pow2(149) * pow2(149)) <= e <= 0x800_0000 * (pow2(149) * pow2(149)),
    ensures
        pow2(149) <= r <= 16384 * pow2(149),
{
    let t = pow2(149);
    lemma_pow2_pos(149);
    lemma_mul_strictly_positive(t as int, t as int);
    if r < t {
        lemma_mul_upper_bound(r as int, t as int, r as int, t as int);
    }
    if r > 16384 * t {
        lemma_mul_upper_bound((16384 * t) as int, r as int, (16384 * t) as int, r as int);
        assert((16384 * t) * (16384 * t) == 0x1000_0000 * (t * t)) by (nonlinear_arith);
    }
}

/// The ball moves at two pixels a second at least, and is far slower than a
/// field in a tick.
pub open spec fn is_moving(ball: Ball) -> bool {
    let unit = pow2(149);
    &&& ball.vx.finite() && ball.vy.finite()
    &&& ball.vx.size() <= 8192 * unit
    &&& ball.vy.size() <= 8192 * unit
    &&& 4 * (unit * unit) <= energy(ball)
}

/// The paddle returns a ball as fast as it came, but for three parts in a
/// million of the square of its speed; up, and to the side of the middle on
/// which it landed. Of its speed at least 59 thousandths go to that side, and at
/// least 48 hundredths up.
pub proof fn a_return_keeps_the_speed(ball: Ball, cig_x: Single)
    requires
        is_moving(ball),
        !off_centre_spec(ball.x, cig_x).nan(),
    ensures
        ({
            let after = paddle_return_spec(ball, cig_x);
            let speed = length_spec(ball.vx, ball.vy);
            let zero = Single::zero_spec();
            &&& after.vx.finite() && after.vy.finite() && speed.finite()
            &&& near(energy(after), energy(ball), 3000)
            &&& after.vy.lt_spec(zero)
            &&& off_centre_spec(ball.x, cig_x).lt_spec(zero) ==> after.vx.lt_spec(zero)
            &&& !off_centre_spec(ball.x, cig_x).lt_spec(zero) ==> zero.lt_spec(after.vx)
            &&& 59 * speed.size() <= 1000 * after.vx.size()
            &&& 48 * speed.size() <= 100 * after.vy.size()
        }),
{
    let off = off_centre_spec(ball.x, cig_x);
    let angle = return_angle_spec(off);
    let speed = length_spec(ball.vx, ball.vy);
    let after = paddle_return_spec(ball, cig_x);
    let x = fixed_spec(angle);
    let s: nat = series(x, x, 1, TERMS as nat) as nat;
    let c: nat = series(x, ONE as nat, 0, TERMS as nat) as nat;
    let r = speed.size();
    let t = pow2(149);
    let e = energy(ball);
    a_return_aims(off);
    lemma_angle_fixed(angle);
    lemma_length_near(ball.vx, ball.vy);
    assert(e <= 0x800_0000 * (t * t)) by {
        lemma_mul_upper_bound(
            ball.vx.size() as int,
            (8192 * t) as int,
            ball.vx.size() as int,
            (8192 * t) as int,
        );
        lemma_mul_upper_bound(
            ball.vy.size() as int,
            (8192 * t) as int,
            ball.vy.size() as int,
            (8192 * t) as int,
        );
        assert((8192 * t) * (8192 * t) == 0x400_0000 * (t * t)) by (nonlinear_arith);
    }
    lemma_length_size(r, e);
    lemma_sine_size(x);
    lemma_cosine_size(x);
    lemma_rounded_sign(s * pow2(89), 1);
    lemma_negated(speed);
    let p = sine_spec(angle);
    let q = cosine_spec(angle);
    lemma_sine(angle);
    lemma_cosine(angle);
    lemma_negated(Single::rounded(false, s * pow2(89), 1));
    lemma_part(speed, p, s, r);
    lemma_part(speed.negated_spec(), q, c, r);
    lemma_energy(after.vx.size(), after.vy.size(), r, s, c, x, e);
    lemma_share(after.vx.size(), r, s, 595, 10000, 59, 1000);
    lemma_share(after.vy.size(), r, c, 49, 100, 48, 100);
    lemma_times_order(speed, p, speed, p);
    lemma_times_order(speed.negated_spec(), q, speed.negated_spec(), q);
    lemma_pow2_pos(149);
    lemma_zero(after.vx);
    lemma_zero(after.vy);
}

/// The squares of the two components of a return.
proof fn lemma_energy(vx: nat, vy: nat, r: nat, s: nat, c: nat, x: nat, e: int)
    requires
        10000 * x <= 10501 * ONE,
        s == series(x, x, 1, TERMS as nat),
        c == series(x, ONE as nat, 0, TERMS as nat),
        near((vx * vx) * (ONE * ONE), ((r * r) * (s * s)) as int, 243),
        near((vy * vy) * (ONE * ONE), ((r * r) * (c * c)) as int, 243),
        near((r * r) as int, e, 364),
    ensures
        near((vx * vx + vy * vy) as int, e, 3000),
{
    let m = ONE * ONE;
    let rr: int = (r * r) as int;
    let ss: int = (s * s) as int;
    let cc: int = (c * c) as int;
    let a: int = (vx * vx) as int;
    let b: int = (vy * vy) as int;
    sine_and_cosine_lie_on_the_circle(x);
    lemma_near_sum(a * m, rr * ss, b * m, rr * cc, 243);
    lemma_mul_is_distributive_add_other_way(m, a, b);
    lemma_mul_is_distributive_add(rr, ss, cc);
    lemma_mul_nonnegative(r as int, r as int);
    assert(near(ss + cc, m, 2100));
    lemma_near_times(ss + cc, m, rr, 2100);
    lemma_mul_is_commutative(ss + cc, rr);
    lemma_mul_is_commutative(m, rr);
    lemma_near_near((a + b) * m, rr * (ss + cc), rr * m, 243, 2100);
    lemma_near_over(a + b, rr, m, 2344);
    lemma_near_near(a + b, rr, e, 2344, 364);
    lemma_near_more(a + b, e, 2709, 3000);
}

/// A component as a share of the speed.
proof fn lemma_share(v: nat, r: nat, k: nat, p: int, q: int, a: int, b: int)
    requires
        near((v * ONE) as int, (r * k) as int, 121),
        q * k >= p * ONE,
        (p == 595 && q == 10000 && a == 59 && b == 1000) || (p == 49 && q == 100 && a == 48 && b
            == 100),
    ensures
        a * r <= b * v,
{
    let one: int = ONE as int;
    let n: int = (r * k) as int;
    let w: int = v * one;
    assert(q * n >= p * (r * one)) by {
        lemma_mul_inequality(p * one, q * k, r as int);
        assert((p * one) * r == p * (r * one)) by (nonlinear_arith);
        assert((q * k) * r == q * (r * k)) by (nonlinear_arith);
    }
    let z: int = r * one;
    lemma_mul_nonnegative(r as int, one);
    assert(a * z <= b * w);
    if a * r > b * v {
        lemma_mul_strict_inequality(b * v, a * r, one);
        assert((b * v) * one == b * (v * one)) by (nonlinear_arith);
        assert((a * r) * one == a * (r * one)) by (nonlinear_arith);
    }
}

/// A ball that the paddle returns goes up.
#[verifier::rlimit(30)]
pub proof fn lemma_return_rises(ball: Ball, cig_x: Single)
    requires
        is_moving(ball),
        !off_centre_spec(ball.x, cig_x).nan(),
    ensures
        paddle_return_spec(ball, cig_x).vy.finite(),
        paddle_return_spec(ball, cig_x).vy.lt_spec(Single::zero_spec()),
{
    a_return_keeps_the_speed(ball, cig_x);
}

} // verus!
