//! The distance from a point to a segment is one: it is never under zero, and
//! no more than the distance to either end.
use crate::lung::{along_spec, dist_to_segment_spec, length_spec, Point};
use crate::margin::{lemma_minus_off, lemma_over_off, lemma_plus_off, lemma_times_off, within};
use crate::single::{
    lemma_exact, lemma_negated, lemma_over_number, lemma_over_order, lemma_over_self,
    lemma_rounded_bounds, lemma_rounded_exact, lemma_rounded_sign, lemma_value_order, lemma_whole,
    lemma_zero, Single,
};
use crate::speed::lemma_root_near;
use vstd::arithmetic::mul::*;
use vstd::arithmetic::power2::*;
use vstd::prelude::*;

verus! {

/// A square is not under zero.
proof fn lemma_square_sign(a: Single)
    ensures
        a.times_spec(a).nan() || !a.times_spec(a).neg(),
{
    reveal(Single::times_spec);
    lemma_pow2_pos(149);
    if a.finite() {
        lemma_rounded_bounds(a.size() * a.size(), pow2(149), Single::zero_spec());
    }
}

/// A sum of what is not under zero is not either.
proof fn lemma_sum_sign(a: Single, b: Single)
    requires
        a.nan() || !a.neg(),
        b.nan() || !b.neg(),
    ensures
        a.plus_spec(b).nan() || !a.plus_spec(b).neg(),
{
    reveal(Single::plus_spec);
    if a.finite() && b.finite() {
        lemma_rounded_bounds((a.value() + b.value()) as nat, 1, Single::zero_spec());
    }
}

/// A root is not under zero.
proof fn lemma_root_sign(a: Single)
    requires
        a.nan() || !a.neg(),
    ensures
        a.root_spec().nan() || !a.root_spec().neg(),
{
    if a.finite() && a.bits % 0x8000_0000 != 0 {
        lemma_zero(a);
        lemma_root_near(a);
    } else {
        reveal(Single::root_spec);
    }
}

/// A length is never under zero.
pub proof fn a_length_is_not_negative(dx: Single, dy: Single)
    ensures
        length_spec(dx, dy).nan() || Single::zero_spec().le_spec(length_spec(dx, dy)),
{
    lemma_square_sign(dx);
    lemma_square_sign(dy);
    lemma_sum_sign(dx.times_spec(dx), dy.times_spec(dy));
    lemma_root_sign(dx.times_spec(dx).plus_spec(dy.times_spec(dy)));
}

/// A distance is never under zero.
pub proof fn a_distance_is_not_negative(p: Point, a: Point, b: Point)
    ensures
        ({
            let d = dist_to_segment_spec(p, a, b);
            d.nan() || Single::zero_spec().le_spec(d)
        }),
{
    let t = along_spec(p, a, b);
    a_length_is_not_negative(
        p.x.minus_spec(a.x).minus_spec(b.x.minus_spec(a.x).times_spec(t)),
        p.y.minus_spec(a.y).minus_spec(b.y.minus_spec(a.y).times_spec(t)),
    );
}

/// Nothing, and what it makes of others.
proof fn lemma_nothing(a: Single, x: Single)
    requires
        a.finite(),
    ensures
        a.minus_spec(a) == Single::zero_spec(),
        Single::zero_spec().times_spec(Single::zero_spec()) == Single::zero_spec(),
        Single::zero_spec().plus_spec(Single::zero_spec()) == Single::zero_spec(),
        x.minus_spec(a).minus_spec(Single::zero_spec()) == x.minus_spec(a),
{
    let zero = Single::zero_spec();
    lemma_negated(a);
    lemma_zero(zero);
    lemma_zero(zero.negated_spec());
    assert(a.minus_spec(a) == zero && zero.plus_spec(zero) == zero) by {
        reveal(Single::plus_spec);
    }
    assert(zero.times_spec(zero) == zero) by {
        reveal(Single::times_spec);
        lemma_mul_basics(zero.size() as int);
        lemma_mul_basics(pow2(149) as int);
        lemma_pow2_pos(149);
        lemma_rounded_bounds(0, pow2(149), zero);
        lemma_zero(Single::rounded(false, 0, pow2(149)));
    }
    let y = x.minus_spec(a);
    assert(y.nan() ==> y == Single::nan_spec()) by {
        reveal(Single::plus_spec);
        let u = x.value() - a.value();
        lemma_rounded_sign((-u) as nat, 1);
        lemma_rounded_sign(u as nat, 1);
        lemma_rounded_bounds((-u) as nat, 1, zero);
        lemma_rounded_bounds(u as nat, 1, zero);
    }
    assert(y.minus_spec(zero) == y) by {
        reveal(Single::plus_spec);
        if y.finite() {
            lemma_zero(y);
            lemma_rounded_exact(y);
        }
    }
}

/// Where both ends of a segment meet, the distance to it is the distance to
/// them.
pub proof fn a_segment_of_no_length_is_a_point(p: Point, a: Point)
    requires
        a.x.finite(),
        a.y.finite(),
    ensures
        dist_to_segment_spec(p, a, a) == length_spec(p.x.minus_spec(a.x), p.y.minus_spec(a.y)),
{
    lemma_nothing(a.x, p.x);
    lemma_nothing(a.y, p.y);
}

/// A part in `2^24` of one.
pub open spec fn hair() -> nat {
    pow2(125)
}

/// One is so many hairs.
pub proof fn lemma_hair()
    ensures
        pow2(149) == 0x100_0000 * hair(),
        pow2(126) == 2 * hair(),
        pow2(127) == 4 * hair(),
        pow2(128) == 8 * hair(),
        pow2(129) == 16 * hair(),
        pow2(130) == 32 * hair(),
        hair() > 0,
{
    lemma_pow2_adds(24, 125);
    lemma_pow2_adds(1, 125);
    lemma_pow2_adds(2, 125);
    lemma_pow2_adds(3, 125);
    lemma_pow2_adds(4, 125);
    lemma_pow2_adds(5, 125);
    lemma2_to64();
    lemma_pow2_pos(125);
}

/// What `a b + c d` is off by, with factors up to `m`, which is two or four.
pub proof fn lemma_dot_off(a: Single, b: Single, c: Single, d: Single, m: nat)
    requires
        m == 2 || m == 4,
        a.finite() && b.finite() && c.finite() && d.finite(),
        a.size() <= m * pow2(149),
        b.size() <= m * pow2(149),
        c.size() <= m * pow2(149),
        d.size() <= m * pow2(149),
    ensures
        ({
            let r = a.times_spec(b).plus_spec(c.times_spec(d));
            &&& r.finite()
            &&& within(r.value(), 0, (2 * (m * m)) * pow2(149))
            &&& within(
                r.value() * pow2(149),
                a.value() * b.value() + c.value() * d.value(),
                (4 * (m * m)) * (hair() * pow2(149)),
            )
        }),
{
    let t = pow2(149);
    let k: nat = if m == 2 {
        127
    } else {
        129
    };
    let g = pow2(k);
    lemma_hair();
    let p = a.times_spec(b);
    let q = c.times_spec(d);
    let r = p.plus_spec(q);
    lemma_mul_upper_bound(a.size() as int, (m * t) as int, b.size() as int, (m * t) as int);
    lemma_mul_upper_bound(c.size() as int, (m * t) as int, d.size() as int, (m * t) as int);
    assert(g == (m * m) * hair()) by (nonlinear_arith)
        requires
            (m == 2 && g == 4 * hair()) || (m == 4 && g == 16 * hair()),
    ;
    assert((m * t) * (m * t) == (0x100_0000 * g) * t) by (nonlinear_arith)
        requires
            g == (m * m) * hair(),
            t == 0x100_0000 * hair(),
    ;
    lemma_times_off(a, b, k);
    lemma_times_off(c, d, k);
    assert(0x100_0000 * g == (m * m) * t) by (nonlinear_arith)
        requires
            g == (m * m) * hair(),
            t == 0x100_0000 * hair(),
    ;
    assert(pow2(k + 1) == 2 * g);
    lemma_plus_off(p, q, k + 1);
    let u = p.value() + q.value();
    assert(0x100_0000 * pow2(k + 1) == (2 * (m * m)) * t) by (nonlinear_arith)
        requires
            pow2(k + 1) == 2 * g,
            0x100_0000 * g == (m * m) * t,
    ;
    lemma_within_times(r.value(), u, 2 * g, t);
    lemma_mul_is_distributive_add_other_way(t as int, p.value(), q.value());
    assert((4 * (m * m)) * (hair() * t) == 4 * (g * t)) by (nonlinear_arith)
        requires
            g == (m * m) * hair(),
    ;
    assert((2 * g) * t == 2 * (g * t)) by (nonlinear_arith);
}

/// A margin grows with what it is multiplied by.
pub proof fn lemma_within_times(a: int, b: int, m: nat, n: nat)
    requires
        within(a, b, m),
    ensures
        within(a * n, b * n, m * n),
{
    lemma_mul_inequality(a, b + m, n as int);
    lemma_mul_inequality(b - m, a, n as int);
    lemma_mul_is_distributive_add_other_way(n as int, b, m as int);
    lemma_mul_is_distributive_sub_other_way(n as int, b, m as int);
}

/// A share of a length, kept between zero and one: it is as far along as it
/// should be, unless an end stops it.
pub proof fn lemma_share(d: Single, l: Single)
    requires
        d.finite(),
        l.finite(),
        l.value() > 0,
    ensures
        ({
            let t = d.over_spec(l).clamp_spec(Single::zero_spec(), Single::whole_spec(1));
            &&& t.finite()
            &&& 0 <= t.value() <= pow2(149)
            &&& t.value() > 0 ==> t.value() * l.value() <= d.value() * pow2(149) + hair()
                * l.value()
            &&& t.value() < pow2(149) ==> t.value() * l.value() >= d.value() * pow2(149) - hair()
                * l.value()
        }),
{
    let one = Single::whole_spec(1);
    let zero = Single::zero_spec();
    let p = pow2(149);
    let r = d.over_spec(l);
    let t = r.clamp_spec(zero, one);
    lemma_hair();
    lemma_whole(1);
    lemma_zero(zero);
    lemma_zero(d);
    lemma_zero(l);
    lemma_over_number(d, l);
    lemma_mul_nonnegative(hair() as int, l.value());
    if d.value() <= 0 {
        assert(r.key() <= 0) by {
            reveal(Single::over_spec);
            lemma_rounded_sign(d.size() * p, l.size());
        }
        assert(t.value() == 0) by {
            if !r.lt_spec(zero) {
                lemma_zero(r);
            }
        }
        lemma_mul_inequality(d.value(), 0, p as int);
        lemma_mul_basics(l.value());
    } else if d.value() >= l.value() {
        lemma_over_order(l, d, l);
        lemma_over_self(l);
        assert(one.le_spec(r));
        assert(t.key() == one.key());
        assert(t.value() == p) by {
            lemma_value_order(t, one);
        }
        lemma_mul_inequality(l.value(), d.value(), p as int);
        lemma_mul_is_commutative(p as int, l.value());
    } else {
        lemma_mul_inequality(d.value(), l.value(), p as int);
        lemma_mul_is_commutative(p as int, l.value());
        lemma_over_off(d, l, 125);
        lemma_value_order(zero, r);
        lemma_value_order(r, zero);
        lemma_value_order(one, r);
        assert(t == r);
    }
}

/// The square of a difference.
proof fn lemma_difference(u: int, v: int)
    ensures
        (u - v) * (u - v) == u * u - 2 * (u * v) + v * v,
{
    lemma_mul_is_distributive_sub(u - v, u, v);
    lemma_mul_is_distributive_sub_other_way(u, u, v);
    lemma_mul_is_distributive_sub_other_way(v, u, v);
    lemma_mul_is_commutative(u, v);
}

/// The square of one coordinate of the way to a point of the segment.
proof fn lemma_way(p: int, x: int, s: int, t: int)
    ensures
        (p * s - x * t) * (p * s - x * t) == (p * p) * (s * s) - 2 * ((p * x) * (s * t)) + (x * x)
            * (t * t),
{
    lemma_difference(p * s, x * t);
    assert((p * s) * (p * s) == (p * p) * (s * s)) by (nonlinear_arith);
    assert((p * s) * (x * t) == (p * x) * (s * t)) by (nonlinear_arith);
    assert((x * t) * (x * t) == (x * x) * (t * t)) by (nonlinear_arith);
}

/// A point of the segment that is next to another, within a margin, is no
/// further from it than any other point of the segment is. Of the squares of
/// the lengths: `n` is that of the way from the start, `l` that of the segment,
/// and `d` is the product of the two ways. The point lies `t` of `s` along, the
/// other `k` of `m`.
proof fn lemma_nearest_of_all(
    n: int,
    d: int,
    l: int,
    s: int,
    t: int,
    k: int,
    m: int,
    margin: int,
)
    requires
        0 <= t <= s,
        0 <= k <= m,
        0 <= l,
        0 <= margin,
        t > 0 ==> t * l - s * d <= margin,
        t < s ==> s * d - t * l <= margin,
    ensures
        (n * (s * s) - 2 * (d * (s * t)) + l * (t * t)) * (m * m) <= (n * (m * m) - 2 * (d * (m
            * k)) + l * (k * k)) * (s * s) + 2 * ((margin * s) * (m * m)),
{
    let a = t * l - s * d;
    let e = k * l - m * d;
    let f = t * m - k * s;
    // The difference of the two squares is a product.
    let g = m * a + s * e;
    let tm = t * m;
    let ks = k * s;
    let sm = s * m;
    assert((n * (s * s) - 2 * (d * (s * t)) + l * (t * t)) * (m * m) == n * (sm * sm) - 2 * (d * (sm
        * tm)) + l * (tm * tm)) by {
        lemma_scaled(n, d, l, s, t, m);
    }
    assert((n * (m * m) - 2 * (d * (m * k)) + l * (k * k)) * (s * s) == n * (sm * sm) - 2 * (d * (sm
        * ks)) + l * (ks * ks)) by {
        lemma_scaled(n, d, l, m, k, s);
        assert(m * s == sm) by (nonlinear_arith)
            requires
                sm == s * m,
        ;
    }
    let (x, y, z) = (l * tm, l * ks, d * sm);
    assert(g == x + y - 2 * z) by {
        lemma_mul_is_distributive_sub(m, t * l, s * d);
        lemma_mul_is_distributive_sub(s, k * l, m * d);
        assert(m * (t * l) == l * (t * m)) by (nonlinear_arith);
        assert(s * (k * l) == l * (k * s)) by (nonlinear_arith);
        assert(m * (s * d) == d * (s * m)) by (nonlinear_arith);
        assert(s * (m * d) == d * (s * m)) by (nonlinear_arith);
    }
    assert(f * g == l * (tm * tm) - l * (ks * ks) - 2 * (d * (sm * tm)) + 2 * (d * (sm * ks))) by {
        assert((tm - ks) * (x + y - 2 * z) == tm * x + tm * y - 2 * (tm * z) - ks * x - ks * y + 2
            * (ks * z)) by (nonlinear_arith);
        assert(tm * (l * tm) == l * (tm * tm)) by (nonlinear_arith);
        assert(tm * (l * ks) == ks * (l * tm)) by (nonlinear_arith);
        assert(ks * (l * ks) == l * (ks * ks)) by (nonlinear_arith);
        assert(tm * (d * sm) == d * (sm * tm)) by (nonlinear_arith);
        assert(ks * (d * sm) == d * (sm * ks)) by (nonlinear_arith);
    }
    lemma_mul_nonnegative(margin, s);
    lemma_mul_nonnegative(m, m);
    lemma_mul_nonnegative(m, margin);
    lemma_mul_nonnegative(s, m);
    lemma_mul_nonnegative(t, m);
    lemma_mul_nonnegative(k, s);
    lemma_mul_upper_bound(t, s, m, m);
    lemma_mul_upper_bound(k, m, s, s);
    lemma_mul_is_commutative(m, s);
    // Both factors have one sign, but for the margin.
    assert(m * a - s * e == l * f) by (nonlinear_arith)
        requires
            a == t * l - s * d,
            e == k * l - m * d,
            f == t * m - k * s,
    ;
    let top = m * margin;
    assert(f * g <= sm * (2 * top)) by {
        if f > 0 {
            assert(t > 0) by {
                if t == 0 {
                    lemma_mul_basics(m);
                }
            }
            lemma_mul_nonnegative(l, f);
            lemma_mul_inequality(a, margin, m);
            lemma_mul_is_commutative(a, m);
            lemma_mul_is_commutative(margin, m);
            assert(g <= 2 * top);
            lemma_mul_inequality(g, 2 * top, f);
            lemma_mul_inequality(f, sm, 2 * top);
            lemma_mul_is_commutative(g, f);
            lemma_mul_is_commutative(2 * top, f);
        } else if f < 0 {
            assert(t < s) by {
                if t == s {
                    lemma_mul_inequality(k, m, s);
                    lemma_mul_is_commutative(m, s);
                }
            }
            lemma_mul_inequality(-a, margin, m);
            lemma_mul_is_commutative(margin, m);
            assert((-a) * m == -(m * a)) by (nonlinear_arith);
            lemma_mul_nonnegative(l, -f);
            assert(l * (-f) == -(l * f)) by (nonlinear_arith);
            assert(-g <= 2 * top);
            lemma_mul_inequality(-g, 2 * top, -f);
            lemma_mul_inequality(-f, sm, 2 * top);
            assert((-g) * (-f) == f * g && (2 * top) * (-f) == (-f) * (2 * top))
                by (nonlinear_arith);
        } else {
            lemma_mul_basics(g);
            lemma_mul_nonnegative(sm, 2 * top);
        }
    }
    assert(sm * (2 * top) == 2 * ((margin * s) * (m * m))) by (nonlinear_arith)
        requires
            sm == s * m,
            top == m * margin,
    ;
}

/// A square of a way, in terms of a finer share.
proof fn lemma_scaled(n: int, d: int, l: int, s: int, t: int, m: int)
    ensures
        (n * (s * s) - 2 * (d * (s * t)) + l * (t * t)) * (m * m) == n * ((s * m) * (s * m)) - 2 * (d
            * ((s * m) * (t * m))) + l * ((t * m) * (t * m)),
{
    let mm = m * m;
    let (a, b, c) = (n * (s * s), d * (s * t), l * (t * t));
    assert((a - 2 * b + c) * mm == a * mm - 2 * (b * mm) + c * mm) by (nonlinear_arith);
    assert((n * (s * s)) * (m * m) == n * ((s * m) * (s * m))) by (nonlinear_arith);
    assert((d * (s * t)) * (m * m) == d * ((s * m) * (t * m))) by (nonlinear_arith);
    assert((l * (t * t)) * (m * m) == l * ((t * m) * (t * m))) by (nonlinear_arith);
}

/// How far along the nearest point is, from the rounded product `dh` and the
/// rounded square `lh`: close enough for `lemma_nearest_of_all`.
proof fn lemma_nearest(d: int, l: int, dh: int, lh: int, t: int, s: nat, h: nat)
    requires
        0 <= t <= s,
        0 <= lh <= 8 * s,
        within(lh * s, l, 16 * (h * s)),
        within(dh * s, d, 16 * (h * s)),
        t > 0 ==> t * lh <= dh * s + h * lh,
        t < s ==> t * lh >= dh * s - h * lh,
    ensures
        t > 0 ==> t * l - s * d <= 40 * (h * (s * s)),
        t < s ==> s * d - t * l <= 40 * (h * (s * s)),
{
    let si: int = s as int;
    let hs: int = (h * s) as int;
    let hss: int = (h * (s * s)) as int;
    lemma_mul_nonnegative(h as int, si);
    // t l against t lh s
    assert(t * l <= t * (lh * si + 16 * hs)) by {
        lemma_mul_inequality(l, lh * si + 16 * hs, t);
        lemma_mul_is_commutative(t, l);
        lemma_mul_is_commutative(t, lh * si + 16 * hs);
    }
    assert(t * (lh * si - 16 * hs) <= t * l) by {
        lemma_mul_inequality(lh * si - 16 * hs, l, t);
        lemma_mul_is_commutative(t, l);
        lemma_mul_is_commutative(t, lh * si - 16 * hs);
    }
    assert(t * (lh * si + 16 * hs) == si * (t * lh) + 16 * (t * hs)) by (nonlinear_arith);
    assert(t * (lh * si - 16 * hs) == si * (t * lh) - 16 * (t * hs)) by (nonlinear_arith);
    assert(si * hs == hss) by (nonlinear_arith)
        requires
            hs == h * s,
            hss == h * (s * s),
            si == s,
    ;
    assert(t * hs <= hss) by {
        lemma_mul_inequality(t, si, hs);
    }
    assert(si * (dh * si - 16 * hs) <= si * d <= si * (dh * si + 16 * hs)) by {
        lemma_mul_inequality(d, dh * si + 16 * hs, si);
        lemma_mul_inequality(dh * si - 16 * hs, d, si);
        lemma_mul_is_commutative(si, d);
        lemma_mul_is_commutative(si, dh * si + 16 * hs);
        lemma_mul_is_commutative(si, dh * si - 16 * hs);
    }
    assert(si * (dh * si - 16 * hs) == si * (dh * si) - 16 * hss) by {
        lemma_mul_is_distributive_sub(si, dh * si, 16 * hs);
        lemma_mul_is_associative(si, 16, hs);
        assert(si * (16 * hs) == 16 * (si * hs)) by (nonlinear_arith);
    }
    assert(si * (dh * si + 16 * hs) == si * (dh * si) + 16 * hss) by {
        lemma_mul_is_distributive_add(si, dh * si, 16 * hs);
        assert(si * (16 * hs) == 16 * (si * hs)) by (nonlinear_arith);
    }
    assert(si * (h * lh) <= 8 * hss) by {
        lemma_mul_inequality(lh, 8 * si, hs);
        assert(lh * hs == si * (h * lh)) by (nonlinear_arith)
            requires
                hs == h * si,
        ;
        assert((8 * si) * hs == 8 * (si * hs)) by (nonlinear_arith);
    }
    if t > 0 {
        lemma_mul_inequality(t * lh, dh * si + h * lh, si);
        assert((t * lh) * si == si * (t * lh) && (dh * si + h * lh) * si == si * (dh * si) + si * (h
            * lh)) by (nonlinear_arith);
    }
    if t < s {
        lemma_mul_inequality(dh * si - h * lh, t * lh, si);
        assert((t * lh) * si == si * (t * lh) && (dh * si - h * lh) * si == si * (dh * si) - si * (h
            * lh)) by (nonlinear_arith);
    }
}

/// The square of what is off by a margin.
pub proof fn lemma_square_off(a: int, b: int, margin: nat, most: nat)
    requires
        within(a, b, margin),
        within(a, 0, most),
        within(b, 0, most),
    ensures
        a * a <= b * b + 2 * (margin * most),
{
    let d = a - b;
    let s = a + b;
    assert(d * s == a * a - b * b) by (nonlinear_arith)
        requires
            d == a - b,
            s == a + b,
    ;
    assert(d * s <= margin * (2 * most)) by (nonlinear_arith)
        requires
            -margin <= d <= margin,
            -(2 * most) <= s <= 2 * most,
    ;
    assert(margin * (2 * most) == 2 * (margin * most)) by (nonlinear_arith);
}

/// The product of bounds.
pub proof fn lemma_bounds(a: int, b: int, m: nat, n: nat)
    requires
        within(a, 0, m),
        within(b, 0, n),
    ensures
        within(a * b, 0, m * n),
{
    assert(-(m * n) <= a * b <= m * n) by (nonlinear_arith)
        requires
            -m <= a <= m,
            -n <= b <= n,
    ;
}

/// One coordinate of the way from a point to one that lies a share `t` along a
/// way `x`, from whose start the point is `p` away.
pub proof fn lemma_coordinate(p: Single, x: Single, t: Single)
    requires
        p.finite() && x.finite() && t.finite(),
        p.size() <= 2 * pow2(149),
        x.size() <= 2 * pow2(149),
        0 <= t.value() <= pow2(149),
    ensures
        ({
            let s = pow2(149);
            let u = p.minus_spec(x.times_spec(t));
            &&& u.finite()
            &&& u.size() <= 4 * s
            &&& within(
                u.value() * s,
                p.value() * s - x.value() * t.value(),
                6 * (hair() * s),
            )
        }),
{
    let s = pow2(149);
    let h = hair();
    lemma_hair();
    let m = x.times_spec(t);
    let u = p.minus_spec(m);
    assert(x.size() * t.size() <= (0x100_0000 * pow2(126)) * s) by {
        lemma_mul_upper_bound(x.size() as int, (2 * s) as int, t.size() as int, s as int);
    }
    lemma_times_off(x, t, 126);
    lemma_minus_off(p, m, 127);
    lemma_within_times(u.value(), p.value() - m.value(), 4 * h, s);
    assert((p.value() - m.value()) * s == p.value() * s - m.value() * s) by {
        lemma_mul_is_distributive_sub_other_way(s as int, p.value(), m.value());
    }
    assert((4 * h) * s == 4 * (h * s) && (2 * h) * s == 2 * (h * s)) by (nonlinear_arith);
}

/// The square of such a coordinate.
pub proof fn lemma_way_off(p: Single, x: Single, t: Single)
    requires
        p.finite() && x.finite() && t.finite(),
        p.size() <= 2 * pow2(149),
        x.size() <= 2 * pow2(149),
        0 <= t.value() <= pow2(149),
    ensures
        ({
            let s = pow2(149);
            let u = p.minus_spec(x.times_spec(t));
            let a = p.value() * s - x.value() * t.value();
            &&& u.finite()
            &&& u.size() <= 4 * s
            &&& (u.value() * u.value()) * (s * s) <= a * a + 48 * (hair() * (s * (s * s)))
        }),
{
    let s = pow2(149);
    let h = hair();
    let u = p.minus_spec(x.times_spec(t));
    lemma_coordinate(p, x, t);
    let a = p.value() * s - x.value() * t.value();
    let v = u.value() * s;
    let most: nat = 4 * (s * s);
    assert(within(v, 0, most)) by {
        lemma_within_times(u.value(), 0, 4 * s, s);
        lemma_mul_is_associative(4, s as int, s as int);
    }
    assert(within(a, 0, most)) by {
        lemma_within_times(p.value(), 0, 2 * s, s);
        lemma_bounds(x.value(), t.value(), 2 * s, s);
        lemma_mul_is_associative(2, s as int, s as int);
    }
    lemma_square_off(v, a, 6 * (h * s), most);
    assert(v * v == (u.value() * u.value()) * (s * s)) by (nonlinear_arith)
        requires
            v == u.value() * s,
    ;
    assert((6 * (h * s)) * (4 * (s * s)) == 24 * (h * (s * (s * s)))) by (nonlinear_arith);
}

/// What the square of a length is a root of.
pub open spec fn squares(dx: Single, dy: Single) -> Single {
    dx.times_spec(dx).plus_spec(dy.times_spec(dy))
}

/// A point of the lung: both coordinates between minus one and one.
pub open spec fn in_lung_space(p: Point) -> bool {
    &&& p.x.finite() && p.y.finite()
    &&& p.x.size() <= pow2(149)
    &&& p.y.size() <= pow2(149)
}

/// A difference of coordinates.
pub proof fn lemma_apart(p: Single, a: Single)
    requires
        p.finite() && a.finite(),
        p.size() <= pow2(149),
        a.size() <= pow2(149),
    ensures
        p.minus_spec(a).finite(),
        p.minus_spec(a).size() <= 2 * pow2(149),
        within(p.minus_spec(a).value(), p.value() - a.value(), 2 * hair()),
{
    lemma_hair();
    lemma_minus_off(p, a, 126);
}

/// What is not over zero, squared, is nothing much.
proof fn lemma_underflow(x: Single, y: Single)
    requires
        x.finite() && y.finite(),
        x.size() <= 2 * pow2(149),
        y.size() <= 2 * pow2(149),
        squares(x, y).value() <= 0,
    ensures
        x.size() < pow2(75),
        y.size() < pow2(75),
{
    let zero = Single::zero_spec();
    let s = pow2(149);
    let p = x.times_spec(x);
    let q = y.times_spec(y);
    lemma_hair();
    assert((2 * s) * (2 * s) == (0x100_0000 * pow2(127)) * s) by (nonlinear_arith)
        requires
            s == 0x100_0000 * hair(),
            pow2(127) == 4 * hair(),
    ;
    lemma_mul_upper_bound(x.size() as int, (2 * s) as int, x.size() as int, (2 * s) as int);
    lemma_mul_upper_bound(y.size() as int, (2 * s) as int, y.size() as int, (2 * s) as int);
    lemma_times_off(x, x, 127);
    lemma_times_off(y, y, 127);
    assert(p.value() + q.value() <= 0) by {
        if p.value() + q.value() > 0 {
            reveal(Single::plus_spec);
            let n = (p.value() + q.value()) as nat;
            let least = Single::rounded(false, 1 * pow2(0), 1);
            lemma_exact(1, 0);
            lemma2_to64();
            lemma_plus_off(p, q, 128);
            lemma_rounded_bounds(n, 1, least);
        }
    }
    assert(p.value() >= 0 && q.value() >= 0);
    lemma_small_square(x);
    lemma_small_square(y);
}

/// What has no square is little.
proof fn lemma_small_square(x: Single)
    requires
        x.finite(),
        x.times_spec(x).finite(),
        x.times_spec(x).size() == 0,
    ensures
        x.size() < pow2(75),
{
    reveal(Single::times_spec);
    let s = pow2(149);
    let n = x.size() * x.size();
    let least = Single::rounded(false, 1 * pow2(0), 1);
    lemma_exact(1, 0);
    lemma2_to64();
    lemma_pow2_pos(149);
    lemma_mul_basics(s as int);
    lemma_rounded_bounds(n, s, least);
    lemma_rounded_sign(n, s);
    assert(n < s);
    let r = pow2(75);
    lemma_pow2_adds(75, 75);
    lemma_pow2_adds(1, 149);
    lemma2_to64();
    if x.size() >= r {
        lemma_mul_upper_bound(r as int, x.size() as int, r as int, x.size() as int);
    }
}

/// The square of the distance to the nearest point, before it is rounded, is no
/// more than that to any point of the segment: one that lies `k` of `m` along.
pub proof fn lemma_no_further(p: Point, a: Point, b: Point, k: int, m: int)
    requires
        0 <= k <= m,
        in_lung_space(p),
        in_lung_space(a),
        in_lung_space(b),
    ensures
        ({
            let s: int = pow2(149) as int;
            let t = along_spec(p, a, b).value();
            let px = p.x.minus_spec(a.x).value();
            let py = p.y.minus_spec(a.y).value();
            let x = b.x.minus_spec(a.x).value();
            let y = b.y.minus_spec(a.y).value();
            let u = px * s - x * t;
            let v = py * s - y * t;
            let f = px * m - x * k;
            let g = py * m - y * k;
            let most = 80 * (hair() * (s * (s * s)));
            &&& along_spec(p, a, b).finite()
            &&& 0 <= t <= s
            &&& (u * u + v * v) * (m * m) <= (f * f + g * g) * (s * s) + most * (m * m)
        }),
{
    let s: int = pow2(149) as int;
    let h = hair();
    let fx = b.x.minus_spec(a.x);
    let fy = b.y.minus_spec(a.y);
    let gx = p.x.minus_spec(a.x);
    let gy = p.y.minus_spec(a.y);
    lemma_hair();
    lemma_apart(b.x, a.x);
    lemma_apart(b.y, a.y);
    lemma_apart(p.x, a.x);
    lemma_apart(p.y, a.y);
    let (px, py, x, y) = (gx.value(), gy.value(), fx.value(), fy.value());
    let n = px * px + py * py;
    let d = px * x + py * y;
    let l = x * x + y * y;
    let lh = squares(fx, fy);
    let dh = gx.times_spec(fx).plus_spec(gy.times_spec(fy));
    lemma_dot_off(fx, fx, fy, fy, 2);
    lemma_dot_off(gx, fx, gy, fy, 2);
    lemma_squares(x, y);
    let t = along_spec(p, a, b).value();
    let zero = Single::zero_spec();
    let margin: int = 40 * (h * (s * s));
    lemma_mul_nonnegative(s, s);
    lemma_mul_nonnegative(h as int, s * s);
    lemma_zero(zero);
    lemma_value_order(zero, lh);
    if zero.lt_spec(lh) {
        lemma_share(dh, lh);
        lemma_nearest(d, l, dh.value(), lh.value(), t, s as nat, h);
    } else {
        lemma_underflow(fx, fy);
        lemma_little(px, py, x, y, s as nat, h);
        lemma_mul_basics(l);
    }
    lemma_nearest_of_all(n, d, l, s, t, k, m, margin);
    lemma_both_ways(px, py, x, y, s, t);
    lemma_both_ways(px, py, x, y, m, k);
    let ms = margin * s;
    assert(80 * (h * (s * (s * s))) == 2 * ms) by (nonlinear_arith)
        requires
            ms == (40 * (h * (s * s))) * s,
    ;
    lemma_mul_is_associative(2, ms, m * m);
}

/// The square of the way to a point of the segment.
proof fn lemma_both_ways(px: int, py: int, x: int, y: int, s: int, t: int)
    ensures
        ({
            let u = px * s - x * t;
            let v = py * s - y * t;
            u * u + v * v == (px * px + py * py) * (s * s) - 2 * ((px * x + py * y) * (s * t)) + (x
                * x + y * y) * (t * t)
        }),
{
    lemma_way(px, x, s, t);
    lemma_way(py, y, s, t);
    lemma_mul_is_distributive_add_other_way(s * s, px * px, py * py);
    lemma_mul_is_distributive_add_other_way(s * t, px * x, py * y);
    lemma_mul_is_distributive_add_other_way(t * t, x * x, y * y);
}

/// A sum of squares is not under zero.
proof fn lemma_squares(x: int, y: int)
    ensures
        0 <= x * x + y * y,
{
    assert(x * x >= 0 && y * y >= 0) by (nonlinear_arith);
}

/// The product of a way with one of nearly no length is little.
proof fn lemma_little(px: int, py: int, x: int, y: int, s: nat, h: nat)
    requires
        s == pow2(149),
        h == hair(),
        within(px, 0, 2 * s),
        within(py, 0, 2 * s),
        within(x, 0, pow2(75)),
        within(y, 0, pow2(75)),
    ensures
        s * (px * x + py * y) <= 40 * (h * (s * s)),
{
    let r = pow2(75);
    lemma_bounds(px, x, 2 * s, r);
    lemma_bounds(py, y, 2 * s, r);
    lemma_pow2_strictly_increases(75, 125);
    assert((2 * s) * r <= (2 * s) * h) by {
        lemma_mul_inequality(r as int, h as int, (2 * s) as int);
        lemma_mul_is_commutative(r as int, (2 * s) as int);
        lemma_mul_is_commutative(h as int, (2 * s) as int);
    }
    let d = px * x + py * y;
    assert(d <= 4 * (h * s)) by {
        assert((2 * s) * h == 2 * (h * s)) by (nonlinear_arith);
    }
    lemma_mul_inequality(d, (4 * (h * s)) as int, s as int);
    lemma_mul_is_commutative(d, s as int);
    assert((4 * (h * s)) * s == 4 * (h * (s * s))) by (nonlinear_arith);
    lemma_mul_nonnegative(s as int, s as int);
    lemma_mul_nonnegative(h as int, (s * s) as int);
}

/// The square of the distance, before its root is taken, against those to the
/// ends.
proof fn lemma_before_the_root(p: Point, a: Point, b: Point)
    requires
        in_lung_space(p),
        in_lung_space(a),
        in_lung_space(b),
    ensures
        ({
            let s = pow2(149);
            let t = along_spec(p, a, b);
            let d = squares(
                p.x.minus_spec(a.x).minus_spec(b.x.minus_spec(a.x).times_spec(t)),
                p.y.minus_spec(a.y).minus_spec(b.y.minus_spec(a.y).times_spec(t)),
            );
            let e = squares(p.x.minus_spec(a.x), p.y.minus_spec(a.y));
            let f = squares(p.x.minus_spec(b.x), p.y.minus_spec(b.y));
            &&& d.finite() && e.finite() && f.finite()
            &&& d.value() <= 32 * s && e.value() <= 8 * s && f.value() <= 8 * s
            &&& d.value() <= e.value() + 328 * hair()
            &&& d.value() <= f.value() + 328 * hair()
        }),
{
    let s: int = pow2(149) as int;
    let h = hair();
    let t = along_spec(p, a, b);
    let fx = b.x.minus_spec(a.x);
    let fy = b.y.minus_spec(a.y);
    let gx = p.x.minus_spec(a.x);
    let gy = p.y.minus_spec(a.y);
    let kx = p.x.minus_spec(b.x);
    let ky = p.y.minus_spec(b.y);
    lemma_hair();
    lemma_apart(b.x, a.x);
    lemma_apart(b.y, a.y);
    lemma_apart(p.x, a.x);
    lemma_apart(p.y, a.y);
    lemma_apart(p.x, b.x);
    lemma_apart(p.y, b.y);
    lemma_no_further(p, a, b, 0, 1);
    lemma_no_further(p, a, b, 1, 1);
    lemma_way_off(gx, fx, t);
    lemma_way_off(gy, fy, t);
    let ux = gx.minus_spec(fx.times_spec(t));
    let uy = gy.minus_spec(fy.times_spec(t));
    lemma_dot_off(ux, ux, uy, uy, 4);
    lemma_dot_off(gx, gx, gy, gy, 2);
    lemma_dot_off(kx, kx, ky, ky, 2);
    let g2 = gx.value() * gx.value() + gy.value() * gy.value();
    let k2 = kx.value() * kx.value() + ky.value() * ky.value();
    let cx = gx.value() - fx.value();
    let cy = gy.value() - fy.value();
    lemma_other_end(cx, kx.value(), pow2(149), h);
    lemma_other_end(cy, ky.value(), pow2(149), h);
    let u2 = ux.value() * ux.value() + uy.value() * uy.value();
    lemma_mul_is_distributive_add_other_way(
        s * s,
        ux.value() * ux.value(),
        uy.value() * uy.value(),
    );
    lemma_mul_nonnegative(h as int, s);
    lemma_compare(squares(ux, uy).value(), squares(gx, gy).value(), u2, g2, g2, s, h as int);
    lemma_compare(
        squares(ux, uy).value(),
        squares(kx, ky).value(),
        u2,
        cx * cx + cy * cy,
        k2,
        s,
        h as int,
    );
}

/// One coordinate of the way from the other end.
proof fn lemma_other_end(c: int, k: int, s: nat, h: nat)
    requires
        within(c, k, 6 * h),
        within(k, 0, 2 * s),
        6 * h <= s,
    ensures
        c * c <= k * k + 36 * (h * s),
{
    lemma_square_off(c, k, 6 * h, 3 * s);
    assert((6 * h) * (3 * s) == 18 * (h * s)) by (nonlinear_arith);
}

/// What the squares are off by, step by step: `d` and `e` are rounded.
proof fn lemma_compare(d: int, e: int, u: int, c: int, k: int, s: int, h: int)
    requires
        s > 0,
        h >= 0,
        u * (s * s) <= c * (s * s) + 176 * (h * (s * (s * s))),
        0 <= h * s,
        c <= k + 72 * (h * s),
        d * s <= u + 64 * (h * s),
        k <= e * s + 16 * (h * s),
    ensures
        d <= e + 328 * h,
{
    let hs = h * s;
    lemma_mul_strictly_positive(s, s);
    assert(176 * (h * (s * (s * s))) == (176 * hs) * (s * s)) by (nonlinear_arith)
        requires
            hs == h * s,
    ;
    lemma_drop(u, c, 176 * hs, s * s);
    assert((328 * h) * s == 328 * hs) by (nonlinear_arith)
        requires
            hs == h * s,
    ;
    lemma_drop(d, e, 328 * h, s);
}

/// A factor over zero is dropped.
pub proof fn lemma_drop(a: int, b: int, m: int, n: int)
    requires
        n > 0,
        a * n <= b * n + m * n,
    ensures
        a <= b + m,
{
    lemma_mul_is_distributive_add_other_way(n, b, m);
    if a > b + m {
        lemma_mul_strict_inequality(b + m, a, n);
    }
}

/// The square of a root is what it is a root of, within a margin.
pub proof fn lemma_root_off(a: Single, m: nat)
    requires
        a.finite(),
        !a.neg(),
        a.size() <= m * pow2(149),
        m == 8 || m == 32,
    ensures
        ({
            let r = a.root_spec();
            &&& r.finite()
            &&& !r.neg()
            &&& within(
                (r.size() * r.size()) as int,
                (a.size() * pow2(149)) as int,
                (4 * m + 2) * (hair() * pow2(149)),
            )
        }),
{
    let s = pow2(149);
    let h = hair();
    let hs = h * s;
    let r = a.root_spec();
    lemma_hair();
    assert(s * s == 0x100_0000 * hs) by (nonlinear_arith)
        requires
            s == 0x100_0000 * h,
            hs == h * s,
    ;
    lemma_mul_inequality(a.size() as int, (m * s) as int, s as int);
    lemma_mul_is_associative(m as int, s as int, s as int);
    if m == 8 {
        assert((4 * m + 2) * hs == 34 * hs);
    } else {
        assert((4 * m + 2) * hs == 130 * hs);
    }
    if a.size() == 0 {
        lemma_zero(a);
        reveal(Single::root_spec);
        lemma_mul_basics(s as int);
        lemma_mul_basics(a.size() as int);
    } else {
        lemma_root_near(a);
    }
}

/// A square that is not much more is of what is not much more.
proof fn lemma_linear(d: int, e: int, m: int)
    requires
        0 <= e,
        0 <= m,
        d * d <= e * e + m * m,
    ensures
        d <= e + m,
{
    if d > e + m {
        assert((e + m) * (e + m) == e * e + 2 * (e * m) + m * m) by (nonlinear_arith);
        lemma_mul_nonnegative(e, m);
        assert(d * d > (e + m) * (e + m)) by (nonlinear_arith)
            requires
                d >= e + m + 1,
                e + m >= 0,
        ;
    }
}

/// In the lung, a segment is no further away than either of its ends, up to
/// rounding: the square of the distance is at most that to an end and a part in
/// `2^15` of one, so that the distance is at most that to an end and a part in
/// `2^7`.
pub proof fn a_segment_is_no_further_than_its_ends(p: Point, a: Point, b: Point)
    requires
        in_lung_space(p),
        in_lung_space(a),
        in_lung_space(b),
    ensures
        ({
            let d = dist_to_segment_spec(p, a, b);
            let e = length_spec(p.x.minus_spec(a.x), p.y.minus_spec(a.y));
            let f = length_spec(p.x.minus_spec(b.x), p.y.minus_spec(b.y));
            &&& d.finite() && e.finite() && f.finite()
            &&& d.value() * d.value() <= e.value() * e.value() + pow2(283)
            &&& d.value() * d.value() <= f.value() * f.value() + pow2(283)
            &&& d.value() <= e.value() + pow2(142)
            &&& d.value() <= f.value() + pow2(142)
        }),
{
    let t = along_spec(p, a, b);
    let ux = p.x.minus_spec(a.x).minus_spec(b.x.minus_spec(a.x).times_spec(t));
    let uy = p.y.minus_spec(a.y).minus_spec(b.y.minus_spec(a.y).times_spec(t));
    let d2 = squares(ux, uy);
    let e2 = squares(p.x.minus_spec(a.x), p.y.minus_spec(a.y));
    let f2 = squares(p.x.minus_spec(b.x), p.y.minus_spec(b.y));
    lemma_before_the_root(p, a, b);
    lemma_squares_sign(ux, uy);
    lemma_squares_sign(p.x.minus_spec(a.x), p.y.minus_spec(a.y));
    lemma_squares_sign(p.x.minus_spec(b.x), p.y.minus_spec(b.y));
    lemma_roots(d2, e2);
    lemma_roots(d2, f2);
}

/// Margins add up.
proof fn lemma_add_up(a: int, b: int, c: int, d: int, m: int)
    requires
        a <= b + 130 * m,
        b <= c + 328 * m,
        c - 34 * m <= d,
    ensures
        a <= d + 492 * m,
{
}

/// The roots of two sums of squares.
proof fn lemma_roots(d: Single, e: Single)
    requires
        d.finite() && !d.neg() && d.value() <= 32 * pow2(149),
        e.finite() && !e.neg() && e.value() <= 8 * pow2(149),
        d.value() <= e.value() + 328 * hair(),
    ensures
        ({
            let x = d.root_spec();
            let y = e.root_spec();
            &&& x.finite() && y.finite()
            &&& x.value() * x.value() <= y.value() * y.value() + pow2(283)
            &&& x.value() <= y.value() + pow2(142)
        }),
{
    let s = pow2(149);
    let h = hair();
    let x: int = d.root_spec().size() as int;
    let y: int = e.root_spec().size() as int;
    lemma_hair();
    lemma_root_off(d, 32);
    lemma_root_off(e, 8);
    lemma_under_the_root(d.value(), e.value(), s as int, h as int);
    let hs: int = (h * s) as int;
    let (xx, yy) = (x * x, y * y);
    let (ds, es) = (d.value() * s, e.value() * s);
    assert(xx <= ds + 130 * hs);
    assert(es - 34 * hs <= yy);
    assert(ds <= es + 328 * hs);
    lemma_add_up(xx, ds, es, yy, hs);
    lemma_pow2_adds(125, 149);
    lemma_pow2_adds(9, 274);
    lemma_pow2_adds(142, 142);
    lemma_pow2_adds(1, 283);
    lemma2_to64();
    assert(pow2(283) == 512 * (h * s));
    lemma_linear(x, y, pow2(142) as int);
}

/// A sum of squares is not under zero, if it is a number.
pub proof fn lemma_squares_sign(x: Single, y: Single)
    ensures
        squares(x, y).nan() || !squares(x, y).neg(),
{
    lemma_square_sign(x);
    lemma_square_sign(y);
    lemma_sum_sign(x.times_spec(x), y.times_spec(y));
}

/// The difference of the squares, as a multiple.
proof fn lemma_under_the_root(d: int, e: int, s: int, h: int)
    requires
        s > 0,
        d <= e + 328 * h,
    ensures
        d * s <= e * s + 328 * (h * s),
{
    lemma_mul_inequality(d, e + 328 * h, s);
    lemma_mul_is_distributive_add_other_way(s, e, 328 * h);
    lemma_mul_is_associative(328, h, s);
}

} // verus!
