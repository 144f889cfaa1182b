//! Which points are within reach of a stretch of airway: what the rounded
//! distance decides, from exact places.
use crate::distance::{
    hair, lemma_apart, lemma_bounds, lemma_coordinate, lemma_dot_off, lemma_drop, lemma_hair,
    lemma_no_further, lemma_root_off, lemma_square_off, lemma_squares_sign, lemma_way_off,
    lemma_within_times, squares,
};
use crate::lung::{along_spec, dist_to_segment_spec, Point};
use crate::margin::{lemma_rounded_off, within};
use crate::single::{lemma_value_order, Single};
use vstd::arithmetic::mul::*;
use vstd::arithmetic::power2::*;
use vstd::prelude::*;

verus! {

/// A coordinate is so many parts, of which one has six thousand.
pub open spec fn sits(v: Single, n: int) -> bool {
    &&& v.finite()
    &&& v.size() <= pow2(149)
    &&& within(6000 * v.value(), n * pow2(149), 6000 * hair())
}

/// A point is at a place, given in such parts.
pub open spec fn is_at(p: Point, x: int, y: int) -> bool {
    sits(p.x, x) && sits(p.y, y)
}

/// The difference of two coordinates.
pub proof fn lemma_gap(p: Single, a: Single, n: int, m: int)
    requires
        sits(p, n),
        sits(a, m),
    ensures
        p.minus_spec(a).finite(),
        p.minus_spec(a).size() <= 2 * pow2(149),
        within(6000 * p.minus_spec(a).value(), (n - m) * pow2(149), 24_000 * hair()),
{
    lemma_apart(p, a);
    lemma_mul_is_distributive_sub_other_way(pow2(149) as int, n, m);
}

/// The way from a point that is `p` from the start of a stretch to one that is
/// `t` of `s` along it, `x` being the extent of the stretch. `n` and `e` are the
/// exact parts.
proof fn lemma_exact_way(p: int, x: int, t: int, s: nat, h: nat, n: int, e: int)
    requires
        0 <= t <= s,
        within(6000 * p, n * s, 24_000 * h),
        within(6000 * x, e * s, 24_000 * h),
    ensures
        within(6000 * (p * s - x * t), s * (n * s - e * t), 48_000 * (h * s)),
{
    lemma_within_times(6000 * p, n * s, 24_000 * h, s);
    lemma_within_times(6000 * x, e * s, 24_000 * h, t as nat);
    assert((6000 * p) * s == 6000 * (p * s)) by (nonlinear_arith);
    assert((6000 * x) * t == 6000 * (x * t)) by (nonlinear_arith);
    assert((24_000 * h) * s == 24_000 * (h * s)) by (nonlinear_arith);
    assert((24_000 * h) * t == 24_000 * (h * t)) by (nonlinear_arith);
    lemma_mul_inequality(t, s as int, h as int);
    lemma_mul_is_commutative(t, h as int);
    lemma_mul_is_commutative(s as int, h as int);
    assert(s * (n * s - e * t) == (n * s) * s - (e * s) * t) by (nonlinear_arith);
}

/// One coordinate of the rounded way from a point to the nearest of a stretch.
proof fn lemma_rounded_way(p: Single, x: Single, t: Single, n: int, e: int)
    requires
        p.finite() && x.finite() && t.finite(),
        p.size() <= 2 * pow2(149),
        x.size() <= 2 * pow2(149),
        0 <= t.value() <= pow2(149),
        within(6000 * p.value(), n * pow2(149), 24_000 * hair()),
        within(6000 * x.value(), e * pow2(149), 24_000 * hair()),
    ensures
        ({
            let u = p.minus_spec(x.times_spec(t));
            &&& u.finite()
            &&& u.size() <= 4 * pow2(149)
            &&& within(
                6000 * u.value(),
                n * pow2(149) - e * t.value(),
                84_000 * hair(),
            )
        }),
{
    let s = pow2(149);
    let h = hair();
    let u = p.minus_spec(x.times_spec(t)).value();
    lemma_hair();
    lemma_coordinate(p, x, t);
    lemma_exact_way(p.value(), x.value(), t.value(), s, h, n, e);
    let c = n * s - e * t.value();
    assert((6000 * u) * s == 6000 * (u * s)) by (nonlinear_arith);
    assert((84_000 * h) * s == 84_000 * (h * s)) by (nonlinear_arith);
    lemma_mul_is_commutative(s as int, c);
    lemma_drop(6000 * u, c, (84_000 * h) as int, s as int);
    lemma_drop(c, 6000 * u, (84_000 * h) as int, s as int);
}

/// What lies on one side of both ends lies on that side of all between.
proof fn lemma_side(
    nx: int,
    ny: int,
    gx: int,
    gy: int,
    ex: int,
    ey: int,
    s: int,
    t: int,
    least: int,
)
    requires
        0 <= t <= s,
        nx * gx + ny * gy >= least,
        nx * (gx - ex) + ny * (gy - ey) >= least,
    ensures
        nx * (gx * s - ex * t) + ny * (gy * s - ey * t) >= s * least,
{
    let g = nx * gx + ny * gy;
    let e = nx * ex + ny * ey;
    assert(nx * (gx - ex) == nx * gx - nx * ex) by (nonlinear_arith);
    assert(ny * (gy - ey) == ny * gy - ny * ey) by (nonlinear_arith);
    assert(nx * (gx * s - ex * t) == (nx * gx) * s - (nx * ex) * t) by (nonlinear_arith);
    assert(ny * (gy * s - ey * t) == (ny * gy) * s - (ny * ey) * t) by (nonlinear_arith);
    lemma_mul_is_distributive_add_other_way(s, nx * gx, ny * gy);
    lemma_mul_is_distributive_add_other_way(t, nx * ex, ny * ey);
    // g s - e t, which is g (s - t) + (g - e) t
    assert(g * s - e * t == g * (s - t) + (g - e) * t) by (nonlinear_arith);
    lemma_mul_inequality(least, g, s - t);
    lemma_mul_inequality(least, g - e, t);
    assert(least * (s - t) + least * t == s * least) by (nonlinear_arith);
}

/// A length is at least what it measures in a direction.
proof fn lemma_direction(nx: int, ny: int, x: int, y: int, m: nat, z: nat)
    requires
        nx * nx + ny * ny <= m * m,
        m > 0,
        6000 * (nx * x + ny * y) >= m * z,
    ensures
        z * z <= 36_000_000 * (x * x + y * y),
{
    let w = nx * x + ny * y;
    let v = nx * y - ny * x;
    let n2 = nx * nx + ny * ny;
    let u2 = x * x + y * y;
    assert(w * w + v * v == n2 * u2) by {
        lemma_lagrange(nx, ny, x, y);
    }
    assert(v * v >= 0 && u2 >= 0) by (nonlinear_arith)
        requires
            u2 == x * x + y * y,
    ;
    lemma_mul_inequality(n2, (m * m) as int, u2);
    let mz: int = (m * z) as int;
    lemma_mul_nonnegative(m as int, z as int);
    lemma_mul_upper_bound(mz, 6000 * w, mz, 6000 * w);
    assert((6000 * w) * (6000 * w) == 36_000_000 * (w * w)) by (nonlinear_arith);
    assert(mz * mz == (z * z) * (m * m)) by (nonlinear_arith)
        requires
            mz == m * z,
    ;
    lemma_mul_strictly_positive(m as int, m as int);
    assert((36_000_000 * u2) * (m * m) == 36_000_000 * ((m * m) * u2)) by (nonlinear_arith);
    lemma_mul_basics((m * m) as int);
    lemma_drop((z * z) as int, 36_000_000 * u2, 0, (m * m) as int);
}

/// The product of two sums of two squares.
proof fn lemma_lagrange(a: int, b: int, x: int, y: int)
    ensures
        (a * x + b * y) * (a * x + b * y) + (a * y - b * x) * (a * y - b * x) == (a * a + b * b) * (x
            * x + y * y),
{
    let (p, q, r, s) = (a * x, b * y, a * y, b * x);
    assert((p + q) * (p + q) == p * p + 2 * (p * q) + q * q) by (nonlinear_arith);
    assert((r - s) * (r - s) == r * r - 2 * (r * s) + s * s) by (nonlinear_arith);
    assert((a * x) * (b * y) == (a * y) * (b * x)) by (nonlinear_arith);
    assert((a * x) * (a * x) == (a * a) * (x * x)) by (nonlinear_arith);
    assert((b * y) * (b * y) == (b * b) * (y * y)) by (nonlinear_arith);
    assert((a * y) * (a * y) == (a * a) * (y * y)) by (nonlinear_arith);
    assert((b * x) * (b * x) == (b * b) * (x * x)) by (nonlinear_arith);
    let (aa, bb, xx, yy) = (a * a, b * b, x * x, y * y);
    assert((aa + bb) * (xx + yy) == aa * xx + aa * yy + bb * xx + bb * yy) by (nonlinear_arith);
}

/// A radius, given in thousandths.
proof fn lemma_radius(rad: nat)
    requires
        rad <= 100,
    ensures
        Single::ratio_spec(rad, 1000).finite(),
        !Single::ratio_spec(rad, 1000).neg(),
        within(
            6000 * Single::ratio_spec(rad, 1000).value(),
            ((6 * rad) * pow2(149)) as int,
            6000 * hair(),
        ),
{
    let s = pow2(149);
    lemma_hair();
    lemma_mul_inequality(rad as int, 100, s as int);
    lemma_rounded_off(rad * s, 1000, 125);
    lemma_mul_is_associative(6, rad as int, s as int);
}

/// A distance that measures more than a radius in some direction, with room for
/// what rounding takes, is not under the radius.
proof fn lemma_not_under(d: int, r: int, z: int, rad: int, s: int, h: int)
    requires
        h > 0,
        s == 0x100_0000 * h,
        40 <= rad,
        0 <= d,
        z == (6 * rad + 2) * s - 168_000 * h,
        6000 * r <= (6 * rad) * s + 6000 * h,
        z * z <= 36_000_000 * (d * d + 194 * (h * s)),
    ensures
        d >= r,
{
    if d < r {
        let hs = h * s;
        let y = (6 * rad) * s + 6000 * h;
        let g = 33_380_432 * h;
        assert(z == y + g) by {
            lemma_mul_is_distributive_add_other_way(s, 6 * rad, 2);
        }
        lemma_mul_upper_bound(6000 * d, y, 6000 * d, y);
        assert((6000 * d) * (6000 * d) == 36_000_000 * (d * d)) by (nonlinear_arith);
        assert((y + g) * (y + g) == y * y + 2 * (y * g) + g * g) by (nonlinear_arith);
        assert(g * g >= 0) by (nonlinear_arith);
        lemma_mul_inequality(240, 6 * rad, s);
        lemma_mul_inequality(240 * s, y, g);
        assert((240 * s) * g == (240 * 33_380_432) * hs) by (nonlinear_arith)
            requires
                g == 33_380_432 * h,
                hs == h * s,
        ;
        lemma_mul_strictly_positive(h, s);
        lemma_left_over(z * z, y * y, y * g, g * g, d * d, hs);
    }
}

/// What is left when rounding has taken its part.
proof fn lemma_left_over(zz: int, yy: int, yg: int, gg: int, dd: int, hs: int)
    requires
        zz == yy + 2 * yg + gg,
        gg >= 0,
        yg >= 8_011_303_680 * hs,
        zz <= 36_000_000 * (dd + 194 * hs),
        hs > 0,
    ensures
        36_000_000 * dd > yy,
{
}

/// A point that lies more than a radius to one side of both ends of a stretch is
/// out of its reach. The side is given by a direction, no longer than `m`.
pub proof fn lemma_out_of_reach(
    p: Point,
    a: Point,
    b: Point,
    px: int,
    py: int,
    ax: int,
    ay: int,
    bx: int,
    by: int,
    rad: nat,
    nx: int,
    ny: int,
    m: nat,
)
    requires
        is_at(p, px, py),
        is_at(a, ax, ay),
        is_at(b, bx, by),
        40 <= rad <= 100,
        m > 0,
        nx * nx + ny * ny <= m * m,
        nx * (px - ax) + ny * (py - ay) >= (6 * rad + 2) * m,
        nx * (px - bx) + ny * (py - by) >= (6 * rad + 2) * m,
    ensures
        !dist_to_segment_spec(p, a, b).lt_spec(Single::ratio_spec(rad, 1000)),
{
    let s = pow2(149);
    let h = hair();
    let t = along_spec(p, a, b);
    let gx = p.x.minus_spec(a.x);
    let gy = p.y.minus_spec(a.y);
    let fx = b.x.minus_spec(a.x);
    let fy = b.y.minus_spec(a.y);
    let ux = gx.minus_spec(fx.times_spec(t));
    let uy = gy.minus_spec(fy.times_spec(t));
    lemma_hair();
    lemma_no_further(p, a, b, 0, 1);
    lemma_gap(p.x, a.x, px, ax);
    lemma_gap(p.y, a.y, py, ay);
    lemma_gap(b.x, a.x, bx, ax);
    lemma_gap(b.y, a.y, by, ay);
    lemma_rounded_way(gx, fx, t, px - ax, bx - ax);
    lemma_rounded_way(gy, fy, t, py - ay, by - ay);
    let z: int = (6 * rad + 2) * s - 168_000 * h;
    lemma_mul_inequality(2, (6 * rad + 2) as int, s as int);
    lemma_measured(
        nx,
        ny,
        ux.value(),
        uy.value(),
        px - ax,
        py - ay,
        bx - ax,
        by - ay,
        t.value(),
        s,
        h,
        m,
        6 * rad + 2,
    );
    lemma_direction(nx, ny, ux.value(), uy.value(), m, z as nat);
    lemma_reached_root(ux, uy);
    lemma_radius(rad);
    let d = squares(ux, uy).root_spec();
    let r = Single::ratio_spec(rad, 1000);
    lemma_not_under(d.value(), r.value(), z, rad as int, s as int, h as int);
    lemma_value_order(d, r);
}

/// What the rounded way measures in a direction.
proof fn lemma_measured(
    nx: int,
    ny: int,
    ux: int,
    uy: int,
    gx: int,
    gy: int,
    ex: int,
    ey: int,
    t: int,
    s: nat,
    h: nat,
    m: nat,
    rho: nat,
)
    requires
        0 <= t <= s,
        nx * nx + ny * ny <= m * m,
        nx * gx + ny * gy >= rho * m,
        nx * (gx - ex) + ny * (gy - ey) >= rho * m,
        within(6000 * ux, gx * s - ex * t, 84_000 * h),
        within(6000 * uy, gy * s - ey * t, 84_000 * h),
    ensures
        6000 * (nx * ux + ny * uy) >= m * (rho * s - 168_000 * h),
{
    let cx = gx * s - ex * t;
    let cy = gy * s - ey * t;
    let dx = 6000 * ux - cx;
    let dy = 6000 * uy - cy;
    lemma_side(nx, ny, gx, gy, ex, ey, s as int, t, (rho * m) as int);
    lemma_one_side(nx, ny, m);
    lemma_one_side(ny, nx, m);
    lemma_bounds(nx, dx, m, 84_000 * h);
    lemma_bounds(ny, dy, m, 84_000 * h);
    assert(nx * dx == 6000 * (nx * ux) - nx * cx) by (nonlinear_arith)
        requires
            dx == 6000 * ux - cx,
    ;
    assert(ny * dy == 6000 * (ny * uy) - ny * cy) by (nonlinear_arith)
        requires
            dy == 6000 * uy - cy,
    ;
    assert(m * (rho * s - 168_000 * h) == s * (rho * m) - 2 * (m * (84_000 * h)))
        by (nonlinear_arith);
}

/// A coordinate of a direction is no longer than the direction.
proof fn lemma_one_side(x: int, y: int, m: nat)
    requires
        x * x + y * y <= m * m,
    ensures
        within(x, 0, m),
{
    assert(-m <= x <= m) by (nonlinear_arith)
        requires
            x * x + y * y <= m * m,
            m >= 0,
    ;
}

/// Margins add up.
proof fn lemma_add_up(a: int, b: int, c: int, m: int)
    requires
        within(b, a, 64 * m as nat),
        within(c, b, 130 * m as nat),
        m >= 0,
    ensures
        a <= c + 194 * m,
        c <= a + 194 * m,
{
}

/// The square of one coordinate of the way to a point that lies `k` of sixty
/// along a stretch, `c` parts away.
proof fn lemma_witness(p: int, x: int, k: int, s: nat, h: nat, n: int, e: int, c: int)
    requires
        s == 0x100_0000 * h,
        0 <= k <= 60,
        within(6000 * p, n * s, 24_000 * h),
        within(6000 * x, e * s, 24_000 * h),
        60 * c == 60 * n - e * k,
        within(c, 0, 600),
    ensures
        ({
            let f = p * 60 - x * k;
            36_000_000 * (f * f) <= 3600 * ((c * c) * (s * s)) + 230_400_000_000 * (h * s)
        }),
{
    let f = p * 60 - x * k;
    let b = 60 * (c * s);
    lemma_within_times(6000 * x, e * s, 24_000 * h, k as nat);
    assert((6000 * x) * k == 6000 * (x * k)) by (nonlinear_arith);
    lemma_mul_inequality(k, 60, (24_000 * h) as int);
    lemma_mul_is_commutative(k, (24_000 * h) as int);
    assert(60 * (n * s) - (e * s) * k == b) by {
        assert((e * s) * k == (e * k) * s) by (nonlinear_arith);
        assert((60 * n - e * k) * s == 60 * (n * s) - (e * k) * s) by (nonlinear_arith);
        assert((60 * c) * s == 60 * (c * s)) by (nonlinear_arith);
    }
    assert(within(6000 * f, b, 2_880_000 * h));
    lemma_bounds(c, s as int, 600, s);
    lemma_square_off(6000 * f, b, 2_880_000 * h, 40_000 * s);
    assert((6000 * f) * (6000 * f) == 36_000_000 * (f * f)) by (nonlinear_arith);
    assert((60 * (c * s)) * (60 * (c * s)) == 3600 * ((c * c) * (s * s))) by (nonlinear_arith);
    assert((2_880_000 * h) * (40_000 * s) == 115_200_000_000 * (h * s)) by (nonlinear_arith);
}

/// A distance whose square is less than that of a radius, with room for what
/// rounding takes, is under the radius.
proof fn lemma_is_under(d: int, r: int, rad: int, g: int, s: int, h: int)
    requires
        h > 0,
        s == 0x100_0000 * h,
        0 < rad <= 100,
        0 <= d,
        6000 * r >= (6 * rad) * s - 6000 * h,
        g + 900 <= 36 * (rad * rad),
        36_000_000 * (d * d) <= g * (s * s) + 13_500_000_000 * (h * s),
    ensures
        d < r,
{
    if d >= r {
        let hs = h * s;
        let ss = s * s;
        let y = (6 * rad) * s - 6000 * h;
        assert(ss == 0x100_0000 * hs) by (nonlinear_arith)
            requires
                s == 0x100_0000 * h,
                ss == s * s,
                hs == h * s,
        ;
        lemma_mul_inequality(1, rad, s);
        lemma_mul_is_associative(6, rad, s);
        lemma_mul_upper_bound(y, 6000 * d, y, 6000 * d);
        assert((6000 * d) * (6000 * d) == 36_000_000 * (d * d)) by (nonlinear_arith);
        let a = (6 * rad) * s;
        let b = 6000 * h;
        assert((a - b) * (a - b) == a * a - 2 * (a * b) + b * b) by (nonlinear_arith);
        assert(b * b >= 0) by (nonlinear_arith);
        assert(a * a == (36 * (rad * rad)) * ss) by (nonlinear_arith)
            requires
                a == (6 * rad) * s,
                ss == s * s,
        ;
        assert(a * b == rad * (36_000 * hs)) by (nonlinear_arith)
            requires
                a == (6 * rad) * s,
                b == 6000 * h,
                hs == h * s,
        ;
        lemma_mul_strictly_positive(h, s);
        lemma_mul_inequality(rad, 100, 36_000 * hs);
        lemma_mul_inequality(g + 900, 36 * (rad * rad), ss);
        lemma_mul_is_distributive_add_other_way(ss, g, 900);
        lemma_too_much(d * d, a * a, a * b, b * b, g * ss, hs);
    }
}

/// What is left when rounding has taken its part.
proof fn lemma_too_much(dd: int, aa: int, ab: int, bb: int, gs: int, hs: int)
    requires
        hs > 0,
        bb >= 0,
        ab <= 3_600_000 * hs,
        gs + 15_099_494_400 * hs <= aa,
        36_000_000 * dd <= gs + 13_500_000_000 * hs,
    ensures
        36_000_000 * dd < aa - 2 * ab + bb,
{
}

/// A point that lies less than a radius from some point of a stretch is within
/// its reach. The point of the stretch lies `k` of sixty along it.
pub proof fn lemma_within_reach(
    p: Point,
    a: Point,
    b: Point,
    px: int,
    py: int,
    ax: int,
    ay: int,
    bx: int,
    by: int,
    rad: nat,
    k: int,
    cx: int,
    cy: int,
)
    requires
        is_at(p, px, py),
        is_at(a, ax, ay),
        is_at(b, bx, by),
        0 < rad <= 100,
        0 <= k <= 60,
        60 * cx == 60 * (px - ax) - (bx - ax) * k,
        60 * cy == 60 * (py - ay) - (by - ay) * k,
        cx * cx + cy * cy + 900 <= 36 * (rad * rad),
    ensures
        dist_to_segment_spec(p, a, b).lt_spec(Single::ratio_spec(rad, 1000)),
{
    let s = pow2(149);
    let h = hair();
    let t = along_spec(p, a, b);
    let gx = p.x.minus_spec(a.x);
    let gy = p.y.minus_spec(a.y);
    let fx = b.x.minus_spec(a.x);
    let fy = b.y.minus_spec(a.y);
    let ux = gx.minus_spec(fx.times_spec(t));
    let uy = gy.minus_spec(fy.times_spec(t));
    lemma_hair();
    lemma_no_further(p, a, b, k, 60);
    lemma_gap(p.x, a.x, px, ax);
    lemma_gap(p.y, a.y, py, ay);
    lemma_gap(b.x, a.x, bx, ax);
    lemma_gap(b.y, a.y, by, ay);
    lemma_way_off(gx, fx, t);
    lemma_way_off(gy, fy, t);
    lemma_small(cx, cy, rad);
    lemma_small(cy, cx, rad);
    lemma_witness(gx.value(), fx.value(), k, s, h, px - ax, bx - ax, cx);
    lemma_witness(gy.value(), fy.value(), k, s, h, py - ay, by - ay, cy);
    let f = gx.value() * 60 - fx.value() * k;
    let g = gy.value() * 60 - fy.value() * k;
    let xx = gx.value() * s - fx.value() * t.value();
    let yy = gy.value() * s - fy.value() * t.value();
    let u2 = ux.value() * ux.value() + uy.value() * uy.value();
    lemma_mul_is_distributive_add_other_way(
        (s * s) as int,
        ux.value() * ux.value(),
        uy.value() * uy.value(),
    );
    lemma_far_along(u2, xx * xx + yy * yy, f * f + g * g, s as int, h as int);
    lemma_mul_is_distributive_add_other_way((s * s) as int, cx * cx, cy * cy);
    lemma_reached_root(ux, uy);
    lemma_radius(rad);
    let d = squares(ux, uy).root_spec();
    let r = Single::ratio_spec(rad, 1000);
    lemma_sum_up(
        d.value() * d.value(),
        u2,
        f * f,
        g * g,
        (cx * cx) * (s * s),
        (cy * cy) * (s * s),
        (h * s) as int,
    );
    lemma_is_under(
        d.value(),
        r.value(),
        rad as int,
        cx * cx + cy * cy,
        s as int,
        h as int,
    );
    lemma_value_order(d, r);
}

/// All that rounding takes.
proof fn lemma_sum_up(dd: int, u2: int, ff: int, gg: int, cx: int, cy: int, hs: int)
    requires
        hs >= 0,
        dd <= u2 + 194 * hs,
        3600 * u2 <= ff + gg + 633_600 * hs,
        36_000_000 * ff <= 3600 * cx + 230_400_000_000 * hs,
        36_000_000 * gg <= 3600 * cy + 230_400_000_000 * hs,
    ensures
        36_000_000 * dd <= cx + cy + 13_500_000_000 * hs,
{
}

/// What the way is, the distance is, but for what rounding takes.
proof fn lemma_reached_root(x: Single, y: Single)
    requires
        x.finite() && y.finite(),
        x.size() <= 4 * pow2(149),
        y.size() <= 4 * pow2(149),
    ensures
        ({
            let d = squares(x, y).root_spec();
            let u2 = x.value() * x.value() + y.value() * y.value();
            &&& d.finite()
            &&& 0 <= d.value()
            &&& d.value() * d.value() <= u2 + 194 * (hair() * pow2(149))
            &&& u2 <= d.value() * d.value() + 194 * (hair() * pow2(149))
        }),
{
    let s = pow2(149);
    let q = squares(x, y);
    let d = q.root_spec().value();
    lemma_dot_off(x, x, y, y, 4);
    lemma_squares_sign(x, y);
    lemma_root_off(q, 32);
    lemma_add_up(
        x.value() * x.value() + y.value() * y.value(),
        q.value() * s,
        d * d,
        (hair() * s) as int,
    );
}

/// A way within reach is short.
proof fn lemma_small(x: int, y: int, rad: nat)
    requires
        rad <= 100,
        x * x + y * y + 900 <= 36 * (rad * rad),
    ensures
        within(x, 0, 600),
{
    lemma_mul_upper_bound(rad as int, 100, rad as int, 100);
    assert(y * y >= 0) by (nonlinear_arith);
    assert(-600 <= x <= 600) by (nonlinear_arith)
        requires
            x * x <= 360_000,
    ;
}

/// The way to the nearest point of a stretch against that to another.
proof fn lemma_far_along(u2: int, q: int, f2: int, s: int, h: int)
    requires
        s > 0,
        u2 * (s * s) <= q + 96 * (h * (s * (s * s))),
        q * (60 * 60) <= f2 * (s * s) + (80 * (h * (s * (s * s)))) * (60 * 60),
    ensures
        3600 * u2 <= f2 + 633_600 * (h * s),
{
    let hs = h * s;
    assert(h * (s * (s * s)) == hs * (s * s)) by (nonlinear_arith)
        requires
            hs == h * s,
    ;
    lemma_mul_strictly_positive(s, s);
    lemma_mul_is_associative(3600, u2, s * s);
    lemma_mul_is_associative(633_600, hs, s * s);
    let v = u2 * (s * s);
    let w = hs * (s * s);
    assert(v <= q + 96 * w);
    let z = h * (s * (s * s));
    assert(q * (60 * 60) == 3600 * q) by (nonlinear_arith);
    assert((80 * z) * (60 * 60) == 288_000 * z) by (nonlinear_arith);
    assert(3600 * q <= f2 * (s * s) + 288_000 * w);
    assert((3600 * u2) * (s * s) == 3600 * v);
    assert((633_600 * hs) * (s * s) == 633_600 * w);
    lemma_drop(3600 * u2, f2, 633_600 * hs, s * s);
}

} // verus!
