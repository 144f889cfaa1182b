//! Where the lobes are: what the rounded outline decides of a cell, from exact
//! places.
use crate::distance::{
    hair, lemma_bounds, lemma_drop, lemma_hair, lemma_root_off, lemma_within_times,
};
use crate::lung::{
    cell_pos_spec, depth_spec, half_width_spec, hundredths, in_lobe_spec, in_notch_spec, inner_spec,
    Point,
};
use crate::margin::{
    lemma_minus_off, lemma_over_off, lemma_plus_off, lemma_rounded_off, lemma_times_off, within,
};
use crate::reach::{is_at, lemma_gap, sits};
use crate::single::{
    lemma_exact, lemma_negated, lemma_plus_exact, lemma_rounded_bounds, lemma_value_order,
    lemma_whole, lemma_zero, Single,
};
use vstd::arithmetic::mul::*;
use vstd::arithmetic::power2::*;
use vstd::prelude::*;

verus! {

/// How far a column is from the midline, in half columns.
pub open spec fn off_midline(c: int) -> int {
    if c < 20 {
        39 - 2 * c
    } else {
        2 * c - 39
    }
}

/// So many halves of one.
proof fn lemma_halves(n: int)
    requires
        -100 <= n <= 100,
    ensures
        ({
            let m: nat = if n < 0 {
                (-n) as nat
            } else {
                n as nat
            };
            let v = Single::rounded(false, m * pow2(148), 1);
            let w = if n < 0 {
                v.negated_spec()
            } else {
                v
            };
            &&& w.finite()
            &&& 2 * w.value() == n * pow2(149)
        }),
{
    let m: nat = if n < 0 {
        (-n) as nat
    } else {
        n as nat
    };
    let v = Single::rounded(false, m * pow2(148), 1);
    lemma_exact(m, 148);
    lemma_negated(v);
    lemma_pow2_adds(1, 148);
    lemma2_to64();
    assert(2 * (m * pow2(148)) == m * (2 * pow2(148))) by (nonlinear_arith);
    lemma_mul_unary_negation(m as int, pow2(149) as int);
}

/// One coordinate of a cell: `n` cells less `m` half cells, which is its way from
/// the middle of the grid, as a share of `d` cells.
proof fn lemma_coordinate(n: nat, m: nat, d: nat)
    requires
        n <= 40,
        (m == 39 && d == 20) || (m == 23 && d == 12),
        -2 * d < 2 * n - m < 2 * d,
    ensures
        ({
            let v = Single::whole_spec(n).minus_spec(Single::ratio_spec(m, 2)).over_spec(
                Single::whole_spec(d),
            );
            &&& v.finite()
            &&& v.size() <= pow2(149)
            &&& m == 39 ==> within(40 * v.value(), (2 * n - m) * pow2(149), 40 * hair())
            &&& m == 23 ==> within(24 * v.value(), (2 * n - m) * pow2(149), 24 * hair())
            &&& v.neg() == (2 * n < m)
        }),
{
    let s = pow2(149);
    let half = Single::ratio_spec(m, 2);
    let e: int = 2 * n - m;
    let en: nat = if e < 0 {
        (-e) as nat
    } else {
        e as nat
    };
    let pos = Single::rounded(false, en * pow2(148), 1);
    let w = if e < 0 {
        pos.negated_spec()
    } else {
        pos
    };
    lemma_hair();
    lemma_halves(e);
    lemma_halves(m as int);
    let mid = Single::rounded(false, m * pow2(148), 1);
    lemma_pow2_adds(1, 148);
    lemma2_to64();
    lemma_pow2_pos(148);
    assert(mid.size() * 2 == m * s);
    lemma_exact(m, 148);
    lemma_rounded_bounds(m * s, 2, mid);
    assert(half.finite() && half.value() == mid.value());
    lemma_whole(n);
    lemma_whole(d);
    lemma_negated(half);
    assert(2 * (n * s) - m * s == e * s) by (nonlinear_arith)
        requires
            e == 2 * n - m,
    ;
    lemma_plus_exact(Single::whole_spec(n), half.negated_spec(), w);
    let q = Single::whole_spec(n).minus_spec(half);
    lemma_mul_strictly_positive(d as int, s as int);
    lemma_small_enough(e, d, s);
    assert(q.size() * s <= (0x100_0000 * pow2(125)) * (d * s)) by {
        lemma_mul_inequality(q.size() as int, (d * s) as int, s as int);
        lemma_mul_is_commutative((d * s) as int, s as int);
    }
    lemma_over_off(q, Single::whole_spec(d), 125);
    let v = q.over_spec(Single::whole_spec(d));
    lemma_drop_unit(v.value(), q.value(), d, s, hair());
    if m == 39 {
        assert(d * v.value() == 20 * v.value() && d * hair() == 20 * hair());
    } else {
        assert(d * v.value() == 12 * v.value() && d * hair() == 12 * hair());
    }
    if e > 0 {
        lemma_mul_strictly_positive(e, s as int);
    } else {
        lemma_mul_strictly_positive(-e, s as int);
        lemma_mul_unary_negation(e, s as int);
    }
}

/// Half of less than twice is less than the whole.
proof fn lemma_small_enough(e: int, d: nat, s: nat)
    requires
        -2 * d < e < 2 * d,
    ensures
        -(2 * (d * s)) <= e * s <= 2 * (d * s),
{
    lemma_mul_inequality(e, (2 * d) as int, s as int);
    lemma_mul_inequality(-(2 * d) as int, e, s as int);
    assert((2 * d) * s == 2 * (d * s)) by (nonlinear_arith);
    assert((-(2 * d)) * s == -(2 * (d * s))) by (nonlinear_arith);
}

/// A common factor is dropped from a quotient.
proof fn lemma_drop_unit(v: int, q: int, d: nat, s: nat, h: nat)
    requires
        s > 0,
        within(v * (d * s), q * s, h * (d * s)),
    ensures
        within(d * v, q, d * h),
{
    assert(v * (d * s) == (d * v) * s) by (nonlinear_arith);
    assert(h * (d * s) == (d * h) * s) by (nonlinear_arith);
    lemma_drop(d * v, q, (d * h) as int, s as int);
    lemma_drop(q, d * v, (d * h) as int, s as int);
}

/// Where a cell is: in parts, of which one has six thousand.
pub proof fn lemma_cell_place(c: nat, r: nat)
    requires
        c < 40,
        r < 24,
    ensures
        is_at(cell_pos_spec(c, r), 150 * (2 * c - 39), 250 * (2 * r - 23)),
        sits(cell_pos_spec(c, r).x.abs_spec(), 150 * off_midline(c as int)),
        cell_pos_spec(c, r).x.lt_spec(Single::zero_spec()) == (c < 20),
{
    let s = pow2(149);
    let p = cell_pos_spec(c, r);
    lemma_coordinate(c, 39, 20);
    lemma_coordinate(r, 23, 12);
    lemma_mul_is_associative(150, 2 * c - 39, s as int);
    lemma_mul_is_associative(250, 2 * r - 23, s as int);
    lemma_mul_is_associative(150, off_midline(c as int), s as int);
    assert(sits(p.x, 150 * (2 * c - 39)));
    assert(sits(p.y, 250 * (2 * r - 23)));
    let zero = Single::zero_spec();
    lemma_zero(zero);
    lemma_value_order(p.x, zero);
    lemma_hair();
    if c < 20 {
        lemma_negated(p.x);
        assert(p.x.abs_spec().finite() && p.x.abs_spec().value() == -p.x.value()) by {
            assert(p.x.abs_spec() == p.x.negated_spec());
        }
        lemma_mul_unary_negation(off_midline(c as int), s as int);
        lemma_mul_inequality(1, off_midline(c as int), s as int);
    } else {
        assert(p.x.abs_spec() == p.x);
    }
}

/// Hundredths, in such parts.
pub proof fn lemma_hundredths(n: int)
    requires
        -100 <= n <= 100,
    ensures
        sits(hundredths(n), 60 * n),
{
    let s = pow2(149);
    let m: nat = if n < 0 {
        (-n) as nat
    } else {
        n as nat
    };
    lemma_hair();
    lemma_zero(Single::zero_spec());
    lemma_mul_inequality(m as int, 100, s as int);
    lemma_rounded_off(m * s, 100, 125);
    lemma_negated(Single::ratio_spec(m, 100));
    lemma_mul_is_associative(60, n, s as int);
    lemma_mul_unary_negation(m as int, s as int);
    lemma_mul_basics(s as int);
}

/// A number is `n` of `d` parts of one, within so many hairs of the parts.
pub open spec fn is_about(v: Single, n: int, d: int, e: nat) -> bool {
    v.finite() && within(d * v.value(), n * pow2(149), e * hair())
}

/// A product of two numbers that are about what they should be. The first is at
/// most `am` of its parts, the second at most `bm`; rounding takes `em` hairs.
proof fn lemma_product(
    x: int,
    y: int,
    m: int,
    a: nat,
    na: int,
    ea: nat,
    am: nat,
    b: nat,
    nb: int,
    eb: nat,
    bm: nat,
    em: nat,
    s: nat,
    h: nat,
    e: nat,
)
    requires
        s > 0,
        within(a * x, na * s, ea * h),
        within(na, 0, am),
        within(b * y, nb * s, eb * h),
        within(b * y, 0, bm * s),
        within(m * s, x * y, em * (h * s)),
        ea * bm + am * eb + (a * b) * em <= e,
    ensures
        within((a * b) * m, (na * nb) * s, e * h),
{
    let hs = h * s;
    let dx = a * x - na * s;
    let dy = b * y - nb * s;
    lemma_bounds(dx, b * y, ea * h, bm * s);
    lemma_bounds(na, s as int, am, s);
    lemma_bounds(na * s, dy, am * s, eb * h);
    let ab = a * b;
    assert(dx * (b * y) + (na * s) * dy == ab * (x * y) - ((na * nb) * s) * s) by {
        lemma_split(a * x, na * s, b * y, nb * s);
        assert((a * x) * (b * y) == (a * b) * (x * y)) by (nonlinear_arith);
        assert((na * s) * (nb * s) == ((na * nb) * s) * s) by (nonlinear_arith);
    }
    assert((ea * h) * (bm * s) == (ea * bm) * hs) by (nonlinear_arith)
        requires
            hs == h * s,
    ;
    assert((am * s) * (eb * h) == (am * eb) * hs) by (nonlinear_arith)
        requires
            hs == h * s,
    ;
    lemma_within_times(m * s, x * y, em * hs, ab);
    assert((m * s) * ab == (ab * m) * s) by (nonlinear_arith);
    assert((x * y) * ab == ab * (x * y)) by (nonlinear_arith);
    assert((em * hs) * ab == (ab * em) * hs) by (nonlinear_arith);
    let f = ea * bm + am * eb + ab * em;
    assert(f * hs == (ea * bm) * hs + (am * eb) * hs + (ab * em) * hs) by (nonlinear_arith)
        requires
            f == ea * bm + am * eb + ab * em,
    ;
    lemma_mul_inequality(f as int, e as int, hs as int);
    assert(e * hs == (e * h) * s) by (nonlinear_arith)
        requires
            hs == h * s,
    ;
    lemma_drop(ab * m, (na * nb) * s, (e * h) as int, s as int);
    lemma_drop((na * nb) * s, ab * m, (e * h) as int, s as int);
}

/// The difference of two products.
proof fn lemma_split(a: int, b: int, c: int, d: int)
    ensures
        (a - b) * c + b * (c - d) == a * c - b * d,
{
    lemma_mul_is_distributive_sub_other_way(c, a, b);
    lemma_mul_is_distributive_sub(b, c, d);
}

/// The length of the lobes, from apex to base.
pub open spec fn lobe_length() -> Single {
    hundredths(96).minus_spec(hundredths(-86))
}

/// A share of the length of the lobes: `n` parts of it, of which it has 10920.
proof fn lemma_lobe_share(e: Single, n: int)
    requires
        e.finite(),
        e.size() <= 2 * pow2(149),
        10 <= n <= 10_910,
        within(6000 * e.value(), n * pow2(149), 24_000 * hair()),
    ensures
        is_about(e.over_spec(lobe_length()), n, 10_920, 59_000),
        0 <= e.over_spec(lobe_length()).value() <= pow2(149),
{
    let s = pow2(149);
    let h = hair();
    let len = lobe_length();
    lemma_hair();
    lemma_hundredths(96);
    lemma_hundredths(-86);
    lemma_gap(hundredths(96), hundredths(-86), 5760, -5160);
    let l = len.value();
    assert(within(6000 * l, (10_920 * s) as int, 24_000 * h));
    lemma_mul_inequality(10, n, s as int);
    lemma_mul_inequality(n, 10_910, s as int);
    assert(e.value() > 0 && l > 0 && e.value() <= l);
    assert(e.size() * s <= (0x100_0000 * pow2(125)) * len.size()) by {
        lemma_mul_inequality(e.size() as int, len.size() as int, s as int);
        lemma_mul_is_commutative(len.size() as int, s as int);
    }
    lemma_over_off(e, len, 125);
    let q = e.over_spec(len).value();
    lemma_share_exact(q, l, e.value(), n, s, h);
}

/// The exact share.
proof fn lemma_share_exact(q: int, l: int, e: int, n: int, s: nat, h: nat)
    requires
        s > 0,
        24_000 * h <= s,
        0 <= q <= s,
        l > 0,
        within(6000 * l, (10_920 * s) as int, 24_000 * h),
        within(6000 * e, n * s, 24_000 * h),
        within(q * l, e * s, (h * l) as nat),
    ensures
        within(10_920 * q, n * s, 59_000 * h),
{
    let hs = h * s;
    lemma_within_times(6000 * l, (10_920 * s) as int, 24_000 * h, q as nat);
    lemma_within_times(6000 * e, n * s, 24_000 * h, s);
    assert((6000 * l) * q == 6000 * (q * l)) by (nonlinear_arith);
    assert((10_920 * s) * q == (10_920 * q) * s) by (nonlinear_arith);
    assert((6000 * e) * s == 6000 * (e * s)) by (nonlinear_arith);
    assert((24_000 * h) * s == 24_000 * hs) by (nonlinear_arith)
        requires
            hs == h * s,
    ;
    assert((24_000 * h) * q <= 24_000 * hs) by {
        lemma_mul_inequality(q, s as int, (24_000 * h) as int);
        lemma_mul_is_commutative(q, (24_000 * h) as int);
        lemma_mul_is_commutative(s as int, (24_000 * h) as int);
    }
    assert(6000 * (h * l) <= 10_921 * hs) by {
        lemma_mul_inequality(6000 * l, (10_921 * s) as int, h as int);
        assert((6000 * l) * h == 6000 * (h * l)) by (nonlinear_arith);
        assert((10_921 * s) * h == 10_921 * hs) by (nonlinear_arith)
            requires
                hs == h * s,
        ;
    }
    assert((59_000 * h) * s == 59_000 * hs) by (nonlinear_arith)
        requires
            hs == h * s,
    ;
    lemma_mul_nonnegative(h as int, s as int);
    lemma_drop(10_920 * q, n * s, (59_000 * h) as int, s as int);
    lemma_drop(n * s, 10_920 * q, (59_000 * h) as int, s as int);
}

/// A factor over one: `n` hundredths, up to four.
proof fn lemma_factor(n: nat)
    requires
        n == 130 || n == 380,
    ensures
        is_about(hundredths(n as int), n as int, 100, 400),
        0 < hundredths(n as int).value() <= 4 * pow2(149),
{
    let s = pow2(149);
    lemma_hair();
    lemma_rounded_off(n * s, 100, 127);
    assert(n * s == 130 * s || n * s == 380 * s);
}

/// How deep a row is: a share of the length of the lobes.
proof fn lemma_depth(y: Single, n: int)
    requires
        10 <= n <= 10_910,
        sits(y, n - 5160),
    ensures
        is_about(depth_spec(y), n, 10_920, 59_000),
        0 <= depth_spec(y).value() <= pow2(149),
{
    lemma_hundredths(-86);
    lemma_gap(y, hundredths(-86), n - 5160, -5160);
    lemma_lobe_share(y.minus_spec(hundredths(-86)), n);
}

/// What the half width of the lungs is a root of.
pub open spec fn widening(depth: Single) -> Single {
    depth.times_spec(hundredths(130)).min_spec(Single::whole_spec(1))
}

/// The half width goes with the root of the depth, up to where it is one.
proof fn lemma_widening(depth: Single, n: int)
    requires
        10 <= n <= 10_910,
        is_about(depth, n, 10_920, 59_000),
        0 <= depth.value() <= pow2(149),
    ensures
        ({
            let z = widening(depth);
            &&& z.finite()
            &&& !z.neg()
            &&& z.value() <= pow2(149)
            &&& 8400 * z.value() <= n * pow2(149) + 130_000 * hair()
            &&& z.value() == pow2(149) || 8400 * z.value() >= n * pow2(149) - 130_000 * hair()
        }),
{
    let s = pow2(149);
    let h = hair();
    let c = hundredths(130);
    lemma_hair();
    lemma_factor(130);
    assert(depth.size() * c.size() <= (0x100_0000 * pow2(127)) * s) by {
        lemma_mul_upper_bound(depth.size() as int, s as int, c.size() as int, (4 * s) as int);
        assert(s * (4 * s) == (4 * s) * s) by (nonlinear_arith);
    }
    lemma_times_off(depth, c, 127);
    let m = depth.times_spec(c);
    lemma_mul_is_commutative(depth.value(), c.value());
    assert((4 * h) * s == 4 * (h * s)) by (nonlinear_arith);
    lemma_mul_inequality(10, n, s as int);
    lemma_mul_inequality(n, 10_910, s as int);
    lemma_product(
        c.value(),
        depth.value(),
        m.value(),
        100,
        130,
        400,
        130,
        10_920,
        n,
        59_000,
        10_920,
        4,
        s,
        h,
        16_406_000,
    );
    lemma_mul_is_associative(130, n, s as int);
    let v = m.value();
    assert(130 * (8400 * v) == (100nat * 10_920nat) * v) by (nonlinear_arith);
    let one = Single::whole_spec(1);
    lemma_whole(1);
    lemma_value_order(one, m);
    assert(!m.neg()) by {
        lemma_zero(depth);
    }
}

/// The root of a number that is known within bounds, in parts of six thousand.
proof fn lemma_root_between(r: int, z: int, n: int, lo: int, s: int, h: int)
    requires
        h > 0,
        s == 0x100_0000 * h,
        0 <= r,
        0 <= lo <= 5999,
        0 <= z <= s,
        within(r * r, z * s, (34 * (h * s)) as nat),
        8400 * z <= n * s + 130_000 * h,
        z == s || 8400 * z >= n * s - 130_000 * h,
        8400 * (lo * lo) + 1_000_000 <= 36_000_000 * n,
        lo == 5999 || 8400 * ((lo + 2) * (lo + 2)) >= 36_000_000 * n + 1_000_000,
    ensures
        lo * s <= 6000 * r <= (lo + 2) * s,
{
    let hs = h * s;
    let ss = s * s;
    assert(ss == 0x100_0000 * hs) by (nonlinear_arith)
        requires
            s == 0x100_0000 * h,
            ss == s * s,
            hs == h * s,
    ;
    lemma_mul_strictly_positive(h, s);
    let zs = z * s;
    let nss = n * ss;
    assert(8400 * zs <= nss + 130_000 * hs) by {
        lemma_mul_inequality(8400 * z, n * s + 130_000 * h, s);
        assert((n * s + 130_000 * h) * s == n * (s * s) + 130_000 * (h * s)) by (nonlinear_arith);
        lemma_mul_is_associative(8400, z, s);
    }
    if z != s {
        assert(8400 * zs >= nss - 130_000 * hs) by {
            lemma_mul_inequality(n * s - 130_000 * h, 8400 * z, s);
            assert((n * s - 130_000 * h) * s == n * (s * s) - 130_000 * (h * s))
                by (nonlinear_arith);
            lemma_mul_is_associative(8400, z, s);
        }
    }
    lemma_mul_inequality(z, s, s);
    let rr = r * r;
    assert((6000 * r) * (6000 * r) == 36_000_000 * rr) by (nonlinear_arith)
        requires
            rr == r * r,
    ;
    if 6000 * r < lo * s {
        let l2 = (lo * lo) * ss;
        lemma_mul_upper_bound(6000 * r, lo * s, 6000 * r, lo * s);
        assert((lo * s) * (lo * s) == l2) by (nonlinear_arith)
            requires
                l2 == (lo * lo) * ss,
                ss == s * s,
        ;
        lemma_mul_inequality(8400 * (lo * lo) + 1_000_000, 36_000_000 * n, ss);
        assert((8400 * (lo * lo) + 1_000_000) * ss == 8400 * l2 + 1_000_000 * ss)
            by (nonlinear_arith)
            requires
                l2 == (lo * lo) * ss,
        ;
        lemma_mul_is_associative(36_000_000, n, ss);
        lemma_mul_upper_bound(lo, 5999, lo, 5999);
        lemma_mul_inequality(lo * lo, 35_988_001, ss);
    }
    if 6000 * r > (lo + 2) * s {
        let hi = lo + 2;
        let h2 = (hi * hi) * ss;
        lemma_mul_nonnegative(hi, s);
        lemma_mul_upper_bound(hi * s, 6000 * r, hi * s, 6000 * r);
        assert((hi * s) * (hi * s) == h2) by (nonlinear_arith)
            requires
                h2 == (hi * hi) * ss,
                ss == s * s,
        ;
        if lo == 5999 {
            assert(hi * hi == 36_012_001) by (nonlinear_arith)
                requires
                    hi == 6001,
            ;
        } else {
            lemma_mul_inequality(36_000_000 * n + 1_000_000, 8400 * (hi * hi), ss);
            assert((8400 * (hi * hi)) * ss == 8400 * h2) by (nonlinear_arith)
                requires
                    h2 == (hi * hi) * ss,
            ;
            assert((36_000_000 * n + 1_000_000) * ss == 36_000_000 * (n * ss) + 1_000_000 * ss)
                by (nonlinear_arith);
        }
    }
}

/// The half width of the lungs at a row, in tenths of a part, within fifteen.
/// The root of the depth that it goes with is `lo`, or up to two parts more.
pub proof fn lemma_half_width(y: Single, n: int, lo: int)
    requires
        10 <= n <= 10_910,
        sits(y, n - 5160),
        0 <= lo <= 5999,
        8400 * (lo * lo) + 1_000_000 <= 36_000_000 * n,
        lo == 5999 || 8400 * ((lo + 2) * (lo + 2)) >= 36_000_000 * n + 1_000_000,
    ensures
        ({
            let w = half_width_spec(depth_spec(y));
            &&& w.finite()
            &&& within(60_000 * w.value(), (13_200 + 7 * lo) * pow2(149), 15 * pow2(149))
        }),
{
    let s = pow2(149);
    let h = hair();
    let z = widening(depth_spec(y));
    lemma_hair();
    lemma_depth(y, n);
    lemma_widening(depth_spec(y), n);
    lemma_root_off(z, 8);
    let r = z.root_spec();
    lemma_root_between(r.value(), z.value(), n, lo, s as int, h as int);
    let c = hundredths(70);
    lemma_hundredths(70);
    lemma_hundredths(22);
    lemma_mul_inequality(lo, 5999, s as int);
    lemma_mul_nonnegative(lo, s as int);
    lemma_mul_is_distributive_add_other_way(s as int, lo, 2);
    assert(c.size() * r.size() <= (0x100_0000 * pow2(126)) * s) by {
        lemma_mul_upper_bound(c.size() as int, s as int, r.size() as int, (2 * s) as int);
        assert(s * (2 * s) == (2 * s) * s) by (nonlinear_arith);
    }
    lemma_times_off(c, r, 126);
    let m = c.times_spec(r);
    assert((2 * h) * s == 2 * (h * s)) by (nonlinear_arith);
    lemma_product(
        c.value(),
        r.value(),
        m.value(),
        6000,
        4200,
        6000,
        4200,
        6000,
        lo,
        33_554_432,
        6001,
        2,
        s,
        h,
        141_100_000_000,
    );
    let v = m.value();
    assert(600 * (60_000 * v) == (6000nat * 6000nat) * v) by (nonlinear_arith);
    lemma_mul_is_associative(4200, lo, s as int);
    lemma_plus_off(hundredths(22), m, 126);
    lemma_mul_is_distributive_add_other_way(s as int, 13_200, 7 * lo);
    lemma_mul_is_associative(7, lo, s as int);
}

/// Where a lobe starts at a row, in parts of which one has 65520000.
pub proof fn lemma_inner(y: Single, n: int)
    requires
        10 <= n <= 10_910,
        sits(y, n - 5160),
    ensures
        is_about(
            inner_spec(depth_spec(y)),
            6_552_000 + 540 * (10_920 - n),
            65_520_000,
            370_000_000,
        ),
{
    let s = pow2(149);
    let h = hair();
    let one = Single::whole_spec(1);
    let depth = depth_spec(y);
    lemma_hair();
    lemma_whole(1);
    lemma_depth(y, n);
    lemma_minus_off(one, depth, 125);
    let e = one.minus_spec(depth);
    let c = hundredths(9);
    lemma_hundredths(9);
    lemma_hundredths(10);
    assert(within(10_920 * e.value(), (10_920 - n) * s, 69_920 * h)) by {
        lemma_mul_is_distributive_sub_other_way(s as int, 10_920, n);
    }
    assert(c.size() * e.size() <= (0x100_0000 * pow2(125)) * s) by {
        lemma_mul_upper_bound(c.size() as int, s as int, e.size() as int, s as int);
    }
    lemma_times_off(c, e, 125);
    let m = c.times_spec(e);
    assert(1 * (h * s) == h * s);
    lemma_product(
        c.value(),
        e.value(),
        m.value(),
        6000,
        540,
        6000,
        540,
        10_920,
        10_920 - n,
        69_920,
        10_920,
        1,
        s,
        h,
        168_796_800,
    );
    let v = m.value();
    assert(65_520_000 * v == (6000nat * 10_920nat) * v) by (nonlinear_arith);
    lemma_plus_off(hundredths(10), m, 126);
    lemma_mul_is_distributive_add_other_way(s as int, 6_552_000, 540 * (10_920 - n));
}

/// How far a row is from the base: a share of the length of the lobes.
pub open spec fn from_base(y: Single) -> Single {
    hundredths(96).minus_spec(y).over_spec(lobe_length())
}

/// How far a row is from the base, and whether the corner is rounded off there.
pub proof fn lemma_from_base(y: Single, n: int)
    requires
        10 <= n <= 10_910,
        sits(y, 5760 - n),
    ensures
        is_about(from_base(y), n, 10_920, 59_000),
        0 <= from_base(y).value() <= pow2(149),
        n <= 1510 ==> from_base(y).lt_spec(hundredths(14)),
        n >= 1550 ==> !from_base(y).lt_spec(hundredths(14)),
{
    let s = pow2(149);
    lemma_hair();
    lemma_hundredths(96);
    lemma_hundredths(14);
    lemma_gap(hundredths(96), y, 5760, 5760 - n);
    lemma_lobe_share(hundredths(96).minus_spec(y), n);
    lemma_value_order(from_base(y), hundredths(14));
    if n <= 1510 {
        lemma_mul_inequality(n, 1510, s as int);
    }
    if n >= 1550 {
        lemma_mul_inequality(1550, n, s as int);
    }
}

/// Where the rounded-off corner starts at a row, in parts of which one has
/// 6552000000, within so many.
pub proof fn lemma_corner(y: Single, n: int, lo: int)
    requires
        9410 <= n <= 10_910,
        sits(y, n - 5160),
        0 <= lo <= 5999,
        8400 * (lo * lo) + 1_000_000 <= 36_000_000 * n,
        lo == 5999 || 8400 * ((lo + 2) * (lo + 2)) >= 36_000_000 * n + 1_000_000,
    ensures
        ({
            let w = half_width_spec(depth_spec(y));
            let m = hundredths(14).minus_spec(from_base(y)).times_spec(hundredths(380));
            let cut = w.minus_spec(m);
            let most = 9_172_800 - 6000 * (10_920 - n);
            &&& cut.finite()
            &&& within(
                6_552_000_000 * cut.value(),
                (109_200 * (13_200 + 7 * lo) - 380 * most) * pow2(149),
                1_800_000 * pow2(149),
            )
        }),
{
    let s = pow2(149);
    let h = hair();
    let k: int = 10_920 - n;
    let w = half_width_spec(depth_spec(y));
    let fb = from_base(y);
    let c = hundredths(380);
    let g = hundredths(14).minus_spec(fb);
    let most = 9_172_800 - 6000 * k;
    lemma_hair();
    lemma_half_width(y, n, lo);
    lemma_from_base(y, k);
    lemma_hundredths(14);
    lemma_factor(380);
    lemma_mul_inequality(k, 1510, s as int);
    lemma_mul_nonnegative(k, s as int);
    lemma_minus_off(hundredths(14), fb, 125);
    assert(within(65_520_000 * g.value(), most * s, 485_040_000 * h)) by {
        lemma_mul_is_distributive_sub_other_way(s as int, 9_172_800, 6000 * k);
        lemma_mul_is_associative(6000, k, s as int);
    }
    assert(c.size() * g.size() <= (0x100_0000 * pow2(127)) * s) by {
        lemma_mul_upper_bound(c.size() as int, (4 * s) as int, g.size() as int, s as int);
    }
    lemma_times_off(c, g, 127);
    let m = c.times_spec(g);
    assert(g.times_spec(c) == m) by {
        reveal(Single::times_spec);
        lemma_mul_is_commutative(c.size() as int, g.size() as int);
    }
    assert((4 * h) * s == 4 * (h * s)) by (nonlinear_arith);
    lemma_product(
        c.value(),
        g.value(),
        m.value(),
        100,
        380,
        400,
        380,
        65_520_000,
        most,
        485_040_000,
        65_520_000,
        4,
        s,
        h,
        240_000_000_000,
    );
    let v = m.value();
    assert(6_552_000_000 * v == (100nat * 65_520_000nat) * v) by (nonlinear_arith);
    lemma_mul_inequality(lo, 5999, s as int);
    lemma_mul_nonnegative(lo, s as int);
    lemma_mul_is_distributive_add_other_way(s as int, 13_200, 7 * lo);
    lemma_mul_is_associative(7, lo, s as int);
    lemma_minus_off(w, m, 128);
    let f = 13_200 + 7 * lo;
    lemma_mul_is_distributive_sub_other_way(s as int, 109_200 * f, 380 * most);
    lemma_mul_is_associative(109_200, f, s as int);
    lemma_mul_is_associative(380, most, s as int);
}

/// A coordinate of the cardiac notch: `n` parts from its middle, as a share of
/// `d`.
proof fn lemma_notch_share(g: Single, c: Single, n: int, d: nat)
    requires
        d == 1560 || d == 2520,
        within(n, 0, 3 * d + 1000),
        sits(c, d as int),
        g.finite(),
        g.size() <= 2 * pow2(149),
        within(6000 * g.value(), n * pow2(149), 24_000 * hair()),
    ensures
        ({
            let u = g.over_spec(c);
            &&& is_about(u, n, d as int, 60_000)
            &&& within(u.value(), 0, 4 * pow2(149))
        }),
{
    let s = pow2(149);
    let h = hair();
    let l = c.value();
    lemma_hair();
    lemma_bounds(n, s as int, 3 * d + 1000, s);
    assert((3 * d + 1000) * s == 5680 * s || (3 * d + 1000) * s == 8560 * s);
    assert(d * s == 1560 * s || d * s == 2520 * s);
    assert(g.size() <= 4 * c.size());
    assert(g.size() * s <= (0x100_0000 * pow2(127)) * c.size()) by {
        lemma_mul_inequality(g.size() as int, (4 * c.size()) as int, s as int);
        assert((4 * c.size()) * s == (4 * s) * c.size()) by (nonlinear_arith);
    }
    lemma_over_off(g, c, 127);
    let u = g.over_spec(c).value();
    let hs = h * s;
    lemma_bounds(u, 6000 * l - d * s, 4 * s, 6000 * h);
    assert((4 * s) * (6000 * h) == 24_000 * hs) by (nonlinear_arith)
        requires
            hs == h * s,
    ;
    assert(u * (6000 * l - d * s) == 6000 * (u * l) - (d * u) * s) by (nonlinear_arith);
    lemma_within_times(6000 * g.value(), n * s, 24_000 * h, s);
    assert((6000 * g.value()) * s == 6000 * (g.value() * s)) by (nonlinear_arith);
    assert((24_000 * h) * s == 24_000 * hs) by (nonlinear_arith)
        requires
            hs == h * s,
    ;
    assert(6000 * ((4 * h) * l) <= 11_000 * hs) by {
        lemma_mul_inequality(24_000 * l, (11_000 * s) as int, h as int);
        assert((24_000 * l) * h == 6000 * ((4 * h) * l)) by (nonlinear_arith);
        assert((11_000 * s) * h == 11_000 * hs) by (nonlinear_arith)
            requires
                hs == h * s,
        ;
    }
    assert((60_000 * h) * s == 60_000 * hs) by (nonlinear_arith)
        requires
            hs == h * s,
    ;
    lemma_drop(d * u, n * s, (60_000 * h) as int, s as int);
    lemma_drop(n * s, d * u, (60_000 * h) as int, s as int);
}

/// A number up to four, in parts.
proof fn lemma_wide(v: int, s: nat)
    requires
        within(v, 0, 4 * s),
    ensures
        within(1560 * v, 0, 6240 * s),
        within(2520 * v, 0, 10_080 * s),
{
}

/// The square of such a share.
proof fn lemma_notch_square(u: Single, n: int, d: nat)
    requires
        d == 1560 || d == 2520,
        within(n, 0, 3 * d + 1000),
        is_about(u, n, d as int, 60_000),
        within(u.value(), 0, 4 * pow2(149)),
    ensures
        ({
            let m = u.times_spec(u);
            &&& m.finite()
            &&& within(m.value(), 0, 16 * pow2(149))
            &&& d == 1560 ==> is_about(m, n * n, 2_433_600, 800_000_000)
            &&& d == 2520 ==> is_about(m, n * n, 6_350_400, 1_400_000_000)
        }),
{
    let s = pow2(149);
    let h = hair();
    lemma_hair();
    assert(u.size() * u.size() <= (0x100_0000 * pow2(129)) * s) by {
        lemma_mul_upper_bound(
            u.size() as int,
            (4 * s) as int,
            u.size() as int,
            (4 * s) as int,
        );
        assert((4 * s) * (4 * s) == (16 * s) * s) by (nonlinear_arith);
    }
    lemma_times_off(u, u, 129);
    assert((16 * h) * s == 16 * (h * s)) by (nonlinear_arith);
    let v = u.value();
    let m = u.times_spec(u).value();
    lemma_wide(v, s);
    if d == 1560 {
        lemma_product(v, v, m, 1560, n, 60_000, 5680, 1560, n, 60_000, 6240, 16, s, h, 800_000_000);
        assert((1560nat * 1560nat) * m == 2_433_600 * m) by (nonlinear_arith);
    } else {
        lemma_product(
            v,
            v,
            m,
            2520,
            n,
            60_000,
            8560,
            2520,
            n,
            60_000,
            10_080,
            16,
            s,
            h,
            1_400_000_000,
        );
        assert((2520nat * 2520nat) * m == 6_350_400 * m) by (nonlinear_arith);
    }
}

/// How far a point is from the middle of the cardiac notch: in the notch it is
/// less than one.
pub open spec fn notch_spread(p: Point) -> Single {
    let u = p.x.abs_spec().minus_spec(hundredths(14)).over_spec(hundredths(26));
    let v = p.y.minus_spec(hundredths(46)).over_spec(hundredths(42));
    u.times_spec(u).plus_spec(v.times_spec(v))
}

/// One coordinate of that: of a place `x`, from the middle at `n` hundredths, as a
/// share of `d` hundredths.
proof fn lemma_notch_way(v: Single, x: int, n: int, d: nat)
    requires
        sits(v, x),
        (n == 14 && d == 26 && 0 <= x <= 6000) || (n == 46 && d == 42 && -5800 <= x <= 6000),
    ensures
        ({
            let u = v.minus_spec(hundredths(n)).over_spec(hundredths(d as int));
            let m = u.times_spec(u);
            let a = x - 60 * n;
            &&& within(m.value(), 0, 16 * pow2(149))
            &&& n == 14 ==> is_about(m, a * a, 2_433_600, 800_000_000)
            &&& n == 46 ==> is_about(m, a * a, 6_350_400, 1_400_000_000)
        }),
{
    lemma_hundredths(n);
    lemma_hundredths(d as int);
    lemma_gap(v, hundredths(n), x, 60 * n);
    let g = v.minus_spec(hundredths(n));
    lemma_notch_share(g, hundredths(d as int), x - 60 * n, 60 * d);
    lemma_notch_square(g.over_spec(hundredths(d as int)), x - 60 * n, 60 * d);
}

/// How far a point at a place, in parts, is from the middle of the notch.
proof fn lemma_notch_spread(p: Point, x: int, y: int)
    requires
        0 <= x <= 6000,
        -5800 <= y <= 6000,
        sits(p.x.abs_spec(), x),
        sits(p.y, y),
    ensures
        is_about(
            notch_spread(p),
            1764 * ((x - 840) * (x - 840)) + 676 * ((y - 2760) * (y - 2760)),
            4_292_870_400,
            3_000_000_000_000,
        ),
{
    let u = p.x.abs_spec().minus_spec(hundredths(14)).over_spec(hundredths(26));
    let v = p.y.minus_spec(hundredths(46)).over_spec(hundredths(42));
    lemma_notch_way(p.x.abs_spec(), x, 14, 26);
    lemma_notch_way(p.y, y, 46, 42);
    lemma_notch_sum(
        u.times_spec(u),
        v.times_spec(v),
        (x - 840) * (x - 840),
        (y - 2760) * (y - 2760),
    );
}

/// Whether a point left of the midline, at a place in parts, is in the cardiac
/// notch.
pub proof fn lemma_notch(p: Point, x: int, y: int, e: int)
    requires
        0 <= x <= 6000,
        -5800 <= y <= 6000,
        sits(p.x.abs_spec(), x),
        sits(p.y, y),
        p.x.lt_spec(Single::zero_spec()),
        e == 1764 * ((x - 840) * (x - 840)) + 676 * ((y - 2760) * (y - 2760)),
    ensures
        e + 200_000 <= 4_292_870_400 ==> in_notch_spec(p),
        e >= 4_292_870_400 + 200_000 ==> !in_notch_spec(p),
{
    let s = pow2(149);
    let q = notch_spread(p);
    let one = Single::whole_spec(1);
    lemma_hair();
    lemma_whole(1);
    lemma_notch_spread(p, x, y);
    lemma_value_order(q, one);
    if e + 200_000 <= 4_292_870_400 {
        lemma_mul_inequality(e, 4_292_670_400, s as int);
    }
    if e >= 4_292_870_400 + 200_000 {
        lemma_mul_inequality(4_293_070_400, e, s as int);
    }
}

/// The sum of the squares of the two shares.
proof fn lemma_notch_sum(a: Single, b: Single, m: int, n: int)
    requires
        is_about(a, m, 2_433_600, 800_000_000),
        is_about(b, n, 6_350_400, 1_400_000_000),
        within(a.value(), 0, 16 * pow2(149)),
        within(b.value(), 0, 16 * pow2(149)),
    ensures
        is_about(a.plus_spec(b), 1764 * m + 676 * n, 4_292_870_400, 3_000_000_000_000),
{
    let s = pow2(149);
    lemma_hair();
    lemma_plus_off(a, b, 130);
    let e = 1764 * m + 676 * n;
    assert(e * s == 1764 * (m * s) + 676 * (n * s)) by (nonlinear_arith)
        requires
            e == 1764 * m + 676 * n,
    ;
}

/// The depth of a row in the lobes, in parts of which their length has 10920.
pub open spec fn row_depth(r: int) -> int {
    500 * r - 590
}

/// The root that the half width at a row goes with: `lo`, or up to two parts
/// more.
pub open spec fn is_row_root(r: int, lo: int) -> bool {
    &&& 0 <= lo <= 5999
    &&& 8400 * (lo * lo) + 1_000_000 <= 36_000_000 * row_depth(r)
    &&& lo == 5999 || 8400 * ((lo + 2) * (lo + 2)) >= 36_000_000 * row_depth(r) + 1_000_000
}

/// Where the rounded-off corner starts at a row.
pub open spec fn row_corner(r: int, lo: int) -> int {
    109_200 * (13_200 + 7 * lo) - 380 * (9_172_800 - 6000 * (10_920 - row_depth(r)))
}

/// A cell of a row is inside the outline of the lobes, with room for what
/// rounding takes. The cell is `k` half columns from the midline.
pub open spec fn is_well_inside(k: int, r: int, lo: int) -> bool {
    &&& 1500 * k + 16 <= 13_200 + 7 * lo
    &&& 1_638_000 * k >= 6_552_000 + 540 * (10_920 - row_depth(r)) + 40
    &&& r >= 20 ==> 163_800_000 * k + 1_900_000 <= row_corner(r, lo)
}

/// A cell of a row is outside the outline of the lobes, with room for what
/// rounding takes.
pub open spec fn is_well_outside(k: int, r: int, lo: int) -> bool {
    ||| 1500 * k >= 13_200 + 7 * lo + 16
    ||| 1_638_000 * k + 40 <= 6_552_000 + 540 * (10_920 - row_depth(r))
    ||| r >= 20 && 163_800_000 * k >= row_corner(r, lo) + 1_900_000
}

/// What the rounded outline decides of a cell.
pub proof fn lemma_in_lobe(p: Point, k: int, r: int, lo: int)
    requires
        2 <= r < 24,
        0 <= k < 40,
        sits(p.x.abs_spec(), 150 * k),
        sits(p.y, 250 * (2 * r - 23)),
        is_row_root(r, lo),
    ensures
        is_well_inside(k, r, lo) ==> in_lobe_spec(p),
        is_well_outside(k, r, lo) ==> !in_lobe_spec(p),
{
    let s: int = pow2(149) as int;
    let n = row_depth(r);
    let ax = p.x.abs_spec();
    lemma_hair();
    lemma_between_ends(p.y, n);
    lemma_half_width(p.y, n, lo);
    lemma_value_order(half_width_spec(depth_spec(p.y)), ax);
    lemma_against(1500 * k, 13_200 + 7 * lo, s);
    lemma_inner(p.y, n);
    lemma_value_order(ax, inner_spec(depth_spec(p.y)));
    lemma_against(1_638_000 * k, 6_552_000 + 540 * (10_920 - n), s);
    lemma_mul_is_associative(150, k, s);
    lemma_mul_is_associative(1500, k, s);
    lemma_mul_is_associative(1_638_000, k, s);
    lemma_from_base(p.y, 10_920 - n);
    if r >= 20 {
        let cut = half_width_spec(depth_spec(p.y)).minus_spec(
            hundredths(14).minus_spec(from_base(p.y)).times_spec(hundredths(380)),
        );
        lemma_corner(p.y, n, lo);
        lemma_value_order(cut, ax);
        lemma_mul_is_associative(163_800_000, k, s);
        lemma_against(163_800_000 * k, row_corner(r, lo), s);
    }
}

/// What is more by so many stays so when it is multiplied.
proof fn lemma_against(a: int, b: int, s: int)
    requires
        s > 0,
    ensures
        a + 16 <= b ==> a * s + 16 * s <= b * s,
        b + 16 <= a ==> b * s + 16 * s <= a * s,
        a + 40 <= b ==> a * s + 40 * s <= b * s,
        b + 40 <= a ==> b * s + 40 * s <= a * s,
        a + 1_900_000 <= b ==> a * s + 1_900_000 * s <= b * s,
        b + 1_900_000 <= a ==> b * s + 1_900_000 * s <= a * s,
{
    lemma_more(a, b, 16, s);
    lemma_more(b, a, 16, s);
    lemma_more(a, b, 40, s);
    lemma_more(b, a, 40, s);
    lemma_more(a, b, 1_900_000, s);
    lemma_more(b, a, 1_900_000, s);
}

/// What is more by a margin stays so when it is multiplied.
proof fn lemma_more(a: int, b: int, m: int, s: int)
    requires
        s > 0,
    ensures
        a + m <= b ==> a * s + m * s <= b * s,
{
    if a + m <= b {
        lemma_mul_inequality(a + m, b, s);
        lemma_mul_is_distributive_add_other_way(s, a, m);
    }
}

/// A row of the lobes is between apex and base.
proof fn lemma_between_ends(y: Single, n: int)
    requires
        10 <= n <= 10_910,
        sits(y, n - 5160),
    ensures
        !y.lt_spec(hundredths(-86)),
        !hundredths(96).lt_spec(y),
{
    let s: int = pow2(149) as int;
    lemma_hair();
    lemma_hundredths(-86);
    lemma_hundredths(96);
    lemma_value_order(y, hundredths(-86));
    lemma_value_order(hundredths(96), y);
    lemma_mul_inequality(-5150, n - 5160, s);
    lemma_mul_inequality(n - 5160, 5750, s);
}

/// The two rows over the apex are in no lobe.
pub proof fn lemma_over_the_apex(p: Point, r: int)
    requires
        0 <= r < 2,
        sits(p.y, 250 * (2 * r - 23)),
    ensures
        !in_lobe_spec(p),
{
    let s: int = pow2(149) as int;
    lemma_hair();
    lemma_hundredths(-86);
    lemma_value_order(p.y, hundredths(-86));
    lemma_mul_inequality(250 * (2 * r - 23), -5250, s);
}

} // verus!
