//! The trail: dots a fixed spacing apart along the predicted path, in a rhythm
//! that goes on through each bounce.
use crate::distance::{
    hair, lemma_bounds, lemma_dot_off, lemma_drop, lemma_hair, lemma_root_off, lemma_share,
    lemma_squares_sign, lemma_within_times, squares,
};
use crate::lung::{length_spec, Point};
use crate::margin::{lemma_minus_off, lemma_over_off, lemma_plus_off, lemma_times_off, within};
use crate::scene::{dot_spec, dots_spec, path_length_spec, segment_spec, segments, trail_spec};
use crate::single::{
    lemma_negated, lemma_plus_between, lemma_value_order, lemma_whole, lemma_zero, Single,
};
use crate::speed::{lemma_length_near, lemma_root_near, near};
use crate::{MAX_TRAIL_DOTS, SPACING_PX};
use vstd::arithmetic::mul::*;
use vstd::arithmetic::power2::*;
use vstd::prelude::*;

verus! {

/// So many spacings on from a place along a segment.
pub open spec fn mark(t: Single, k: nat) -> Single
    decreases k,
{
    if k == 0 {
        t
    } else {
        mark(t, (k - 1) as nat).plus_spec(Single::whole_spec(SPACING_PX as nat))
    }
}

/// A spacing on from the start is the start a spacing on.
proof fn lemma_mark(t: Single, k: nat)
    ensures
        mark(t.plus_spec(Single::whole_spec(SPACING_PX as nat)), k) == mark(t, k + 1),
    decreases k,
{
    if k > 0 {
        lemma_mark(t, (k - 1) as nat);
    } else {
        assert(mark(t, 0) == t);
    }
}

/// The dots of a segment lie at the marks: the first where it is told to, each
/// other a spacing on from the one before it, as long as that is on the segment
/// and in the budget. What comes out is the mark after the last.
pub proof fn dots_lie_at_the_marks(
    a: Point,
    b: Point,
    len: Single,
    t: Single,
    walked: Single,
    total: Single,
    room: nat,
)
    ensures
        ({
            let (dots, end) = dots_spec(a, b, len, t, walked, total, room);
            &&& forall|k: int|
                0 <= k < dots.len() ==> {
                    &&& #[trigger] dots[k] == dot_spec(a, b, len, mark(t, k as nat), walked, total)
                    &&& mark(t, k as nat).lt_spec(len)
                }
            &&& end == mark(t, dots.len())
            &&& dots.len() <= room
            &&& dots.len() == room || !end.lt_spec(len)
        }),
    decreases room,
{
    if room > 0 && t.lt_spec(len) {
        let on = t.plus_spec(Single::whole_spec(SPACING_PX as nat));
        let (rest, end) = dots_spec(a, b, len, on, walked, total, (room - 1) as nat);
        let dots = dots_spec(a, b, len, t, walked, total, room).0;
        dots_lie_at_the_marks(a, b, len, on, walked, total, (room - 1) as nat);
        lemma_mark(t, rest.len());
        assert forall|k: int| 0 <= k < dots.len() implies {
            &&& #[trigger] dots[k] == dot_spec(a, b, len, mark(t, k as nat), walked, total)
            &&& mark(t, k as nat).lt_spec(len)
        } by {
            if k > 0 {
                lemma_mark(t, (k - 1) as nat);
                assert(dots[k] == rest[k - 1]);
            }
        }
    }
}

/// The longest segment that is spoken of, in pixels: well over the diagonal of
/// the field.
pub const LONGEST_PX: u32 = 4096;

/// A place along a segment: a number, not before its start, and not far beyond
/// its end.
pub open spec fn is_place(t: Single) -> bool {
    t.finite() && 0 <= t.value() <= LONGEST_PX * pow2(149)
}

/// A spacing on is a spacing on, within a part in `2^11` of a pixel.
proof fn lemma_spacing(t: Single)
    requires
        is_place(t),
    ensures
        ({
            let u = t.plus_spec(Single::whole_spec(SPACING_PX as nat));
            &&& u.finite()
            &&& 0 <= u.value()
            &&& within(u.value(), t.value() + 15 * pow2(149), pow2(138))
        }),
{
    lemma_whole(15);
    lemma_pow2_adds(11, 138);
    lemma2_to64();
    lemma_pow2_pos(138);
    lemma_plus_off(t, Single::whole_spec(15), 138);
}

/// Along a segment, neighbouring marks are a spacing apart, within a part in
/// `2^11` of a pixel.
pub proof fn marks_are_a_spacing_apart(t: Single, k: nat)
    requires
        is_place(t),
        forall|j: nat| #![trigger mark(t, j)] j <= k ==> mark(t, j).lt_spec(
            Single::whole_spec(LONGEST_PX as nat),
        ),
    ensures
        is_place(mark(t, k)),
        mark(t, k + 1).finite(),
        0 <= mark(t, k + 1).value(),
        within(mark(t, k + 1).value(), mark(t, k).value() + 15 * pow2(149), pow2(138)),
    decreases k,
{
    if k > 0 {
        marks_are_a_spacing_apart(t, (k - 1) as nat);
    }
    lemma_whole(LONGEST_PX as nat);
    assert(mark(t, k).lt_spec(Single::whole_spec(LONGEST_PX as nat)));
    lemma_value_order(mark(t, k), Single::whole_spec(LONGEST_PX as nat));
    lemma_spacing(mark(t, k));
}

/// A point of the field, or not far off it: both coordinates are at most 1024
/// pixels.
pub open spec fn is_near_field(p: Point) -> bool {
    &&& p.x.finite() && p.y.finite()
    &&& p.x.size() <= 1024 * pow2(149)
    &&& p.y.size() <= 1024 * pow2(149)
}

/// Powers of two that pixels are made of.
proof fn lemma_pixels()
    ensures
        pow2(149) == 0x2000 * pow2(136),
        pow2(137) == 2 * pow2(136),
        pow2(138) == 4 * pow2(136),
        pow2(139) == 8 * pow2(136),
        pow2(141) == 32 * pow2(136),
        pow2(136) == 2048 * pow2(125),
        pow2(136) > 0,
{
    lemma_pow2_adds(13, 136);
    lemma_pow2_adds(1, 136);
    lemma_pow2_adds(2, 136);
    lemma_pow2_adds(3, 136);
    lemma_pow2_adds(5, 136);
    lemma_pow2_adds(11, 125);
    lemma2_to64();
    lemma_pow2_pos(136);
}

/// One coordinate of a place `t` along a segment of a length, from `a`, whose
/// extent this way is `f`; drawn two pixels before it.
pub open spec fn placed(a: Single, f: Single, len: Single, t: Single) -> Single {
    a.plus_spec(f.times_spec(t.over_spec(len))).minus_spec(Single::whole_spec(2))
}

/// A place is where it should be, within a part in `2^10` of a pixel.
proof fn lemma_placed(a: Single, f: Single, len: Single, t: Single)
    requires
        a.finite() && f.finite() && len.finite() && t.finite(),
        a.size() <= 1024 * pow2(149),
        f.size() <= 2048 * pow2(149),
        0 <= t.value() < len.value(),
    ensures
        placed(a, f, len, t).finite(),
        within(
            (placed(a, f, len, t).value() + 2 * pow2(149) - a.value()) * len.value(),
            f.value() * t.value(),
            pow2(139) * len.size(),
        ),
{
    let s = pow2(149);
    let g = pow2(136);
    let two = Single::whole_spec(2);
    let q = t.over_spec(len);
    let m = f.times_spec(q);
    let u = a.plus_spec(m);
    let r = placed(a, f, len, t);
    lemma_pixels();
    lemma_hair();
    lemma_whole(2);
    assert(t.size() * s <= (0x100_0000 * pow2(125)) * len.size()) by {
        lemma_mul_inequality(t.size() as int, len.size() as int, s as int);
        lemma_mul_is_commutative(s as int, len.size() as int);
    }
    lemma_over_off(t, len, 125);
    assert(f.size() * q.size() <= (0x100_0000 * pow2(136)) * s) by {
        lemma_mul_upper_bound(f.size() as int, (2048 * s) as int, q.size() as int, s as int);
    }
    lemma_times_off(f, q, 136);
    lemma_plus_off(a, m, 137);
    lemma_minus_off(u, two, 137);
    let w = r.value() + 2 * s - a.value();
    assert(within(w, m.value(), 4 * g));
    lemma_stretched(w, m.value(), f.value(), q.value(), t.value(), len.value(), s, g);
}

/// The errors of a place, multiplied by the length.
proof fn lemma_stretched(
    w: int,
    m: int,
    f: int,
    q: int,
    t: int,
    len: int,
    s: nat,
    g: nat,
)
    requires
        s > 0,
        len > 0,
        s == 0x2000 * g,
        g == 2048 * hair(),
        within(f, 0, 2048 * s),
        within(w, m, 4 * g),
        within(m * s, f * q, g * s),
        within(q * len, t * s, hair() * len as nat),
    ensures
        within(w * len, f * t, (8 * g) * len as nat),
{
    let l: nat = len as nat;
    let h = hair();
    let gl = g * l;
    // The product, off by what rounding it takes.
    lemma_within_times(m * s, f * q, g * s, l);
    // The share, off by what rounding it takes.
    let d = q * len - t * s;
    assert(within(f * d, 0, (2048 * s) * (h * l))) by {
        lemma_bounds(f, d, 2048 * s, h * l);
    }
    assert((2048 * s) * (h * l) == gl * s) by (nonlinear_arith)
        requires
            g == 2048 * h,
            gl == g * l,
    ;
    assert(f * d == (f * q) * len - (f * t) * s) by (nonlinear_arith)
        requires
            d == q * len - t * s,
    ;
    assert((g * s) * l == gl * s) by (nonlinear_arith)
        requires
            gl == g * l,
    ;
    assert((m * s) * l == (m * len) * s) by (nonlinear_arith)
        requires
            l == len,
    ;
    assert(within((m * len) * s, (f * t) * s, 2 * (gl * s)));
    assert(within(m * len, f * t, 2 * gl)) by {
        assert((2 * gl) * s == 2 * (gl * s)) by (nonlinear_arith);
        lemma_drop(m * len, f * t, (2 * gl) as int, s as int);
        lemma_drop(f * t, m * len, (2 * gl) as int, s as int);
    }
    lemma_within_times(w, m, 4 * g, l);
    assert((4 * g) * l == 4 * gl && (8 * g) * l == 8 * gl) by (nonlinear_arith)
        requires
            gl == g * l,
    ;
}

/// A segment that is nearly a spacing long, or longer, is as long as its extents
/// say.
proof fn lemma_long(x: Single, y: Single)
    requires
        x.finite() && y.finite(),
        x.size() <= 2048 * pow2(149),
        y.size() <= 2048 * pow2(149),
        length_spec(x, y).finite(),
        14 * pow2(149) < length_spec(x, y).value(),
    ensures
        ({
            let len = length_spec(x, y).size();
            let e = x.size() * x.size() + y.size() * y.size();
            &&& near((len * len) as int, e as int, 364)
            &&& x.size() <= 2 * len
            &&& y.size() <= 2 * len
        }),
{
    let s = pow2(149);
    let len = length_spec(x, y).size();
    let e = x.size() * x.size() + y.size() * y.size();
    lemma_hair();
    lemma_mul_strictly_positive(s as int, s as int);
    assert(4 * (s * s) <= e) by {
        if e < 4 * (s * s) {
            lemma_short(x, y, e);
        }
    }
    lemma_length_near(x, y);
    lemma_extent(x.size(), e, len);
    lemma_extent(y.size(), e, len);
}

/// An extent is not much more than the length.
proof fn lemma_extent(x: nat, e: nat, len: nat)
    requires
        x * x <= e,
        near((len * len) as int, e as int, 364),
    ensures
        x <= 2 * len,
{
    if x > 2 * len {
        lemma_mul_upper_bound((2 * len + 1) as int, x as int, (2 * len + 1) as int, x as int);
        assert((2 * len + 1) * (2 * len + 1) == 4 * (len * len) + 4 * len + 1)
            by (nonlinear_arith);
    }
}

/// A segment of little extent is short.
proof fn lemma_short(x: Single, y: Single, e: nat)
    requires
        x.finite() && y.finite(),
        e == x.size() * x.size() + y.size() * y.size(),
        e < 4 * (pow2(149) * pow2(149)),
    ensures
        length_spec(x, y).size() <= 14 * pow2(149),
{
    let s = pow2(149);
    lemma_hair();
    lemma_component(x.size(), e, s);
    lemma_mul_nonnegative(x.size() as int, x.size() as int);
    lemma_mul_nonnegative(y.size() as int, y.size() as int);
    lemma_component(y.size(), e, s);
    lemma_dot_off(x, x, y, y, 2);
    lemma_squares_sign(x, y);
    let q = squares(x, y);
    lemma_root_off(q, 8);
    let r = length_spec(x, y).size();
    let hs = hair() * s;
    let ss = s * s;
    assert(ss == 0x100_0000 * hs) by (nonlinear_arith)
        requires
            s == 0x100_0000 * hair(),
            hs == hair() * s,
            ss == s * s,
    ;
    lemma_mul_inequality(q.size() as int, (8 * s) as int, s as int);
    lemma_mul_is_associative(8, s as int, s as int);
    assert(q.size() * s <= 8 * ss);
    assert(r * r <= q.size() * s + 34 * hs);
    lemma_mul_strictly_positive(hair() as int, s as int);
    if r > 14 * s {
        lemma_mul_upper_bound((14 * s) as int, r as int, (14 * s) as int, r as int);
        assert((14 * s) * (14 * s) == 196 * ss) by (nonlinear_arith)
            requires
                ss == s * s,
        ;
    }
}

/// An extent whose square is little is little.
proof fn lemma_component(x: nat, e: nat, s: nat)
    requires
        x * x <= e,
        e < 4 * (s * s),
    ensures
        x <= 2 * s,
{
    if x > 2 * s {
        lemma_mul_upper_bound((2 * s) as int, x as int, (2 * s) as int, x as int);
        assert((2 * s) * (2 * s) == 4 * (s * s)) by (nonlinear_arith);
    }
}

/// One coordinate of two places a spacing apart.
proof fn lemma_step_apart(a: Single, f: Single, len: Single, t: Single, u: Single)
    requires
        a.finite() && f.finite() && len.finite() && t.finite() && u.finite(),
        a.size() <= 1024 * pow2(149),
        f.size() <= 2048 * pow2(149),
        f.size() <= 2 * len.size(),
        0 <= t.value() < len.value(),
        0 <= u.value() < len.value(),
        within(u.value(), t.value() + 15 * pow2(149), pow2(138)),
    ensures
        placed(a, f, len, t).finite(),
        placed(a, f, len, u).finite(),
        within(
            (placed(a, f, len, u).value() - placed(a, f, len, t).value()) * len.value(),
            (15 * pow2(149)) * f.value(),
            24 * (pow2(136) * len.size()),
        ),
{
    let s = pow2(149);
    let g = pow2(136);
    let l = len.size();
    lemma_pixels();
    lemma_placed(a, f, len, t);
    lemma_placed(a, f, len, u);
    let x = placed(a, f, len, t).value();
    let y = placed(a, f, len, u).value();
    let gl = g * l;
    let c = 2 * s - a.value();
    assert((8 * g) * l == 8 * gl) by (nonlinear_arith)
        requires
            gl == g * l,
    ;
    assert((y - x) * len.value() == (y + c) * len.value() - (x + c) * len.value()) by {
        lemma_mul_is_distributive_sub_other_way(len.value(), y + c, x + c);
    }
    let d = u.value() - t.value() - 15 * s;
    lemma_bounds(f.value(), d, 2 * l, 4 * g);
    assert((2 * l) * (4 * g) == 8 * gl) by (nonlinear_arith)
        requires
            gl == g * l,
    ;
    assert(f.value() * d == f.value() * u.value() - f.value() * t.value() - (15 * s) * f.value())
        by (nonlinear_arith)
        requires
            d == u.value() - t.value() - 15 * s,
    ;
}

/// The square of one coordinate.
proof fn lemma_square_apart(x: int, f: int, len: nat, s: nat, g: nat)
    requires
        g <= s,
        24 * g <= s,
        within(f, 0, 2 * len),
        within(x, (15 * s) * f, 24 * (g * len)),
    ensures
        within(x * x, (225 * (s * s)) * (f * f), 1464 * ((g * s) * (len * len))),
{
    let y = (15 * s) * f;
    let d = x - y;
    let e = x + y;
    let gl = g * len;
    let sl = s * len;
    lemma_bounds((15 * s) as int, f, 15 * s, 2 * len);
    assert((15 * s) * (2 * len) == 30 * sl) by (nonlinear_arith)
        requires
            sl == s * len,
    ;
    assert(24 * gl <= sl) by {
        lemma_mul_inequality((24 * g) as int, s as int, len as int);
        lemma_mul_is_associative(24, g as int, len as int);
    }
    lemma_bounds(d, e, 24 * gl, 61 * sl);
    assert(d * e == x * x - y * y) by (nonlinear_arith)
        requires
            d == x - y,
            e == x + y,
    ;
    assert((24 * gl) * (61 * sl) == 1464 * ((g * s) * (len * len))) by (nonlinear_arith)
        requires
            gl == g * len,
            sl == s * len,
    ;
    assert(y * y == (225 * (s * s)) * (f * f)) by (nonlinear_arith)
        requires
            y == (15 * s) * f,
    ;
}

/// The square of the distance of two places a spacing apart. Each way, `x` and
/// `y` are what lies between them.
proof fn lemma_spacing_squared(x: int, y: int, e: int, len: nat, s: nat, g: nat, xx: int, yy: int)
    requires
        len > 0,
        s == 0x2000 * g,
        near((len * len) as int, e, 364),
        within(xx + yy, (225 * (s * s)) * e, 2928 * ((g * s) * (len * len))),
        xx == (x * len) * (x * len),
        yy == (y * len) * (y * len),
    ensures
        within(x * x + y * y, (225 * (s * s)) as int, s * s),
{
    let ll = len * len;
    let ss = s * s;
    let gs = g * s;
    assert(ss == 0x2000 * gs) by (nonlinear_arith)
        requires
            s == 0x2000 * g,
            ss == s * s,
            gs == g * s,
    ;
    lemma_mul_strictly_positive(len as int, len as int);
    assert(xx == (x * x) * ll && yy == (y * y) * ll) by (nonlinear_arith)
        requires
            xx == (x * len) * (x * len),
            yy == (y * len) * (y * len),
            ll == len * len,
    ;
    let d2 = x * x + y * y;
    lemma_mul_is_distributive_add_other_way(ll as int, x * x, y * y);
    // The extents against the length.
    let c = 225 * ss;
    assert(e <= 2 * ll);
    lemma_times_near(c, ll as int, e);
    assert(c * (2 * ll) == 450 * (0x2000 * (gs * ll))) by (nonlinear_arith)
        requires
            c == 225 * ss,
            ss == 0x2000 * gs,
    ;
    lemma_mul_inequality(e, (2 * ll) as int, c as int);
    lemma_mul_is_commutative(e, c as int);
    lemma_mul_is_commutative((2 * ll) as int, c as int);
    let most = gs * ll;
    assert(ss * ll == 0x2000 * most) by (nonlinear_arith)
        requires
            ss == 0x2000 * gs,
            most == gs * ll,
    ;
    assert(within((c * ll) as int, c * e, 2 * most));
    assert(within(d2 * ll, (c * ll) as int, ss * ll));
    lemma_drop(d2, c as int, ss as int, ll as int);
    lemma_drop(c as int, d2, ss as int, ll as int);
}

/// What is near stays so when it is multiplied.
proof fn lemma_times_near(c: nat, a: int, b: int)
    requires
        near(a, b, 364),
    ensures
        within(1_000_000_000 * (c * a), 1_000_000_000 * (c * b), 364 * (c * b) as nat),
        0 <= c * b,
{
    lemma_mul_nonnegative(c as int, b);
    lemma_mul_inequality(1_000_000_000 * (a - b), 364 * b, c as int);
    lemma_mul_inequality(-(364 * b), 1_000_000_000 * (a - b), c as int);
    assert((1_000_000_000 * (a - b)) * c == 1_000_000_000 * (c * a) - 1_000_000_000 * (c * b))
        by (nonlinear_arith);
    assert((364 * b) * c == 364 * (c * b)) by (nonlinear_arith);
    assert((-(364 * b)) * c == -(364 * (c * b))) by (nonlinear_arith);
}

/// The extent of a segment of the field.
proof fn lemma_extent_size(a: Single, b: Single)
    requires
        a.finite() && b.finite(),
        a.size() <= 1024 * pow2(149),
        b.size() <= 1024 * pow2(149),
    ensures
        b.minus_spec(a).finite(),
        b.minus_spec(a).size() <= 2048 * pow2(149),
{
    lemma_pixels();
    lemma_hair();
    lemma_minus_off(b, a, 136);
}

/// Two places on a segment of the field that are a spacing apart along it are a
/// spacing apart: the square of their distance is 225 square pixels, within one.
proof fn lemma_apart(a: Point, b: Point, t: Single, u: Single)
    requires
        is_near_field(a),
        is_near_field(b),
        ({
            let len = length_spec(b.x.minus_spec(a.x), b.y.minus_spec(a.y));
            &&& len.finite()
            &&& t.finite() && u.finite()
            &&& 0 <= t.value() < len.value()
            &&& 14 * pow2(149) < len.value()
            &&& 0 <= u.value() < len.value()
            &&& within(u.value(), t.value() + 15 * pow2(149), pow2(138))
        }),
    ensures
        ({
            let s = pow2(149);
            let len = length_spec(b.x.minus_spec(a.x), b.y.minus_spec(a.y));
            let x = placed(a.x, b.x.minus_spec(a.x), len, u).value() - placed(
                a.x,
                b.x.minus_spec(a.x),
                len,
                t,
            ).value();
            let y = placed(a.y, b.y.minus_spec(a.y), len, u).value() - placed(
                a.y,
                b.y.minus_spec(a.y),
                len,
                t,
            ).value();
            within(x * x + y * y, (225 * (s * s)) as int, s * s)
        }),
{
    let s = pow2(149);
    let g = pow2(136);
    let fx = b.x.minus_spec(a.x);
    let fy = b.y.minus_spec(a.y);
    let len = length_spec(fx, fy);
    let l = len.size();
    lemma_pixels();
    lemma_extent_size(a.x, b.x);
    lemma_extent_size(a.y, b.y);
    lemma_long(fx, fy);
    lemma_step_apart(a.x, fx, len, t, u);
    lemma_step_apart(a.y, fy, len, t, u);
    let x = placed(a.x, fx, len, u).value() - placed(a.x, fx, len, t).value();
    let y = placed(a.y, fy, len, u).value() - placed(a.y, fy, len, t).value();
    lemma_square_apart(x * l, fx.value(), l, s, g);
    lemma_square_apart(y * l, fy.value(), l, s, g);
    let xx = (x * l) * (x * l);
    let yy = (y * l) * (y * l);
    let ex = fx.value() * fx.value();
    let ey = fy.value() * fy.value();
    assert(ex == fx.size() * fx.size() && ey == fy.size() * fy.size()) by (nonlinear_arith)
        requires
            ex == fx.value() * fx.value(),
            ey == fy.value() * fy.value(),
            fx.value() == fx.size() || fx.value() == -fx.size(),
            fy.value() == fy.size() || fy.value() == -fy.size(),
    ;
    lemma_mul_is_distributive_add((225 * (s * s)) as int, ex, ey);
    lemma_spacing_squared(x, y, ex + ey, l, s, g, xx, yy);
}

/// A segment of the field is not too long.
proof fn lemma_field_length(a: Point, b: Point)
    requires
        is_near_field(a),
        is_near_field(b),
    ensures
        ({
            let len = length_spec(b.x.minus_spec(a.x), b.y.minus_spec(a.y));
            &&& len.finite()
            &&& 0 <= len.value() < LONGEST_PX * pow2(149)
        }),
{
    let s = pow2(149);
    let x = b.x.minus_spec(a.x);
    let y = b.y.minus_spec(a.y);
    lemma_extent_size(a.x, b.x);
    lemma_extent_size(a.y, b.y);
    lemma_pow2_adds(147, 2);
    lemma_pow2_adds(148, 1);
    lemma_pow2_pos(147);
    lemma2_to64();
    assert((2048 * s) * (2048 * s) == (0x100_0000 * pow2(147)) * s) by (nonlinear_arith)
        requires
            s == 4 * pow2(147),
    ;
    let most: int = (2048 * s) as int;
    lemma_mul_upper_bound(x.size() as int, most, x.size() as int, most);
    lemma_mul_upper_bound(y.size() as int, most, y.size() as int, most);
    lemma_times_off(x, x, 147);
    lemma_times_off(y, y, 147);
    lemma_plus_off(x.times_spec(x), y.times_spec(y), 148);
    lemma_squares_sign(x, y);
    let q = squares(x, y);
    let r = q.root_spec();
    let ss: int = (s * s) as int;
    lemma_mul_inequality(q.size() as int, (0x80_0000 * s) as int, s as int);
    lemma_mul_is_associative(0x80_0000, s as int, s as int);
    lemma_mul_strictly_positive(s as int, s as int);
    lemma_zero(q);
    if q.size() == 0 {
        reveal(Single::root_spec);
    } else {
        lemma_root_near(q);
        if r.size() >= 4096 * s {
            let z: int = (4096 * s) as int;
            lemma_mul_upper_bound(z, r.size() as int, z, r.size() as int);
            assert(z * z == 0x100_0000 * ss) by (nonlinear_arith)
                requires
                    z == 4096 * s,
                    ss == s * s,
            ;
        }
    }
}

/// Within a segment of the field, neighbouring dots are a spacing apart: the
/// square of their distance is 225 square pixels, within one.
pub proof fn neighbouring_dots_are_a_spacing_apart(
    a: Point,
    b: Point,
    t: Single,
    walked: Single,
    total: Single,
    room: nat,
    k: int,
)
    requires
        is_near_field(a),
        is_near_field(b),
        is_place(t),
        0 <= k,
        k + 1 < dots_spec(
            a,
            b,
            length_spec(b.x.minus_spec(a.x), b.y.minus_spec(a.y)),
            t,
            walked,
            total,
            room,
        ).0.len(),
    ensures
        ({
            let s = pow2(149);
            let dots = dots_spec(
                a,
                b,
                length_spec(b.x.minus_spec(a.x), b.y.minus_spec(a.y)),
                t,
                walked,
                total,
                room,
            ).0;
            let x = dots[k + 1].x.value() - dots[k].x.value();
            let y = dots[k + 1].y.value() - dots[k].y.value();
            within(x * x + y * y, (225 * (s * s)) as int, s * s)
        }),
{
    let len = length_spec(b.x.minus_spec(a.x), b.y.minus_spec(a.y));
    let dots = dots_spec(a, b, len, t, walked, total, room).0;
    let most = Single::whole_spec(LONGEST_PX as nat);
    dots_lie_at_the_marks(a, b, len, t, walked, total, room);
    lemma_field_length(a, b);
    lemma_whole(LONGEST_PX as nat);
    lemma_value_order(len, most);
    assert forall|j: nat| #![trigger mark(t, j)] j <= k + 1 implies mark(t, j).lt_spec(most) by {
        assert(dots[j as int] == dot_spec(a, b, len, mark(t, j), walked, total));
    }
    marks_are_a_spacing_apart(t, k as nat);
    marks_are_a_spacing_apart(t, (k + 1) as nat);
    let u = mark(t, k as nat);
    let v = mark(t, (k + 1) as nat);
    assert(dots[k] == dot_spec(a, b, len, u, walked, total));
    assert(dots[k + 1] == dot_spec(a, b, len, v, walked, total));
    lemma_value_order(u, len);
    lemma_value_order(v, len);
    lemma_pixels();
    lemma_apart(a, b, u, v);
}

/// The rhythm goes on through each bounce: the first dot of a segment lies where
/// the carried remainder says, and what is carried on is what the mark after
/// the last dot lies beyond the end of the segment. A segment shorter than a
/// thousandth of a pixel, and one that the budget does not reach, change nothing.
pub proof fn a_segment_carries_the_rhythm_on(path: Seq<Point>, n: nat)
    ensures
        ({
            let s = trail_spec(path, n);
            let r = trail_spec(path, n + 1);
            let len = segment_spec(path, n as int);
            let total = path_length_spec(path, segments(path));
            let fresh = r.dots.len() - s.dots.len();
            let last = mark(s.carry, fresh as nat);
            &&& fresh >= 0
            &&& forall|k: int| 0 <= k < s.dots.len() ==> #[trigger] r.dots[k] == s.dots[k]
            &&& if s.dots.len() >= MAX_TRAIL_DOTS || len.lt_spec(Single::ratio_spec(1, 1000)) {
                r == s
            } else {
                &&& forall|k: int|
                    s.dots.len() <= k < r.dots.len() ==> {
                        let t = mark(s.carry, (k - s.dots.len()) as nat);
                        &&& #[trigger] r.dots[k] == dot_spec(
                            path[n as int],
                            path[n as int + 1],
                            len,
                            t,
                            s.walked,
                            total,
                        )
                        &&& t.lt_spec(len)
                    }
                &&& r.dots.len() == MAX_TRAIL_DOTS || !last.lt_spec(len)
                &&& r.walked == s.walked.plus_spec(len)
                &&& r.carry == last.minus_spec(len).max_spec(Single::zero_spec())
            }
        }),
{
    let s = trail_spec(path, n);
    let len = segment_spec(path, n as int);
    let total = path_length_spec(path, segments(path));
    if s.dots.len() < MAX_TRAIL_DOTS && !len.lt_spec(Single::ratio_spec(1, 1000)) {
        let room = (MAX_TRAIL_DOTS - s.dots.len()) as nat;
        dots_lie_at_the_marks(path[n as int], path[n as int + 1], len, s.carry, s.walked, total, room);
        let dots = dots_spec(
            path[n as int],
            path[n as int + 1],
            len,
            s.carry,
            s.walked,
            total,
            room,
        ).0;
        let r = trail_spec(path, n + 1);
        assert(r.dots == s.dots + dots);
        assert forall|k: int| s.dots.len() <= k < r.dots.len() implies {
            let t = mark(s.carry, (k - s.dots.len()) as nat);
            &&& #[trigger] r.dots[k] == dot_spec(
                path[n as int],
                path[n as int + 1],
                len,
                t,
                s.walked,
                total,
            )
            &&& t.lt_spec(len)
        } by {
            assert(r.dots[k] == dots[k - s.dots.len()]);
        }
    }
}

/// A path of the field.
pub open spec fn is_field_path(path: Seq<Point>) -> bool {
    forall|k: int| 0 <= k < path.len() ==> is_near_field(#[trigger] path[k])
}

/// The rhythm in pixels: along a path of the field, what is carried on lies as
/// far beyond the end of a segment as the mark after its last dot does, within a
/// part in `2^11` of a pixel. So the path from the last dot of one segment to
/// the first of the next is one spacing long.
pub proof fn the_rhythm_is_one_spacing(path: Seq<Point>, n: nat)
    requires
        is_field_path(path),
        n + 1 < path.len(),
        trail_spec(path, n + 1).dots.len() < MAX_TRAIL_DOTS,
        !segment_spec(path, n as int).lt_spec(Single::ratio_spec(1, 1000)),
    ensures
        ({
            let s = trail_spec(path, n);
            let r = trail_spec(path, n + 1);
            let len = segment_spec(path, n as int);
            let fresh = (r.dots.len() - s.dots.len()) as nat;
            &&& is_place(s.carry) && is_place(r.carry)
            &&& len.finite() && mark(s.carry, fresh).finite()
            &&& within(len.value() + r.carry.value(), mark(s.carry, fresh).value(), pow2(138))
            &&& fresh > 0 ==> within(
                len.value() - mark(s.carry, (fresh - 1) as nat).value() + r.carry.value(),
                (15 * pow2(149)) as int,
                2 * pow2(138),
            )
        }),
{
    lemma_carry(path, n);
    lemma_carried_on(path, n);
}

/// What is carried over the end of a segment that got so many dots.
proof fn lemma_over_the_end(carry: Single, len: Single, fresh: nat)
    requires
        is_place(carry),
        len.finite(),
        0 <= len.value() < LONGEST_PX * pow2(149),
        forall|j: nat| #![trigger mark(carry, j)] j < fresh ==> mark(carry, j).lt_spec(len),
        !mark(carry, fresh).lt_spec(len),
    ensures
        ({
            let r = mark(carry, fresh).minus_spec(len).max_spec(Single::zero_spec());
            &&& is_place(r)
            &&& mark(carry, fresh).finite()
            &&& within(len.value() + r.value(), mark(carry, fresh).value(), pow2(138))
            &&& fresh > 0 ==> within(
                len.value() - mark(carry, (fresh - 1) as nat).value() + r.value(),
                (15 * pow2(149)) as int,
                2 * pow2(138),
            )
        }),
{
    let most = Single::whole_spec(LONGEST_PX as nat);
    let zero = Single::zero_spec();
    let last = mark(carry, fresh);
    lemma_whole(LONGEST_PX as nat);
    lemma_value_order(len, most);
    lemma_zero(zero);
    lemma_pixels();
    if fresh > 0 {
        let m: nat = (fresh - 1) as nat;
        assert forall|j: nat| #![trigger mark(carry, j)] j <= m implies mark(carry, j).lt_spec(
            most,
        ) by {
            assert(mark(carry, j).lt_spec(len));
        }
        marks_are_a_spacing_apart(carry, m);
        assert(mark(carry, m).lt_spec(len));
        lemma_value_order(mark(carry, m), len);
    }
    lemma_value_order(last, len);
    lemma_minus_off(last, len, 138);
    lemma_negated(len);
    lemma_plus_between(last, len.negated_spec(), zero, last);
    lemma_value_order(last.minus_spec(len), zero);
}

/// One segment more: the dots it gets, and what is carried on.
proof fn lemma_carried_on(path: Seq<Point>, n: nat)
    requires
        is_field_path(path),
        n + 1 < path.len(),
        is_place(trail_spec(path, n).carry),
        trail_spec(path, n + 1).dots.len() < MAX_TRAIL_DOTS,
        !segment_spec(path, n as int).lt_spec(Single::ratio_spec(1, 1000)),
    ensures
        ({
            let s = trail_spec(path, n);
            let r = trail_spec(path, n + 1);
            let len = segment_spec(path, n as int);
            let fresh = (r.dots.len() - s.dots.len()) as nat;
            &&& is_place(r.carry)
            &&& len.finite() && mark(s.carry, fresh).finite()
            &&& within(len.value() + r.carry.value(), mark(s.carry, fresh).value(), pow2(138))
            &&& fresh > 0 ==> within(
                len.value() - mark(s.carry, (fresh - 1) as nat).value() + r.carry.value(),
                (15 * pow2(149)) as int,
                2 * pow2(138),
            )
        }),
{
    let s = trail_spec(path, n);
    let r = trail_spec(path, n + 1);
    let len = segment_spec(path, n as int);
    let fresh = (r.dots.len() - s.dots.len()) as nat;
    a_segment_carries_the_rhythm_on(path, n);
    lemma_field_length(path[n as int], path[n as int + 1]);
    assert forall|j: nat| #![trigger mark(s.carry, j)] j < fresh implies mark(
        s.carry,
        j,
    ).lt_spec(len) by {
        let k = s.dots.len() + j;
        assert(r.dots[k as int] == dot_spec(
            path[n as int],
            path[n as int + 1],
            len,
            mark(s.carry, (k - s.dots.len()) as nat),
            s.walked,
            path_length_spec(path, segments(path)),
        ));
    }
    lemma_over_the_end(s.carry, len, fresh);
}

/// What is carried is a place.
proof fn lemma_carry(path: Seq<Point>, n: nat)
    requires
        is_field_path(path),
        n < path.len(),
        trail_spec(path, n).dots.len() < MAX_TRAIL_DOTS,
    ensures
        is_place(trail_spec(path, n).carry),
    decreases n,
{
    lemma_zero(Single::zero_spec());
    lemma_pow2_pos(149);
    if n > 0 {
        let m: nat = (n - 1) as nat;
        a_segment_carries_the_rhythm_on(path, m);
        lemma_carry(path, m);
        if !segment_spec(path, m as int).lt_spec(Single::ratio_spec(1, 1000)) {
            lemma_carried_on(path, m);
        }
    }
}

/// A dot is four pixels each way, drawn under 7 around its place, and as far gone as
/// the share of the whole path that lies before it: none at the start, and all at
/// the end.
pub proof fn a_dot_fades_along_the_path(
    a: Point,
    b: Point,
    len: Single,
    t: Single,
    walked: Single,
    total: Single,
)
    requires
        total.finite(),
        total.value() > 0,
        walked.plus_spec(t).finite(),
    ensures
        ({
            let d = dot_spec(a, b, len, t, walked, total);
            let before = walked.plus_spec(t).value();
            let p = pow2(149);
            &&& d.kind == Single::whole_spec(7)
            &&& d.w == Single::whole_spec(4) && d.h == Single::whole_spec(4)
            &&& d.burn.finite() && 0 <= d.burn.value() <= p
            &&& d.burn.value() > 0 ==> d.burn.value() * total.value() <= before * p + hair()
                * total.value()
            &&& d.burn.value() < p ==> d.burn.value() * total.value() >= before * p - hair()
                * total.value()
        }),
{
    let zero = Single::zero_spec();
    lemma_zero(zero);
    lemma_value_order(zero, total);
    lemma_share(walked.plus_spec(t), total);
}

/// The length of a path is that of its segments, one after the other: the distance
/// from corner to corner. What a trail has walked, where no segment was left out and
/// the budget lasts, is the length of the path so far.
pub proof fn a_trail_walks_the_length_of_the_path(path: Seq<Point>, n: nat)
    requires
        forall|k: int|
            0 <= k < n ==> !(#[trigger] segment_spec(path, k)).lt_spec(
                Single::ratio_spec(1, 1000),
            ),
        trail_spec(path, n).dots.len() < MAX_TRAIL_DOTS,
    ensures
        trail_spec(path, n).walked == path_length_spec(path, n),
        n > 0 ==> path_length_spec(path, n) == path_length_spec(path, (n - 1) as nat).plus_spec(
            length_spec(
                path[n as int].x.minus_spec(path[n - 1].x),
                path[n as int].y.minus_spec(path[n - 1].y),
            ),
        ),
        path_length_spec(path, 0) == Single::zero_spec(),
    decreases n,
{
    if n > 0 {
        let m: nat = (n - 1) as nat;
        a_segment_carries_the_rhythm_on(path, m);
        assert(!segment_spec(path, m as int).lt_spec(Single::ratio_spec(1, 1000)));
        a_trail_walks_the_length_of_the_path(path, m);
    }
}

} // verus!
