//! A ball of any speed that a game could give it: no tick takes its centre more
//! than half a pixel past a wall.
use crate::board::{col_of, rect_spec, row_of, Block};
use crate::impact::{
    entry, impact_time, next_impact_is_the_soonest, next_impact_spec, pass_spec, strikes,
};
use crate::motion::{
    axis_span_spec, lemma_still_is_something, same_time_spec, side_time_spec, still_spec,
    top_time_spec, wall_time_spec, Axis, Ball, Impact,
};
use crate::single::{
    lemma_between, lemma_exact, lemma_negated, lemma_over_number, lemma_over_order,
    lemma_over_turned, lemma_plus_between, lemma_plus_exact, lemma_plus_order, lemma_rounded_bounds,
    lemma_rounded_close, lemma_rounded_sign, lemma_size_order, lemma_times_bound, lemma_value_order,
    lemma_whole, lemma_zero, Single,
};
use crate::walls::{
    inside, lemma_ahead, lemma_exact_gap, lemma_fall_frame, lemma_longest, lemma_no_way,
    lemma_place, lemma_played, lemma_power_step, lemma_powers, lemma_rest, lemma_short, lemma_soon,
    lemma_still, tick_size,
};
use crate::world::{longest_tick, on_grid, swept, Flight, World, MOST_IMPACTS};
use crate::{BALL_R, CELLS, CIG_Y, COLS, H, ROWS, WALL_L, WALL_R, WALL_TOP};
use vstd::arithmetic::mul::*;
use vstd::arithmetic::power2::*;
use vstd::prelude::*;

verus! {

/// Halves of a pixel matter here.
pub proof fn lemma_halves()
    ensures
        pow2(149) == 2 * pow2(148),
        pow2(148) == 0x80 * pow2(141),
        pow2(141) == 8 * pow2(138),
        pow2(162) == 0x100_0000 * pow2(138),
        pow2(162) == 0x2000 * pow2(149),
        pow2(145) == 0x4000 * pow2(131),
        pow2(142) == 0x800 * pow2(131),
        pow2(149) == 16 * pow2(145),
        pow2(142) == 64 * pow2(136),
        pow2(149) == 0x2000 * pow2(136),
        pow2(148) > 0,
        pow2(138) > 0,
        pow2(131) > 0,
        pow2(136) > 0,
{
    lemma2_to64();
    lemma_pow2_adds(1, 148);
    lemma_pow2_adds(7, 141);
    lemma_pow2_adds(3, 138);
    lemma_pow2_adds(24, 138);
    lemma_pow2_adds(13, 149);
    lemma_pow2_adds(14, 131);
    lemma_pow2_adds(11, 131);
    lemma_pow2_adds(4, 145);
    lemma_pow2_adds(6, 136);
    lemma_pow2_adds(13, 136);
    lemma_pow2_pos(148);
    lemma_pow2_pos(138);
    lemma_pow2_pos(131);
    lemma_pow2_pos(136);
}

/// How far a fast ball goes in a tick, one way.
proof fn lemma_fast_travel(v: Single, t: Single)
    requires
        v.finite(),
        t.finite(),
        v.size() <= 4096 * pow2(149),
        t.size() <= tick_size(),
    ensures
        v.times_spec(t).finite(),
        v.times_spec(t).size() <= 205 * pow2(149),
{
    let far = Single::whole_spec(205);
    let p = pow2(149);
    lemma_whole(205);
    lemma_powers();
    assert(v.size() * t.size() <= (205 * p) * p) by (nonlinear_arith)
        requires
            v.size() <= 4096 * p,
            t.size() <= 13108 * pow2(131),
            p == 0x4_0000 * pow2(131),
    ;
    lemma_times_bound(v, t, far);
}

/// How far it is to somewhere is nothing, or at least the last bit of where one
/// is.
proof fn lemma_way_to(x: Single, n: nat)
    requires
        x.finite(),
        !x.neg(),
        130 <= x.lift() <= 149,
    ensures
        n * pow2(149) == x.value() || n * pow2(149) - x.value() >= pow2(130) || x.value() - n * pow2(
            149,
        ) >= pow2(130),
{
    let l = x.lift();
    let p = pow2(l);
    lemma_pow2_adds(l, (149 - l) as nat);
    let e = pow2((149 - l) as nat);
    let m: int = n * e - x.sig();
    assert(n * pow2(149) - x.value() == m * p) by (nonlinear_arith)
        requires
            pow2(149) == p * e,
            x.value() == x.sig() * p,
            m == n * e - x.sig(),
    ;
    lemma_power_step(130, l);
    lemma_pow2_pos(l);
    assert(m == 0 || m * p >= p || m * p <= -p) by (nonlinear_arith)
        requires
            p > 0,
    ;
    lemma_mul_basics(p as int);
}

/// The place of the last bit of where a ball in the field is.
proof fn lemma_field(x: Single)
    requires
        x.finite(),
        16 * pow2(149) <= x.value() < 8192 * pow2(149),
    ensures
        !x.neg(),
        x.size() == x.value(),
        130 <= x.lift() <= 149,
{
    lemma_powers();
    lemma_halves();
    lemma2_to64();
    lemma_pow2_adds(23, 130);
    lemma_pow2_adds(23, 139);
    lemma_pow2_adds(19, 130);
    lemma_place(x, 130, 139);
}

/// Three roundings, each by at most one part in `2^24`, come to at most seven.
proof fn lemma_drift(u: int, a: int, b: int, c: int)
    requires
        u >= 0,
        a >= 0,
        b >= 0,
        a * 0x100_0000 <= u * 0x100_0001,
        u * 0xff_ffff <= a * 0x100_0000,
        b * 0x100_0000 <= a * 0x100_0001,
        a * 0xff_ffff <= b * 0x100_0000,
        c * 0x100_0000 <= b * 0x100_0001,
        b * 0xff_ffff <= c * 0x100_0000,
    ensures
        (c - u) * 0x100_0000 <= 7 * u,
        (u - c) * 0x100_0000 <= 7 * u,
        a <= 2 * u,
        b <= 4 * u,
        u <= 2 * a,
        a <= 2 * b,
{
}

/// The size of a way, rounded.
pub proof fn lemma_way_size(x: Single, n: nat, u: nat)
    requires
        x.finite(),
        n < 0x1_0000,
        n * pow2(149) - x.value() == u || x.value() - n * pow2(149) == u,
        pow2(130) <= u <= 8192 * pow2(149),
    ensures
        ({
            let g = Single::whole_spec(n).minus_spec(x);
            &&& g.finite()
            &&& g.size() * 0x100_0000 <= u * 0x100_0001
            &&& u * 0xff_ffff <= g.size() * 0x100_0000
            &&& g.neg() == (n * pow2(149) < x.value())
        }),
{
    lemma_whole(n);
    lemma_whole(8192);
    lemma_negated(x);
    lemma_powers();
    lemma_mul_basics(u as int);
    lemma_mul_basics(Single::whole_spec(8192).size() as int);
    lemma_rounded_sign(u, 1);
    lemma_rounded_bounds(u, 1, Single::whole_spec(8192));
    lemma_rounded_close(u, 1);
    let r = Single::rounded(false, u, 1);
    lemma_mul_basics(r.size() as int);
    lemma_negated(r);
    reveal(Single::plus_spec);
}

/// The size of a time, rounded.
proof fn lemma_time_size(g: Single, v: Single)
    requires
        g.finite(),
        v.finite(),
        2 * g.size() >= pow2(130),
        0 < v.size() <= 4096 * pow2(149),
    ensures
        ({
            let t = g.over_spec(v);
            let k = g.size() * pow2(149);
            &&& !t.nan()
            &&& t.neg() == (g.neg() != v.neg())
            &&& t.bits % 0x8000_0000 > 0
            &&& t.finite() ==> (v.size() * t.size()) * 0x100_0000 <= k * 0x100_0001
            &&& t.finite() ==> k * 0xff_ffff <= (v.size() * t.size()) * 0x100_0000
        }),
{
    let p = pow2(149);
    let k = g.size() * p;
    let y = v.size();
    let least = Single::rounded(false, 1 * pow2(0), 1);
    lemma_exact(1, 0);
    lemma2_to64();
    lemma_zero(least);
    lemma_powers();
    lemma_pow2_pos(149);
    lemma_zero(g);
    lemma_zero(v);
    assert(k >= 0x80_0000 * y) by (nonlinear_arith)
        requires
            k == g.size() * p,
            2 * g.size() >= 0x1_0000_0000_0000,
            y <= 4096 * p,
            p > 0,
    ;
    lemma_mul_basics(y as int);
    lemma_rounded_bounds(k, y, least);
    lemma_rounded_sign(k, y);
    let r = Single::rounded(false, k, y);
    lemma_mul_is_commutative(r.size() as int, y as int);
    if r.finite() {
        lemma_rounded_close(k, y);
        lemma_negated(r);
    }
    reveal(Single::over_spec);
}

/// The size of how far a ball goes, rounded.
proof fn lemma_product_size(v: Single, t: Single)
    requires
        v.finite(),
        t.finite(),
        0x80_0000 * pow2(149) <= v.size() * t.size() <= (0x8000 * pow2(149)) * pow2(149),
    ensures
        ({
            let m = v.times_spec(t);
            let z = v.size() * t.size();
            &&& m.finite()
            &&& (m.size() * pow2(149)) * 0x100_0000 <= z * 0x100_0001
            &&& z * 0xff_ffff <= (m.size() * pow2(149)) * 0x100_0000
        }),
{
    let p = pow2(149);
    let z = v.size() * t.size();
    let far = Single::whole_spec(0x8000);
    lemma_whole(0x8000);
    lemma_pow2_pos(149);
    lemma_times_bound(v, t, far);
    lemma_rounded_sign(z, p);
    let r = Single::rounded(false, z, p);
    reveal(Single::times_spec);
    if r.finite() {
        lemma_negated(r);
    }
    assert(r.finite());
    lemma_rounded_close(z, p);
}

/// The time that a ball needs to somewhere, rounded, takes it there, or so close
/// that a hundredth of a pixel does not lie between.
proof fn lemma_carry(x: Single, v: Single, n: nat, u: nat, t: Single)
    requires
        x.finite(),
        v.finite(),
        t.finite(),
        n < 0x1_0000,
        n * pow2(149) - x.value() == u || x.value() - n * pow2(149) == u,
        pow2(130) <= u <= 8192 * pow2(149),
        0 < v.size() <= 4096 * pow2(149),
        Single::whole_spec(n).minus_spec(x).over_spec(v).finite(),
        t.size() == Single::whole_spec(n).minus_spec(x).over_spec(v).size(),
    ensures
        v.times_spec(t).finite(),
        u - pow2(141) <= v.times_spec(t).size() <= u + pow2(141),
{
    let p = pow2(149);
    let g = Single::whole_spec(n).minus_spec(x);
    let k = g.size() * p;
    let z = v.size() * t.size();
    let e = u * p;
    lemma_way_size(x, n, u);
    lemma_time_size(g, v);
    lemma_powers();
    lemma_halves();
    lemma_pow2_pos(149);
    assert(e >= 0 && k * 0x100_0000 <= e * 0x100_0001 && e * 0xff_ffff <= k * 0x100_0000)
        by (nonlinear_arith)
        requires
            e == u * p,
            k == g.size() * p,
            g.size() * 0x100_0000 <= u * 0x100_0001,
            u * 0xff_ffff <= g.size() * 0x100_0000,
            p > 0,
            u >= 0,
    ;
    assert(z <= 4 * e && 4 * z >= e);
    assert(0x80_0000 * p <= z <= (0x8000 * p) * p) by (nonlinear_arith)
        requires
            z <= 4 * e,
            4 * z >= e,
            e == u * p,
            0x1_0000_0000_0000 <= u <= 8192 * p,
            p > 0,
    ;
    lemma_product_size(v, t);
    let m = v.times_spec(t).size();
    lemma_drift(e as int, k as int, z as int, (m * p) as int);
    assert((m - u) * 0x100_0000 <= 7 * u && (u - m) * 0x100_0000 <= 7 * u) by (nonlinear_arith)
        requires
            (m * p - e) * 0x100_0000 <= 7 * e,
            (e - m * p) * 0x100_0000 <= 7 * e,
            e == u * p,
            p > 0,
    ;
}

/// A ball that goes somewhere for as long as it needs ends within half a pixel
/// of there.
pub proof fn lemma_arrive(x: Single, v: Single, n: nat, t: Single)
    requires
        x.finite(),
        v.finite(),
        t.finite(),
        t.value() >= 0,
        1 <= n < 0x1000,
        16 * pow2(149) <= x.value() < 8192 * pow2(149),
        0 < v.size() <= 4096 * pow2(149),
        v.value() < 0 ==> n * pow2(149) <= x.value(),
        v.value() > 0 ==> x.value() <= n * pow2(149),
        Single::whole_spec(n).minus_spec(x).over_spec(v).finite(),
        t.size() == Single::whole_spec(n).minus_spec(x).over_spec(v).size(),
    ensures
        v.times_spec(t).finite(),
        x.plus_spec(v.times_spec(t)).finite(),
        (2 * n - 1) * pow2(148) <= x.plus_spec(v.times_spec(t)).value() <= (2 * n + 1) * pow2(148),
{
    let h = pow2(148);
    let lo = Single::rounded(false, ((2 * n - 1) as nat) * h, 1);
    let hi = Single::rounded(false, ((2 * n + 1) as nat) * h, 1);
    let m = v.times_spec(t);
    lemma_exact((2 * n - 1) as nat, 148);
    lemma_exact((2 * n + 1) as nat, 148);
    lemma_halves();
    lemma_field(x);
    lemma_way_to(x, n);
    assert(n * pow2(149) == 2 * (n * h) && (2 * n - 1) * h == 2 * (n * h) - h && (2 * n + 1) * h
        == 2 * (n * h) + h && n * h <= 4096 * h) by (nonlinear_arith)
        requires
            pow2(149) == 2 * h,
            n < 0x1000,
            h >= 0,
    ;
    if n * pow2(149) == x.value() {
        let g = Single::whole_spec(n).minus_spec(x);
        lemma_whole(n);
        lemma_negated(x);
        lemma_zero(Single::zero_spec());
        lemma_plus_exact(Single::whole_spec(n), x.negated_spec(), Single::zero_spec());
        assert(g.size() == 0);
        assert(t.size() == 0) by {
            reveal(Single::over_spec);
            lemma_zero(g);
            lemma_zero(v);
            lemma_zero(g.over_spec(v));
        }
        lemma_times_none(v, t);
        lemma_still(v, t);
    } else {
        let u: nat = if v.value() < 0 {
            (x.value() - n * pow2(149)) as nat
        } else {
            (n * pow2(149) - x.value()) as nat
        };
        lemma_carry(x, v, n, u, t);
        lemma_still(v, t);
    }
    lemma_plus_between(x, m, lo, hi);
}

/// What goes for no time goes nowhere.
proof fn lemma_times_none(v: Single, t: Single)
    requires
        v.finite(),
        t.finite(),
        t.size() == 0,
    ensures
        v.times_spec(t).finite(),
{
    let zero = Single::zero_spec();
    lemma_zero(zero);
    lemma_mul_basics(v.size() as int);
    lemma_mul_basics(pow2(149) as int);
    lemma_times_bound(v, t, zero);
}

/// A fast ball that heads for the left wall, or for the apex, is short of it
/// until the time at which it meets it, and within half a pixel of it then.
proof fn lemma_low(x: Single, v: Single, t: Single)
    requires
        x.finite(),
        42 * pow2(148) <= x.value() <= 16000 * pow2(148),
        v.finite(),
        v.value() < 0,
        v.size() <= 4096 * pow2(149),
        t.finite(),
        t.value() >= 0,
        t.le_spec(Single::whole_spec(21).minus_spec(x).over_spec(v)),
    ensures
        x.plus_spec(v.times_spec(t)).finite(),
        41 * pow2(148) <= x.plus_spec(v.times_spec(t)).value() <= x.value(),
        t.lt_spec(Single::whole_spec(21).minus_spec(x).over_spec(v)) ==> 42 * pow2(148)
            <= x.plus_spec(v.times_spec(t)).value(),
{
    let w = Single::whole_spec(21);
    let g = w.minus_spec(x);
    let u = g.over_spec(v);
    let m = v.times_spec(t);
    lemma_whole(21);
    lemma_halves();
    lemma_field(x);
    lemma_exact_gap(x, 21);
    if g.size() == 0 {
        lemma_no_way(g, v, t);
        lemma_times_none(v, t);
        lemma_still(v, t);
        lemma_plus_exact(x, m, x);
    } else if t.lt_spec(u) {
        lemma_short(x, v, w, t);
        lemma_still(v, t);
        lemma_plus_between(x, m, w, x);
    } else {
        lemma_same(t, u);
        lemma_arrive(x, v, 21, t);
        lemma_no_farther(x, v, t);
    }
}

/// Times of which neither is before the other are the same.
proof fn lemma_same(t: Single, u: Single)
    requires
        t.finite(),
        t.le_spec(u),
        !t.lt_spec(u),
    ensures
        u.finite(),
        u.size() == t.size(),
        u.value() == t.value(),
{
    assert(u.finite());
    lemma_value_order(t, u);
    lemma_zero(t);
    lemma_zero(u);
}

/// A ball ends on the side of where it was that it heads for.
pub proof fn lemma_no_farther(x: Single, v: Single, t: Single)
    requires
        x.finite(),
        v.finite(),
        t.finite(),
        t.value() >= 0,
        v.times_spec(t).finite(),
        x.plus_spec(v.times_spec(t)).finite(),
    ensures
        v.value() <= 0 ==> x.plus_spec(v.times_spec(t)).value() <= x.value(),
        v.value() >= 0 ==> x.value() <= x.plus_spec(v.times_spec(t)).value(),
{
    let zero = Single::zero_spec();
    let m = v.times_spec(t);
    lemma_zero(zero);
    lemma_still(v, t);
    lemma_plus_exact(x, zero, x);
    if v.value() <= 0 {
        lemma_plus_order(x, m, x, zero);
    }
    if v.value() >= 0 {
        lemma_plus_order(x, zero, x, m);
    }
    lemma_value_order(x.plus_spec(m), x.plus_spec(zero));
    lemma_value_order(x.plus_spec(zero), x.plus_spec(m));
}

/// A fast ball that heads for the right wall is short of it until the time at
/// which it meets it, and within half a pixel of it then.
proof fn lemma_high(x: Single, v: Single, t: Single)
    requires
        x.finite(),
        41 * pow2(148) <= x.value() <= 1158 * pow2(148),
        v.finite(),
        v.value() > 0,
        v.size() <= 4096 * pow2(149),
        t.finite(),
        t.value() >= 0,
        t.size() <= tick_size(),
        t.le_spec(Single::whole_spec(579).minus_spec(x).over_spec(v)),
    ensures
        x.plus_spec(v.times_spec(t)).finite(),
        x.value() <= x.plus_spec(v.times_spec(t)).value() <= 1159 * pow2(148),
        t.lt_spec(Single::whole_spec(579).minus_spec(x).over_spec(v)) ==> x.plus_spec(
            v.times_spec(t),
        ).value() <= 1158 * pow2(148),
{
    let w = Single::whole_spec(579);
    let g = w.minus_spec(x);
    let u = g.over_spec(v);
    let m = v.times_spec(t);
    lemma_whole(579);
    lemma_halves();
    lemma_fast_travel(v, t);
    lemma_still(v, t);
    if x.value() <= 748 * pow2(148) {
        lemma_plus_between(x, m, x, w);
    } else {
        lemma_field(x);
        lemma_near_right(x);
        lemma_exact_gap(x, 579);
        if g.size() == 0 {
            lemma_no_way(g, v, t);
            lemma_still(v, t);
            lemma_plus_exact(x, m, x);
        } else if t.lt_spec(u) {
            lemma_short(x, v, w, t);
            lemma_plus_between(x, m, x, w);
        } else {
            lemma_same(t, u);
            lemma_arrive(x, v, 579, t);
            lemma_no_farther(x, v, t);
        }
    }
}

/// Near the right wall the way to it has no more bits than where the ball is.
proof fn lemma_near_right(x: Single)
    requires
        x.finite(),
        748 * pow2(148) < x.value() <= 1158 * pow2(148),
        !x.neg(),
    ensures
        579 * pow2(149) - x.value() < 0x100_0000 * pow2(x.lift()),
{
    lemma_halves();
    lemma2_to64();
    lemma_pow2_adds(23, 134);
    lemma_pow2_adds(23, 136);
    lemma_pow2_adds(14, 134);
    lemma_pow2_pos(134);
    lemma_pow2_adds(2, 134);
    lemma_place(x, 134, 136);
    lemma_power_step(134, x.lift());
}

/// The ball is in the field or, where it moves away from a wall, at most half a
/// pixel past that wall: the form in which a fast ball is carried through a tick.
pub open spec fn caged(ball: Ball, n: nat) -> bool {
    &&& ball.x.finite() && ball.y.finite() && ball.vx.finite() && ball.vy.finite()
    &&& 41 * pow2(148) <= ball.x.value() <= 1159 * pow2(148)
    &&& 41 * pow2(148) <= ball.y.value() <= n * pow2(149)
    &&& ball.vx.size() <= 4096 * pow2(149)
    &&& ball.vy.size() <= 4096 * pow2(149)
    &&& ball.vx.value() < 0 ==> 42 * pow2(148) <= ball.x.value()
    &&& ball.vx.value() > 0 ==> ball.x.value() <= 1158 * pow2(148)
    &&& ball.vy.value() < 0 ==> 42 * pow2(148) <= ball.y.value()
}

/// A leg of the way, across.
proof fn lemma_across(ball: Ball, n: nat, t: Single)
    requires
        caged(ball, n),
        t.finite(),
        t.value() >= 0,
        t.size() <= tick_size(),
        t.le_spec(side_time_spec(ball)),
    ensures
        ({
            let x = ball.moved_spec(t).x;
            &&& x.finite()
            &&& 41 * pow2(148) <= x.value() <= 1159 * pow2(148)
            &&& ball.vx.value() <= 0 ==> x.value() <= ball.x.value()
            &&& ball.vx.value() >= 0 ==> ball.x.value() <= x.value()
            &&& ball.vx.value() < 0 && t.lt_spec(side_time_spec(ball)) ==> 42 * pow2(148)
                <= x.value()
            &&& ball.vx.value() > 0 && t.lt_spec(side_time_spec(ball)) ==> x.value() <= 1158
                * pow2(148)
        }),
{
    let zero = Single::zero_spec();
    lemma_zero(zero);
    lemma_value_order(ball.vx, zero);
    lemma_value_order(zero, ball.vx);
    lemma_whole(21);
    lemma_whole(579);
    lemma_halves();
    if ball.vx.value() < 0 {
        lemma_ahead(Single::whole_spec(21), ball.x, ball.vx);
        lemma_low(ball.x, ball.vx, t);
    } else if ball.vx.value() > 0 {
        lemma_ahead(Single::whole_spec(579), ball.x, ball.vx);
        lemma_high(ball.x, ball.vx, t);
    } else {
        lemma_fast_travel(ball.vx, t);
        lemma_still(ball.vx, t);
        lemma_plus_exact(ball.x, ball.vx.times_spec(t), ball.x);
    }
}

/// A leg of the way, up or down.
proof fn lemma_along(ball: Ball, n: nat, t: Single)
    requires
        caged(ball, n),
        n <= 8000,
        t.finite(),
        t.value() >= 0,
        t.size() <= tick_size(),
        t.le_spec(top_time_spec(ball)),
    ensures
        ({
            let y = ball.moved_spec(t).y;
            &&& y.finite()
            &&& 41 * pow2(148) <= y.value() <= (n + 205) * pow2(149)
            &&& ball.vy.value() < 0 && t.lt_spec(top_time_spec(ball)) ==> 42 * pow2(148)
                <= y.value()
        }),
{
    let zero = Single::zero_spec();
    let p = pow2(149);
    lemma_zero(zero);
    lemma_value_order(ball.vy, zero);
    lemma_halves();
    assert(n * p <= 8000 * p && (n + 205) * p == n * p + 205 * p) by (nonlinear_arith)
        requires
            n <= 8000,
            p >= 0,
    ;
    if ball.vy.value() < 0 {
        lemma_low(ball.y, ball.vy, t);
    } else {
        lemma_fast_travel(ball.vy, t);
        lemma_still(ball.vy, t);
        lemma_whole(n + 205);
        lemma_plus_between(ball.y, ball.vy.times_spec(t), ball.y, Single::whole_spec(n + 205));
    }
}

/// Two times that are the same are taken for the same.
proof fn lemma_not_same(a: Single, t: Single)
    requires
        t.finite(),
        t.le_spec(a),
        !same_time_spec(a, t),
    ensures
        t.lt_spec(a),
{
    if !t.lt_spec(a) {
        lemma_same(t, a);
        let zero = Single::zero_spec();
        let d = a.minus_spec(t);
        lemma_zero(zero);
        lemma_negated(t);
        lemma_plus_exact(a, t.negated_spec(), zero);
        lemma_zero(d);
        lemma_instant();
    }
}

/// The time within which two are taken for the same is over zero, and short.
proof fn lemma_instant()
    ensures
        Single::ratio_spec(1, 10_000).finite(),
        !Single::ratio_spec(1, 10_000).neg(),
        0 < Single::ratio_spec(1, 10_000).size() <= pow2(136),
{
    let most = Single::rounded(false, 1 * pow2(136), 1);
    let least = Single::rounded(false, 1 * pow2(131), 1);
    lemma_exact(1, 136);
    lemma_exact(1, 131);
    lemma_halves();
    lemma_powers();
    lemma_rounded_bounds(1 * pow2(149), 10_000, most);
    lemma_rounded_bounds(1 * pow2(149), 10_000, least);
}

/// A time that is far off is not taken for one within a tick.
pub proof fn lemma_far_off(a: Single, t: Single)
    requires
        t.finite(),
        t.value() >= 0,
        t.size() <= tick_size(),
        !a.nan(),
        !a.neg(),
        a.finite() ==> a.size() >= pow2(145),
    ensures
        !same_time_spec(a, t),
{
    let d = a.minus_spec(t);
    let zero = Single::zero_spec();
    let r = Single::ratio_spec(1, 10_000);
    lemma_instant();
    lemma_negated(t);
    if a.finite() {
        let q = Single::rounded(false, 1 * pow2(142), 1);
        lemma_exact(1, 142);
        lemma_zero(zero);
        lemma_halves();
        lemma_plus_order(q, zero, a, t.negated_spec());
        lemma_plus_exact(q, zero, q);
        lemma_zero(q);
        lemma_value_order(r, q);
        assert(q.le_spec(d));
        assert(r.lt_spec(q));
    } else {
        assert(d == a) by {
            reveal(Single::plus_spec);
        }
    }
}

/// A place that lies the other way was passed in the past.
proof fn lemma_behind(pos: Single, vel: Single, n: nat)
    requires
        pos.finite(),
        vel.finite(),
        1 <= n < 0x1000,
        16 * pow2(149) <= pos.value() < 8192 * pow2(149),
        0 < vel.size() <= 4096 * pow2(149),
        Single::whole_spec(n).minus_spec(pos).over_spec(vel).key() >= 0,
    ensures
        vel.value() < 0 ==> n * pow2(149) <= pos.value(),
        vel.value() > 0 ==> pos.value() <= n * pow2(149),
{
    let p = pow2(149);
    let d = n * p - pos.value();
    assert(0 <= n * p <= 4096 * p) by (nonlinear_arith)
        requires
            0 <= n <= 4096,
            p >= 0,
    ;
    lemma_field(pos);
    lemma_way_to(pos, n);
    lemma_powers();
    if d > 0 && vel.value() < 0 {
        lemma_way_size(pos, n, d as nat);
        lemma_time_size(Single::whole_spec(n).minus_spec(pos), vel);
    }
    if d < 0 && vel.value() > 0 {
        lemma_way_size(pos, n, (-d) as nat);
        lemma_time_size(Single::whole_spec(n).minus_spec(pos), vel);
    }
}

/// The ways to the two ends of a range are numbers, in the order of the ends.
proof fn lemma_ends(pos: Single, lo: nat, hi: nat)
    requires
        pos.finite(),
        lo < hi < 0x1000,
        16 * pow2(149) <= pos.value() < 8192 * pow2(149),
    ensures
        ({
            let a = Single::whole_spec(lo).minus_spec(pos);
            let b = Single::whole_spec(hi).minus_spec(pos);
            a.finite() && b.finite() && a.value() <= b.value()
        }),
{
    let p = pow2(149);
    let far = Single::whole_spec(8192);
    lemma_whole(lo);
    lemma_whole(hi);
    lemma_whole(8192);
    lemma_negated(pos);
    lemma_negated(far);
    assert(0 <= lo * p <= hi * p <= 4096 * p) by (nonlinear_arith)
        requires
            0 <= lo < hi < 4096,
            p >= 0,
    ;
    let a = Single::whole_spec(lo).minus_spec(pos);
    let b = Single::whole_spec(hi).minus_spec(pos);
    lemma_plus_between(Single::whole_spec(lo), pos.negated_spec(), far.negated_spec(), far);
    lemma_plus_between(Single::whole_spec(hi), pos.negated_spec(), far.negated_spec(), far);
    lemma_plus_order(
        Single::whole_spec(lo),
        pos.negated_spec(),
        Single::whole_spec(hi),
        pos.negated_spec(),
    );
    lemma_value_order(a, b);
}

/// The time at which a range is entered is the time to the end that is met
/// first.
proof fn lemma_first_end(pos: Single, vel: Single, lo: nat, hi: nat)
    requires
        pos.finite(),
        vel.finite(),
        vel.size() > 0,
        lo < hi < 0x1000,
        16 * pow2(149) <= pos.value() < 8192 * pow2(149),
    ensures
        ({
            let a = Single::whole_spec(lo).minus_spec(pos).over_spec(vel);
            let b = Single::whole_spec(hi).minus_spec(pos).over_spec(vel);
            &&& !a.nan() && !b.nan()
            &&& vel.value() > 0 ==> a.min_spec(b).key() == a.key()
            &&& vel.value() < 0 ==> a.min_spec(b).key() == b.key()
        }),
{
    let x = Single::whole_spec(lo).minus_spec(pos);
    let y = Single::whole_spec(hi).minus_spec(pos);
    lemma_ends(pos, lo, hi);
    lemma_over_number(x, vel);
    lemma_over_number(y, vel);
    lemma_negated(vel);
    if vel.value() > 0 {
        lemma_over_order(x, y, vel);
    } else {
        lemma_over_order(x, y, vel.negated_spec());
        lemma_over_turned(x, vel);
        lemma_over_turned(y, vel);
    }
}

/// A ball that enters a range ends within half a pixel of the end that it
/// enters by.
proof fn lemma_entered(pos: Single, vel: Single, lo: nat, hi: nat, t: Single)
    requires
        pos.finite(),
        vel.finite(),
        1 <= lo < hi < 0x1000,
        16 * pow2(149) <= pos.value() < 8192 * pow2(149),
        0 < vel.size() <= 4096 * pow2(149),
        t.finite(),
        t.value() >= 0,
        t.key() == axis_span_spec(
            pos,
            vel,
            Single::whole_spec(lo),
            Single::whole_spec(hi),
        ).0.key(),
    ensures
        ({
            let x = pos.plus_spec(vel.times_spec(t));
            &&& x.finite()
            &&& vel.value() > 0 ==> (2 * lo - 1) * pow2(148) <= x.value()
            &&& vel.value() < 0 ==> x.value() <= (2 * hi + 1) * pow2(148)
        }),
{
    let n = if vel.value() > 0 {
        lo
    } else {
        hi
    };
    let e = Single::whole_spec(n).minus_spec(pos).over_spec(vel);
    lemma_first_end(pos, vel, lo, hi);
    assert(!vel.abs_spec().lt_spec(still_spec()));
    assert(t.key() == e.key());
    lemma_zero(t);
    assert(t.key() >= 0);
    lemma_behind(pos, vel, n);
    assert(e.finite());
    assert(!t.lt_spec(e) && t.le_spec(e));
    lemma_same(t, e);
    lemma_arrive(pos, vel, n, t);
}

/// The times at which a ball enters the two ranges of a block are times.
proof fn lemma_spans(pos: Single, vel: Single, lo: nat, hi: nat)
    requires
        pos.finite(),
        vel.finite(),
        lo < hi < 0x1000,
        16 * pow2(149) <= pos.value() < 8192 * pow2(149),
    ensures
        !axis_span_spec(pos, vel, Single::whole_spec(lo), Single::whole_spec(hi)).0.nan(),
{
    if !vel.abs_spec().lt_spec(still_spec()) {
        lemma_still_is_something();
        lemma_zero(vel);
        lemma_first_end(pos, vel, lo, hi);
    }
}

/// A ball that a block turns is well inside the walls that it is turned to.
pub proof fn lemma_block_turn(b: Seq<Block>, ball: Ball, skip: Seq<usize>, i: int, n: nat)
    requires
        b.len() == CELLS,
        on_grid(b),
        0 <= i < CELLS,
        caged(ball, n),
        n <= 8000,
        strikes(b, ball, skip, i),
        entry(b, ball, i).finite(),
        entry(b, ball, i).value() >= 0,
    ensures
        ({
            let t = entry(b, ball, i);
            let m = ball.moved_spec(t);
            match pass_spec(b, ball, i).2 {
                Axis::X => {
                    &&& ball.vx.value() < 0 ==> m.x.value() <= 1158 * pow2(148)
                    &&& ball.vx.value() > 0 ==> 42 * pow2(148) <= m.x.value()
                },
                Axis::Y => {
                    &&& ball.vy.value() > 0 ==> 42 * pow2(148) <= m.y.value()
                    &&& ball.vy.value() < 0 ==> m.y.value() <= 800 * pow2(148)
                },
            }
        }),
{
    let (bx, by, bw, bh) = rect_spec(i, b[i].span);
    let r = BALL_R as int;
    assert(0 <= col_of(i) < COLS && 0 <= row_of(i) < ROWS);
    let x0: nat = (bx - r) as nat;
    let x1: nat = (bx + bw + r) as nat;
    let y0: nat = (by - r) as nat;
    let y1: nat = (by + bh + r) as nat;
    assert(33 <= x0 < x1 <= 567 && 63 <= y0 < y1 <= 389);
    let p = pow2(149);
    lemma_halves();
    assert(n * p <= 8000 * p) by (nonlinear_arith)
        requires
            n <= 8000,
            p >= 0,
    ;
    lemma_spans(ball.x, ball.vx, x0, x1);
    lemma_spans(ball.y, ball.vy, y0, y1);
    let t = entry(b, ball, i);
    lemma_scaled(x0, x1, y0, y1);
    match pass_spec(b, ball, i).2 {
        Axis::X => {
            if ball.vx.value() != 0 {
                lemma_entered(ball.x, ball.vx, x0, x1, t);
            }
        },
        Axis::Y => {
            if ball.vy.value() != 0 {
                lemma_entered(ball.y, ball.vy, y0, y1, t);
            }
        },
    }
}

/// Where the faces of blocks lie, in half pixels.
proof fn lemma_scaled(x0: nat, x1: nat, y0: nat, y1: nat)
    requires
        33 <= x0,
        x1 <= 567,
        63 <= y0,
        y1 <= 389,
    ensures
        (2 * y1 + 1) * pow2(148) <= 800 * pow2(148),
        (2 * x0 - 1) * pow2(148) >= 42 * pow2(148),
        (2 * x1 + 1) * pow2(148) <= 1158 * pow2(148),
        (2 * y0 - 1) * pow2(148) >= 42 * pow2(148),
{
    let h = pow2(148);
    assert((2 * x0 - 1) * h >= 42 * h && (2 * x1 + 1) * h <= 1158 * h && (2 * y0 - 1) * h >= 42 * h
        && (2 * y1 + 1) * h <= 800 * h) by (nonlinear_arith)
        requires
            y1 <= 389,
            33 <= x0,
            x1 <= 567,
            63 <= y0,
            h >= 0,
    ;
}

/// A side wall that is half a field away is not met within a tick.
proof fn lemma_far_side(ball: Ball, n: nat)
    requires
        caged(ball, n),
        ball.vx.value() < 0 ==> ball.x.value() > 600 * pow2(148),
        ball.vx.value() > 0 ==> ball.x.value() < 600 * pow2(148),
    ensures
        ({
            let a = side_time_spec(ball);
            &&& !a.nan() && !a.neg()
            &&& a.finite() ==> a.size() >= pow2(145)
        }),
{
    let zero = Single::zero_spec();
    lemma_zero(zero);
    lemma_value_order(ball.vx, zero);
    lemma_value_order(zero, ball.vx);
    lemma_halves();
    lemma_powers();
    if ball.vx.value() != 0 {
        let w: nat = if ball.vx.value() < 0 {
            21
        } else {
            579
        };
        let u: nat = if ball.vx.value() < 0 {
            (ball.x.value() - 21 * pow2(149)) as nat
        } else {
            (579 * pow2(149) - ball.x.value()) as nat
        };
        lemma_way_size(ball.x, w, u);
        lemma_long(Single::whole_spec(w).minus_spec(ball.x), ball.vx);
    }
}

/// A long way takes a long time.
pub proof fn lemma_long(g: Single, v: Single)
    requires
        g.finite(),
        v.finite(),
        g.neg() == v.neg(),
        g.size() >= 278 * pow2(149),
        0 < v.size() <= 4096 * pow2(149),
    ensures
        ({
            let a = g.over_spec(v);
            &&& !a.nan() && !a.neg()
            &&& a.finite() ==> a.size() >= pow2(145)
        }),
{
    let p = pow2(149);
    let s = Single::rounded(false, 1 * pow2(145), 1);
    lemma_exact(1, 145);
    lemma_halves();
    lemma_zero(g);
    lemma_zero(v);
    assert(g.size() * p >= s.size() * v.size()) by (nonlinear_arith)
        requires
            g.size() >= 278 * p,
            s.size() == 1 * pow2(145),
            p == 16 * pow2(145),
            v.size() <= 4096 * p,
            p > 0,
    ;
    lemma_rounded_bounds(g.size() * p, v.size(), s);
    reveal(Single::over_spec);
}

/// A ball that a wall turns is caged again.
proof fn lemma_wall_turn(ball: Ball, n: nat, t: Single)
    requires
        caged(ball, n),
        n <= 8000,
        t.finite(),
        t.value() >= 0,
        t.size() <= tick_size(),
        t.le_spec(side_time_spec(ball)),
        t.le_spec(top_time_spec(ball)),
    ensures
        caged(
            ball.moved_spec(t).turned_spec(
                same_time_spec(side_time_spec(ball), t),
                same_time_spec(top_time_spec(ball), t),
            ),
            n + 205,
        ),
{
    let side = side_time_spec(ball);
    let top = top_time_spec(ball);
    let zero = Single::zero_spec();
    lemma_across(ball, n, t);
    lemma_along(ball, n, t);
    lemma_negated(ball.vx);
    lemma_negated(ball.vy);
    lemma_halves();
    if same_time_spec(side, t) {
        if (ball.vx.value() < 0 ==> ball.x.value() > 600 * pow2(148)) && (ball.vx.value() > 0
            ==> ball.x.value() < 600 * pow2(148)) {
            lemma_far_side(ball, n);
            lemma_far_off(side, t);
        }
    } else {
        lemma_not_same(side, t);
    }
    if same_time_spec(top, t) {
        lemma_zero(zero);
        lemma_value_order(ball.vy, zero);
        if ball.vy.value() >= 0 {
            lemma_far_off(top, t);
        }
    } else {
        lemma_not_same(top, t);
    }
}

/// A ball that a block turns, or lets through, is caged again.
proof fn lemma_block_leg(b: Seq<Block>, f: Flight, n: nat, pierces: bool)
    requires
        b.len() == CELLS,
        on_grid(b),
        caged(f.ball, n),
        n <= 8000,
        next_impact_spec(b, f.ball, f.left, f.hits) is Block,
        ({
            let t = impact_time(next_impact_spec(b, f.ball, f.left, f.hits), f.left);
            &&& t.finite()
            &&& t.value() >= 0
            &&& t.size() <= tick_size()
            &&& t.lt_spec(side_time_spec(f.ball))
            &&& t.lt_spec(top_time_spec(f.ball))
        }),
    ensures
        ({
            let hit = next_impact_spec(b, f.ball, f.left, f.hits);
            let m = f.ball.moved_spec(impact_time(hit, f.left));
            caged(
                if pierces {
                    m
                } else {
                    m.reflected_spec(hit->Block_2)
                },
                n + 205,
            )
        }),
{
    let hit = next_impact_spec(b, f.ball, f.left, f.hits);
    let t = impact_time(hit, f.left);
    next_impact_is_the_soonest(b, f.ball, f.left, f.hits);
    let i = hit->Block_0 as int;
    lemma_across(f.ball, n, t);
    lemma_along(f.ball, n, t);
    lemma_block_turn(b, f.ball, f.hits, i, n);
    lemma_negated(f.ball.vx);
    lemma_negated(f.ball.vy);
}

/// The time to a wall, of a ball that is caged, is not in the past.
proof fn lemma_caged_ahead(ball: Ball, n: nat)
    requires
        caged(ball, n),
    ensures
        Single::zero_spec().le_spec(wall_time_spec(ball)),
        wall_time_spec(ball).le_spec(side_time_spec(ball)),
        wall_time_spec(ball).le_spec(top_time_spec(ball)),
{
    let zero = Single::zero_spec();
    lemma_zero(zero);
    lemma_whole(21);
    lemma_whole(579);
    lemma_halves();
    lemma_value_order(ball.vx, zero);
    lemma_value_order(zero, ball.vx);
    lemma_value_order(ball.vy, zero);
    if ball.vx.value() < 0 {
        lemma_ahead(Single::whole_spec(21), ball.x, ball.vx);
    } else if ball.vx.value() > 0 {
        lemma_ahead(Single::whole_spec(579), ball.x, ball.vx);
    }
    if ball.vy.value() < 0 {
        lemma_ahead(Single::whole_spec(21), ball.y, ball.vy);
    }
}

/// The ball's centre is at most half a pixel past a wall, by values.
spec fn boxed(ball: Ball) -> bool {
    &&& ball.x.finite() && ball.y.finite()
    &&& 41 * pow2(148) <= ball.x.value() <= 1159 * pow2(148)
    &&& 41 * pow2(148) <= ball.y.value()
}

/// A tick's way leaves a fast ball at most half a pixel past a wall.
proof fn lemma_fast_way(b: Seq<Block>, pierces: bool, f: Flight, n: nat)
    requires
        b.len() == CELLS,
        on_grid(b),
        n <= MOST_IMPACTS,
        caged(f.ball, (1600 + 205 * (MOST_IMPACTS - n)) as nat),
        f.left.finite(),
        f.left.size() <= tick_size(),
    ensures
        boxed(swept(b, pierces, f, n).ball),
    decreases n,
{
    let zero = Single::zero_spec();
    let k: nat = (1600 + 205 * (MOST_IMPACTS - n)) as nat;
    lemma_zero(zero);
    lemma_value_order(f.left, zero);
    lemma_value_order(zero, f.left);
    if n > 0 && f.left.value() > 0 {
        let hit = next_impact_spec(b, f.ball, f.left, f.hits);
        let t = impact_time(hit, f.left);
        let m: nat = (n - 1) as nat;
        lemma_caged_ahead(f.ball, k);
        lemma_soon(b, f);
        lemma_rest(f.left, t);
        match hit {
            Impact::Wall(fx, fy, _) => {
                next_impact_is_the_soonest(b, f.ball, f.left, f.hits);
                lemma_wall_turn(f.ball, k, t);
                let g = Flight {
                    ball: f.ball.moved_spec(t).turned_spec(fx, fy),
                    left: f.left.minus_spec(t),
                    hits: f.hits,
                };
                lemma_fast_way(b, pierces, g, m);
            },
            Impact::Block(i, _, axis) => {
                lemma_block_leg(b, f, k, pierces);
                let g = Flight {
                    ball: if pierces {
                        f.ball.moved_spec(t)
                    } else {
                        f.ball.moved_spec(t).reflected_spec(axis)
                    },
                    left: f.left.minus_spec(t),
                    hits: f.hits.push(i),
                };
                lemma_fast_way(b, pierces, g, m);
            },
            Impact::Free => {
                lemma_across(f.ball, k, t);
                lemma_along(f.ball, k, t);
            },
        }
    }
}

/// Pixels in a second: far more than a ball has in play.
pub const FASTEST: u32 = 4096;

/// The ball's centre is at most half a pixel past a wall.
pub open spec fn nearly_inside(ball: Ball) -> bool {
    &&& Single::ratio_spec((2 * WALL_L - 1) as nat, 2).le_spec(ball.x)
    &&& ball.x.le_spec(Single::ratio_spec((2 * WALL_R + 1) as nat, 2))
    &&& Single::ratio_spec((2 * WALL_TOP - 1) as nat, 2).le_spec(ball.y)
}

/// However fast a ball that is inside goes, a tick does not take its centre more
/// than half a pixel past a wall.
pub proof fn the_ball_never_passes_the_pleura(w: World, dt: Single)
    requires
        w.wf(),
        inside(w.ball),
        w.ball.y.le_spec(Single::whole_spec((2 * H) as nat)),
        w.ball.vx.abs_spec().le_spec(Single::whole_spec(FASTEST as nat)),
        w.ball.vy.abs_spec().le_spec(Single::whole_spec(FASTEST as nat)),
    ensures
        nearly_inside(w.ticked(dt).ball),
{
    let d = dt.min_spec(longest_tick());
    let c = w.cooled(d);
    lemma_longest();
    lemma_nearly(w.ball);
    assert(c.ball == w.ball) by {
        reveal(World::cooled);
    }
    w.cooling_keeps_the_board(d);
    if !(c.lost || c.won) {
        let e = World { elapsed: c.elapsed.plus_spec(d), ..c };
        lemma_fall_frame(e, d);
        lemma_fast_flight(e.fallen(d), d);
        lemma_played(c, d);
        lemma_fast_caught();
    }
}

/// Halves are numbers.
pub proof fn lemma_half(n: nat)
    requires
        n < 0x1_0000,
    ensures
        Single::ratio_spec(n, 2).finite(),
        Single::ratio_spec(n, 2).value() == n * pow2(148),
{
    let p = pow2(149);
    let h = pow2(148);
    let s = Single::rounded(false, n * h, 1);
    lemma_exact(n, 148);
    lemma_halves();
    assert(n * p == s.size() * 2) by (nonlinear_arith)
        requires
            s.size() == n * h,
            p == 2 * h,
    ;
    lemma_rounded_bounds(n * p, 2, s);
}

/// What is boxed is so by its order.
proof fn lemma_boxed(ball: Ball)
    requires
        boxed(ball),
    ensures
        nearly_inside(ball),
{
    lemma_half(41);
    lemma_half(1159);
    lemma_value_order(Single::ratio_spec(41, 2), ball.x);
    lemma_value_order(ball.x, Single::ratio_spec(1159, 2));
    lemma_value_order(Single::ratio_spec(41, 2), ball.y);
}

/// What is inside is nearly so.
proof fn lemma_nearly(ball: Ball)
    requires
        inside(ball),
        ball.y.le_spec(Single::whole_spec((2 * H) as nat)),
    ensures
        nearly_inside(ball),
        boxed(ball),
        42 * pow2(148) <= ball.x.value() <= 1158 * pow2(148),
        42 * pow2(148) <= ball.y.value() <= 1600 * pow2(149),
{
    lemma_whole(21);
    lemma_whole(579);
    lemma_whole((2 * H) as nat);
    lemma_halves();
    lemma_between(Single::whole_spec(21), ball.x, Single::whole_spec(579));
    lemma_between(Single::whole_spec(21), ball.y, Single::whole_spec((2 * H) as nat));
    lemma_boxed(ball);
}

/// A speed that is at most the fastest is so by its size.
proof fn lemma_fast(v: Single)
    requires
        v.abs_spec().le_spec(Single::whole_spec(FASTEST as nat)),
    ensures
        v.finite(),
        v.size() <= 4096 * pow2(149),
{
    let top = Single::whole_spec(FASTEST as nat);
    lemma_whole(FASTEST as nat);
    assert(v.finite());
    assert(v.bits % 0x8000_0000 <= top.bits % 0x8000_0000);
    lemma_size_order(v, top);
}

/// The way of a fast ball ends nearly inside.
proof fn lemma_fast_flight(w: World, d: Single)
    requires
        w.blocks.len() == CELLS,
        on_grid(w.blocks),
        inside(w.ball),
        w.ball.y.le_spec(Single::whole_spec((2 * H) as nat)),
        w.ball.vx.abs_spec().le_spec(Single::whole_spec(FASTEST as nat)),
        w.ball.vy.abs_spec().le_spec(Single::whole_spec(FASTEST as nat)),
        d.le_spec(longest_tick()),
    ensures
        nearly_inside(w.flight(d).ball),
{
    reveal(World::flight);
    let f = Flight { ball: w.ball, left: d, hits: Seq::empty() };
    let zero = Single::zero_spec();
    lemma_zero(zero);
    lemma_longest();
    lemma_nearly(w.ball);
    if !d.le_spec(zero) {
        lemma_between(zero, d, longest_tick());
        lemma_fast(w.ball.vx);
        lemma_fast(w.ball.vy);
        lemma_fast_way(w.blocks, w.pierce > 0, f, MOST_IMPACTS as nat);
        lemma_boxed(w.flight(d).ball);
    }
}

/// A ball that the paddle returns is well under the apex.
proof fn lemma_fast_caught()
    ensures
        Single::ratio_spec((2 * WALL_TOP - 1) as nat, 2).le_spec(
            Single::whole_spec((CIG_Y - BALL_R) as nat),
        ),
{
    lemma_half(41);
    lemma_whole((CIG_Y - BALL_R) as nat);
    lemma_halves();
    lemma_value_order(Single::ratio_spec(41, 2), Single::whole_spec((CIG_Y - BALL_R) as nat));
}

} // verus!
