//! The ball stays in the field: at the speed at which the game is played, no
//! rounding takes it through a wall.
use crate::board::{lemma_serve_row, serve_row_spec, Block};
use crate::impact::{impact_time, next_impact_is_the_soonest, next_impact_spec};
use crate::laws::{a_catch_is_recorded, a_catch_leads_on};
use crate::motion::{
    meets_paddle_spec, paddle_return_spec, side_time_spec, top_time_spec, wall_time_spec, Ball,
    Impact,
};
use crate::single::{
    lemma_between, lemma_exact, lemma_fit_unique, lemma_negated, lemma_parts, lemma_plus_between,
    lemma_plus_exact, lemma_plus_order, lemma_rounded_bounds, lemma_rounded_close,
    lemma_rounded_mono, lemma_rounded_sign, lemma_size_order, lemma_times_bound, lemma_times_order,
    lemma_value_order, lemma_whole, lemma_zero, Single,
};
use crate::world::{bumped, longest_tick, on_grid, swept, Flight, World, MOST_IMPACTS};
use crate::{BALL_R, CELL, CELLS, CIG_Y, GRID_Y, H, WALL_L, WALL_R, WALL_TOP};
use vstd::arithmetic::div_mod::*;
use vstd::arithmetic::mul::*;
use vstd::arithmetic::power2::*;
use vstd::prelude::*;

verus! {

/// The ball's centre is between the walls and under the apex.
pub open spec fn inside(ball: Ball) -> bool {
    &&& Single::whole_spec(WALL_L as nat).le_spec(ball.x)
    &&& ball.x.le_spec(Single::whole_spec(WALL_R as nat))
    &&& Single::whole_spec(WALL_TOP as nat).le_spec(ball.y)
}

/// Pixels in a second: a little more than the ball is served at.
pub const TOP_SPEED: u32 = 319;

/// The ball goes no faster than the game is played, either way.
pub open spec fn at_game_speed(ball: Ball) -> bool {
    let top = Single::whole_spec(TOP_SPEED as nat);
    ball.vx.abs_spec().le_spec(top) && ball.vy.abs_spec().le_spec(top)
}

/// A time of about a twentieth of a second, in units of the least number.
pub open spec fn tick_size() -> nat {
    13108 * pow2(131)
}

/// The powers of two that matter here.
pub proof fn lemma_powers()
    ensures
        pow2(149) == 0x4_0000 * pow2(131),
        pow2(149) == 0x8_0000 * pow2(130),
        pow2(149) == 0x10_0000 * pow2(129),
        pow2(149) == 0x4000 * pow2(135),
        pow2(135) == 64 * pow2(129),
        pow2(130) == 2 * pow2(129),
        pow2(131) == 4 * pow2(129),
        pow2(129) >= 0x1_0000_0000,
        pow2(130) >= 0x1_0000_0000_0000,
{
    lemma2_to64();
    lemma_pow2_adds(18, 131);
    lemma_pow2_adds(19, 130);
    lemma_pow2_adds(20, 129);
    lemma_pow2_adds(14, 135);
    lemma_pow2_adds(6, 129);
    lemma_pow2_adds(1, 129);
    lemma_pow2_adds(2, 129);
    lemma_pow2_adds(32, 97);
    lemma_pow2_pos(97);
    lemma2_to64_rest();
    lemma_pow2_adds(48, 82);
    lemma_pow2_pos(82);
}

/// How far the ball goes in a tick, one way, at the speed of the game.
pub proof fn lemma_travel(v: Single, t: Single)
    requires
        v.finite(),
        t.finite(),
        v.size() <= 319 * pow2(149),
        t.size() <= tick_size(),
    ensures
        v.times_spec(t).finite(),
        v.times_spec(t).size() <= 16 * pow2(149),
        v.times_spec(t).neg() == (v.neg() != t.neg()),
{
    let far = Single::whole_spec(16);
    let p = pow2(149);
    lemma_whole(16);
    lemma_powers();
    assert(v.size() * t.size() <= (16 * p) * p) by (nonlinear_arith)
        requires
            v.size() <= 319 * p,
            t.size() <= 13108 * pow2(131),
            p == 0x4_0000 * pow2(131),
    ;
    lemma_times_bound(v, t, far);
    lemma_times_order(v, t, v, t);
}

/// The place of the last bit of a number that lies between two powers of two.
pub proof fn lemma_place(x: Single, lo: nat, hi: nat)
    requires
        x.finite(),
        lo > 0,
        0x80_0000 * pow2(lo) <= x.size() < 0x80_0000 * pow2(hi),
    ensures
        lo <= x.lift() < hi,
{
    lemma_parts(x);
    let l = x.lift();
    lemma_pow2_pos(l);
    if l < lo {
        lemma_power_step(l, (lo - 1) as nat);
        lemma_pow2_unfold(lo);
        assert(x.sig() * pow2(l) < 0x80_0000 * (2 * pow2((lo - 1) as nat))) by (nonlinear_arith)
            requires
                x.sig() < 0x100_0000,
                0 < pow2(l) <= pow2((lo - 1) as nat),
        ;
    } else if l >= hi {
        lemma_power_step(hi, l);
        assert(x.sig() * pow2(l) >= 0x80_0000 * pow2(hi)) by (nonlinear_arith)
            requires
                x.sig() >= 0x80_0000,
                pow2(l) >= pow2(hi),
        ;
    }
}

/// Powers of two keep the order of their exponents.
pub proof fn lemma_power_step(a: nat, b: nat)
    requires
        a <= b,
    ensures
        pow2(a) <= pow2(b),
{
    if a < b {
        lemma_pow2_strictly_increases(a, b);
    }
}

/// A way that does not have more bits than where the ball is has is worked out
/// exactly, and is a multiple of the last of them.
pub proof fn lemma_exact_gap(x: Single, n: nat)
    requires
        x.finite(),
        !x.neg(),
        n < 0x1_0000,
        130 <= x.lift() <= 149,
        n * pow2(149) - x.value() < 0x100_0000 * pow2(x.lift()),
    ensures
        ({
            let g = Single::whole_spec(n).minus_spec(x);
            &&& g.finite()
            &&& g.value() == n * pow2(149) - x.value()
            &&& g.size() == 0 || g.size() >= pow2(130)
        }),
{
    let w = Single::whole_spec(n);
    let l = x.lift();
    let p = pow2(l);
    lemma_whole(n);
    lemma_parts(x);
    lemma_negated(x);
    lemma_pow2_adds(l, (149 - l) as nat);
    let e = pow2((149 - l) as nat);
    let m: int = n * e - x.sig();
    assert(n * pow2(149) - x.value() == m * p) by (nonlinear_arith)
        requires
            pow2(149) == p * e,
            x.value() == x.sig() * p,
            m == n * e - x.sig(),
    ;
    lemma_power_step(130, l);
    lemma_pow2_pos(130);
    let a: nat = if m < 0 {
        (-m) as nat
    } else {
        m as nat
    };
    assert(n * e >= 0) by (nonlinear_arith)
        requires
            n >= 0,
            e >= 0,
    ;
    assert(m < 0x100_0000) by (nonlinear_arith)
        requires
            m * p < 0x100_0000 * p,
            p > 0,
    ;
    lemma_exact(a, l);
    let s = Single::rounded(false, a * p, 1);
    assert(m < 0 ==> m * p == -(a * p)) by (nonlinear_arith)
        requires
            m < 0 ==> a == -m,
    ;
    assert(a == 0 || a * p >= p) by (nonlinear_arith)
        requires
            p > 0,
    ;
    lemma_mul_basics(p as int);
    lemma_negated(s);
    let t = if m < 0 {
        s.negated_spec()
    } else {
        s
    };
    lemma_plus_exact(w, x.negated_spec(), t);
    let g = w.minus_spec(x);
    assert(g.value() == t.value());
    assert(g.size() == a * p);
}

/// The way to a wall that is near is worked out exactly.
proof fn lemma_gap(x: Single, n: nat, k: nat)
    requires
        x.finite(),
        !x.neg(),
        n < 0x1000,
        130 <= k <= 135,
        0x80_0000 * pow2(k) <= x.size() < 0x80_0000 * pow2(k + 2),
        n * pow2(149) - x.value() <= 16 * pow2(149),
    ensures
        ({
            let g = Single::whole_spec(n).minus_spec(x);
            &&& g.finite()
            &&& g.value() == n * pow2(149) - x.value()
            &&& g.size() == 0 || g.size() >= pow2(130)
        }),
{
    lemma_place(x, k, k + 2);
    lemma_power_step(130, x.lift());
    lemma_powers();
    lemma_exact_gap(x, n);
}

/// A ball that goes for less time than it would need to a wall does not get
/// past it.
pub proof fn lemma_short(x: Single, v: Single, w: Single, t: Single)
    requires
        x.finite(),
        v.finite(),
        w.finite(),
        t.finite(),
        v.size() > 0,
        !t.neg() || t.size() == 0,
        w.minus_spec(x).finite(),
        w.minus_spec(x).value() == w.value() - x.value(),
        w.minus_spec(x).size() > 0,
        w.minus_spec(x).neg() == v.neg(),
        t.lt_spec(w.minus_spec(x).over_spec(v)),
    ensures
        v.times_spec(t).finite(),
        v.times_spec(t).size() <= w.minus_spec(x).size(),
{
    let g = w.minus_spec(x);
    let p = pow2(149);
    let u = g.over_spec(v);
    lemma_zero(g);
    lemma_zero(v);
    lemma_zero(t);
    assert(u == Single::rounded(false, g.size() * p, v.size())) by {
        reveal(Single::over_spec);
    }
    if g.size() * p <= t.size() * v.size() {
        lemma_rounded_bounds(g.size() * p, v.size(), t);
        lemma_value_order(t, u);
    }
    lemma_mul_is_commutative(t.size() as int, v.size() as int);
    lemma_times_bound(v, t, g);
}

/// A ball that goes for just the time that it would need to a wall gets past it
/// by no more than one part in a million of a pixel.
proof fn lemma_land(x: Single, v: Single, w: Single, t: Single)
    requires
        x.finite(),
        v.finite(),
        w.finite(),
        t.finite(),
        0 < v.size() <= 319 * pow2(149),
        t.size() <= tick_size(),
        !t.neg() || t.size() == 0,
        w.minus_spec(x).finite(),
        w.minus_spec(x).value() == w.value() - x.value(),
        w.minus_spec(x).size() >= pow2(130),
        w.minus_spec(x).neg() == v.neg(),
        t.le_spec(w.minus_spec(x).over_spec(v)),
    ensures
        v.times_spec(t).finite(),
        v.times_spec(t).size() <= w.minus_spec(x).size() + pow2(129),
{
    let g = w.minus_spec(x);
    let p = pow2(149);
    let u = g.over_spec(v);
    lemma_powers();
    lemma_zero(g);
    lemma_zero(v);
    lemma_zero(t);
    assert(u == Single::rounded(false, g.size() * p, v.size())) by {
        reveal(Single::over_spec);
    }
    if g.size() >= 16 * p {
        // Too far for a tick.
        let s = Single::rounded(false, 13145 * pow2(131), 1);
        lemma_exact(13145, 131);
        assert(g.size() * p >= s.size() * v.size()) by (nonlinear_arith)
            requires
                g.size() >= 16 * p,
                s.size() == 13145 * pow2(131),
                0 <= v.size() <= 319 * p,
                p == 0x4_0000 * pow2(131),
        ;
        lemma_rounded_bounds(g.size() * p, v.size(), s);
        lemma_value_order(t, s);
        assert(t.value() < s.value());
        assert(t.lt_spec(u));
    }
    if t.lt_spec(u) {
        lemma_short(x, v, w, t);
    } else {
        lemma_rounded_sign(g.size() * p, v.size());
        assert(t.bits % 0x8000_0000 == u.bits % 0x8000_0000);
        assert(u.finite());
        lemma_value_order(t, u);
        assert(t.size() == u.size());
        assert(g.size() * p >= 0x80_0000 * v.size()) by (nonlinear_arith)
            requires
                g.size() >= pow2(130),
                pow2(130) == 2 * pow2(129),
                pow2(129) >= 0x1_0000_0000,
        pow2(130) >= 0x1_0000_0000_0000,
                v.size() <= 319 * p,
                p > 0,
        ;
        lemma_rounded_close(g.size() * p, v.size());
        lemma_next(g, v, t);
    }
}

/// A product that is over a number by less than its `2^24`th part is at most
/// the next number.
proof fn lemma_next(g: Single, v: Single, t: Single)
    requires
        g.finite(),
        v.finite(),
        t.finite(),
        0 < g.size() < 16 * pow2(149),
        (t.size() * v.size()) * 0x100_0000 <= (g.size() * pow2(149)) * 0x100_0001,
    ensures
        v.times_spec(t).finite(),
        v.times_spec(t).size() <= g.size() + pow2(129),
{
    let p = pow2(149);
    let l = g.lift();
    let k = g.sig();
    let q = pow2(l);
    lemma_parts(g);
    lemma_powers();
    lemma_pow2_pos(l);
    if l > 129 {
        lemma_power_step(130, l);
        assert(k * q >= 0x80_0000 * pow2(130)) by (nonlinear_arith)
            requires
                k >= 0x80_0000,
                q >= pow2(130),
        ;
        assert(false);
    }
    lemma_power_step(l, 129);
    let s = if k + 1 < 0x100_0000 {
        Single::rounded(false, (k + 1) * q, 1)
    } else {
        Single::rounded(false, 0x80_0000 * pow2(l + 1), 1)
    };
    if k + 1 < 0x100_0000 {
        lemma_exact(k + 1, l);
    } else {
        lemma_exact(0x80_0000, l + 1);
        lemma_pow2_unfold(l + 1);
    }
    assert(s.size() == (k + 1) * q) by (nonlinear_arith)
        requires
            s.size() == (k + 1) * q || (k + 1 == 0x100_0000 && s.size() == 0x80_0000 * (2 * q)),
    ;
    let a = q * p;
    let z = v.size() * t.size();
    let y = k * a;
    lemma_mul_is_commutative(t.size() as int, v.size() as int);
    assert(g.size() * p == y) by (nonlinear_arith)
        requires
            g.size() == k * q,
            a == q * p,
            y == k * a,
    ;
    assert(s.size() * p == y + a) by (nonlinear_arith)
        requires
            s.size() == (k + 1) * q,
            a == q * p,
            y == k * a,
    ;
    assert(y <= 0x100_0000 * a) by (nonlinear_arith)
        requires
            y == k * a,
            k < 0x100_0000,
            a >= 0,
    ;
    assert(z <= y + a);
    lemma_times_bound(v, t, s);
    assert((k + 1) * q == k * q + q) by (nonlinear_arith);
}

/// What falls short of the left wall, or of the apex, by so little is rounded
/// to it.
proof fn lemma_low_wall(a: Single, b: Single)
    requires
        a.finite(),
        b.finite(),
        a.value() + b.value() >= 21 * pow2(149) - pow2(129),
    ensures
        Single::whole_spec(21).le_spec(a.plus_spec(b)),
{
    lemma_powers();
    let u = a.value() + b.value();
    let n: nat = (21 * pow2(149) - pow2(129)) as nat;
    let d = pow2(130);
    lemma_mul_basics(d as int);
    lemma_mul_basics(n as int);
    lemma_mul_basics(u);
    lemma_whole(21);
    let w = Single::whole_spec(21);
    assert(Single::rounded(false, n, 1) == w) by {
        reveal(Single::rounded);
        lemma_fit_unique(n, 1, 130);
        lemma_fit_unique(21 * pow2(149), 1, 130);
        lemma_fundamental_div_mod_converse(
            n as int,
            d as int,
            11010047,
            pow2(129) as int,
        );
        lemma_fundamental_div_mod_converse((21 * pow2(149)) as int, d as int, 11010048, 0);
    }
    lemma_rounded_mono(n, 1, u as nat, 1);
    lemma_rounded_sign(u as nat, 1);
    reveal(Single::plus_spec);
}

/// What is past the right wall by so little is rounded to it.
proof fn lemma_high_wall(a: Single, b: Single)
    requires
        a.finite(),
        b.finite(),
        0 < a.value() + b.value() <= 579 * pow2(149) + pow2(129),
    ensures
        a.plus_spec(b).le_spec(Single::whole_spec(579)),
{
    lemma_powers();
    let u = a.value() + b.value();
    let n: nat = 579 * pow2(149) + pow2(129);
    let d = pow2(135);
    lemma_mul_basics(d as int);
    lemma_mul_basics(n as int);
    lemma_mul_basics(u);
    lemma_whole(579);
    let w = Single::whole_spec(579);
    assert(pow2(134) * 2 == pow2(135)) by {
        lemma_pow2_unfold(135);
    }
    lemma_mul_basics(pow2(134) as int);
    assert(Single::rounded(false, n, 1) == w) by {
        reveal(Single::rounded);
        lemma_fit_unique(n, 1, 135);
        lemma_fit_unique(579 * pow2(149), 1, 135);
        lemma_fundamental_div_mod_converse(n as int, d as int, 9486336, pow2(129) as int);
        lemma_fundamental_div_mod_converse((579 * pow2(149)) as int, d as int, 9486336, 0);
    }
    lemma_rounded_mono(u as nat, 1, n, 1);
    lemma_rounded_sign(u as nat, 1);
    reveal(Single::plus_spec);
}

/// A ball that heads for the left wall, or for the apex, does not get past it
/// before the time at which it meets it.
proof fn lemma_toward_low(x: Single, v: Single, t: Single)
    requires
        x.finite(),
        21 * pow2(149) <= x.value() <= 4096 * pow2(149),
        v.finite(),
        v.value() < 0,
        v.size() <= 319 * pow2(149),
        t.finite(),
        t.value() >= 0,
        t.size() <= tick_size(),
        t.le_spec(Single::whole_spec(21).minus_spec(x).over_spec(v)),
    ensures
        x.plus_spec(v.times_spec(t)).finite(),
        21 * pow2(149) <= x.plus_spec(v.times_spec(t)).value() <= x.value(),
{
    let w = Single::whole_spec(21);
    let g = w.minus_spec(x);
    let m = v.times_spec(t);
    let zero = Single::zero_spec();
    lemma_whole(21);
    lemma_zero(zero);
    lemma_powers();
    lemma_travel(v, t);
    lemma_still(v, t);
    if x.value() >= 37 * pow2(149) {
        lemma_plus_between(x, m, w, x);
    } else {
        lemma_zero(x);
        lemma_pow2_adds(2, 130);
        lemma2_to64();
        lemma_gap(x, 21, 130);
        if g.size() == 0 {
            lemma_no_way(g, v, t);
            lemma_still(v, t);
            lemma_plus_exact(x, m, x);
        } else {
            lemma_land(x, v, w, t);
            lemma_low_wall(x, m);
            lemma_plus_order(x, m, x, zero);
            lemma_plus_exact(x, zero, x);
            lemma_between(w, x.plus_spec(m), x.plus_spec(zero));
        }
    }
}

/// A ball that heads for the right wall does not get past it before the time at
/// which it meets it.
proof fn lemma_toward_high(x: Single, v: Single, t: Single)
    requires
        x.finite(),
        21 * pow2(149) <= x.value() <= 579 * pow2(149),
        v.finite(),
        v.value() > 0,
        v.size() <= 319 * pow2(149),
        t.finite(),
        t.value() >= 0,
        t.size() <= tick_size(),
        t.le_spec(Single::whole_spec(579).minus_spec(x).over_spec(v)),
    ensures
        x.plus_spec(v.times_spec(t)).finite(),
        x.value() <= x.plus_spec(v.times_spec(t)).value() <= 579 * pow2(149),
{
    let w = Single::whole_spec(579);
    let g = w.minus_spec(x);
    let m = v.times_spec(t);
    let zero = Single::zero_spec();
    lemma_whole(579);
    lemma_zero(zero);
    lemma_powers();
    lemma_travel(v, t);
    lemma_still(v, t);
    if x.value() <= 563 * pow2(149) {
        lemma_plus_between(x, m, x, w);
    } else {
        lemma_zero(x);
        lemma_pow2_adds(2, 135);
        lemma2_to64();
        lemma_gap(x, 579, 135);
        if g.size() == 0 {
            lemma_no_way(g, v, t);
            lemma_still(v, t);
            lemma_plus_exact(x, m, x);
        } else {
            lemma_land(x, v, w, t);
            lemma_high_wall(x, m);
            lemma_plus_order(x, zero, x, m);
            lemma_plus_exact(x, zero, x);
            lemma_between(x.plus_spec(zero), x.plus_spec(m), w);
        }
    }
}

/// The sign of how far a ball goes; in no time it goes nowhere.
pub proof fn lemma_still(v: Single, t: Single)
    requires
        v.finite(),
        t.finite(),
        t.value() >= 0,
        v.times_spec(t).finite(),
    ensures
        v.value() <= 0 ==> v.times_spec(t).value() <= 0,
        v.value() >= 0 ==> v.times_spec(t).value() >= 0,
        t.size() == 0 ==> v.times_spec(t).value() == 0,
{
    let zero = Single::zero_spec();
    lemma_zero(zero);
    lemma_times_order(v, t, v, t);
    if v.size() == 0 || t.size() == 0 {
        assert(v.size() * t.size() <= zero.size() * pow2(149)) by (nonlinear_arith)
            requires
                v.size() == 0 || t.size() == 0,
                zero.size() == 0,
        ;
        lemma_times_bound(v, t, zero);
    }
}

/// With no way to go there is no time to go it in.
pub proof fn lemma_no_way(g: Single, v: Single, t: Single)
    requires
        g.finite(),
        g.size() == 0,
        v.finite(),
        v.size() > 0,
        t.finite(),
        t.value() >= 0,
        t.le_spec(g.over_spec(v)),
    ensures
        t.size() == 0,
{
    reveal(Single::over_spec);
    lemma_zero(g);
    lemma_zero(v);
    let u = g.over_spec(v);
    lemma_zero(u);
    lemma_value_order(t, u);
}

/// A leg of the way leaves the ball between the side walls.
proof fn lemma_leg_x(ball: Ball, t: Single)
    requires
        ball.x.finite(),
        21 * pow2(149) <= ball.x.value() <= 579 * pow2(149),
        ball.vx.finite(),
        ball.vx.size() <= 319 * pow2(149),
        t.finite(),
        t.value() >= 0,
        t.size() <= tick_size(),
        t.le_spec(side_time_spec(ball)),
    ensures
        ball.moved_spec(t).x.finite(),
        21 * pow2(149) <= ball.moved_spec(t).x.value() <= 579 * pow2(149),
{
    let zero = Single::zero_spec();
    lemma_zero(zero);
    lemma_value_order(ball.vx, zero);
    lemma_value_order(zero, ball.vx);
    lemma_whole(21);
    lemma_whole(579);
    if ball.vx.value() < 0 {
        lemma_ahead(Single::whole_spec(21), ball.x, ball.vx);
        lemma_toward_low(ball.x, ball.vx, t);
    } else if ball.vx.value() > 0 {
        lemma_ahead(Single::whole_spec(579), ball.x, ball.vx);
        lemma_toward_high(ball.x, ball.vx, t);
    } else {
        lemma_travel(ball.vx, t);
        lemma_still(ball.vx, t);
        lemma_plus_exact(ball.x, ball.vx.times_spec(t), ball.x);
    }
}

/// A leg of the way leaves the ball under the apex, and not far lower than it
/// was.
proof fn lemma_leg_y(ball: Ball, t: Single, n: nat)
    requires
        ball.y.finite(),
        n <= 4000,
        21 * pow2(149) <= ball.y.value() <= n * pow2(149),
        ball.vy.finite(),
        ball.vy.size() <= 319 * pow2(149),
        t.finite(),
        t.value() >= 0,
        t.size() <= tick_size(),
        t.le_spec(top_time_spec(ball)),
    ensures
        ball.moved_spec(t).y.finite(),
        21 * pow2(149) <= ball.moved_spec(t).y.value() <= (n + 16) * pow2(149),
{
    let zero = Single::zero_spec();
    let p = pow2(149);
    lemma_zero(zero);
    lemma_value_order(ball.vy, zero);
    assert(n * p <= 4096 * p && (n + 16) * p == n * p + 16 * p) by (nonlinear_arith)
        requires
            n <= 4000,
            p >= 0,
    ;
    if ball.vy.value() < 0 {
        lemma_toward_low(ball.y, ball.vy, t);
    } else {
        lemma_travel(ball.vy, t);
        lemma_still(ball.vy, t);
        lemma_whole(n + 16);
        lemma_plus_between(
            ball.y,
            ball.vy.times_spec(t),
            ball.y,
            Single::whole_spec(n + 16),
        );
    }
}

/// The ball is inside and slow, by values: the form in which it is carried
/// through a tick.
pub open spec fn held(ball: Ball, n: nat) -> bool {
    &&& ball.x.finite() && ball.y.finite() && ball.vx.finite() && ball.vy.finite()
    &&& 21 * pow2(149) <= ball.x.value() <= 579 * pow2(149)
    &&& 21 * pow2(149) <= ball.y.value() <= n * pow2(149)
    &&& ball.vx.size() <= 319 * pow2(149)
    &&& ball.vy.size() <= 319 * pow2(149)
}

/// The time to a wall, of a ball that is inside, is not in the past.
pub proof fn lemma_wall_ahead(ball: Ball, n: nat)
    requires
        held(ball, n),
        n <= 4000,
    ensures
        Single::zero_spec().le_spec(side_time_spec(ball)),
        Single::zero_spec().le_spec(top_time_spec(ball)),
        Single::zero_spec().le_spec(wall_time_spec(ball)),
        wall_time_spec(ball).le_spec(side_time_spec(ball)),
        wall_time_spec(ball).le_spec(top_time_spec(ball)),
{
    let zero = Single::zero_spec();
    lemma_zero(zero);
    lemma_whole(21);
    lemma_whole(579);
    lemma_value_order(ball.vx, zero);
    lemma_value_order(zero, ball.vx);
    lemma_value_order(ball.vy, zero);
    if ball.vx.value() < 0 {
        lemma_ahead(Single::whole_spec(21), ball.x, ball.vx);
    } else if ball.vx.value() > 0 {
        lemma_ahead(Single::whole_spec(579), ball.x, ball.vx);
    }
    if ball.vy.value() < 0 {
        lemma_ahead(Single::whole_spec(21), ball.y, ball.vy);
    }
}

/// What is ahead is met now or later.
pub proof fn lemma_ahead(w: Single, x: Single, v: Single)
    requires
        w.finite(),
        x.finite(),
        v.finite(),
        v.value() < 0 ==> w.value() <= x.value(),
        v.value() > 0 ==> w.value() >= x.value(),
        v.value() != 0,
    ensures
        Single::zero_spec().le_spec(w.minus_spec(x).over_spec(v)),
{
    let zero = Single::zero_spec();
    let g = w.minus_spec(x);
    lemma_zero(zero);
    lemma_zero(v);
    lemma_negated(x);
    lemma_plus_exact(zero, zero, zero);
    reveal(Single::plus_spec);
    reveal(Single::over_spec);
    if w.value() <= x.value() {
        lemma_plus_order(w, x.negated_spec(), zero, zero);
    }
    if w.value() >= x.value() {
        lemma_plus_order(zero, zero, w, x.negated_spec());
    }
    if g.finite() {
        lemma_zero(g);
        lemma_rounded_sign(g.size() * pow2(149), v.size());
    }
}

/// The next impact, or the end of the time, comes neither in the past nor after
/// the ball has met a wall.
pub proof fn lemma_soon(b: Seq<Block>, f: Flight)
    requires
        b.len() == CELLS,
        Single::zero_spec().lt_spec(f.left),
        Single::zero_spec().le_spec(wall_time_spec(f.ball)),
    ensures
        ({
            let t = impact_time(next_impact_spec(b, f.ball, f.left, f.hits), f.left);
            &&& Single::zero_spec().le_spec(t)
            &&& t.le_spec(f.left)
            &&& t.le_spec(wall_time_spec(f.ball))
            &&& next_impact_spec(b, f.ball, f.left, f.hits) is Block ==> t.lt_spec(
                wall_time_spec(f.ball),
            )
        }),
{
    next_impact_is_the_soonest(b, f.ball, f.left, f.hits);
}

/// A leg of the way, up to the next impact or as far as there is time, leaves
/// the ball inside.
pub proof fn lemma_leg(b: Seq<Block>, f: Flight, n: nat)
    requires
        b.len() == CELLS,
        held(f.ball, n),
        n <= 4000,
        f.left.finite(),
        f.left.value() > 0,
        f.left.size() <= tick_size(),
    ensures
        ({
            let t = impact_time(next_impact_spec(b, f.ball, f.left, f.hits), f.left);
            &&& held(f.ball.moved_spec(t), n + 16)
            &&& f.left.minus_spec(t).finite()
            &&& 0 <= f.left.minus_spec(t).value() <= f.left.value()
        }),
{
    let zero = Single::zero_spec();
    let t = impact_time(next_impact_spec(b, f.ball, f.left, f.hits), f.left);
    lemma_wall_ahead(f.ball, n);
    assert(zero.lt_spec(f.left)) by {
        lemma_zero(zero);
        lemma_value_order(zero, f.left);
    }
    lemma_soon(b, f);
    lemma_rest(f.left, t);
    assert(t.le_spec(side_time_spec(f.ball)) && t.le_spec(top_time_spec(f.ball)));
    lemma_leg_x(f.ball, t);
    lemma_leg_y(f.ball, t, n);
}

/// What is left of a time after a part of it.
pub proof fn lemma_rest(left: Single, t: Single)
    requires
        left.finite(),
        Single::zero_spec().le_spec(t),
        t.le_spec(left),
    ensures
        t.finite(),
        0 <= t.value() <= left.value(),
        left.minus_spec(t).finite(),
        0 <= left.minus_spec(t).value() <= left.value(),
{
    let zero = Single::zero_spec();
    lemma_zero(zero);
    lemma_between(zero, t, left);
    lemma_negated(t);
    lemma_plus_between(left, t.negated_spec(), zero, left);
}

/// A tick's way leaves the ball inside.
proof fn lemma_way(b: Seq<Block>, pierces: bool, f: Flight, n: nat)
    requires
        b.len() == CELLS,
        n <= MOST_IMPACTS,
        held(f.ball, (1600 + 16 * (MOST_IMPACTS - n)) as nat),
        f.left.finite(),
        f.left.size() <= tick_size(),
    ensures
        held(swept(b, pierces, f, n).ball, 2000),
    decreases n,
{
    let zero = Single::zero_spec();
    let k: nat = (1600 + 16 * (MOST_IMPACTS - n)) as nat;
    lemma_zero(zero);
    lemma_value_order(f.left, zero);
    let p = pow2(149);
    assert(k * p <= 2000 * p && (k + 16) * p <= 2000 * p) by (nonlinear_arith)
        requires
            k + 16 <= 2000,
            p >= 0,
    ;
    if n > 0 && f.left.value() > 0 {
        lemma_leg(b, f, k);
        let hit = next_impact_spec(b, f.ball, f.left, f.hits);
        let t = impact_time(hit, f.left);
        lemma_negated(f.ball.vx);
        lemma_negated(f.ball.vy);
        match hit {
            Impact::Wall(fx, fy, _) => {
                let g = Flight {
                    ball: f.ball.moved_spec(t).turned_spec(fx, fy),
                    left: f.left.minus_spec(t),
                    hits: f.hits,
                };
                lemma_way(b, pierces, g, (n - 1) as nat);
            },
            Impact::Block(i, _, axis) => {
                let g = Flight {
                    ball: if pierces {
                        f.ball.moved_spec(t)
                    } else {
                        f.ball.moved_spec(t).reflected_spec(axis)
                    },
                    left: f.left.minus_spec(t),
                    hits: f.hits.push(i),
                };
                lemma_way(b, pierces, g, (n - 1) as nat);
            },
            Impact::Free => {},
        }
    }
}

/// The way of a ball that is inside and slow ends inside.
pub proof fn lemma_flight(w: World, d: Single)
    requires
        w.blocks.len() == CELLS,
        inside(w.ball),
        w.ball.y.le_spec(Single::whole_spec((2 * H) as nat)),
        at_game_speed(w.ball),
        d.le_spec(longest_tick()),
    ensures
        inside(w.flight(d).ball),
{
    reveal(World::flight);
    let f = Flight { ball: w.ball, left: d, hits: Seq::empty() };
    let zero = Single::zero_spec();
    lemma_zero(zero);
    lemma_longest();
    if d.le_spec(zero) {
    } else {
        lemma_between(zero, d, longest_tick());
        lemma_held(w.ball);
        lemma_way(w.blocks, w.pierce > 0, f, MOST_IMPACTS as nat);
        lemma_inside(w.flight(d).ball);
    }
}

/// A ball that is held is inside.
proof fn lemma_inside(ball: Ball)
    requires
        held(ball, 2000),
    ensures
        inside(ball),
{
    lemma_whole(21);
    lemma_whole(579);
    lemma_value_order(Single::whole_spec(21), ball.x);
    lemma_value_order(ball.x, Single::whole_spec(579));
    lemma_value_order(Single::whole_spec(21), ball.y);
}

/// A ball that the paddle returns is under the apex.
proof fn lemma_caught()
    ensures
        Single::whole_spec(WALL_TOP as nat).le_spec(Single::whole_spec((CIG_Y - BALL_R) as nat)),
{
    lemma_whole(WALL_TOP as nat);
    lemma_whole((CIG_Y - BALL_R) as nat);
    lemma_value_order(
        Single::whole_spec(WALL_TOP as nat),
        Single::whole_spec((CIG_Y - BALL_R) as nat),
    );
    lemma_pow2_pos(149);
}

/// Hits move neither the paddle nor the count of bounces, and lose no ball.
pub proof fn lemma_struck_frame(w: World, hits: Seq<usize>, n: nat)
    ensures
        w.struck_all(hits, n).cig_x == w.cig_x,
        w.struck_all(hits, n).bounces == w.bounces,
        w.struck_all(hits, n).lost == w.lost,
    decreases n,
{
    reveal(World::struck);
    if n > 0 {
        lemma_struck_frame(w, hits, (n - 1) as nat);
    }
}

/// What a tick of play does to the ball, the paddle and the count of bounces.
pub proof fn lemma_played(w: World, d: Single)
    requires
        w.wf(),
    ensures
        ({
            let ball = (World { elapsed: w.elapsed.plus_spec(d), ..w }).fallen(d).flight(d).ball;
            let p = w.played(d);
            &&& if meets_paddle_spec(ball, w.cig_x) {
                &&& p.ball == paddle_return_spec(ball, w.cig_x)
                &&& p.bounces == bumped(w.bounces)
            } else {
                &&& p.ball == ball
                &&& p.bounces == w.bounces
            }
            &&& p.cig_x == w.cig_x
            &&& p.lost == (w.lost || Single::whole_spec(H as nat).lt_spec(
                p.ball.y.minus_spec(Single::whole_spec(BALL_R as nat)),
            ))
        }),
{
    reveal(World::played);
    let e = World { elapsed: w.elapsed.plus_spec(d), ..w };
    lemma_fall_frame(e, d);
    let a = e.fallen(d);
    let f = a.flight(d);
    let h = World { hits: f.hits, ..a };
    let r = if meets_paddle_spec(f.ball, h.cig_x) {
        h.returned()
    } else {
        h
    };
    assert(r.cig_x == w.cig_x && r.lost == w.lost && (r.bounces == if meets_paddle_spec(
        f.ball,
        h.cig_x,
    ) {
        bumped(w.bounces)
    } else {
        w.bounces
    })) by {
        reveal(World::returned);
    }
    lemma_struck_frame(r, f.hits, f.hits.len());
}

/// A ball that is inside and at the speed of the game is inside after a tick,
/// to the last bit: it bounces off the inner face of the pleura, and neither
/// rounding nor a corner lets it through.
pub proof fn the_ball_stays_inside(w: World, dt: Single)
    requires
        w.wf(),
        inside(w.ball),
        w.ball.y.le_spec(Single::whole_spec((2 * H) as nat)),
        at_game_speed(w.ball),
    ensures
        inside(w.ticked(dt).ball),
{
    let d = dt.min_spec(longest_tick());
    let c = w.cooled(d);
    lemma_longest();
    assert(c.ball == w.ball) by {
        reveal(World::cooled);
    }
    w.cooling_keeps_the_board(d);
    if !(c.lost || c.won) {
        let e = World { elapsed: c.elapsed.plus_spec(d), ..c };
        lemma_fall_frame(e, d);
        lemma_flight(e.fallen(d), d);
        lemma_played(c, d);
        lemma_caught();
    }
}

/// A ball is served inside, at the speed of the game, and goes down.
pub proof fn a_serve_is_inside(w: World)
    ensures
        inside(w.served().ball),
        w.served().ball.y.le_spec(Single::whole_spec(400)),
        w.served().ball.y.le_spec(Single::whole_spec(H as nat)),
        at_game_speed(w.served().ball),
        Single::zero_spec().lt_spec(w.served().ball.vy),
{
    let ball = w.served().ball;
    let n: nat = (2 * (GRID_Y + serve_row_spec(w.blocks) * CELL) + CELL) as nat;
    lemma_serve_row(w.blocks);
    lemma_pow2_pos(149);
    lemma_whole(21);
    lemma_whole(90);
    lemma_whole(300);
    lemma_whole(319);
    lemma_whole(579);
    lemma_zero(Single::zero_spec());
    lemma_serve_height(n);
    lemma_value_order(Single::whole_spec(21), ball.x);
    lemma_value_order(ball.x, Single::whole_spec(579));
    lemma_value_order(ball.vx, Single::whole_spec(319));
    lemma_value_order(ball.vy, Single::whole_spec(319));
    lemma_value_order(Single::zero_spec(), ball.vy);
    assert(ball.vx.abs_spec() == ball.vx && ball.vy.abs_spec() == ball.vy);
}

/// The height of a serve.
proof fn lemma_serve_height(n: nat)
    requires
        42 <= n <= 800,
    ensures
        ({
            let y = Single::ratio_spec(n, 2);
            &&& Single::whole_spec(21).le_spec(y)
            &&& y.le_spec(Single::whole_spec(400))
            &&& y.le_spec(Single::whole_spec(800))
        }),
{
    let p = pow2(149);
    let y = Single::ratio_spec(n, 2);
    lemma_pow2_pos(149);
    lemma_whole(21);
    lemma_whole(400);
    lemma_whole(800);
    lemma_mul_inequality(42, n as int, p as int);
    lemma_mul_inequality(n as int, 800, p as int);
    lemma_rounded_bounds(n * p, 2, Single::whole_spec(21));
    lemma_rounded_bounds(n * p, 2, Single::whole_spec(400));
    lemma_value_order(Single::whole_spec(21), y);
    lemma_value_order(y, Single::whole_spec(400));
    lemma_value_order(y, Single::whole_spec(800));
}

/// A tick is short.
pub proof fn lemma_longest()
    ensures
        longest_tick().finite(),
        !longest_tick().neg(),
        longest_tick().size() <= tick_size(),
{
    let s = Single::rounded(false, tick_size(), 1);
    lemma_exact(13108, 131);
    lemma_powers();
    assert(5 * pow2(149) <= s.size() * 100) by (nonlinear_arith)
        requires
            pow2(149) == 0x4_0000 * pow2(131),
            s.size() == 13108 * pow2(131),
    ;
    lemma_rounded_bounds(5 * pow2(149), 100, s);
}

/// What falls does not touch the ball.
pub proof fn lemma_fall_frame(w: World, dt: Single)
    requires
        w.wf(),
    ensures
        w.fallen(dt).ball == w.ball,
        w.fallen(dt).cig_x == w.cig_x,
        w.fallen(dt).bounces == w.bounces,
        w.fallen(dt).lost == w.lost,
        w.fallen(dt).wf(),
        w.fallen(dt).blocks.len() == CELLS,
        on_grid(w.fallen(dt).blocks),
{
    reveal(World::fallen);
    if let Some(p) = w.pickup {
        a_catch_is_recorded(w, p.kind);
        a_catch_leads_on(w, p.kind);
    }
}

/// A speed that is at most the top speed is so by its size.
proof fn lemma_slow(v: Single)
    requires
        v.abs_spec().le_spec(Single::whole_spec(TOP_SPEED as nat)),
    ensures
        v.finite(),
        v.size() <= 319 * pow2(149),
{
    let top = Single::whole_spec(TOP_SPEED as nat);
    lemma_whole(TOP_SPEED as nat);
    assert(v.finite());
    assert(v.bits % 0x8000_0000 <= top.bits % 0x8000_0000);
    lemma_size_order(v, top);
}

/// A ball that is inside and slow is so by values.
pub proof fn lemma_held(ball: Ball)
    requires
        inside(ball),
        ball.y.le_spec(Single::whole_spec((2 * H) as nat)),
        at_game_speed(ball),
    ensures
        held(ball, 1600),
{
    lemma_whole(21);
    lemma_whole(579);
    lemma_whole((2 * H) as nat);
    lemma_between(Single::whole_spec(21), ball.x, Single::whole_spec(579));
    lemma_between(Single::whole_spec(21), ball.y, Single::whole_spec((2 * H) as nat));
    lemma_slow(ball.vx);
    lemma_slow(ball.vy);
}

} // verus!
