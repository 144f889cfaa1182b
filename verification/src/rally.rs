//! A paddle that is under the ball catches it: a rally that is followed is not
//! lost.
use crate::board::Block;
use crate::history::{
    a_drawing_leaves_the_game, is_kept, lemma_event, lemma_flight_speed, lemma_off, lemma_paced,
    lemma_start, Event, MOST_RALLIES,
};
use crate::impact::{impact_time, next_impact_is_the_soonest, next_impact_spec};
use crate::interval::{lemma_part, parts};
use crate::motion::{
    meets_paddle_spec, off_centre_spec, paddle_return_spec, reach_spec, same_time_spec,
    top_time_spec, Ball, Impact,
};
use crate::pleura::{
    caged, lemma_block_turn, lemma_far_off, lemma_halves, lemma_long, lemma_way_size,
};
use crate::single::{
    lemma_between, lemma_exact, lemma_negated, lemma_plus_between, lemma_plus_exact,
    lemma_plus_order, lemma_rounded_bounds, lemma_rounded_sign, lemma_size_order, lemma_times_bound,
    lemma_value_order, lemma_whole, lemma_zero, Single,
};
use crate::speed::{a_return_keeps_the_speed, is_moving};
use crate::walls::{
    a_serve_is_inside, held, inside, lemma_fall_frame, lemma_flight, lemma_held, lemma_leg,
    lemma_longest, lemma_played, lemma_powers, lemma_rest, lemma_soon, lemma_still, lemma_travel,
    lemma_wall_ahead, tick_size,
};
use crate::world::{longest_tick, on_grid, swept, Flight, World, MOST_IMPACTS};
use crate::{BALL_R, CELLS, CIG_Y, H};
use vstd::arithmetic::div_mod::*;
use vstd::arithmetic::mul::*;
use vstd::arithmetic::power2::*;
use vstd::prelude::*;

verus! {

/// What is left over when a way is worked out, at most.
spec fn slip() -> nat {
    pow2(137)
}

/// The powers of two that matter here.
proof fn lemma_slips()
    ensures
        pow2(149) == 0x1000 * pow2(137),
        pow2(137) == 2 * pow2(136),
        pow2(149) == 0x2000 * pow2(136),
        pow2(149) == 0x8_0000 * pow2(130),
        pow2(136) == 64 * pow2(130),
        pow2(131) == 2 * pow2(130),
        pow2(130) == 16 * pow2(126),
        pow2(149) == 0x4_0000 * pow2(131),
        pow2(126) > 0,
        tick_size() == 13108 * pow2(131),
{
    lemma2_to64();
    lemma_pow2_adds(12, 137);
    lemma_pow2_adds(1, 136);
    lemma_pow2_adds(13, 136);
    lemma_pow2_adds(19, 130);
    lemma_pow2_adds(6, 130);
    lemma_pow2_adds(1, 130);
    lemma_pow2_adds(4, 126);
    lemma_pow2_adds(18, 131);
    lemma_pow2_pos(126);
}

/// A number that lies between two neighbouring multiples, as these.
proof fn lemma_grid(e: nat, u: int) -> (k: nat)
    requires
        e <= 149,
        0 <= u < 0xff_0000 * pow2(e),
    ensures
        k < 0xff_0000,
        k * pow2(e) <= u < (k + 1) * pow2(e),
        (k + 1) * pow2(e) == k * pow2(e) + pow2(e),
{
    let q: int = pow2(e) as int;
    lemma_pow2_pos(e);
    lemma_fundamental_div_mod(u, q);
    lemma_div_pos_is_pos(u, q);
    let k: nat = (u / q) as nat;
    lemma_mul_is_commutative(q, k as int);
    lemma_mul_is_distributive_add_other_way(q, k as int, 1);
    if k >= 0xff_0000 {
        lemma_mul_inequality(0xff_0000, k as int, q);
    }
    k
}

/// How far a ball goes is its speed times the time, but for a slip.
proof fn lemma_goes(x: Single, v: Single, t: Single)
    requires
        x.finite(),
        21 * pow2(149) <= x.value() <= 2000 * pow2(149),
        v.finite(),
        v.size() <= 319 * pow2(149),
        t.finite(),
        t.value() >= 0,
        t.size() <= tick_size(),
    ensures
        x.plus_spec(v.times_spec(t)).finite(),
        x.value() - 319 * t.value() - slip() <= x.plus_spec(v.times_spec(t)).value() <= x.value()
            + 319 * t.value() + slip(),
{
    let p = pow2(149);
    let s: int = t.size() as int;
    lemma_slips();
    let k = lemma_grid(130, 319 * s);
    lemma_part(130, k + 1);
    let most = parts(130, k + 1);
    let m = v.times_spec(t);
    assert(v.size() * t.size() <= most.size() * p) by {
        lemma_mul_inequality(v.size() as int, (319 * p) as int, s);
        assert((319 * p) * s == (319 * s) * p) by (nonlinear_arith);
        lemma_mul_inequality(319 * s, most.size() as int, p as int);
    }
    lemma_times_bound(v, t, most);
    assert(m.size() <= 319 * s + pow2(130));
    let u: int = x.value() + m.value();
    let l = lemma_grid(136, u);
    lemma_part(136, l);
    lemma_part(136, l + 1);
    lemma_plus_between(x, m, parts(136, l), parts(136, l + 1));
}

/// What is left of a tick is what is left, but for a slip of time.
proof fn lemma_leaves(left: Single, t: Single)
    requires
        left.finite(),
        t.finite(),
        0 <= t.value() <= left.value(),
        left.size() <= tick_size(),
    ensures
        left.minus_spec(t).value() <= left.value() - t.value() + pow2(126),
{
    let u: int = left.value() - t.value();
    lemma_slips();
    lemma_negated(t);
    let k = lemma_grid(126, u);
    lemma_part(126, k);
    lemma_part(126, k + 1);
    lemma_plus_between(left, t.negated_spec(), parts(126, k), parts(126, k + 1));
}

/// The farthest that a ball can still come, down and to either side, before a
/// tick ends: from `x` across, and to `y` down, with some slips. One that rises
/// may be a little lower.
spec fn can_reach(f: Flight, x: int, y: int, n: nat) -> bool {
    let a = 319 * f.left.value();
    let s = 2 * n * slip();
    &&& f.ball.x.value() + a <= x + 319 * tick_size() + s
    &&& x - 319 * tick_size() - s <= f.ball.x.value() - a
    &&& f.ball.vy.value() <= 0 && f.ball.y.value() <= y + pow2(149) || f.ball.y.value() + a <= y
        + s
}

/// A leg brings the ball no farther than it can come.
proof fn lemma_leg_reach(b: Seq<Block>, f: Flight, x: int, y: int, n: nat, k: nat)
    requires
        b.len() == CELLS,
        on_grid(b),
        held(f.ball, k),
        k <= 1900,
        f.left.finite(),
        f.left.value() > 0,
        f.left.size() <= tick_size(),
        can_reach(f, x, y, n),
        700 * pow2(149) <= y,
    ensures
        ({
            let t = impact_time(next_impact_spec(b, f.ball, f.left, f.hits), f.left);
            let m = f.ball.moved_spec(t);
            let l = f.left.minus_spec(t);
            let g = Flight { ball: m, left: l, hits: f.hits };
            &&& can_reach(g, x, y, n + 1)
            &&& m.y.value() <= 500 * pow2(149) ==> m.y.value() + 319 * l.value() <= y
            &&& m.x.value() <= x + 319 * tick_size() + 2 * (n + 1) * slip()
            &&& m.x.value() >= x - 319 * tick_size() - 2 * (n + 1) * slip()
        }),
{
    let t = impact_time(next_impact_spec(b, f.ball, f.left, f.hits), f.left);
    let m = f.ball.moved_spec(t);
    let l = f.left.minus_spec(t);
    let p = pow2(149);
    lemma_slips();
    lemma_leg_time(b, f, k);
    lemma_leg(b, f, k);
    assert(k * p <= 2000 * p) by {
        lemma_mul_inequality(k as int, 2000, p as int);
    }
    lemma_goes(f.ball.x, f.ball.vx, t);
    lemma_goes(f.ball.y, f.ball.vy, t);
    lemma_leaves(f.left, t);
    let s = slip();
    assert(2 * (n + 1) * s == 2 * n * s + 2 * s) by (nonlinear_arith);
    assert(319 * l.value() <= 319 * f.left.value() - 319 * t.value() + s);
    if f.ball.vy.value() <= 0 {
        lemma_no_lower(f.ball, t);
    }
}

/// A ball that does not fall does not come down.
proof fn lemma_no_lower(ball: Ball, t: Single)
    requires
        ball.y.finite(),
        ball.vy.finite(),
        ball.vy.value() <= 0,
        t.finite(),
        t.value() >= 0,
        ball.vy.times_spec(t).finite(),
        ball.moved_spec(t).y.finite(),
    ensures
        ball.moved_spec(t).y.value() <= ball.y.value(),
{
    let zero = Single::zero_spec();
    let m = ball.vy.times_spec(t);
    lemma_zero(zero);
    lemma_still(ball.vy, t);
    lemma_plus_exact(ball.y, zero, ball.y);
    lemma_plus_order(ball.y, m, ball.y, zero);
    lemma_value_order(ball.y.plus_spec(m), ball.y.plus_spec(zero));
}

/// The time of a leg.
proof fn lemma_leg_time(b: Seq<Block>, f: Flight, k: nat)
    requires
        b.len() == CELLS,
        held(f.ball, k),
        k <= 4000,
        f.left.finite(),
        f.left.value() > 0,
        f.left.size() <= tick_size(),
    ensures
        ({
            let t = impact_time(next_impact_spec(b, f.ball, f.left, f.hits), f.left);
            &&& t.finite()
            &&& 0 <= t.value() <= f.left.value()
            &&& t.size() <= tick_size()
            &&& f.ball.vy.times_spec(t).finite()
        }),
{
    let zero = Single::zero_spec();
    let t = impact_time(next_impact_spec(b, f.ball, f.left, f.hits), f.left);
    assert(zero.lt_spec(f.left)) by {
        lemma_zero(zero);
        lemma_value_order(zero, f.left);
    }
    lemma_wall_ahead(f.ball, k);
    lemma_soon(b, f);
    lemma_rest(f.left, t);
    lemma_travel(f.ball.vy, t);
}

/// A ball that is held is caged.
proof fn lemma_held_caged(ball: Ball, k: nat)
    requires
        held(ball, k),
    ensures
        caged(ball, k),
{
    lemma_halves();
}

/// A wall that turns a rising ball back is met near the apex.
proof fn lemma_apex(ball: Ball, k: nat, t: Single)
    requires
        held(ball, k),
        k <= 1900,
        ball.vy.value() < 0,
        t.finite(),
        t.value() >= 0,
        t.size() <= tick_size(),
        same_time_spec(top_time_spec(ball), t),
    ensures
        ball.y.value() <= 300 * pow2(149),
{
    let zero = Single::zero_spec();
    let p = pow2(149);
    if ball.y.value() > 300 * p {
        let u: nat = (ball.y.value() - 21 * p) as nat;
        lemma_slips();
        lemma_powers();
        lemma_zero(zero);
        lemma_value_order(ball.vy, zero);
        lemma_mul_inequality(k as int, 2000, p as int);
        lemma_way_size(ball.y, 21, u);
        lemma_long(Single::whole_spec(21).minus_spec(ball.y), ball.vy);
        lemma_far_off(top_time_spec(ball), t);
    }
}

/// Once a ball has been turned down far up, it does not come far down.
proof fn lemma_turned_down(g: Flight, h: Flight, x: int, y: int, n: nat)
    requires
        can_reach(g, x, y, n),
        h.left == g.left,
        h.ball.x == g.ball.x,
        h.ball.y == g.ball.y,
        h.ball.vy.value() == g.ball.vy.value() || g.ball.vy.value() >= 0 || g.ball.y.value() + 319
            * g.left.value() <= y,
        g.ball.vy.value() >= 0 ==> h.ball.vy.value() == g.ball.vy.value() || h.ball.vy.value()
            == -g.ball.vy.value(),
    ensures
        can_reach(h, x, y, n),
{
    let s = slip();
    assert(2 * n * s >= 0) by (nonlinear_arith)
        requires
            n >= 0,
            s >= 0,
    ;
}

/// A leg that ends at a wall leaves the ball where it can come.
proof fn lemma_wall_reach(b: Seq<Block>, f: Flight, x: int, y: int, c: nat, k: nat)
    requires
        b.len() == CELLS,
        on_grid(b),
        c < 16,
        k == 1600 + 16 * c,
        held(f.ball, k),
        f.left.finite(),
        0 < f.left.value(),
        f.left.size() <= tick_size(),
        can_reach(f, x, y, c),
        700 * pow2(149) <= y,
        next_impact_spec(b, f.ball, f.left, f.hits) is Wall,
    ensures
        next_impact_spec(b, f.ball, f.left, f.hits) matches Impact::Wall(fx, fy, t) ==> ({
            let h = Flight {
                ball: f.ball.moved_spec(t).turned_spec(fx, fy),
                left: f.left.minus_spec(t),
                hits: f.hits,
            };
            &&& held(h.ball, k + 16)
            &&& h.left.finite()
            &&& 0 <= h.left.value()
            &&& h.left.size() <= tick_size()
            &&& can_reach(h, x, y, c + 1)
        }),
{
    if let Impact::Wall(fx, fy, t) = next_impact_spec(b, f.ball, f.left, f.hits) {
        let moved = f.ball.moved_spec(t);
        let l = f.left.minus_spec(t);
        let g = Flight { ball: moved, left: l, hits: f.hits };
        let h = Flight { ball: moved.turned_spec(fx, fy), left: l, hits: f.hits };
        lemma_leg_time(b, f, k);
        lemma_leg(b, f, k);
        lemma_leg_reach(b, f, x, y, c, k);
        lemma_negated(f.ball.vx);
        lemma_negated(f.ball.vy);
        next_impact_is_the_soonest(b, f.ball, f.left, f.hits);
        if fy && f.ball.vy.value() < 0 {
            lemma_apex(f.ball, k, t);
            lemma_no_lower(f.ball, t);
        }
        lemma_turned_down(g, h, x, y, c + 1);
    }
}

/// A leg that ends at a block leaves the ball where it can come.
proof fn lemma_block_reach(
    b: Seq<Block>,
    pierces: bool,
    f: Flight,
    x: int,
    y: int,
    c: nat,
    k: nat,
)
    requires
        b.len() == CELLS,
        on_grid(b),
        c < 16,
        k == 1600 + 16 * c,
        held(f.ball, k),
        f.left.finite(),
        0 < f.left.value(),
        f.left.size() <= tick_size(),
        can_reach(f, x, y, c),
        700 * pow2(149) <= y,
        next_impact_spec(b, f.ball, f.left, f.hits) is Block,
    ensures
        next_impact_spec(b, f.ball, f.left, f.hits) matches Impact::Block(i, t, axis) ==> ({
            let h = Flight {
                ball: if pierces {
                    f.ball.moved_spec(t)
                } else {
                    f.ball.moved_spec(t).reflected_spec(axis)
                },
                left: f.left.minus_spec(t),
                hits: f.hits.push(i),
            };
            &&& held(h.ball, k + 16)
            &&& h.left.finite()
            &&& 0 <= h.left.value()
            &&& h.left.size() <= tick_size()
            &&& can_reach(h, x, y, c + 1)
        }),
{
    if let Impact::Block(i, t, axis) = next_impact_spec(b, f.ball, f.left, f.hits) {
        let moved = f.ball.moved_spec(t);
        let l = f.left.minus_spec(t);
        let g = Flight { ball: moved, left: l, hits: f.hits };
        let h = Flight {
            ball: if pierces {
                moved
            } else {
                moved.reflected_spec(axis)
            },
            left: l,
            hits: f.hits.push(i),
        };
        lemma_leg_time(b, f, k);
        lemma_leg(b, f, k);
        lemma_leg_reach(b, f, x, y, c, k);
        lemma_negated(f.ball.vx);
        lemma_negated(f.ball.vy);
        next_impact_is_the_soonest(b, f.ball, f.left, f.hits);
        lemma_held_caged(f.ball, k);
        lemma_block_turn(b, f.ball, f.hits, i as int, k);
        lemma_halves();
        lemma_slips();
        lemma_turned_down(g, h, x, y, c + 1);
    }
}

/// A tick's way brings the ball no farther than it can come.
proof fn lemma_way_reach(b: Seq<Block>, pierces: bool, f: Flight, n: nat, x: int, y: int)
    requires
        b.len() == CELLS,
        on_grid(b),
        n <= MOST_IMPACTS,
        held(f.ball, (1600 + 16 * (MOST_IMPACTS - n)) as nat),
        f.left.finite(),
        0 <= f.left.value(),
        f.left.size() <= tick_size(),
        can_reach(f, x, y, (MOST_IMPACTS - n) as nat),
        700 * pow2(149) <= y,
    ensures
        ({
            let end = swept(b, pierces, f, n).ball;
            &&& x - 319 * tick_size() - 34 * slip() <= end.x.value()
            &&& end.x.value() <= x + 319 * tick_size() + 34 * slip()
            &&& end.y.value() <= y + pow2(149)
        }),
    decreases n,
{
    let zero = Single::zero_spec();
    let k: nat = (1600 + 16 * (MOST_IMPACTS - n)) as nat;
    let c: nat = (MOST_IMPACTS - n) as nat;
    let s = slip();
    lemma_slips();
    lemma_zero(zero);
    lemma_value_order(f.left, zero);
    assert(2 * c * s <= 32 * s && 2 * (c + 1) * s <= 34 * s) by (nonlinear_arith)
        requires
            c <= 16,
            s >= 0,
    ;
    if n > 0 && f.left.value() > 0 {
        let hit = next_impact_spec(b, f.ball, f.left, f.hits);
        let m: nat = (n - 1) as nat;
        match hit {
            Impact::Wall(fx, fy, t) => {
                let h = Flight {
                    ball: f.ball.moved_spec(t).turned_spec(fx, fy),
                    left: f.left.minus_spec(t),
                    hits: f.hits,
                };
                lemma_wall_reach(b, f, x, y, c, k);
                lemma_way_reach(b, pierces, h, m, x, y);
            },
            Impact::Block(i, t, axis) => {
                let h = Flight {
                    ball: if pierces {
                        f.ball.moved_spec(t)
                    } else {
                        f.ball.moved_spec(t).reflected_spec(axis)
                    },
                    left: f.left.minus_spec(t),
                    hits: f.hits.push(i),
                };
                lemma_block_reach(b, pierces, f, x, y, c, k);
                lemma_way_reach(b, pierces, h, m, x, y);
            },
            Impact::Free => {
                lemma_leg_time(b, f, k);
                lemma_leg(b, f, k);
                lemma_leg_reach(b, f, x, y, c, k);
            },
        }
    }
}

/// The ball is above the paddle, or on its way up from it.
pub open spec fn is_ready(ball: Ball) -> bool {
    &&& ball.y.le_spec(Single::whole_spec(770))
    &&& Single::zero_spec().lt_spec(ball.vy) ==> ball.y.lt_spec(
        Single::whole_spec((CIG_Y - BALL_R) as nat),
    )
}

/// A ball that is not far off the middle of the paddle is within its reach.
proof fn lemma_within_reach(x: Single, cig_x: Single)
    requires
        x.finite(),
        cig_x.finite(),
        -41 * pow2(149) <= x.value() - cig_x.value() <= 41 * pow2(149),
    ensures
        !reach_spec().le_spec(off_centre_spec(x, cig_x).abs_spec()),
{
    let p = pow2(149);
    let far = Single::whole_spec(41);
    let half = Single::whole_spec(45);
    let one = Single::whole_spec(1);
    let d = x.minus_spec(cig_x);
    let off = d.over_spec(half);
    let reach = reach_spec();
    lemma_whole(41);
    lemma_whole(45);
    lemma_whole(1);
    lemma_pow2_pos(149);
    lemma_negated(cig_x);
    lemma_negated(far);
    lemma_plus_between(x, cig_x.negated_spec(), far.negated_spec(), far);
    assert(d.size() * p <= one.size() * half.size()) by {
        lemma_mul_inequality(d.size() as int, (45 * p) as int, p as int);
        lemma_mul_is_commutative((45 * p) as int, p as int);
        lemma_mul_basics(p as int);
    }
    lemma_quotient(d, half, one);
    lemma_five_quarters();
    lemma_mul_basics(p as int);
    lemma_short_of(off, reach);
}

/// A number whose size is less is not as far out.
proof fn lemma_short_of(off: Single, reach: Single)
    requires
        off.finite(),
        reach.finite(),
        !reach.neg(),
        off.size() < reach.size(),
    ensures
        !reach.le_spec(off.abs_spec()),
{
    lemma_size_order(reach, off);
}

/// A quotient is at most a number that the exact quotient is at most.
proof fn lemma_quotient(d: Single, half: Single, one: Single)
    requires
        d.finite(),
        half.finite(),
        one.finite(),
        half.size() > 0,
        d.size() * pow2(149) <= one.size() * half.size(),
    ensures
        d.over_spec(half).finite(),
        d.over_spec(half).size() <= one.size(),
{
    let n = d.size() * pow2(149);
    let r = Single::rounded(false, n, half.size());
    lemma_zero(d);
    lemma_zero(half);
    lemma_rounded_bounds(n, half.size(), one);
    lemma_rounded_sign(n, half.size());
    lemma_negated(r);
    reveal(Single::over_spec);
    lemma_zero(d.over_spec(half));
}

/// The paddle reaches past its ends.
proof fn lemma_five_quarters()
    ensures
        reach_spec().finite(),
        !reach_spec().neg(),
        pow2(149) < reach_spec().size(),
{
    let s = Single::rounded(false, 9 * pow2(146), 1);
    let two = Single::whole_spec(2);
    lemma_exact(9, 146);
    lemma_whole(2);
    lemma2_to64();
    lemma_pow2_adds(3, 146);
    lemma_pow2_pos(146);
    lemma_rounded_bounds(12 * pow2(149), 10, s);
    lemma_rounded_bounds(12 * pow2(149), 10, two);
}

/// A falling ball that has come to the paddle, not far off its middle, is
/// caught; and one that is no lower is not lost.
proof fn lemma_over_paddle(ball: Ball, cig_x: Single)
    requires
        ball.x.finite(),
        ball.y.finite(),
        ball.vy.finite(),
        cig_x.finite(),
        -41 * pow2(149) <= ball.x.value() - cig_x.value() <= 41 * pow2(149),
        21 * pow2(149) <= ball.y.value() <= 770 * pow2(149),
    ensures
        ball.vy.value() > 0 && 753 * pow2(149) <= ball.y.value() ==> meets_paddle_spec(ball, cig_x),
        !Single::whole_spec(H as nat).lt_spec(
            ball.y.minus_spec(Single::whole_spec(BALL_R as nat)),
        ),
{
    let seven = Single::whole_spec(7);
    let zero = Single::zero_spec();
    let face = Single::whole_spec(760);
    let under = Single::whole_spec(772);
    let low = Single::whole_spec(800);
    let r = ball.y.minus_spec(seven);
    lemma_whole(7);
    lemma_whole(14);
    lemma_whole(760);
    lemma_whole(763);
    lemma_whole(772);
    lemma_whole(777);
    lemma_whole(800);
    lemma_pow2_pos(149);
    lemma_zero(zero);
    lemma_negated(seven);
    lemma_plus_between(
        ball.y,
        seven.negated_spec(),
        Single::whole_spec(14),
        Single::whole_spec(763),
    );
    lemma_value_order(low, r);
    lemma_value_order(under, r);
    lemma_within_reach(ball.x, cig_x);
    if ball.vy.value() > 0 && 753 * pow2(149) <= ball.y.value() {
        let s = ball.y.plus_spec(seven);
        lemma_plus_between(ball.y, seven, face, Single::whole_spec(777));
        lemma_value_order(s, face);
        lemma_value_order(ball.vy, zero);
        assert(meets_paddle_spec(ball, cig_x));
    }
}

/// The way of a ball that is ready, and near the middle of the paddle, ends
/// where the paddle reaches.
proof fn lemma_flight_reach(w: World, d: Single)
    requires
        w.blocks.len() == CELLS,
        on_grid(w.blocks),
        held(w.ball, 1600),
        is_ready(w.ball),
        d.le_spec(longest_tick()),
    ensures
        ({
            let end = w.flight(d).ball;
            &&& -17 * pow2(149) <= end.x.value() - w.ball.x.value() <= 17 * pow2(149)
            &&& end.y.value() <= 770 * pow2(149)
        }),
{
    reveal(World::flight);
    let f = Flight { ball: w.ball, left: d, hits: Seq::empty() };
    let zero = Single::zero_spec();
    let p = pow2(149);
    lemma_zero(zero);
    lemma_whole(770);
    lemma_whole(753);
    lemma_longest();
    lemma_slips();
    lemma_pow2_pos(149);
    lemma_value_order(w.ball.y, Single::whole_spec(770));
    lemma_value_order(w.ball.y, Single::whole_spec(753));
    lemma_value_order(zero, w.ball.vy);
    if !d.le_spec(zero) {
        lemma_between(zero, d, longest_tick());
        assert(319 * d.value() <= 319 * tick_size() <= 16 * p);
        let n: nat = 0;
        assert(2 * n * slip() == 0) by (nonlinear_arith)
            requires
                n == 0,
        ;
        assert(can_reach(f, w.ball.x.value(), (769 * p) as int, 0));
        lemma_way_reach(
            w.blocks,
            w.pierce > 0,
            f,
            MOST_IMPACTS as nat,
            w.ball.x.value(),
            (769 * p) as int,
        );
    }
}

/// A ball that is ready, over a paddle whose middle is within twenty-four pixels
/// of it, is not lost in a tick, and is ready after it.
pub proof fn a_ball_over_the_paddle_is_not_lost(w: World, k: nat, dt: Single)
    requires
        is_kept(w, k),
        k <= MOST_RALLIES,
        !w.lost,
        is_ready(w.ball),
        -24 * pow2(149) <= w.ball.x.value() - w.cig_x.value() <= 24 * pow2(149),
    ensures
        !w.ticked(dt).lost,
        is_ready(w.ticked(dt).ball),
{
    let d = dt.min_spec(longest_tick());
    let c = w.cooled(d);
    lemma_longest();
    assert(c.ball == w.ball && c.cig_x == w.cig_x && c.lost == w.lost && c.won == w.won) by {
        reveal(World::cooled);
    }
    w.cooling_keeps_the_board(d);
    lemma_paced(w.ball, k);
    lemma_held(w.ball);
    if !(c.lost || c.won) {
        let e = World { elapsed: c.elapsed.plus_spec(d), ..c };
        lemma_fall_frame(e, d);
        let a = e.fallen(d);
        let ball = a.flight(d).ball;
        lemma_flight_speed(c, d);
        lemma_played(c, d);
        lemma_flight(a, d);
        lemma_flight_reach(a, d);
        lemma_end(ball, c.cig_x);
    }
}

/// Where a ball ends that the paddle reaches.
proof fn lemma_end(ball: Ball, cig_x: Single)
    requires
        inside(ball),
        ball.vx.finite(),
        ball.vy.finite(),
        ball.vx.size() <= 319 * pow2(149),
        ball.vy.size() <= 319 * pow2(149),
        is_moving(ball),
        cig_x.finite(),
        -41 * pow2(149) <= ball.x.value() - cig_x.value() <= 41 * pow2(149),
        ball.y.value() <= 770 * pow2(149),
    ensures
        ({
            let end = if meets_paddle_spec(ball, cig_x) {
                paddle_return_spec(ball, cig_x)
            } else {
                ball
            };
            &&& is_ready(end)
            &&& !Single::whole_spec(H as nat).lt_spec(
                end.y.minus_spec(Single::whole_spec(BALL_R as nat)),
            )
        }),
{
    let zero = Single::zero_spec();
    let face = Single::whole_spec(753);
    let low = Single::whole_spec(770);
    lemma_whole(21);
    lemma_whole(579);
    lemma_whole(753);
    lemma_whole(770);
    lemma_zero(zero);
    lemma_pow2_pos(149);
    lemma_between(Single::whole_spec(21), ball.x, Single::whole_spec(579));
    lemma_finite_height(ball.y);
    lemma_value_order(ball.y, low);
    lemma_value_order(ball.y, face);
    lemma_value_order(zero, ball.vy);
    lemma_value_order(face, low);
    lemma_over_paddle(ball, cig_x);
    if meets_paddle_spec(ball, cig_x) {
        let end = paddle_return_spec(ball, cig_x);
        lemma_off(ball.x, cig_x);
        a_return_keeps_the_speed(ball, cig_x);
        lemma_over_paddle(Ball { y: face, ..ball }, cig_x);
    }
}

/// The height of a ball that is inside, and not far down, is a number.
proof fn lemma_finite_height(y: Single)
    requires
        Single::whole_spec(21).le_spec(y),
        y.value() <= 770 * pow2(149),
    ensures
        y.finite(),
        21 * pow2(149) <= y.value(),
{
    lemma_whole(21);
    if !y.finite() {
        assert(y.bits == 0x7f80_0000);
        lemma_endless(y);
    } else {
        lemma_value_order(Single::whole_spec(21), y);
    }
}

/// The pattern of an infinity, read as a number, would be over every number.
proof fn lemma_endless(y: Single)
    requires
        y.bits == 0x7f80_0000,
    ensures
        y.value() > 770 * pow2(149),
{
    assert(y.top() == 255 && y.sig() == 0x80_0000 && y.lift() == 254);
    lemma_pow2_strictly_increases(149, 254);
    lemma_pow2_pos(149);
}

/// A game in which the paddle is put under the ball before every tick. Of each
/// tick: its length, and whether the scene is drawn after it.
pub open spec fn followed(w: World, ticks: Seq<(Single, bool)>) -> World
    decreases ticks.len(),
{
    if ticks.len() == 0 {
        w
    } else {
        let v = followed(w, ticks.drop_last());
        let t = (World { cig_x: v.ball.x, ..v }).ticked(ticks.last().0);
        if ticks.last().1 {
            t.rebuilt()
        } else {
            t
        }
    }
}

/// Followed play keeps the ball inside and in play.
proof fn lemma_followed(ticks: Seq<(Single, bool)>) -> (k: nat)
    requires
        ticks.len() <= MOST_RALLIES,
    ensures
        k <= ticks.len(),
        is_kept(followed(World::fresh(), ticks), k),
        !followed(World::fresh(), ticks).lost,
        is_ready(followed(World::fresh(), ticks).ball),
    decreases ticks.len(),
{
    if ticks.len() == 0 {
        lemma_start();
        World::lemma_fresh();
        a_serve_is_inside(World::unserved());
        lemma_ready_to_serve(World::fresh().ball.y);
        0
    } else {
        let k = lemma_followed(ticks.drop_last());
        let v = followed(World::fresh(), ticks.drop_last());
        let w = World { cig_x: v.ball.x, ..v };
        let dt = ticks.last().0;
        lemma_whole(21);
        lemma_whole(579);
        lemma_between(Single::whole_spec(21), v.ball.x, Single::whole_spec(579));
        assert(is_kept(w, k));
        a_ball_over_the_paddle_is_not_lost(w, k, dt);
        lemma_event(w, Event::Tick(dt), k);
        a_drawing_leaves_the_game(w.ticked(dt));
        if w.ticked(dt).bounces != w.bounces {
            k + 1
        } else {
            k
        }
    }
}

/// A serve is well above the paddle.
proof fn lemma_ready_to_serve(y: Single)
    requires
        y.le_spec(Single::whole_spec(400)),
    ensures
        y.le_spec(Single::whole_spec(770)),
        y.lt_spec(Single::whole_spec(753)),
{
    lemma_whole(400);
    lemma_whole(753);
    lemma_whole(770);
    lemma_pow2_pos(149);
    lemma_value_order(Single::whole_spec(400), Single::whole_spec(753));
    lemma_value_order(Single::whole_spec(400), Single::whole_spec(770));
}

/// From a new game on, a player who keeps the paddle under the ball never loses
/// it, and the ball never enters the pleura: for any number of ticks, of any
/// length, drawn or not, up to as many as the returns over which the ball keeps
/// its pace.
pub proof fn a_followed_ball_stays_in_play(ticks: Seq<(Single, bool)>)
    requires
        ticks.len() <= MOST_RALLIES,
    ensures
        inside(followed(World::fresh(), ticks).ball),
        !followed(World::fresh(), ticks).lost,
        followed(World::fresh(), ticks).wf(),
{
    lemma_followed(ticks);
}

} // verus!
