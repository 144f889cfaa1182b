//! How the ball goes through a tick: straight on for all of it, but for what turns
//! it on its way.
use crate::distance::{lemma_bounds, lemma_drop, lemma_within_times};
use crate::impact::{next_impact_is_the_soonest, next_impact_spec};
use crate::margin::{lemma_minus_off, lemma_plus_off, lemma_times_off, within};
use crate::motion::{wall_time_spec, Axis, Ball, Impact};
use crate::pleura::lemma_no_farther;
use crate::sight::{
    at, is_in_field, lemma_wall_later, pixels, the_wall_that_is_met_is_there, what_is_met_is_there,
};
use crate::single::{
    lemma_negated, lemma_plus_exact, lemma_plus_order, lemma_value_order, lemma_zero, Single,
};
use crate::board::{col_of, row_of, Block};
use crate::world::{on_grid, swept, Flight, World, MOST_IMPACTS};
use crate::CELLS;
use vstd::arithmetic::mul::*;
use vstd::arithmetic::power2::*;
use vstd::prelude::*;

verus! {

/// What one leg of a way is off by at most, in the measure of `at`.
pub open spec fn leg_slip() -> nat {
    pow2(137) * pow2(149)
}

/// What the two roundings of a leg are off by: where it ends, and what is left of
/// the time then. One coordinate, of a ball that moves for a time `t` of what is
/// left.
proof fn lemma_leg_parts(x: Single, v: Single, t: Single, left: Single)
    requires
        x.finite() && v.finite() && t.finite() && left.finite(),
        within(x.value(), 0, 1792 * pow2(149)),
        v.size() <= 4096 * pow2(149),
        0 <= t.value() <= left.value() <= pow2(145),
    ensures
        ({
            let m = x.plus_spec(v.times_spec(t));
            let rest = left.minus_spec(t);
            let u = pow2(133) * pow2(149);
            &&& m.finite() && rest.finite() && v.times_spec(t).finite()
            &&& 0 <= rest.value() <= left.value()
            &&& within(m.value(), 0, 2049 * pow2(149))
            &&& within(m.value() * pow2(149), at(x, v, t.value()), 9 * u)
            &&& within(v.value() * rest.value(), v.value() * (left.value() - t.value()), u)
            &&& leg_slip() == 16 * u
            &&& u > 0
        }),
{
    let p = pow2(149);
    let d = v.times_spec(t);
    let m = x.plus_spec(d);
    let rest = left.minus_spec(t);
    lemma_scales();
    // The product.
    assert(v.size() * t.size() <= (0x100_0000 * pow2(133)) * p) by {
        lemma_mul_upper_bound(
            v.size() as int,
            (4096 * p) as int,
            t.size() as int,
            pow2(145) as int,
        );
        assert((4096 * p) * pow2(145) == (4096 * pow2(145)) * p) by (nonlinear_arith);
    }
    lemma_times_off(v, t, 133);
    lemma_plus_off(x, d, 136);
    // What is left.
    lemma_minus_off(left, t, 121);
    lemma_rest_order(left, t);
    // The sum.
    lemma_within_times(m.value(), x.value() + d.value(), pow2(136), p);
    lemma_mul_is_distributive_add_other_way(p as int, x.value(), d.value());
    let e = rest.value() - (left.value() - t.value());
    lemma_bounds(v.value(), e, 4096 * p, pow2(121));
    assert((4096 * p) * pow2(121) == (4096 * pow2(121)) * p) by (nonlinear_arith);
    lemma_mul_is_distributive_sub(v.value(), rest.value(), left.value() - t.value());
    lemma_mul_is_associative(8, pow2(133) as int, p as int);
    lemma_mul_is_associative(16, pow2(133) as int, p as int);
    lemma_mul_strictly_positive(pow2(133) as int, p as int);
}

/// A leg leaves the end of the way where it was.
proof fn lemma_leg(x: Single, v: Single, t: Single, left: Single)
    requires
        x.finite() && v.finite() && t.finite() && left.finite(),
        within(x.value(), 0, 1792 * pow2(149)),
        v.size() <= 4096 * pow2(149),
        0 <= t.value() <= left.value() <= pow2(145),
    ensures
        ({
            let m = x.plus_spec(v.times_spec(t));
            let rest = left.minus_spec(t);
            &&& m.finite() && rest.finite() && v.times_spec(t).finite()
            &&& 0 <= rest.value() <= left.value()
            &&& within(m.value(), 0, 2049 * pow2(149))
            &&& within(m.value() * pow2(149), at(x, v, t.value()), leg_slip())
            &&& within(at(m, v, rest.value()), at(x, v, left.value()), leg_slip())
        }),
{
    lemma_leg_parts(x, v, t, left);
    lemma_mul_is_distributive_sub(v.value(), left.value(), t.value());
}

/// Powers of two that a way is made of.
proof fn lemma_scales()
    ensures
        pow2(149) == 0x1_0000 * pow2(133),
        pow2(145) == 4096 * pow2(133),
        pow2(136) == 8 * pow2(133),
        pow2(137) == 16 * pow2(133),
        pow2(133) == 4096 * pow2(121),
        pow2(145) == 0x100_0000 * pow2(121),
        pow2(121) > 0,
{
    lemma_pow2_adds(16, 133);
    lemma_pow2_adds(12, 133);
    lemma_pow2_adds(3, 133);
    lemma_pow2_adds(4, 133);
    lemma_pow2_adds(12, 121);
    lemma_pow2_adds(24, 121);
    lemma2_to64();
    lemma_pow2_pos(121);
}

/// What is left is not less than nothing, nor more than it was.
proof fn lemma_rest_order(left: Single, t: Single)
    requires
        left.finite() && t.finite(),
        0 <= t.value() <= left.value(),
        left.minus_spec(t).finite(),
    ensures
        0 <= left.minus_spec(t).value() <= left.value(),
{
    let zero = Single::zero_spec();
    lemma_zero(zero);
    lemma_negated(t);
    lemma_plus_exact(zero, zero, zero);
    lemma_plus_exact(left, zero, left);
    lemma_plus_order(zero, zero, left, t.negated_spec());
    lemma_plus_order(left, t.negated_spec(), left, zero);
    lemma_value_order(zero.plus_spec(zero), left.minus_spec(t));
    lemma_value_order(left.minus_spec(t), left.plus_spec(zero));
}

/// A ball in a tick goes, straight on, to a place: but for what so many legs are off
/// by. The place is well between the walls.
pub open spec fn heads_for(f: Flight, x: int, y: int, k: nat) -> bool {
    let p = pow2(149);
    let b = f.ball;
    &&& b.x.finite() && b.y.finite() && b.vx.finite() && b.vy.finite() && f.left.finite()
    &&& b.vx.size() <= 4096 * p && b.vy.size() <= 4096 * p
    &&& 0 <= f.left.value() <= pow2(145)
    &&& 19 * p <= b.x.value() <= 581 * p
    &&& 19 * p <= b.y.value() <= 1702 * p
    &&& k <= 17
    &&& within(at(b.x, b.vx, f.left.value()), x, k * leg_slip())
    &&& within(at(b.y, b.vy, f.left.value()), y, k * leg_slip())
    &&& pixels(31) <= x <= pixels(569)
    &&& pixels(31) <= y <= pixels(1700)
}

/// So many legs are off by less than a pixel.
proof fn lemma_slips(k: nat)
    requires
        k <= 18,
    ensures
        k * leg_slip() <= 18 * leg_slip(),
        (k + 1) * leg_slip() == k * leg_slip() + leg_slip(),
        4096 * leg_slip() == pow2(149) * pow2(149),
        pixels(1) == 4096 * leg_slip(),
        leg_slip() > 0,
        forall|n: int| #[trigger] pixels(n) == n * (4096 * leg_slip()),
{
    let u = leg_slip();
    lemma_pow2_adds(12, 137);
    lemma2_to64();
    lemma_pow2_pos(137);
    lemma_pow2_pos(149);
    lemma_mul_strictly_positive(pow2(137) as int, pow2(149) as int);
    lemma_mul_is_associative(4096, pow2(137) as int, pow2(149) as int);
    lemma_mul_inequality(k as int, 18, u as int);
    lemma_mul_is_distributive_add_other_way(u as int, k as int, 1);
}

/// One coordinate of a leg stays between where it was and where it goes.
proof fn lemma_stays(
    x: Single,
    v: Single,
    t: Single,
    left: Single,
    to: int,
    k: nat,
    lo: int,
    hi: int,
)
    requires
        x.finite() && v.finite() && t.finite() && left.finite(),
        within(x.value(), 0, 1792 * pow2(149)),
        v.size() <= 4096 * pow2(149),
        0 <= t.value() <= left.value() <= pow2(145),
        k <= 17,
        within(at(x, v, left.value()), to, k * leg_slip()),
        0 <= lo,
        hi <= 1701,
        pixels(lo + 1) <= to <= pixels(hi),
        lo * pow2(149) <= x.value() <= (hi + 1) * pow2(149),
    ensures
        ({
            let m = x.plus_spec(v.times_spec(t));
            lo * pow2(149) <= m.value() <= (hi + 1) * pow2(149)
        }),
{
    let p = pow2(149);
    let m = x.plus_spec(v.times_spec(t));
    let rest = left.minus_spec(t);
    lemma_leg(x, v, t, left);
    lemma_slips(k);
    lemma_pow2_pos(149);
    lemma_no_farther(x, v, t);
    let u: int = leg_slip() as int;
    assert(pixels(lo + 1) == pixels(lo) + 4096 * u && pixels(hi + 1) == pixels(hi) + 4096 * u) by {
        lemma_mul_is_distributive_add_other_way(4096 * u, lo, 1);
        lemma_mul_is_distributive_add_other_way(4096 * u, hi, 1);
    }
    lemma_mul_is_associative(lo, p as int, p as int);
    lemma_mul_is_associative(hi + 1, p as int, p as int);
    lemma_mul_basics(p as int);
    if v.value() >= 0 {
        lemma_mul_nonnegative(v.value(), rest.value());
        lemma_drop(m.value(), (hi + 1) * p, 0, p as int);
    } else {
        lemma_mul_inequality(v.value(), 0, rest.value());
        lemma_mul_basics(rest.value());
        lemma_drop(lo * p, m.value(), 0, p as int);
    }
}

/// A ball that heads for a place between the walls meets no wall in the time.
proof fn lemma_no_wall(f: Flight, x: int, y: int, k: nat)
    requires
        heads_for(f, x, y, k),
        f.left.value() > 0,
    ensures
        f.left.lt_spec(wall_time_spec(f.ball)),
{
    let zero = Single::zero_spec();
    let b = f.ball;
    lemma_zero(zero);
    lemma_slips(k);
    lemma_value_order(b.vx, zero);
    lemma_value_order(zero, b.vx);
    lemma_value_order(b.vy, zero);
    lemma_zero(f.left);
    if b.vx.value() < 0 {
        lemma_wall_later(b.x, b.vx, 21, f.left);
    } else if b.vx.value() > 0 {
        lemma_wall_later(b.x, b.vx, 579, f.left);
    }
    if b.vy.value() < 0 {
        lemma_wall_later(b.y, b.vy, 21, f.left);
    }
}

/// One leg of such a way, with the ball not turned.
proof fn lemma_on(f: Flight, x: int, y: int, k: nat, t: Single, hits: Seq<usize>)
    requires
        heads_for(f, x, y, k),
        k < 17,
        t.finite(),
        0 <= t.value() <= f.left.value(),
    ensures
        heads_for(
            Flight { ball: f.ball.moved_spec(t), left: f.left.minus_spec(t), hits },
            x,
            y,
            k + 1,
        ),
{
    let b = f.ball;
    lemma_leg(b.x, b.vx, t, f.left);
    lemma_leg(b.y, b.vy, t, f.left);
    lemma_slips(k);
    lemma_stays(b.x, b.vx, t, f.left, x, k, 19, 580);
    lemma_stays(b.y, b.vy, t, f.left, y, k, 19, 1701);
}

/// A ball is at a place, but for what the legs of a tick are off by.
pub open spec fn is_at(b: Ball, x: int, y: int) -> bool {
    &&& b.x.finite() && b.y.finite()
    &&& within(b.x.value() * pow2(149), x, 18 * leg_slip())
    &&& within(b.y.value() * pow2(149), y, 18 * leg_slip())
}

/// The last leg of such a way.
proof fn lemma_last(f: Flight, x: int, y: int, k: nat)
    requires
        heads_for(f, x, y, k),
    ensures
        is_at(f.ball.moved_spec(f.left), x, y),
        f.left.value() == 0 ==> is_at(f.ball, x, y),
{
    let b = f.ball;
    lemma_leg(b.x, b.vx, f.left, f.left);
    lemma_leg(b.y, b.vy, f.left, f.left);
    lemma_slips(k);
    lemma_slips(k + 1);
    lemma_mul_basics(b.vx.value());
    lemma_mul_basics(b.vy.value());
}

/// The way of a ball that nothing turns ends where it heads for.
proof fn lemma_straight(b: Seq<Block>, pierces: bool, f: Flight, n: nat, x: int, y: int)
    requires
        b.len() == CELLS,
        n <= 16,
        heads_for(f, x, y, (16 - n) as nat),
        pierces || swept(b, pierces, f, n).hits.len() == f.hits.len(),
        swept(b, pierces, f, n).hits.len() < f.hits.len() + n,
    ensures
        swept(b, pierces, f, n).ball.vx == f.ball.vx,
        swept(b, pierces, f, n).ball.vy == f.ball.vy,
        is_at(swept(b, pierces, f, n).ball, x, y),
    decreases n,
{
    let zero = Single::zero_spec();
    let k: nat = (16 - n) as nat;
    lemma_zero(zero);
    lemma_value_order(f.left, zero);
    lemma_last(f, x, y, k);
    if f.left.value() > 0 {
        lemma_no_wall(f, x, y, k);
        next_impact_is_the_soonest(b, f.ball, f.left, f.hits);
        match next_impact_spec(b, f.ball, f.left, f.hits) {
            Impact::Block(i, t, axis) => {
                let g = Flight {
                    ball: f.ball.moved_spec(t),
                    left: f.left.minus_spec(t),
                    hits: f.hits.push(i),
                };
                if pierces {
                    lemma_between_now(t, f.left);
                    lemma_on(f, x, y, k, t, f.hits.push(i));
                    lemma_straight(b, pierces, g, (n - 1) as nat, x, y);
                } else {
                    lemma_hits_grow(
                        b,
                        pierces,
                        Flight { ball: f.ball.moved_spec(t).reflected_spec(axis), ..g },
                        (n - 1) as nat,
                    );
                }
            },
            Impact::Wall(_, _, _) => {},
            Impact::Free => {},
        }
    }
}

/// A time between now and a limit is a number.
proof fn lemma_between_now(t: Single, left: Single)
    requires
        left.finite(),
        Single::zero_spec().le_spec(t),
        t.lt_spec(left),
    ensures
        t.finite(),
        0 <= t.value() <= left.value(),
{
    lemma_zero(Single::zero_spec());
    assert(t.finite());
    lemma_value_order(Single::zero_spec(), t);
    lemma_value_order(t, left);
}

/// What was struck stays struck.
proof fn lemma_hits_grow(b: Seq<Block>, pierces: bool, f: Flight, n: nat)
    ensures
        swept(b, pierces, f, n).hits.len() >= f.hits.len(),
    decreases n,
{
    if !(n == 0 || f.left.le_spec(Single::zero_spec())) {
        match next_impact_spec(b, f.ball, f.left, f.hits) {
            Impact::Wall(fx, fy, t) => lemma_hits_grow(
                b,
                pierces,
                Flight {
                    ball: f.ball.moved_spec(t).turned_spec(fx, fy),
                    left: f.left.minus_spec(t),
                    hits: f.hits,
                },
                (n - 1) as nat,
            ),
            Impact::Block(i, t, axis) => lemma_hits_grow(
                b,
                pierces,
                Flight {
                    ball: if pierces {
                        f.ball.moved_spec(t)
                    } else {
                        f.ball.moved_spec(t).reflected_spec(axis)
                    },
                    left: f.left.minus_spec(t),
                    hits: f.hits.push(i),
                },
                (n - 1) as nat,
            ),
            Impact::Free => {},
        }
    }
}

/// Where a ball would be after a time, going straight on, is well between the walls
/// and not far below the field.
pub open spec fn ends_inside(x: int, y: int) -> bool {
    pixels(31) <= x <= pixels(569) && pixels(31) <= y <= pixels(1700)
}

/// Nothing but a turn stops a ball: one that breaks nothing, or that pierces, goes
/// straight on for the whole of the time, as long as it does not reach a wall. It
/// ends where its velocity takes it, within half a hundredth of a pixel, and keeps
/// that velocity to the last bit.
pub proof fn a_ball_goes_straight_on(w: World, dt: Single)
    requires
        w.wf(),
        is_in_field(w.ball),
        dt.finite(),
        0 < dt.value() <= pow2(145),
        ends_inside(at(w.ball.x, w.ball.vx, dt.value()), at(w.ball.y, w.ball.vy, dt.value())),
        w.pierce > 0 || w.flight(dt).hits.len() == 0,
        w.flight(dt).hits.len() < MOST_IMPACTS,
    ensures
        ({
            let e = w.flight(dt).ball;
            &&& e.vx == w.ball.vx && e.vy == w.ball.vy
            &&& is_at(
                e,
                at(w.ball.x, w.ball.vx, dt.value()),
                at(w.ball.y, w.ball.vy, dt.value()),
            )
        }),
{
    reveal(World::flight);
    let f = Flight { ball: w.ball, left: dt, hits: Seq::<usize>::empty() };
    let x = at(w.ball.x, w.ball.vx, dt.value());
    let y = at(w.ball.y, w.ball.vy, dt.value());
    lemma_mul_basics(leg_slip() as int);
    assert(heads_for(f, x, y, 0));
    lemma_straight(w.blocks, w.pierce > 0, f, 16, x, y);
}

/// Where a ball is after the whole of a time, one way: straight on or, where it is
/// turned at a time `t`, as far back from there as it would have gone on.
pub open spec fn ends_at(pos: Single, vel: Single, t: Single, dt: Single, turned: bool) -> int {
    if turned {
        at(pos, vel, t.value()) - vel.value() * (dt.value() - t.value())
    } else {
        at(pos, vel, dt.value())
    }
}

/// A velocity, reversed or not.
pub open spec fn goes(vel: Single, turned: bool) -> Single {
    if turned {
        vel.negated_spec()
    } else {
        vel
    }
}

/// A block turns a ball on the axis of the face that is struck, and on no other,
/// and the ball goes on for the rest of the time: of a ball that strikes one block
/// and does not pierce, one component of the velocity is reversed. On that axis the
/// ball ends as far back from where it struck as it would have gone on; on the other
/// it ends where it would have.
pub proof fn a_block_turns_the_ball_back(w: World, dt: Single, i: usize, t: Single, axis: Axis)
    requires
        w.wf(),
        is_in_field(w.ball),
        dt.finite(),
        0 < dt.value() <= pow2(145),
        w.pierce == 0,
        w.flight(dt).hits.len() == 1,
        next_impact_spec(w.blocks, w.ball, dt, Seq::empty()) == Impact::Block(i, t, axis),
        ends_inside(
            ends_at(w.ball.x, w.ball.vx, t, dt, axis == Axis::X),
            ends_at(w.ball.y, w.ball.vy, t, dt, axis == Axis::Y),
        ),
    ensures
        w.flight(dt).hits == seq![i],
        w.flight(dt).ball.vx == goes(w.ball.vx, axis == Axis::X),
        w.flight(dt).ball.vy == goes(w.ball.vy, axis == Axis::Y),
        is_at(
            w.flight(dt).ball,
            ends_at(w.ball.x, w.ball.vx, t, dt, axis == Axis::X),
            ends_at(w.ball.y, w.ball.vy, t, dt, axis == Axis::Y),
        ),
{
    let none = Seq::<usize>::empty();
    let fx = axis == Axis::X;
    let fy = axis == Axis::Y;
    lemma_block_place(w.blocks, w.ball, dt, i, t, axis);
    let hits = none.push(i);
    lemma_after_turn(w.ball, dt, t, fx, fy, hits);
    let g = Flight {
        ball: w.ball.moved_spec(t).turned_spec(fx, fy),
        left: dt.minus_spec(t),
        hits,
    };
    lemma_first_leg(w, dt, g);
    let x = ends_at(w.ball.x, w.ball.vx, t, dt, fx);
    let y = ends_at(w.ball.y, w.ball.vy, t, dt, fy);
    lemma_straight(w.blocks, false, g, 15, x, y);
    lemma_same_hits(w.blocks, false, g, 15);
    assert(hits =~= seq![i]);
}

/// A wall turns a ball on the axis of the wall that it meets, or on both in a corner,
/// and the ball goes on for the rest of the time.
pub proof fn a_wall_turns_the_ball_back(w: World, dt: Single, fx: bool, fy: bool, t: Single)
    requires
        w.wf(),
        is_in_field(w.ball),
        dt.finite(),
        0 < dt.value() <= pow2(145),
        w.flight(dt).hits.len() == 0,
        next_impact_spec(w.blocks, w.ball, dt, Seq::empty()) == Impact::Wall(fx, fy, t),
        ends_inside(
            ends_at(w.ball.x, w.ball.vx, t, dt, fx),
            ends_at(w.ball.y, w.ball.vy, t, dt, fy),
        ),
    ensures
        w.flight(dt).ball.vx == goes(w.ball.vx, fx),
        w.flight(dt).ball.vy == goes(w.ball.vy, fy),
        is_at(
            w.flight(dt).ball,
            ends_at(w.ball.x, w.ball.vx, t, dt, fx),
            ends_at(w.ball.y, w.ball.vy, t, dt, fy),
        ),
{
    let none = Seq::<usize>::empty();
    lemma_wall_place(w.blocks, w.ball, dt, fx, fy, t);
    lemma_after_turn(w.ball, dt, t, fx, fy, none);
    let g = Flight {
        ball: w.ball.moved_spec(t).turned_spec(fx, fy),
        left: dt.minus_spec(t),
        hits: none,
    };
    lemma_first_leg(w, dt, g);
    let x = ends_at(w.ball.x, w.ball.vx, t, dt, fx);
    let y = ends_at(w.ball.y, w.ball.vy, t, dt, fy);
    lemma_straight(w.blocks, w.pierce > 0, g, 15, x, y);
}

/// The first leg of a tick.
proof fn lemma_first_leg(w: World, dt: Single, g: Flight)
    requires
        dt.finite(),
        dt.value() > 0,
        match next_impact_spec(w.blocks, w.ball, dt, Seq::empty()) {
            Impact::Wall(fx, fy, t) => g == (Flight {
                ball: w.ball.moved_spec(t).turned_spec(fx, fy),
                left: dt.minus_spec(t),
                hits: Seq::empty(),
            }),
            Impact::Block(i, t, axis) => w.pierce == 0 && g == (Flight {
                ball: w.ball.moved_spec(t).turned_spec(axis == Axis::X, axis == Axis::Y),
                left: dt.minus_spec(t),
                hits: Seq::empty().push(i),
            }),
            Impact::Free => false,
        },
    ensures
        w.flight(dt) == swept(w.blocks, w.pierce > 0, g, 15),
{
    reveal(World::flight);
    let zero = Single::zero_spec();
    lemma_zero(zero);
    lemma_value_order(dt, zero);
}

/// When a wall is met, the ball is there.
proof fn lemma_wall_place(
    b: Seq<Block>,
    ball: Ball,
    dt: Single,
    fx: bool,
    fy: bool,
    t: Single,
)
    requires
        b.len() == CELLS,
        is_in_field(ball),
        dt.finite(),
        0 < dt.value() <= pow2(145),
        next_impact_spec(b, ball, dt, Seq::empty()) == Impact::Wall(fx, fy, t),
        ends_at(ball.y, ball.vy, t, dt, fy) <= pixels(1700),
    ensures
        t.finite(),
        0 <= t.value() <= dt.value(),
        pixels(20) <= at(ball.x, ball.vx, t.value()) <= pixels(580),
        pixels(20) <= at(ball.y, ball.vy, t.value()) <= pixels(1700),
{
    let none = Seq::<usize>::empty();
    let p: int = pow2(149) as int;
    next_impact_is_the_soonest(b, ball, dt, none);
    lemma_between_now(t, dt);
    lemma_scales();
    the_wall_that_is_met_is_there(b, ball, dt, none, fx, fy, t);
    if ball.vy.value() >= 0 {
        lemma_mul_inequality(t.value(), dt.value(), ball.vy.value());
        lemma_mul_is_commutative(t.value(), ball.vy.value());
        lemma_mul_is_commutative(dt.value(), ball.vy.value());
    } else {
        lemma_mul_inequality(ball.vy.value(), 0, t.value());
        lemma_mul_basics(t.value());
        lemma_mul_inequality(ball.y.value(), 1700 * p, p);
        lemma_mul_is_associative(1700, p, p);
    }
}

/// When a block is met, the ball is well between the walls.
proof fn lemma_block_place(b: Seq<Block>, ball: Ball, dt: Single, i: usize, t: Single, axis: Axis)
    requires
        b.len() == CELLS,
        on_grid(b),
        is_in_field(ball),
        dt.finite(),
        0 < dt.value() <= pow2(145),
        next_impact_spec(b, ball, dt, Seq::empty()) == Impact::Block(i, t, axis),
    ensures
        t.finite(),
        0 <= t.value() <= dt.value(),
        pixels(20) <= at(ball.x, ball.vx, t.value()) <= pixels(580),
        pixels(20) <= at(ball.y, ball.vy, t.value()) <= pixels(1700),
{
    let none = Seq::<usize>::empty();
    what_is_met_is_there(b, ball, dt, none);
    lemma_between_now(t, dt);
    lemma_scales();
    lemma_near_blocks(b, ball, i as int, t);
}

/// Where the blocks are is well between the walls.
proof fn lemma_near_blocks(b: Seq<Block>, ball: Ball, i: int, t: Single)
    requires
        on_grid(b),
        0 <= i < CELLS,
        b[i].alive,
        ({
            let n = b[i].span as int;
            let x = 2 * at(ball.x, ball.vx, t.value());
            let y = 2 * at(ball.y, ball.vy, t.value());
            &&& pixels(2 * (40 + 13 * col_of(i) - 7) - 1) <= x
            &&& x <= pixels(2 * (40 + 13 * (col_of(i) + n) + 7) + 1)
            &&& pixels(2 * (70 + 13 * row_of(i) - 7) - 1) <= y
            &&& y <= pixels(2 * (70 + 13 * (row_of(i) + n) + 7) + 1)
        }),
    ensures
        pixels(20) <= at(ball.x, ball.vx, t.value()) <= pixels(580),
        pixels(20) <= at(ball.y, ball.vy, t.value()) <= pixels(1700),
{
    let n = b[i].span as int;
    let s: int = (4096 * leg_slip()) as int;
    lemma_slips(1);
    lemma_mul_inequality(65, 2 * (40 + 13 * col_of(i) - 7) - 1, s);
    lemma_mul_inequality(2 * (40 + 13 * (col_of(i) + n) + 7) + 1, 1135, s);
    lemma_mul_inequality(65, 2 * (70 + 13 * row_of(i) - 7) - 1, s);
    lemma_mul_inequality(2 * (70 + 13 * (row_of(i) + n) + 7) + 1, 1135, s);
}

/// What was struck first comes first.
proof fn lemma_same_hits(b: Seq<Block>, pierces: bool, f: Flight, n: nat)
    requires
        swept(b, pierces, f, n).hits.len() == f.hits.len(),
    ensures
        swept(b, pierces, f, n).hits == f.hits,
    decreases n,
{
    if !(n == 0 || f.left.le_spec(Single::zero_spec())) {
        match next_impact_spec(b, f.ball, f.left, f.hits) {
            Impact::Wall(fx, fy, t) => lemma_same_hits(
                b,
                pierces,
                Flight {
                    ball: f.ball.moved_spec(t).turned_spec(fx, fy),
                    left: f.left.minus_spec(t),
                    hits: f.hits,
                },
                (n - 1) as nat,
            ),
            Impact::Block(i, t, axis) => lemma_hits_grow(
                b,
                pierces,
                Flight {
                    ball: if pierces {
                        f.ball.moved_spec(t)
                    } else {
                        f.ball.moved_spec(t).reflected_spec(axis)
                    },
                    left: f.left.minus_spec(t),
                    hits: f.hits.push(i),
                },
                (n - 1) as nat,
            ),
            Impact::Free => {},
        }
    }
}

/// A ball that was turned heads for where it is turned back to.
proof fn lemma_after_turn(
    ball: Ball,
    dt: Single,
    t: Single,
    fx: bool,
    fy: bool,
    hits: Seq<usize>,
)
    requires
        is_in_field(ball),
        dt.finite() && t.finite(),
        0 <= t.value() <= dt.value() <= pow2(145),
        ends_inside(
            ends_at(ball.x, ball.vx, t, dt, fx),
            ends_at(ball.y, ball.vy, t, dt, fy),
        ),
        pixels(20) <= at(ball.x, ball.vx, t.value()) <= pixels(580),
        pixels(20) <= at(ball.y, ball.vy, t.value()) <= pixels(1700),
    ensures
        heads_for(
            Flight {
                ball: ball.moved_spec(t).turned_spec(fx, fy),
                left: dt.minus_spec(t),
                hits,
            },
            ends_at(ball.x, ball.vx, t, dt, fx),
            ends_at(ball.y, ball.vy, t, dt, fy),
            1,
        ),
{
    lemma_turned_leg(ball.x, ball.vx, t, dt, fx);
    lemma_turned_leg(ball.y, ball.vy, t, dt, fy);
    lemma_slips(1);
    lemma_negated(ball.vx);
    lemma_negated(ball.vy);
    lemma_pow2_pos(149);
    lemma_stays_at(ball.x.plus_spec(ball.vx.times_spec(t)).value(), 19, 581);
    lemma_stays_at(ball.y.plus_spec(ball.vy.times_spec(t)).value(), 19, 1702);
}

/// A bound, in pixels.
proof fn lemma_stays_at(m: int, lo: int, hi: int)
    requires
        pixels(lo) <= m * pow2(149) <= pixels(hi),
    ensures
        lo * pow2(149) <= m <= hi * pow2(149),
{
    let p: int = pow2(149) as int;
    lemma_pow2_pos(149);
    lemma_mul_is_associative(lo, p, p);
    lemma_mul_is_associative(hi, p, p);
    lemma_mul_basics(p);
    lemma_drop(lo * p, m, 0, p);
    lemma_drop(m, hi * p, 0, p);
}

/// One coordinate of a leg after which the ball is turned, or not.
proof fn lemma_turned_leg(x: Single, v: Single, t: Single, dt: Single, flip: bool)
    requires
        x.finite() && v.finite() && t.finite() && dt.finite(),
        within(x.value(), 0, 1792 * pow2(149)),
        v.size() <= 4096 * pow2(149),
        0 <= t.value() <= dt.value() <= pow2(145),
    ensures
        ({
            let m = x.plus_spec(v.times_spec(t));
            let rest = dt.minus_spec(t);
            let u = goes(v, flip);
            let to = ends_at(x, v, t, dt, flip);
            &&& m.finite() && rest.finite() && u.finite() && u.size() == v.size()
            &&& 0 <= rest.value() <= pow2(145)
            &&& within(m.value() * pow2(149), at(x, v, t.value()), leg_slip())
            &&& within(at(m, u, rest.value()), to, leg_slip())
        }),
{
    let p = pow2(149);
    let m = x.plus_spec(v.times_spec(t));
    let rest = dt.minus_spec(t);
    lemma_leg(x, v, t, dt);
    lemma_negated(v);
    if flip {
        lemma_leg_parts(x, v, t, dt);
        lemma_mul_unary_negation(v.value(), rest.value());
    }
}

} // verus!
