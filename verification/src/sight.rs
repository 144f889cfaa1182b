//! What the ball meets lies in its way, and what lies in its way is met. Both are
//! said of the cells that blocks cover and of a ball that goes straight on.
use crate::board::{cell_at, col_of, lemma_cell, rect_spec, row_of, Block};
use crate::distance::{lemma_bounds, lemma_drop, lemma_within_times};
use crate::impact::{entry, next_impact_is_the_soonest, next_impact_spec, pass_spec, strikes};
use crate::margin::{lemma_minus_off, lemma_rounded_off, within};
use crate::motion::{
    a_span_is_an_interval, axis_span_spec, lemma_still_is_something, same_time_spec, side_time_spec,
    still_spec, top_time_spec, wall_impact_spec, wall_time_spec, Axis, Ball, Impact,
};
use crate::single::{
    lemma_exact, lemma_negated, lemma_plus_exact, lemma_plus_order, lemma_rounded_bounds,
    lemma_rounded_close, lemma_rounded_sign, lemma_size_order, lemma_value_order, lemma_whole,
    lemma_zero, Single,
};
use crate::walls::lemma_ahead;
use crate::world::{covers, on_grid};
use crate::CELLS;
use vstd::arithmetic::mul::*;
use vstd::arithmetic::power2::*;
use vstd::prelude::*;

verus! {

/// A quotient is at most a time that is long enough.
proof fn lemma_at_most(g: Single, v: Single, t: Single)
    requires
        g.finite() && v.finite() && t.finite(),
        v.value() != 0,
        t.value() >= 0,
        v.value() > 0 ==> g.value() * pow2(149) <= v.value() * t.value(),
        v.value() < 0 ==> g.value() * pow2(149) >= v.value() * t.value(),
    ensures
        g.over_spec(v).le_spec(t),
{
    let p = pow2(149);
    let zero = Single::zero_spec();
    let n = g.size() * p;
    lemma_pow2_pos(149);
    lemma_zero(g);
    lemma_zero(v);
    lemma_zero(t);
    lemma_zero(zero);
    lemma_value_order(zero, t);
    lemma_rounded_sign(n, v.size());
    if g.size() == 0 || g.neg() != v.neg() {
        reveal(Single::over_spec);
    } else {
        assert(n <= t.size() * v.size()) by (nonlinear_arith)
            requires
                n == g.size() * p,
                g.value() == g.size() || g.value() == -g.size(),
                v.value() == v.size() || v.value() == -v.size(),
                (g.value() >= 0) == (v.value() >= 0),
                t.value() == t.size(),
                v.value() > 0 ==> g.value() * p <= v.value() * t.value(),
                v.value() < 0 ==> g.value() * p >= v.value() * t.value(),
                v.value() != 0,
        ;
        lemma_rounded_bounds(n, v.size(), t);
        let q = Single::rounded(false, n, v.size());
        assert(g.over_spec(v) == q) by {
            reveal(Single::over_spec);
        }
        lemma_value_order(q, t);
    }
}

/// A quotient is at least a time that is not too long.
proof fn lemma_at_least(g: Single, v: Single, t: Single)
    requires
        g.finite() && v.finite() && t.finite(),
        v.value() != 0,
        t.value() >= 0,
        v.value() > 0 ==> g.value() * pow2(149) >= v.value() * t.value(),
        v.value() < 0 ==> g.value() * pow2(149) <= v.value() * t.value(),
    ensures
        t.le_spec(g.over_spec(v)),
{
    let p = pow2(149);
    let zero = Single::zero_spec();
    let n = g.size() * p;
    lemma_pow2_pos(149);
    lemma_zero(g);
    lemma_zero(v);
    lemma_zero(t);
    lemma_zero(zero);
    lemma_rounded_sign(n, v.size());
    assert(g.size() == 0 ==> t.size() == 0) by (nonlinear_arith)
        requires
            v.value() > 0 ==> g.value() * p >= v.value() * t.value(),
            v.value() < 0 ==> g.value() * p <= v.value() * t.value(),
            g.value() == g.size() || g.value() == -g.size(),
            t.value() == t.size(),
            v.value() != 0,
    ;
    assert(g.size() > 0 ==> (g.value() > 0) == (v.value() > 0)) by (nonlinear_arith)
        requires
            v.value() > 0 ==> g.value() * p >= v.value() * t.value(),
            v.value() < 0 ==> g.value() * p <= v.value() * t.value(),
            g.value() == g.size() || g.value() == -g.size(),
            t.value() >= 0,
            p > 0,
            v.value() != 0,
    ;
    if g.size() == 0 {
        reveal(Single::over_spec);
    } else {
        assert(n >= t.size() * v.size()) by (nonlinear_arith)
            requires
                n == g.size() * p,
                g.value() == g.size() || g.value() == -g.size(),
                v.value() == v.size() || v.value() == -v.size(),
                (g.value() > 0) == (v.value() > 0),
                t.value() == t.size(),
                v.value() > 0 ==> g.value() * p >= v.value() * t.value(),
                v.value() < 0 ==> g.value() * p <= v.value() * t.value(),
                v.value() != 0,
        ;
        lemma_rounded_bounds(n, v.size(), t);
        let q = Single::rounded(false, n, v.size());
        assert(g.over_spec(v) == q) by {
            reveal(Single::over_spec);
        }
        assert(t.bits % 0x8000_0000 <= q.bits);
    }
}

/// Where a ball is, one way, after a time, going straight on: exactly, with one
/// pixel as so many as one times one has.
pub open spec fn at(pos: Single, vel: Single, t: int) -> int {
    pos.value() * pow2(149) + vel.value() * t
}

/// So many pixels, in the same measure.
pub open spec fn pixels(n: int) -> int {
    n * (pow2(149) * pow2(149))
}

/// A part in a thousand of a pixel, in the same measure.
pub open spec fn hairbreadth() -> int {
    (pow2(139) * pow2(149)) as int
}

/// The way to a place, rounded.
proof fn lemma_way(pos: Single, n: nat)
    requires
        pos.finite(),
        n < 0x1000,
        0 <= pos.value() < 4096 * pow2(149),
    ensures
        Single::whole_spec(n).minus_spec(pos).finite(),
        Single::whole_spec(n).minus_spec(pos).size() <= 4096 * pow2(149),
        within(
            Single::whole_spec(n).minus_spec(pos).value() * pow2(149),
            pixels(n as int) - pos.value() * pow2(149),
            pow2(137) * pow2(149),
        ),
{
    let p = pow2(149);
    let w = Single::whole_spec(n);
    lemma_whole(n);
    lemma_pow2_adds(12, 137);
    lemma2_to64();
    assert(0 <= n * p <= 4096 * p) by (nonlinear_arith)
        requires
            n < 0x1000,
    ;
    lemma_minus_off(w, pos, 137);
    lemma_within_times(w.minus_spec(pos).value(), w.value() - pos.value(), pow2(137), p);
    lemma_mul_is_distributive_sub_other_way(p as int, w.value(), pos.value());
    lemma_mul_is_associative(n as int, p as int, p as int);
}

/// A place that a ball is in at a time, by a hair, is in its span then.
proof fn lemma_in_span(pos: Single, vel: Single, lo: nat, hi: nat, t: Single)
    requires
        pos.finite() && vel.finite() && t.finite(),
        lo < hi < 0x1000,
        0 <= pos.value() < 4096 * pow2(149),
        0 <= t.value() <= 512 * pow2(149),
        pixels(lo as int) + hairbreadth() <= at(pos, vel, t.value()) <= pixels(hi as int)
            - hairbreadth(),
    ensures
        ({
            let (t0, t1) = axis_span_spec(
                pos,
                vel,
                Single::whole_spec(lo),
                Single::whole_spec(hi),
            );
            &&& t0.le_spec(t)
            &&& t.le_spec(t1)
            &&& vel.abs_spec().lt_spec(still_spec()) ==> lo * pow2(149) <= pos.value() <= hi
                * pow2(149)
        }),
{
    let p = pow2(149);
    let low = Single::whole_spec(lo);
    let high = Single::whole_spec(hi);
    lemma_whole(lo);
    lemma_whole(hi);
    lemma_pow2_pos(149);
    lemma_value_order(low, pos);
    lemma_value_order(pos, high);
    lemma_value_order(low, high);
    assert(lo * p <= hi * p) by (nonlinear_arith)
        requires
            lo < hi,
    ;
    if vel.abs_spec().lt_spec(still_spec()) {
        lemma_slow(pos, vel, lo, hi, t.value());
    } else {
        lemma_still_is_something();
        lemma_zero(vel);
        a_span_is_an_interval(pos, vel, low, high);
        lemma_way(pos, lo);
        lemma_way(pos, hi);
        lemma_hairs();
        let a = low.minus_spec(pos);
        let b = high.minus_spec(pos);
        lemma_mul_is_commutative(vel.value(), t.value());
        if vel.value() > 0 {
            lemma_at_most(a, vel, t);
            lemma_at_least(b, vel, t);
        } else {
            lemma_at_most(b, vel, t);
            lemma_at_least(a, vel, t);
        }
    }
}

/// What rounding takes is less than a hair.
proof fn lemma_hairs()
    ensures
        hairbreadth() == 4 * (pow2(137) * pow2(149)),
        pow2(137) * pow2(149) > 0,
        pow2(149) * pow2(149) == 4096 * (pow2(137) * pow2(149)),
{
    let p = pow2(149);
    let q = pow2(137);
    lemma_pow2_adds(2, 137);
    lemma_pow2_adds(12, 137);
    lemma2_to64();
    lemma_pow2_pos(137);
    lemma_pow2_pos(149);
    lemma_mul_strictly_positive(q as int, p as int);
    lemma_mul_is_associative(4, q as int, p as int);
    lemma_mul_is_associative(4096, q as int, p as int);
}

/// A ball that stands still is where it was.
proof fn lemma_slow(pos: Single, vel: Single, lo: nat, hi: nat, t: int)
    requires
        vel.finite(),
        vel.abs_spec().lt_spec(still_spec()),
        0 <= t <= 512 * pow2(149),
        pixels(lo as int) + hairbreadth() <= at(pos, vel, t) <= pixels(hi as int) - hairbreadth(),
    ensures
        lo * pow2(149) <= pos.value() <= hi * pow2(149),
{
    let p = pow2(149);
    lemma_pow2_pos(149);
    lemma_drifts(vel, t);
    assert(pixels(lo as int) == (lo * p) * p && pixels(hi as int) == (hi * p) * p) by {
        lemma_mul_is_associative(lo as int, p as int, p as int);
        lemma_mul_is_associative(hi as int, p as int, p as int);
    }
    lemma_mul_basics(p as int);
    lemma_drop((lo * p) as int, pos.value(), 0, p as int);
    lemma_drop(pos.value(), (hi * p) as int, 0, p as int);
}

/// A wall that is still some pixels ahead at a time is met later.
pub proof fn lemma_wall_later(pos: Single, vel: Single, n: nat, t: Single)
    requires
        pos.finite() && vel.finite() && t.finite(),
        n < 1000,
        0 <= pos.value() < 4000 * pow2(149),
        t.value() >= 0,
        vel.value() != 0,
        vel.size() <= 4096 * pow2(149),
        vel.value() < 0 ==> at(pos, vel, t.value()) >= pixels(n as int + 9),
        vel.value() > 0 ==> at(pos, vel, t.value()) <= pixels(n as int - 9),
    ensures
        t.lt_spec(Single::whole_spec(n).minus_spec(pos).over_spec(vel)),
{
    let p = pow2(149);
    let pp: int = (p * p) as int;
    let g = Single::whole_spec(n).minus_spec(pos);
    let q = g.over_spec(vel);
    lemma_way(pos, n);
    lemma_hairs();
    lemma_pow2_pos(149);
    lemma_mul_is_distributive_add_other_way(pp, n as int, 9);
    lemma_mul_is_distributive_sub_other_way(pp, n as int, 9);
    lemma_at_least(g, vel, t);
    let z: int = (g.size() * p) as int;
    let e: int = (vel.size() * t.size()) as int;
    lemma_zero(vel);
    lemma_zero(g);
    // The way is longer than what is gone by eight pixels.
    assert(z >= e + 8 * pp && g.neg() == vel.neg() && g.size() > 0) by {
        lemma_mul_basics(p as int);
        if vel.value() < 0 {
            lemma_mul_unary_negation(vel.size() as int, t.value());
            lemma_mul_unary_negation(g.size() as int, p as int);
            lemma_mul_nonnegative(vel.size() as int, t.value());
        } else {
            lemma_mul_unary_negation(g.size() as int, p as int);
            lemma_mul_nonnegative(vel.size() as int, t.value());
        }
    }
    assert(z <= 5000 * pp) by {
        lemma_mul_inequality(pos.value(), (4000 * p) as int, p as int);
        lemma_mul_is_associative(4000, p as int, p as int);
        lemma_mul_nonnegative(pos.value(), p as int);
        lemma_mul_inequality(n as int, 1000, pp);
        lemma_mul_nonnegative(n as int, pp);
        if vel.value() < 0 {
            lemma_mul_unary_negation(g.size() as int, p as int);
        }
    }
    if q.finite() {
        assert(q == Single::rounded(false, z as nat, vel.size())) by {
            reveal(Single::over_spec);
        }
        assert(z >= 0x80_0000 * vel.size()) by {
            lemma_pow2_adds(60, 89);
            lemma2_to64_rest();
            lemma_pow2_pos(89);
            lemma_mul_inequality(0x8_0000_0000, p as int, p as int);
        }
        lemma_rounded_close(z as nat, vel.size());
        let r: int = (q.size() * vel.size()) as int;
        assert(r > e);
        if q.size() <= t.size() {
            lemma_mul_inequality(q.size() as int, t.size() as int, vel.size() as int);
            lemma_mul_is_commutative(t.size() as int, vel.size() as int);
        }
        lemma_value_order(t, q);
    }
}

/// The ball's centre, going straight on, is within a ball's radius of a cell each
/// way after a time, by a hair. A cell is 13 wide and tall, from 40 across and 70
/// down on, and the radius is 7.
pub open spec fn comes_to(ball: Ball, j: int, t: Single) -> bool {
    let c = col_of(j);
    let r = row_of(j);
    let x = at(ball.x, ball.vx, t.value());
    let y = at(ball.y, ball.vy, t.value());
    &&& pixels(40 + 13 * c - 7) + hairbreadth() <= x <= pixels(53 + 13 * c + 7) - hairbreadth()
    &&& pixels(70 + 13 * r - 7) + hairbreadth() <= y <= pixels(83 + 13 * r + 7) - hairbreadth()
}

/// The ball's centre is within a ball's radius of a cell each way.
pub open spec fn is_upon(ball: Ball, j: int) -> bool {
    let p = pow2(149);
    let c = col_of(j);
    let r = row_of(j);
    &&& (40 + 13 * c - 7) * p <= ball.x.value() <= (53 + 13 * c + 7) * p
    &&& (70 + 13 * r - 7) * p <= ball.y.value() <= (83 + 13 * r + 7) * p
}

/// The ball is upon none of the cells that a block covers.
pub open spec fn is_clear_of(b: Seq<Block>, ball: Ball, i: int) -> bool {
    forall|j: int| 0 <= j < CELLS && #[trigger] covers(b, i, j) ==> !is_upon(ball, j)
}

/// The ball is between the walls, above twice the height of the field, and not
/// too fast.
pub open spec fn is_in_field(ball: Ball) -> bool {
    let p = pow2(149);
    &&& ball.x.finite() && ball.y.finite() && ball.vx.finite() && ball.vy.finite()
    &&& 21 * p <= ball.x.value() <= 579 * p
    &&& 21 * p <= ball.y.value() <= 1600 * p
    &&& ball.vx.size() <= 4096 * p
    &&& ball.vy.size() <= 4096 * p
}

/// One of a row of cells is where a place is that lies within all of them.
proof fn lemma_one_of(x: int, c: int, o: int, n: int, p: int) -> (k: int)
    requires
        p > 0,
        1 <= n <= 4,
        (o + 13 * c - 7) * p <= x <= (o + 13 * (c + n) + 7) * p,
    ensures
        0 <= k < n,
        (o + 13 * (c + k) - 7) * p <= x <= (o + 13 + 13 * (c + k) + 7) * p,
{
    let a = o + 13 * c;
    lemma_mul_is_distributive_add_other_way(p, a, -7);
    lemma_mul_is_distributive_add_other_way(p, a, 6);
    lemma_mul_is_distributive_add_other_way(p, a, 19);
    lemma_mul_is_distributive_add_other_way(p, a, 32);
    lemma_mul_is_distributive_add_other_way(p, a, 20);
    lemma_mul_is_distributive_add_other_way(p, a, 33);
    lemma_mul_is_distributive_add_other_way(p, a, 46);
    lemma_mul_is_distributive_add_other_way(p, a, 59);
    if x <= (a + 20) * p {
        0
    } else if x <= (a + 33) * p {
        1
    } else if x <= (a + 46) * p {
        2
    } else {
        3
    }
}

/// A ball that is clear of a block is outside it, grown by a radius, one way or
/// the other.
proof fn lemma_outside(b: Seq<Block>, ball: Ball, i: int)
    requires
        b.len() == CELLS,
        on_grid(b),
        0 <= i < CELLS,
        b[i].alive,
        is_clear_of(b, ball, i),
    ensures
        ({
            let p = pow2(149);
            let n = b[i].span as int;
            ||| ball.x.value() < (40 + 13 * col_of(i) - 7) * p
            ||| ball.x.value() > (40 + 13 * (col_of(i) + n) + 7) * p
            ||| ball.y.value() < (70 + 13 * row_of(i) - 7) * p
            ||| ball.y.value() > (70 + 13 * (row_of(i) + n) + 7) * p
        }),
{
    let p: int = pow2(149) as int;
    let n = b[i].span as int;
    let c = col_of(i);
    let r = row_of(i);
    lemma_pow2_pos(149);
    if (40 + 13 * c - 7) * p <= ball.x.value() <= (40 + 13 * (c + n) + 7) * p && (70 + 13 * r - 7)
        * p <= ball.y.value() <= (70 + 13 * (r + n) + 7) * p {
        let k = lemma_one_of(ball.x.value(), c, 40, n, p);
        let l = lemma_one_of(ball.y.value(), r, 70, n, p);
        let j = cell_at(c + k, r + l);
        lemma_cell(c + k, r + l);
        assert(covers(b, i, j));
        assert(is_upon(ball, j));
    }
}

/// What lies in the way is met. If the ball's centre, going straight on, comes
/// within a radius of any of the cells that a live block covers, from outside that
/// block and before the limit, then what it meets next is a block, and no later
/// than that: not a wall, and not nothing.
pub proof fn what_is_in_the_way_is_met(
    b: Seq<Block>,
    ball: Ball,
    limit: Single,
    skip: Seq<usize>,
    i: int,
    j: int,
    t: Single,
)
    requires
        b.len() == CELLS,
        on_grid(b),
        is_in_field(ball),
        0 <= i < CELLS,
        0 <= j < CELLS,
        b[i].alive,
        !skip.contains(i as usize),
        covers(b, i, j),
        is_clear_of(b, ball, i),
        t.finite(),
        0 < t.value() <= 512 * pow2(149),
        t.lt_spec(limit),
        comes_to(ball, j, t),
    ensures
        next_impact_spec(b, ball, limit, skip) matches Impact::Block(k, when, _) && when.le_spec(t)
            && k < CELLS && b[k as int].alive && !skip.contains(k),
{
    lemma_in_the_way(b, ball, skip, i, j, t);
    lemma_no_wall_before(ball, j, t);
    next_impact_is_the_soonest(b, ball, limit, skip);
    assert(strikes(b, ball, skip, i));
}

/// Such a block is struck, and entered by then.
proof fn lemma_in_the_way(
    b: Seq<Block>,
    ball: Ball,
    skip: Seq<usize>,
    i: int,
    j: int,
    t: Single,
)
    requires
        b.len() == CELLS,
        on_grid(b),
        is_in_field(ball),
        0 <= i < CELLS,
        0 <= j < CELLS,
        b[i].alive,
        !skip.contains(i as usize),
        covers(b, i, j),
        is_clear_of(b, ball, i),
        t.finite(),
        0 < t.value() <= 512 * pow2(149),
        comes_to(ball, j, t),
    ensures
        strikes(b, ball, skip, i),
        entry(b, ball, i).le_spec(t),
{
    let zero = Single::zero_spec();
    let p: int = pow2(149) as int;
    let n = b[i].span as int;
    let c = col_of(i);
    let r = row_of(i);
    let x0: nat = (40 + 13 * c - 7) as nat;
    let x1: nat = (40 + 13 * (c + n) + 7) as nat;
    let y0: nat = (70 + 13 * r - 7) as nat;
    let y1: nat = (70 + 13 * (r + n) + 7) as nat;
    assert(rect_spec(i, b[i].span) == (40 + 13 * c, 70 + 13 * r, 13 * n, 13 * n));
    lemma_pow2_pos(149);
    lemma_grown(40, c, n, col_of(j));
    lemma_grown(70, r, n, row_of(j));
    lemma_in_span(ball.x, ball.vx, x0, x1, t);
    lemma_in_span(ball.y, ball.vy, y0, y1, t);
    lemma_outside(b, ball, i);
    lemma_zero(zero);
    lemma_value_order(zero, t);
    lemma_enters(ball.x, ball.vx, x0, x1, t);
    lemma_enters(ball.y, ball.vy, y0, y1, t);
}

/// Pixels around a cell are pixels around the block that covers it.
proof fn lemma_grown(o: int, c: int, n: int, d: int)
    requires
        c <= d < c + n,
    ensures
        pixels(o + 13 * c - 7) <= pixels(o + 13 * d - 7),
        pixels(o + 13 + 13 * d + 7) <= pixels(o + 13 * (c + n) + 7),
{
    let pp: int = (pow2(149) * pow2(149)) as int;
    lemma_mul_nonnegative(pow2(149) as int, pow2(149) as int);
    lemma_mul_inequality(o + 13 * c - 7, o + 13 * d - 7, pp);
    lemma_mul_inequality(o + 13 + 13 * d + 7, o + 13 * (c + n) + 7, pp);
}

/// A ball that comes into a range from outside it enters it from now on.
proof fn lemma_enters(pos: Single, vel: Single, lo: nat, hi: nat, t: Single)
    requires
        pos.finite() && vel.finite() && t.finite(),
        lo < hi < 0x1000,
        0 <= pos.value() < 4096 * pow2(149),
        0 <= t.value() <= 512 * pow2(149),
        pixels(lo as int) + hairbreadth() <= at(pos, vel, t.value()) <= pixels(hi as int)
            - hairbreadth(),
    ensures
        pos.value() < lo * pow2(149) || pos.value() > hi * pow2(149)
            ==> Single::zero_spec().le_spec(
            axis_span_spec(pos, vel, Single::whole_spec(lo), Single::whole_spec(hi)).0,
        ),
{
    let p: int = pow2(149) as int;
    let low = Single::whole_spec(lo);
    let high = Single::whole_spec(hi);
    lemma_whole(lo);
    lemma_whole(hi);
    lemma_pow2_pos(149);
    lemma_in_span(pos, vel, lo, hi, t);
    lemma_hairs();
    lemma_value_order(low, high);
    lemma_mul_inequality(lo as int, hi as int, p);
    lemma_mul_is_associative(lo as int, p, p);
    lemma_mul_is_associative(hi as int, p, p);
    if pos.value() < lo * p {
        lemma_mul_strict_inequality(pos.value(), lo * p, p);
        assert(vel.value() > 0) by {
            if vel.value() <= 0 {
                lemma_mul_inequality(vel.value(), 0, t.value());
                lemma_mul_basics(t.value());
            }
        }
        lemma_zero(vel);
        lemma_ahead(low, pos, vel);
        a_span_is_an_interval(pos, vel, low, high);
    } else if pos.value() > hi * p {
        lemma_mul_strict_inequality(hi * p, pos.value(), p);
        assert(vel.value() < 0) by {
            if vel.value() >= 0 {
                lemma_mul_nonnegative(vel.value(), t.value());
            }
        }
        lemma_zero(vel);
        lemma_ahead(high, pos, vel);
        a_span_is_an_interval(pos, vel, low, high);
    }
}

/// A ball that comes to a cell has met no wall by then.
proof fn lemma_no_wall_before(ball: Ball, j: int, t: Single)
    requires
        is_in_field(ball),
        0 <= j < CELLS,
        t.finite(),
        t.value() > 0,
        comes_to(ball, j, t),
    ensures
        t.lt_spec(wall_time_spec(ball)),
{
    let zero = Single::zero_spec();
    let pp: int = (pow2(149) * pow2(149)) as int;
    let c = col_of(j);
    let r = row_of(j);
    lemma_zero(zero);
    lemma_pow2_pos(149);
    lemma_hairs();
    lemma_value_order(ball.vx, zero);
    lemma_value_order(zero, ball.vx);
    lemma_value_order(ball.vy, zero);
    lemma_mul_inequality(30, 40 + 13 * c - 7, pp);
    lemma_mul_inequality(30, 70 + 13 * r - 7, pp);
    lemma_mul_inequality(53 + 13 * c + 7, 570, pp);
    if ball.vx.value() < 0 {
        lemma_wall_later(ball.x, ball.vx, 21, t);
    } else if ball.vx.value() > 0 {
        lemma_wall_later(ball.x, ball.vx, 579, t);
    }
    if ball.vy.value() < 0 {
        lemma_wall_later(ball.y, ball.vy, 21, t);
    }
}

/// A time that is at least a quotient takes a ball as far, but for a hair.
proof fn lemma_long_enough(g: Single, v: Single, t: Single)
    requires
        g.finite() && v.finite() && t.finite(),
        v.value() != 0,
        t.value() >= 0,
        g.size() <= 8192 * pow2(149),
        v.size() <= 4096 * pow2(149),
        g.neg() == v.neg(),
        g.over_spec(v).le_spec(t),
    ensures
        v.size() * t.size() >= g.size() * pow2(149) - pow2(138) * pow2(149),
{
    let p = pow2(149);
    let n = g.size() * p;
    let q = Single::rounded(false, n, v.size());
    lemma_parts_of_way(g, v);
    lemma_zero(g);
    lemma_zero(v);
    lemma_mul_nonnegative(v.size() as int, t.size() as int);
    if n >= 0x80_0000 * v.size() {
        assert(g.over_spec(v) == q) by {
            reveal(Single::over_spec);
            lemma_mul_basics(p as int);
        }
        lemma_rounded_sign(n, v.size());
        assert(q.finite() && !q.neg());
        lemma_rounded_close(n, v.size());
        lemma_value_order(q, t);
        lemma_mul_inequality(q.size() as int, t.size() as int, v.size() as int);
        lemma_mul_is_commutative(t.size() as int, v.size() as int);
    }
}

/// A time that is at most a quotient takes a ball no farther, but for a hair.
proof fn lemma_not_too_long(g: Single, v: Single, t: Single)
    requires
        g.finite() && v.finite() && t.finite(),
        v.value() != 0,
        t.value() >= 0,
        g.size() <= 8192 * pow2(149),
        v.size() <= 4096 * pow2(149),
        g.neg() == v.neg(),
        t.le_spec(g.over_spec(v)),
    ensures
        v.size() * t.size() <= g.size() * pow2(149) + pow2(138) * pow2(149),
{
    let p = pow2(149);
    let n = g.size() * p;
    let q = Single::rounded(false, n, v.size());
    lemma_parts_of_way(g, v);
    lemma_zero(g);
    lemma_zero(v);
    lemma_zero(t);
    lemma_mul_is_commutative(t.size() as int, v.size() as int);
    lemma_mul_basics(p as int);
    lemma_mul_basics(v.size() as int);
    if g.size() == 0 {
        assert(t.size() == 0) by {
            reveal(Single::over_spec);
        }
    } else {
        assert(g.over_spec(v) == q) by {
            reveal(Single::over_spec);
        }
        if q.finite() {
            lemma_value_order(t, q);
            lemma_mul_inequality(t.size() as int, q.size() as int, v.size() as int);
            if n >= 0x80_0000 * v.size() {
                lemma_rounded_close(n, v.size());
            } else {
                lemma2_to64();
                assert((0x100_0000 * pow2(0)) * v.size() == 0x100_0000 * v.size());
                lemma_rounded_off(n, v.size(), 0);
            }
        } else {
            lemma_rounded_bounds(n, v.size(), t);
        }
    }
}

/// What rounding takes of a way is less than a hair.
proof fn lemma_parts_of_way(g: Single, v: Single)
    requires
        g.size() <= 8192 * pow2(149),
        v.size() <= 4096 * pow2(149),
    ensures
        g.size() * pow2(149) <= 0x100_0000 * (pow2(138) * pow2(149)),
        0x80_0000 * v.size() <= pow2(138) * pow2(149),
{
    let p = pow2(149);
    let h = pow2(138);
    lemma_pow2_adds(11, 138);
    lemma2_to64();
    lemma2_to64_rest();
    lemma_pow2_adds(60, 78);
    lemma_pow2_pos(78);
    lemma_mul_inequality(g.size() as int, (8192 * p) as int, p as int);
    lemma_mul_is_associative(0x100_0000, h as int, p as int);
    lemma_mul_is_associative(8192, p as int, p as int);
    lemma_mul_is_associative(2048, h as int, p as int);
    assert(0x8_0000_0000 * p <= h * p) by {
        lemma_mul_inequality(0x8_0000_0000, h as int, p as int);
    }
}

/// The time to a place on, or one as long or longer, takes a ball to there or
/// beyond, but for half a pixel; one as short or shorter no farther.
proof fn lemma_gets(pos: Single, vel: Single, n: nat, t: Single)
    requires
        pos.finite() && vel.finite() && t.finite(),
        n < 0x1000,
        0 <= pos.value() < 4096 * pow2(149),
        vel.value() != 0,
        vel.size() <= 4096 * pow2(149),
        t.value() >= 0,
    ensures
        ({
            let q = Single::whole_spec(n).minus_spec(pos).over_spec(vel);
            let x = 2 * at(pos, vel, t.value());
            &&& vel.value() > 0 && q.le_spec(t) ==> x >= pixels(2 * (n as int) - 1)
            &&& vel.value() > 0 && t.le_spec(q) ==> x <= pixels(2 * (n as int) + 1)
            &&& vel.value() < 0 && q.le_spec(t) ==> x <= pixels(2 * (n as int) + 1)
            &&& vel.value() < 0 && t.le_spec(q) ==> x >= pixels(2 * (n as int) - 1)
        }),
{
    let p = pow2(149);
    let pp: int = (p * p) as int;
    let g = Single::whole_spec(n).minus_spec(pos);
    let q = g.over_spec(vel);
    let v = vel.value();
    lemma_way(pos, n);
    lemma_hairs();
    lemma_pow2_adds(1, 137);
    lemma2_to64();
    lemma_pow2_pos(149);
    lemma_zero(g);
    lemma_zero(vel);
    lemma_zero(t);
    lemma_mul_is_associative(2, pow2(137) as int, p as int);
    lemma_mul_is_distributive_add_other_way(pp, 2 * (n as int), 1);
    lemma_mul_is_distributive_sub_other_way(pp, 2 * (n as int), 1);
    lemma_mul_is_associative(2, n as int, pp);
    lemma_mul_nonnegative(vel.size() as int, t.size() as int);
    lemma_mul_nonnegative(g.size() as int, p as int);
    lemma_mul_unary_negation(vel.size() as int, t.value());
    lemma_mul_unary_negation(g.size() as int, p as int);
    if g.size() > 0 && g.neg() == vel.neg() {
        if q.le_spec(t) {
            lemma_long_enough(g, vel, t);
        }
        if t.le_spec(q) {
            lemma_not_too_long(g, vel, t);
        }
    } else if t.le_spec(q) {
        lemma_behind(g, vel, t);
        lemma_mul_basics(v);
        lemma_parts_of_way(g, vel);
    }
}

/// A place that is behind is not reached, unless it is here.
proof fn lemma_behind(g: Single, v: Single, t: Single)
    requires
        g.finite() && v.finite() && t.finite(),
        v.value() != 0,
        t.value() >= 0,
        g.size() == 0 || g.neg() != v.neg(),
        t.le_spec(g.over_spec(v)),
    ensures
        t.size() == 0,
        g.size() * pow2(149) <= v.size(),
{
    let p = pow2(149);
    let n = g.size() * p;
    let q = Single::rounded(false, n, v.size());
    let least = Single::rounded(false, 1 * pow2(0), 1);
    lemma_exact(1, 0);
    lemma2_to64();
    lemma_zero(least);
    lemma_zero(g);
    lemma_zero(v);
    lemma_zero(t);
    lemma_mul_basics(p as int);
    lemma_mul_basics(v.size() as int);
    lemma_rounded_bounds(n, v.size(), least);
    lemma_rounded_sign(n, v.size());
    reveal(Single::over_spec);
}

/// What the ball is between at a time, one way, that lies in its span.
proof fn lemma_span_holds(pos: Single, vel: Single, lo: nat, hi: nat, t: Single)
    requires
        pos.finite() && vel.finite() && t.finite(),
        lo < hi < 0x1000,
        0 <= pos.value() < 4096 * pow2(149),
        vel.size() <= 4096 * pow2(149),
        0 <= t.value() <= 512 * pow2(149),
        ({
            let (t0, t1) = axis_span_spec(
                pos,
                vel,
                Single::whole_spec(lo),
                Single::whole_spec(hi),
            );
            t0.le_spec(t) && t.le_spec(t1)
        }),
    ensures
        ({
            let x = 2 * at(pos, vel, t.value());
            let t0 = axis_span_spec(
                pos,
                vel,
                Single::whole_spec(lo),
                Single::whole_spec(hi),
            ).0;
            &&& pixels(2 * (lo as int) - 1) <= x <= pixels(2 * (hi as int) + 1)
            &&& t0.key() == t.key() ==> {
                &&& vel.value() != 0
                &&& vel.value() > 0 ==> x <= pixels(2 * (lo as int) + 1)
                &&& vel.value() < 0 ==> x >= pixels(2 * (hi as int) - 1)
            }
        }),
{
    let p = pow2(149);
    let pp: int = (p * p) as int;
    let low = Single::whole_spec(lo);
    let high = Single::whole_spec(hi);
    lemma_whole(lo);
    lemma_whole(hi);
    lemma_pow2_pos(149);
    lemma_value_order(low, pos);
    lemma_value_order(pos, high);
    lemma_value_order(low, high);
    lemma_mul_inequality(lo as int, hi as int, p as int);
    if vel.abs_spec().lt_spec(still_spec()) {
        lemma_stands(pos, vel, lo, hi, t.value());
    } else {
        lemma_still_is_something();
        lemma_zero(vel);
        a_span_is_an_interval(pos, vel, low, high);
        lemma_gets(pos, vel, lo, t);
        lemma_gets(pos, vel, hi, t);
    }
}

/// A ball that stands still in a range stays there, but for half a pixel.
proof fn lemma_stands(pos: Single, vel: Single, lo: nat, hi: nat, t: int)
    requires
        vel.finite(),
        vel.abs_spec().lt_spec(still_spec()),
        0 <= t <= 512 * pow2(149),
        lo * pow2(149) <= pos.value() <= hi * pow2(149),
    ensures
        pixels(2 * (lo as int) - 1) <= 2 * at(pos, vel, t) <= pixels(2 * (hi as int) + 1),
{
    let p = pow2(149);
    let pp: int = (p * p) as int;
    lemma_drifts(vel, t);
    lemma_hairs();
    lemma_mul_inequality((lo * p) as int, pos.value(), p as int);
    lemma_mul_inequality(pos.value(), (hi * p) as int, p as int);
    lemma_mul_is_associative(lo as int, p as int, p as int);
    lemma_mul_is_associative(hi as int, p as int, p as int);
    lemma_mul_is_distributive_sub_other_way(pp, 2 * (lo as int), 1);
    lemma_mul_is_distributive_add_other_way(pp, 2 * (hi as int), 1);
    lemma_mul_is_associative(2, lo as int, pp);
    lemma_mul_is_associative(2, hi as int, pp);
}

/// How far a ball that stands still goes.
proof fn lemma_drifts(vel: Single, t: int)
    requires
        vel.finite(),
        vel.abs_spec().lt_spec(still_spec()),
        0 <= t <= 512 * pow2(149),
    ensures
        within(vel.value() * t, 0, pow2(139) * pow2(149)),
{
    let p = pow2(149);
    let s = Single::rounded(false, 1 * pow2(130), 1);
    let v = vel.value();
    lemma_exact(1, 130);
    lemma_pow2_adds(19, 130);
    lemma_pow2_adds(9, 130);
    lemma_pow2_pos(130);
    lemma_pow2_pos(149);
    lemma2_to64();
    lemma_rounded_bounds(1 * p, 1_000_000, s);
    lemma_still_is_something();
    lemma_size_order(vel, still_spec());
    assert(vel.size() <= pow2(130));
    lemma_bounds(v, t, pow2(130), 512 * p);
    assert(pow2(130) * (512 * p) == (512 * pow2(130)) * p) by (nonlinear_arith);
}

/// What is met is there. When the ball meets a block, the block is a live one that
/// was not left out, and the ball's centre, going straight on, is by then within a
/// radius of it each way, but for half a pixel. It is on the face that turns it:
/// on the axis that is struck, it is at the edge that it comes from.
pub proof fn what_is_met_is_there(b: Seq<Block>, ball: Ball, limit: Single, skip: Seq<usize>)
    requires
        b.len() == CELLS,
        on_grid(b),
        is_in_field(ball),
    ensures
        next_impact_spec(b, ball, limit, skip) matches Impact::Block(i, t, axis) ==> {
            &&& i < CELLS && b[i as int].alive && !skip.contains(i)
            &&& Single::zero_spec().le_spec(t) && t.lt_spec(limit)
            &&& t.value() <= 512 * pow2(149) ==> ({
                let n = b[i as int].span as int;
                let x = 2 * at(ball.x, ball.vx, t.value());
                let y = 2 * at(ball.y, ball.vy, t.value());
                let x0 = 2 * (40 + 13 * col_of(i as int) - 7);
                let x1 = 2 * (40 + 13 * (col_of(i as int) + n) + 7);
                let y0 = 2 * (70 + 13 * row_of(i as int) - 7);
                let y1 = 2 * (70 + 13 * (row_of(i as int) + n) + 7);
                &&& pixels(x0 - 1) <= x <= pixels(x1 + 1)
                &&& pixels(y0 - 1) <= y <= pixels(y1 + 1)
                &&& axis == Axis::X ==> {
                    &&& ball.vx.value() != 0
                    &&& ball.vx.value() > 0 ==> x <= pixels(x0 + 1)
                    &&& ball.vx.value() < 0 ==> x >= pixels(x1 - 1)
                }
                &&& axis == Axis::Y ==> {
                    &&& ball.vy.value() != 0
                    &&& ball.vy.value() > 0 ==> y <= pixels(y0 + 1)
                    &&& ball.vy.value() < 0 ==> y >= pixels(y1 - 1)
                }
            })
        },
{
    next_impact_is_the_soonest(b, ball, limit, skip);
    if let Impact::Block(i, t, axis) = next_impact_spec(b, ball, limit, skip) {
        lemma_struck_there(b, ball, skip, i as int);
    }
}

/// Where the ball is when it enters a block that it strikes.
proof fn lemma_struck_there(b: Seq<Block>, ball: Ball, skip: Seq<usize>, i: int)
    requires
        b.len() == CELLS,
        on_grid(b),
        is_in_field(ball),
        0 <= i < CELLS,
        strikes(b, ball, skip, i),
        entry(b, ball, i).lt_spec(Single::infinity_spec()),
    ensures
        entry(b, ball, i).finite(),
        entry(b, ball, i).value() <= 512 * pow2(149) ==> ({
            let t = entry(b, ball, i);
            let axis = pass_spec(b, ball, i).2;
            let n = b[i].span as int;
            let x = 2 * at(ball.x, ball.vx, t.value());
            let y = 2 * at(ball.y, ball.vy, t.value());
            let x0 = 2 * (40 + 13 * col_of(i) - 7);
            let x1 = 2 * (40 + 13 * (col_of(i) + n) + 7);
            let y0 = 2 * (70 + 13 * row_of(i) - 7);
            let y1 = 2 * (70 + 13 * (row_of(i) + n) + 7);
            &&& pixels(x0 - 1) <= x <= pixels(x1 + 1)
            &&& pixels(y0 - 1) <= y <= pixels(y1 + 1)
            &&& axis == Axis::X ==> {
                &&& ball.vx.value() != 0
                &&& ball.vx.value() > 0 ==> x <= pixels(x0 + 1)
                &&& ball.vx.value() < 0 ==> x >= pixels(x1 - 1)
            }
            &&& axis == Axis::Y ==> {
                &&& ball.vy.value() != 0
                &&& ball.vy.value() > 0 ==> y <= pixels(y0 + 1)
                &&& ball.vy.value() < 0 ==> y >= pixels(y1 - 1)
            }
        }),
{
    let zero = Single::zero_spec();
    let n = b[i].span as int;
    let c = col_of(i);
    let r = row_of(i);
    let t = entry(b, ball, i);
    let x0: nat = (40 + 13 * c - 7) as nat;
    let x1: nat = (40 + 13 * (c + n) + 7) as nat;
    let y0: nat = (70 + 13 * r - 7) as nat;
    let y1: nat = (70 + 13 * (r + n) + 7) as nat;
    assert(rect_spec(i, b[i].span) == (40 + 13 * c, 70 + 13 * r, 13 * n, 13 * n));
    lemma_zero(zero);
    lemma_pow2_pos(149);
    assert(t.finite());
    lemma_value_order(zero, t);
    lemma_whole(x0);
    lemma_whole(x1);
    lemma_whole(y0);
    lemma_whole(y1);
    lemma_not_nan(ball.x, ball.vx, x0, x1);
    lemma_not_nan(ball.y, ball.vy, y0, y1);
    if t.value() <= 512 * pow2(149) {
        lemma_span_holds(ball.x, ball.vx, x0, x1, t);
        lemma_span_holds(ball.y, ball.vy, y0, y1, t);
    }
}

/// Both ends of a span are times.
proof fn lemma_not_nan(pos: Single, vel: Single, lo: nat, hi: nat)
    requires
        pos.finite() && vel.finite(),
        lo < hi < 0x1000,
    ensures
        ({
            let (t0, t1) = axis_span_spec(
                pos,
                vel,
                Single::whole_spec(lo),
                Single::whole_spec(hi),
            );
            !t0.nan() && !t1.nan()
        }),
{
    let low = Single::whole_spec(lo);
    let high = Single::whole_spec(hi);
    let p = pow2(149);
    lemma_whole(lo);
    lemma_whole(hi);
    lemma_value_order(low, high);
    lemma_mul_inequality(lo as int, hi as int, p as int);
    a_span_is_an_interval(pos, vel, low, high);
}

/// Times that are taken for the same are less than an eight-thousandth of a second
/// apart.
proof fn lemma_close_times(a: Single, t: Single)
    requires
        t.finite(),
        t.value() >= 0,
        t.le_spec(a),
        same_time_spec(a, t),
    ensures
        a.finite(),
        t.value() <= a.value() <= t.value() + pow2(136),
{
    let s = Single::rounded(false, 1 * pow2(136), 1);
    let zero = Single::zero_spec();
    let d = a.minus_spec(t);
    lemma_exact(1, 136);
    lemma_pow2_adds(13, 136);
    lemma2_to64();
    lemma_pow2_pos(136);
    lemma_rounded_bounds(1 * pow2(149), 10_000, s);
    lemma_negated(t);
    lemma_zero(zero);
    assert(a.finite()) by {
        if !a.finite() {
            reveal(Single::plus_spec);
            assert(d == a);
        }
    }
    lemma_value_order(t, a);
    if a.value() > t.value() + pow2(136) {
        lemma_plus_exact(s, zero, s);
        lemma_plus_order(s, zero, a, t.negated_spec());
        lemma_value_order(s, s.plus_spec(zero));
        lemma_zero(s);
        lemma_value_order(Single::ratio_spec(1, 10_000), s);
    }
}

/// A wall is there when it is met: the wall, or in a corner both, for which the ball
/// heads, within a pixel of where its centre is by then, going straight on.
pub proof fn the_wall_that_is_met_is_there(
    b: Seq<Block>,
    ball: Ball,
    limit: Single,
    skip: Seq<usize>,
    fx: bool,
    fy: bool,
    t: Single,
)
    requires
        b.len() == CELLS,
        is_in_field(ball),
        next_impact_spec(b, ball, limit, skip) == Impact::Wall(fx, fy, t),
        t.finite(),
        t.value() <= 512 * pow2(149),
    ensures
        ({
            let x = at(ball.x, ball.vx, t.value());
            let y = at(ball.y, ball.vy, t.value());
            &&& 0 <= t.value()
            &&& fx || fy
            &&& fx ==> ball.vx.value() != 0
            &&& fx && ball.vx.value() < 0 ==> pixels(20) <= x <= pixels(22)
            &&& fx && ball.vx.value() > 0 ==> pixels(578) <= x <= pixels(580)
            &&& fy ==> ball.vy.value() < 0 && pixels(20) <= y <= pixels(22)
            &&& pixels(20) <= x <= pixels(580)
            &&& pixels(20) <= y
        }),
{
    let zero = Single::zero_spec();
    next_impact_is_the_soonest(b, ball, limit, skip);
    assert(wall_impact_spec(ball, limit) == Impact::Wall(fx, fy, t));
    lemma_zero(zero);
    lemma_value_order(zero, t);
    lemma_first_wall(ball, t);
    lemma_side_met(ball, t);
    lemma_top_met(ball, t);
}

/// Where a ball is across, when it meets a wall.
proof fn lemma_side_met(ball: Ball, t: Single)
    requires
        is_in_field(ball),
        t.finite(),
        t.value() >= 0,
        t.le_spec(side_time_spec(ball)),
    ensures
        ({
            let x = at(ball.x, ball.vx, t.value());
            let fx = same_time_spec(side_time_spec(ball), t);
            &&& fx ==> ball.vx.value() != 0
            &&& fx && ball.vx.value() < 0 ==> pixels(20) <= x <= pixels(22)
            &&& fx && ball.vx.value() > 0 ==> pixels(578) <= x <= pixels(580)
            &&& pixels(20) <= x <= pixels(580)
        }),
{
    let zero = Single::zero_spec();
    let fx = same_time_spec(side_time_spec(ball), t);
    lemma_zero(zero);
    lemma_pow2_pos(149);
    lemma_value_order(ball.vx, zero);
    lemma_value_order(zero, ball.vx);
    lemma_between_walls(ball, t.value());
    lemma_whole(21);
    lemma_whole(579);
    if ball.vx.value() < 0 {
        lemma_ahead(Single::whole_spec(21), ball.x, ball.vx);
        lemma_at_wall(ball.x, ball.vx, 21, t, fx);
    } else if ball.vx.value() > 0 {
        lemma_ahead(Single::whole_spec(579), ball.x, ball.vx);
        lemma_at_wall(ball.x, ball.vx, 579, t, fx);
    } else {
        lemma_no_time(t);
    }
}

/// Where a ball is up, when it meets a wall.
proof fn lemma_top_met(ball: Ball, t: Single)
    requires
        is_in_field(ball),
        t.finite(),
        t.value() >= 0,
        t.le_spec(top_time_spec(ball)),
    ensures
        ({
            let y = at(ball.y, ball.vy, t.value());
            let fy = same_time_spec(top_time_spec(ball), t);
            &&& fy ==> ball.vy.value() < 0 && pixels(20) <= y <= pixels(22)
            &&& pixels(20) <= y
        }),
{
    let zero = Single::zero_spec();
    lemma_zero(zero);
    lemma_pow2_pos(149);
    lemma_value_order(ball.vy, zero);
    lemma_between_walls(ball, t.value());
    if ball.vy.value() < 0 {
        lemma_at_wall(ball.y, ball.vy, 21, t, same_time_spec(top_time_spec(ball), t));
    } else {
        lemma_no_time(t);
    }
}

/// The first wall is the one that is met.
proof fn lemma_first_wall(ball: Ball, t: Single)
    requires
        is_in_field(ball),
        t == wall_time_spec(ball),
        t.finite(),
        t.value() >= 0,
    ensures
        t.le_spec(side_time_spec(ball)),
        t.le_spec(top_time_spec(ball)),
        same_time_spec(side_time_spec(ball), t) || same_time_spec(top_time_spec(ball), t),
{
    let zero = Single::zero_spec();
    lemma_zero(zero);
    lemma_whole(21);
    lemma_whole(579);
    lemma_value_order(ball.vx, zero);
    lemma_value_order(zero, ball.vx);
    lemma_value_order(ball.vy, zero);
    if ball.vx.value() < 0 {
        lemma_ahead(Single::whole_spec(21), ball.x, ball.vx);
    } else if ball.vx.value() > 0 {
        lemma_ahead(Single::whole_spec(579), ball.x, ball.vx);
    }
    if ball.vy.value() < 0 {
        lemma_ahead(Single::whole_spec(21), ball.y, ball.vy);
    }
    lemma_itself(t);
}

/// A time is the same as itself.
proof fn lemma_itself(t: Single)
    requires
        t.finite(),
    ensures
        same_time_spec(t, t),
{
    let d = t.minus_spec(t);
    let least = Single::rounded(false, 1 * pow2(89), 1);
    lemma_negated(t);
    assert(d.bits % 0x8000_0000 == 0) by {
        reveal(Single::plus_spec);
    }
    lemma_exact(1, 89);
    lemma_pow2_pos(89);
    lemma_zero(least);
    lemma_pow2_adds(60, 89);
    lemma2_to64_rest();
    assert(1 * pow2(149) >= least.size() * 10_000) by (nonlinear_arith)
        requires
            least.size() == 1 * pow2(89),
            pow2(149) == pow2(60) * pow2(89),
            pow2(60) >= 10_000,
    ;
    lemma_rounded_bounds(1 * pow2(149), 10_000, least);
}

/// No wall is met for ever on.
proof fn lemma_no_time(t: Single)
    requires
        t.finite(),
    ensures
        !same_time_spec(Single::infinity_spec(), t),
{
    let inf = Single::infinity_spec();
    lemma_negated(t);
    assert(inf.minus_spec(t) == inf) by {
        reveal(Single::plus_spec);
    }
    let one = Single::whole_spec(1);
    lemma_whole(1);
    lemma_rounded_bounds(1 * pow2(149), 10_000, one);
}

/// Where a ball is when it meets a wall.
proof fn lemma_at_wall(pos: Single, vel: Single, n: nat, t: Single, met: bool)
    requires
        pos.finite() && vel.finite() && t.finite(),
        n < 0x1000,
        0 <= pos.value() < 4096 * pow2(149),
        vel.value() != 0,
        vel.size() <= 4096 * pow2(149),
        t.value() >= 0,
        t.le_spec(Single::whole_spec(n).minus_spec(pos).over_spec(vel)),
        met ==> same_time_spec(Single::whole_spec(n).minus_spec(pos).over_spec(vel), t),
    ensures
        ({
            let x = at(pos, vel, t.value());
            &&& vel.value() < 0 ==> x >= pixels(n as int - 1)
            &&& vel.value() > 0 ==> x <= pixels(n as int + 1)
            &&& met ==> pixels(n as int - 1) <= x <= pixels(n as int + 1)
        }),
{
    let a = Single::whole_spec(n).minus_spec(pos).over_spec(vel);
    let p = pow2(149);
    let pp: int = (p * p) as int;
    lemma_gets(pos, vel, n, t);
    lemma_hairs();
    lemma_mul_is_distributive_sub_other_way(pp, n as int, 1);
    lemma_mul_is_distributive_add_other_way(pp, n as int, 1);
    lemma_mul_is_distributive_sub_other_way(pp, 2 * (n as int), 1);
    lemma_mul_is_distributive_add_other_way(pp, 2 * (n as int), 1);
    lemma_mul_is_associative(2, n as int, pp);
    if met {
        lemma_close_times(a, t);
        lemma_gets(pos, vel, n, a);
        lemma_value_order(a, a);
        let d = a.value() - t.value();
        // Less than half a pixel in that time.
        lemma_bounds(vel.value(), d, 4096 * p, pow2(136));
        lemma_pow2_adds(1, 136);
        lemma2_to64();
        assert((4096 * p) * pow2(136) == 2048 * (pow2(137) * p)) by (nonlinear_arith)
            requires
                pow2(137) == 2 * pow2(136),
        ;
        assert(vel.value() * d == vel.value() * a.value() - vel.value() * t.value()) by {
            lemma_mul_is_distributive_sub(vel.value(), a.value(), t.value());
        }
    }
}

/// A ball that heads away from a wall stays on its side of it.
proof fn lemma_between_walls(ball: Ball, t: int)
    requires
        is_in_field(ball),
        t >= 0,
    ensures
        ball.vx.value() >= 0 ==> at(ball.x, ball.vx, t) >= pixels(21),
        ball.vx.value() <= 0 ==> at(ball.x, ball.vx, t) <= pixels(579),
        ball.vy.value() >= 0 ==> at(ball.y, ball.vy, t) >= pixels(21),
        pixels(20) <= pixels(21),
        pixels(579) <= pixels(580),
{
    let p: int = pow2(149) as int;
    lemma_pow2_pos(149);
    lemma_mul_strictly_positive(p, p);
    lemma_mul_inequality(21 * p, ball.x.value(), p);
    lemma_mul_inequality(ball.x.value(), 579 * p, p);
    lemma_mul_inequality(21 * p, ball.y.value(), p);
    lemma_mul_is_associative(21, p, p);
    lemma_mul_is_associative(579, p, p);
    if ball.vx.value() >= 0 {
        lemma_mul_nonnegative(ball.vx.value(), t);
    }
    if ball.vx.value() <= 0 {
        lemma_mul_inequality(ball.vx.value(), 0, t);
        lemma_mul_basics(t);
    }
    if ball.vy.value() >= 0 {
        lemma_mul_nonnegative(ball.vy.value(), t);
    }
}

/// Where nothing is met, nothing is: up to the limit the ball's centre, going
/// straight on, is between the walls, but for a pixel.
pub proof fn a_free_way_stays_inside(
    b: Seq<Block>,
    ball: Ball,
    limit: Single,
    skip: Seq<usize>,
    t: Single,
)
    requires
        b.len() == CELLS,
        is_in_field(ball),
        next_impact_spec(b, ball, limit, skip) is Free,
        t.finite(),
        0 <= t.value() <= 512 * pow2(149),
        t.lt_spec(limit),
    ensures
        pixels(20) <= at(ball.x, ball.vx, t.value()) <= pixels(580),
        pixels(20) <= at(ball.y, ball.vy, t.value()),
{
    let zero = Single::zero_spec();
    next_impact_is_the_soonest(b, ball, limit, skip);
    lemma_zero(zero);
    lemma_whole(21);
    lemma_whole(579);
    lemma_value_order(ball.vx, zero);
    lemma_value_order(zero, ball.vx);
    lemma_value_order(ball.vy, zero);
    if ball.vx.value() < 0 {
        lemma_ahead(Single::whole_spec(21), ball.x, ball.vx);
    } else if ball.vx.value() > 0 {
        lemma_ahead(Single::whole_spec(579), ball.x, ball.vx);
    }
    if ball.vy.value() < 0 {
        lemma_ahead(Single::whole_spec(21), ball.y, ball.vy);
    }
    assert(!wall_time_spec(ball).lt_spec(limit));
    lemma_side_met(ball, t);
    lemma_top_met(ball, t);
}

} // verus!
