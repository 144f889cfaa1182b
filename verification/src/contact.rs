//! When the ball is in contact with the paddle, from where both are.
use crate::distance::{lemma_bounds, lemma_drop};
use crate::drops::lemma_side;
use crate::margin::{
    lemma_minus_off, lemma_over_off, lemma_plus_off, lemma_rounded_off, lemma_times_off, within,
};
use crate::motion::{
    meets_paddle_spec, min_angle_spec, off_centre_spec, paddle_return_spec, reach_spec,
    return_angle_spec, Ball,
};
use crate::single::{
    lemma_negated, lemma_size_order, lemma_value_order, lemma_whole, lemma_zero, Single,
};
use vstd::arithmetic::mul::*;
use vstd::arithmetic::power2::*;
use vstd::prelude::*;

verus! {

/// How far past the ends of the paddle a ball still touches it: the paddle is 45
/// each way, and a ball at 54 is off it. Rounding takes less than two thousandths
/// of a pixel.
pub proof fn lemma_reach(x: Single, c: Single)
    requires
        x.finite(),
        c.finite(),
        within(x.value() - c.value(), 0, 2000 * pow2(149)),
    ensures
        ({
            let t = pow2(149);
            let d = x.value() - c.value();
            let far = reach_spec().le_spec(off_centre_spec(x, c).abs_spec());
            &&& within(d, 0, (54 * t - pow2(140)) as nat) ==> !far
            &&& d >= 54 * t + pow2(140) || d <= -(54 * t + pow2(140)) ==> far
        }),
{
    let t = pow2(149);
    let off = off_centre_spec(x, c);
    let reach = reach_spec();
    lemma_steps();
    lemma_offset(x, c);
    lemma_rounded_off(12 * t, 10, 126);
    lemma_size_order(reach, off);
    lemma_size_of_abs(reach, off);
}

/// How far off the middle of the paddle a ball is, as a share of half its width.
proof fn lemma_offset(x: Single, c: Single)
    requires
        x.finite(),
        c.finite(),
        within(x.value() - c.value(), 0, 2000 * pow2(149)),
    ensures
        off_centre_spec(x, c).finite(),
        within(45 * off_centre_spec(x, c).value(), x.value() - c.value(), pow2(139)),
{
    let t = pow2(149);
    let d = x.minus_spec(c);
    let half = Single::whole_spec(45);
    let off = d.over_spec(half);
    lemma_whole(45);
    lemma_steps();
    lemma_minus_off(x, c, 137);
    assert(d.size() * t <= (0x100_0000 * pow2(132)) * (45 * t)) by {
        let most = 0x100_0000 * pow2(132);
        lemma_mul_inequality(d.size() as int, (45 * most) as int, t as int);
        assert((45 * most) * t == most * (45 * t)) by (nonlinear_arith);
    }
    lemma_over_off(d, half, 132);
    // The share of half the paddle, times 45.
    assert(within(45 * off.value(), d.value(), 45 * pow2(132))) by {
        assert(off.value() * (45 * t) == (45 * off.value()) * t) by (nonlinear_arith);
        assert(pow2(132) * (45 * t) == (45 * pow2(132)) * t) by (nonlinear_arith);
        lemma_drop(45 * off.value(), d.value(), (45 * pow2(132)) as int, t as int);
        lemma_drop(d.value(), 45 * off.value(), (45 * pow2(132)) as int, t as int);
    }
}

/// The order of sizes, the other way round.
proof fn lemma_size_of_abs(a: Single, b: Single)
    requires
        a.finite(),
        b.finite(),
        !a.neg(),
    ensures
        a.le_spec(b.abs_spec()) == (a.size() <= b.size()),
{
    lemma_zero(a);
    lemma_zero(b);
    lemma_negated(b);
    if b.neg() {
        assert(b.abs_spec() == b.negated_spec());
        lemma_value_order(a, b.negated_spec());
    } else {
        assert(b.abs_spec() == b);
        lemma_value_order(a, b);
    }
}

/// Powers of two that the reach is made of.
proof fn lemma_steps()
    ensures
        pow2(137) == 32 * pow2(132),
        pow2(139) == 128 * pow2(132),
        pow2(146) == 16_384 * pow2(132),
        pow2(140) == 256 * pow2(132),
        pow2(149) == 0x2_0000 * pow2(132),
        pow2(132) == 64 * pow2(126),
        pow2(126) > 0,
{
    lemma_pow2_adds(5, 132);
    lemma_pow2_adds(7, 132);
    lemma_pow2_adds(14, 132);
    lemma_pow2_adds(8, 132);
    lemma_pow2_adds(17, 132);
    lemma_pow2_adds(6, 126);
    lemma2_to64();
    lemma_pow2_pos(126);
}

/// A ball touches the paddle just when it falls, reaches down to the upper face of
/// the paddle, is not wholly below it, and is less than 54 off its middle: but for
/// what lies within two thousandths of a pixel of that.
pub proof fn the_paddle_is_met_where_it_is(ball: Ball, cig_x: Single)
    requires
        ball.x.finite() && ball.y.finite() && ball.vy.finite() && cig_x.finite(),
        within(ball.x.value() - cig_x.value(), 0, 2000 * pow2(149)),
        within(ball.y.value(), 0, 2000 * pow2(149)),
    ensures
        ({
            let t = pow2(149);
            let d = ball.x.value() - cig_x.value();
            let y = ball.y.value();
            let meets = meets_paddle_spec(ball, cig_x);
            &&& meets ==> {
                &&& ball.vy.value() > 0
                &&& y + 7 * t >= 760 * t - pow2(140)
                &&& y - 7 * t < 772 * t
                &&& within(d, 0, 54 * t + pow2(140))
            }
            &&& ball.vy.value() > 0 && y + 7 * t >= 760 * t && y - 7 * t <= 772 * t - pow2(140)
                && within(d, 0, (54 * t - pow2(140)) as nat) ==> meets
        }),
{
    let zero = Single::zero_spec();
    lemma_zero(zero);
    lemma_value_order(ball.vy, zero);
    lemma_reach(ball.x, cig_x);
    lemma_height(ball.y);
    lemma_steps();
}

/// Where the edges of a ball are, down.
proof fn lemma_height(y: Single)
    requires
        y.finite(),
        within(y.value(), 0, 2000 * pow2(149)),
    ensures
        ({
            let t = pow2(149);
            let r = Single::whole_spec(7);
            let above = y.plus_spec(r).lt_spec(Single::whole_spec(760));
            let below = Single::whole_spec(772).le_spec(y.minus_spec(r));
            &&& y.value() + 7 * t >= 760 * t ==> !above
            &&& y.value() + 7 * t < 760 * t - pow2(140) ==> above
            &&& y.value() - 7 * t <= 772 * t - pow2(140) ==> !below
            &&& y.value() - 7 * t >= 772 * t ==> below
        }),
{
    let r = Single::whole_spec(7);
    lemma_whole(7);
    lemma_whole(760);
    lemma_whole(772);
    lemma_steps();
    lemma_plus_off(y, r, 137);
    lemma_minus_off(y, r, 137);
    lemma_value_order(y.plus_spec(r), Single::whole_spec(760));
    lemma_value_order(Single::whole_spec(772), y.minus_spec(r));
    lemma_value_order(y.minus_spec(r), Single::whole_spec(772));
    lemma_negated(r);
    lemma_side(y, r, 772);
    lemma_side(y, r.negated_spec(), 760);
    assert(r.negated_spec().negated_spec() == r);
}

/// The paddle puts the ball on its upper face, where it landed across.
pub proof fn a_return_starts_on_the_face(ball: Ball, cig_x: Single)
    ensures
        paddle_return_spec(ball, cig_x).x == ball.x,
        paddle_return_spec(ball, cig_x).y == Single::whole_spec(753),
{
}

/// The paddle aims: between three pixels off its middle and its end, the angle at
/// which it returns a ball is 105 hundredths of the share of its half width that the
/// ball is off, on that side.
pub proof fn the_paddle_aims_by_where_it_is_hit(x: Single, cig_x: Single)
    requires
        x.finite(),
        cig_x.finite(),
        ({
            let t = pow2(149);
            let d = x.value() - cig_x.value();
            3 * t <= d <= 44 * t || -44 * t <= d <= -3 * t
        }),
    ensures
        ({
            let angle = return_angle_spec(off_centre_spec(x, cig_x));
            &&& angle.finite()
            &&& within(4500 * angle.value(), 105 * (x.value() - cig_x.value()), pow2(146))
        }),
{
    lemma_steps();
    lemma_offset(x, cig_x);
    lemma_angle(off_centre_spec(x, cig_x));
}

/// The angle of a share that is neither too small nor too large.
proof fn lemma_angle(off: Single)
    requires
        off.finite(),
        off.size() < pow2(149),
        100 * off.size() >= 6 * pow2(149),
    ensures
        return_angle_spec(off).finite(),
        within(100 * return_angle_spec(off).value(), 105 * off.value(), 200 * pow2(126)),
{
    let t = pow2(149);
    let one = Single::whole_spec(1);
    let top = Single::ratio_spec(105, 100);
    let least = min_angle_spec();
    let turn = off.times_spec(top);
    lemma_steps();
    lemma_whole(1);
    lemma_negated(one);
    lemma_value_order(off, one.negated_spec());
    lemma_value_order(one, off);
    assert(off.clamp_spec(one.negated_spec(), one) == off);
    lemma_rounded_off(105 * t, 100, 126);
    lemma_rounded_off(6 * t, 100, 126);
    assert(off.size() * top.size() <= (0x100_0000 * pow2(126)) * t) by {
        lemma_mul_upper_bound(off.size() as int, t as int, top.size() as int, (2 * t) as int);
        lemma_mul_is_commutative(t as int, (2 * t) as int);
    }
    lemma_times_off(off, top, 126);
    lemma_turn(off.value(), top.value(), turn.value(), t, pow2(126));
    assert(turn.size() >= least.size());
    lemma_size_of_abs(least, turn);
    assert(!turn.abs_spec().lt_spec(least));
}

/// A share, turned into an angle.
proof fn lemma_turn(off: int, top: int, turn: int, t: nat, g: nat)
    requires
        t > 0,
        within(off, 0, t),
        within(top * 100, (105 * t) as int, g * 100),
        within(turn * t, off * top, g * t),
    ensures
        within(100 * turn, 105 * off, 200 * g),
{
    let e = top * 100 - 105 * t;
    lemma_bounds(off, e, t, g * 100);
    assert(off * e == 100 * (off * top) - (105 * off) * t) by (nonlinear_arith)
        requires
            e == top * 100 - 105 * t,
    ;
    assert(t * (g * 100) == 100 * (g * t)) by (nonlinear_arith);
    assert((100 * turn) * t == 100 * (turn * t)) by (nonlinear_arith);
    assert((200 * g) * t == 200 * (g * t)) by (nonlinear_arith);
    lemma_drop(100 * turn, 105 * off, (200 * g) as int, t as int);
    lemma_drop(105 * off, 100 * turn, (200 * g) as int, t as int);
}

} // verus!
