//! How the ball moves: what it bounces off, and how.
use crate::angle::{cosine, cosine_spec, narrow, sine, sine_spec};
use crate::lung::{length, length_spec, Point};
use crate::single::{
    lemma_clamp_unit, lemma_exact, lemma_negated, lemma_over_number, lemma_over_order_wide,
    lemma_over_turned, lemma_plus_order, lemma_rounded_bounds, lemma_rounded_sign,
    lemma_times_bound, lemma_value_order, lemma_zero, Single,
};
use crate::{BALL_R, CIG_H, CIG_W, CIG_Y, WALL_L, WALL_R, WALL_TOP};
use vstd::arithmetic::power2::*;
use vstd::prelude::*;

verus! {

/// The ball: its centre, and the pixels it goes in a second each way.
#[derive(Clone, Copy, PartialEq, Eq, Structural, Debug)]
pub struct Ball {
    pub x: Single,
    pub y: Single,
    pub vx: Single,
    pub vy: Single,
}

/// Which axis a struck face lies on: the ball's velocity reverses on it.
#[derive(Clone, Copy, PartialEq, Eq, Structural, Debug)]
pub enum Axis {
    X,
    Y,
}

/// What the ball reaches first, and when.
#[derive(Clone, Copy, PartialEq, Eq, Structural, Debug)]
pub enum Impact {
    /// A block, the time, and the axis of the struck face.
    Block(usize, Single, Axis),
    /// A wall: which components of the velocity reverse, and the time.
    Wall(bool, bool, Single),
    /// Nothing in the time that was asked about.
    Free,
}

impl Ball {
    /// Where the ball is.
    pub open spec fn point_spec(self) -> Point {
        Point { x: self.x, y: self.y }
    }

    /// Where the ball is.
    pub fn point(self) -> (p: Point)
        ensures
            p == self.point_spec(),
    {
        Point { x: self.x, y: self.y }
    }

    /// The ball a time on, with nothing in its way.
    pub open spec fn moved_spec(self, t: Single) -> Ball {
        Ball {
            x: self.x.plus_spec(self.vx.times_spec(t)),
            y: self.y.plus_spec(self.vy.times_spec(t)),
            ..self
        }
    }

    /// The ball a time on, with nothing in its way.
    pub fn moved(self, t: Single) -> (b: Ball)
        ensures
            b == self.moved_spec(t),
    {
        Ball {
            x: self.x.plus(self.vx.times(t)),
            y: self.y.plus(self.vy.times(t)),
            vx: self.vx,
            vy: self.vy,
        }
    }

    /// The ball with components of its velocity reversed.
    pub open spec fn turned_spec(self, flip_x: bool, flip_y: bool) -> Ball {
        Ball {
            vx: if flip_x {
                self.vx.negated_spec()
            } else {
                self.vx
            },
            vy: if flip_y {
                self.vy.negated_spec()
            } else {
                self.vy
            },
            ..self
        }
    }

    /// The ball with components of its velocity reversed.
    pub fn turned(self, flip_x: bool, flip_y: bool) -> (b: Ball)
        ensures
            b == self.turned_spec(flip_x, flip_y),
    {
        Ball {
            x: self.x,
            y: self.y,
            vx: if flip_x {
                self.vx.negated()
            } else {
                self.vx
            },
            vy: if flip_y {
                self.vy.negated()
            } else {
                self.vy
            },
        }
    }

    /// The ball reflected off a face.
    pub open spec fn reflected_spec(self, axis: Axis) -> Ball {
        match axis {
            Axis::X => self.turned_spec(true, false),
            Axis::Y => self.turned_spec(false, true),
        }
    }
}

/// Reflect a ball off the face that the sweep says it crossed.
///
/// Both the live ball and the drawn path are reflected here, on an axis that
/// both have from `next_impact`. The ball is on the surface already, so there
/// is no penetration to undo.
pub fn bounce_off_block(ball: &mut Ball, axis: Axis)
    ensures
        *final(ball) == old(ball).reflected_spec(axis),
{
    *ball = match axis {
        Axis::X => ball.turned(true, false),
        Axis::Y => ball.turned(false, true),
    };
}

/// How far off the paddle's middle `x` is, as a share of half its width.
pub open spec fn off_centre_spec(x: Single, cig_x: Single) -> Single {
    x.minus_spec(cig_x).over_spec(Single::whole_spec((CIG_W / 2) as nat))
}

/// How far off the paddle's middle `x` is, as a share of half its width.
pub fn off_centre(x: Single, cig_x: Single) -> (r: Single)
    ensures
        r == off_centre_spec(x, cig_x),
{
    x.minus(cig_x).over(Single::whole(CIG_W / 2))
}

/// An offset this large is a miss: the paddle reaches a little past its ends.
pub open spec fn reach_spec() -> Single {
    Single::ratio_spec(12, 10)
}

/// The ball is on its way down and in contact with the paddle. A ball exactly
/// on the top face is in contact.
pub open spec fn meets_paddle_spec(ball: Ball, cig_x: Single) -> bool {
    &&& !ball.vy.le_spec(Single::zero_spec())
    &&& !ball.y.plus_spec(Single::whole_spec(BALL_R as nat)).lt_spec(
        Single::whole_spec(CIG_Y as nat),
    )
    &&& !Single::whole_spec((CIG_Y + CIG_H) as nat).le_spec(
        ball.y.minus_spec(Single::whole_spec(BALL_R as nat)),
    )
    &&& !reach_spec().le_spec(off_centre_spec(ball.x, cig_x).abs_spec())
}

/// The least angle off the vertical at which a ball is returned. A vertical
/// ball would bounce in one column for ever.
pub open spec fn min_angle_spec() -> Single {
    Single::ratio_spec(6, 100)
}

/// The angle off the vertical at which a ball is returned: it scales with how
/// far off centre the ball lands, so that the paddle aims, and never is less
/// than the least.
pub open spec fn return_angle_spec(off: Single) -> Single {
    let angle = off.clamp_spec(Single::whole_spec(1).negated_spec(), Single::whole_spec(1))
        .times_spec(Single::ratio_spec(105, 100));
    if angle.abs_spec().lt_spec(min_angle_spec()) {
        min_angle_spec().with_sign_spec(
            if angle.eq_spec(Single::zero_spec()) {
                Single::whole_spec(1)
            } else {
                angle
            },
        )
    } else {
        angle
    }
}

/// The ball as the paddle returns it: on the top face, as fast as it came, at
/// the angle that its offset gives.
pub open spec fn paddle_return_spec(ball: Ball, cig_x: Single) -> Ball {
    let angle = return_angle_spec(off_centre_spec(ball.x, cig_x));
    let speed = length_spec(ball.vx, ball.vy);
    Ball {
        x: ball.x,
        y: Single::whole_spec((CIG_Y - BALL_R) as nat),
        vx: speed.times_spec(sine_spec(angle)),
        vy: speed.negated_spec().times_spec(cosine_spec(angle)),
    }
}

/// The angle of a return is one whose sine is taken, and it is off the
/// vertical by the least angle or more.
pub proof fn return_angle_is_never_vertical(off: Single)
    ensures
        narrow(return_angle_spec(off)),
        !off.nan() ==> !return_angle_spec(off).nan(),
        !off.nan() ==> min_angle_spec().le_spec(return_angle_spec(off).abs_spec()),
{
    let one = Single::whole_spec(1);
    let top = Single::ratio_spec(105, 100);
    let least = min_angle_spec();
    let wide = Single::rounded(false, 5 * pow2(147), 1);
    lemma_angles();
    let c = off.clamp_spec(one.negated_spec(), one);
    let angle = c.times_spec(top);
    if off.nan() {
        assert(c == off);
        assert(angle == Single::nan_spec()) by {
            reveal(Single::times_spec);
        }
    } else {
        lemma_clamp_unit(off);
        assert(c.size() * top.size() <= wide.size() * pow2(149)) by (nonlinear_arith)
            requires
                0 <= c.size() <= pow2(149),
                0 <= top.size() <= wide.size(),
        ;
        lemma_times_bound(c, top, wide);
        lemma_sign(least, one);
        lemma_sign(least, angle);
    }
}

/// The angles that are named are numbers of at most five quarters.
proof fn lemma_angles()
    ensures
        ({
            let wide = Single::rounded(false, 5 * pow2(147), 1);
            let top = Single::ratio_spec(105, 100);
            let least = min_angle_spec();
            &&& wide.finite() && wide.size() == 5 * pow2(147)
            &&& top.finite() && top.size() <= wide.size()
            &&& least.finite() && !least.neg() && least.size() <= wide.size()
        }),
{
    let wide = Single::rounded(false, 5 * pow2(147), 1);
    lemma_exact(5, 147);
    assert(pow2(149) == 4 * pow2(147)) by {
        lemma_pow2_adds(2, 147);
        lemma2_to64();
    }
    lemma_rounded_bounds(105 * pow2(149), 100, wide);
    lemma_rounded_bounds(6 * pow2(149), 100, wide);
}

/// A sign does not change the size.
proof fn lemma_sign(a: Single, s: Single)
    requires
        a.finite(),
        !a.neg(),
    ensures
        a.with_sign_spec(s).finite(),
        a.with_sign_spec(s).size() == a.size(),
        a.with_sign_spec(s).abs_spec() == a,
{
}

/// Deflect a ball off the paddle, if it is in contact with one at `cig_x`.
/// Returns whether it bounced.
pub fn bounce_off_paddle(ball: &mut Ball, cig_x: Single) -> (bounced: bool)
    ensures
        bounced == meets_paddle_spec(*old(ball), cig_x),
        bounced ==> *final(ball) == paddle_return_spec(*old(ball), cig_x),
        !bounced ==> *final(ball) == *old(ball),
{
    let r: Single = Single::whole(BALL_R);
    if ball.vy.le(Single::zero()) || ball.y.plus(r).lt(Single::whole(CIG_Y)) || Single::whole(
        CIG_Y + CIG_H,
    ).le(ball.y.minus(r)) {
        return false;
    }
    let off: Single = off_centre(ball.x, cig_x);
    if Single::ratio(12, 10).le(off.abs()) {
        return false;
    }
    let speed: Single = length(ball.vx, ball.vy);
    let one: Single = Single::whole(1);
    let least: Single = Single::ratio(6, 100);
    let mut angle: Single = off.clamp(one.negated(), one).times(Single::ratio(105, 100));
    if angle.abs().lt(least) {
        angle = least.with_sign(
            if angle.is_zero() {
                one
            } else {
                angle
            },
        );
    }
    proof {
        return_angle_is_never_vertical(off);
    }
    *ball = Ball {
        x: ball.x,
        y: Single::whole(CIG_Y - BALL_R),
        vx: speed.times(sine(angle)),
        vy: speed.negated().times(cosine(angle)),
    };
    true
}

/// A speed under this counts as none.
pub open spec fn still_spec() -> Single {
    Single::ratio_spec(1, 1_000_000)
}

/// The times between which `pos + vel * t` lies in `[lo, hi]`. Without a
/// velocity that is always or never.
pub open spec fn axis_span_spec(pos: Single, vel: Single, lo: Single, hi: Single) -> (
    Single,
    Single,
) {
    let inf = Single::infinity_spec();
    if vel.abs_spec().lt_spec(still_spec()) {
        if lo.le_spec(pos) && pos.le_spec(hi) {
            (inf.negated_spec(), inf)
        } else {
            (inf, inf.negated_spec())
        }
    } else {
        let a = lo.minus_spec(pos).over_spec(vel);
        let b = hi.minus_spec(pos).over_spec(vel);
        (a.min_spec(b), a.max_spec(b))
    }
}

/// The times between which `pos + vel * t` lies in `[lo, hi]`.
pub fn axis_span(pos: Single, vel: Single, lo: Single, hi: Single) -> (r: (Single, Single))
    ensures
        r == axis_span_spec(pos, vel, lo, hi),
{
    if vel.abs().lt(Single::ratio(1, 1_000_000)) {
        let inf: Single = Single::infinity();
        return if lo.le(pos) && pos.le(hi) {
            (inf.negated(), inf)
        } else {
            (inf, inf.negated())
        };
    }
    let a: Single = lo.minus(pos).over(vel);
    let b: Single = hi.minus(pos).over(vel);
    (a.min(b), a.max(b))
}

/// The speed under which a ball stands still is over zero.
pub proof fn lemma_still_is_something()
    ensures
        still_spec().bits % 0x8000_0000 > 0,
        !still_spec().nan(),
        !still_spec().neg(),
{
    let least = Single::rounded(false, 1 * pow2(89), 1);
    lemma_exact(1, 89);
    lemma_pow2_pos(89);
    lemma_zero(least);
    lemma_pow2_adds(60, 89);
    lemma2_to64_rest();
    assert(1 * pow2(149) >= least.size() * 1_000_000) by (nonlinear_arith)
        requires
            least.size() == 1 * pow2(89),
            pow2(149) == pow2(60) * pow2(89),
            pow2(60) >= 1_000_000,
    ;
    lemma_rounded_bounds(1 * pow2(149), 1_000_000, least);
}

/// The times between which a place lies in a range are an interval, whose first
/// end is the time to the end of the range that is met first. A place in the
/// range is there now. What does not move is there always or never.
pub proof fn a_span_is_an_interval(pos: Single, vel: Single, lo: Single, hi: Single)
    requires
        pos.finite(),
        vel.finite(),
        lo.finite(),
        hi.finite(),
        lo.le_spec(hi),
    ensures
        ({
            let (t0, t1) = axis_span_spec(pos, vel, lo, hi);
            let a = lo.minus_spec(pos).over_spec(vel);
            let b = hi.minus_spec(pos).over_spec(vel);
            let zero = Single::zero_spec();
            let within = lo.le_spec(pos) && pos.le_spec(hi);
            &&& if vel.abs_spec().lt_spec(still_spec()) {
                t0.le_spec(t1) == within
            } else {
                &&& t0.le_spec(t1)
                &&& vel.neg() ==> t0.key() == b.key() && t1.key() == a.key()
                &&& !vel.neg() ==> t0.key() == a.key() && t1.key() == b.key()
            }
            &&& within ==> t0.le_spec(zero) && zero.le_spec(t1)
        }),
{
    if !vel.abs_spec().lt_spec(still_spec()) {
        let zero = Single::zero_spec();
        let x = lo.minus_spec(pos);
        let y = hi.minus_spec(pos);
        let none = pos.minus_spec(pos);
        lemma_still_is_something();
        lemma_zero(vel);
        lemma_negated(vel);
        lemma_negated(pos);
        lemma_value_order(lo, hi);
        lemma_value_order(lo, pos);
        lemma_value_order(pos, hi);
        lemma_plus_order(lo, pos.negated_spec(), hi, pos.negated_spec());
        lemma_over_number(x, vel);
        lemma_over_number(y, vel);
        assert(none.key() == 0) by {
            reveal(Single::plus_spec);
            lemma_zero(zero);
        }
        if vel.neg() {
            let v = vel.negated_spec();
            lemma_over_order_wide(x, y, v);
            lemma_over_turned(x, vel);
            lemma_over_turned(y, vel);
        } else {
            lemma_over_order_wide(x, y, vel);
        }
        if lo.le_spec(pos) && pos.le_spec(hi) {
            lemma_plus_order(lo, pos.negated_spec(), pos, pos.negated_spec());
            lemma_plus_order(pos, pos.negated_spec(), hi, pos.negated_spec());
            let v = if vel.neg() {
                vel.negated_spec()
            } else {
                vel
            };
            lemma_over_order_wide(x, none, v);
            lemma_over_order_wide(none, y, v);
            lemma_over_number(none, v);
            assert(none.over_spec(v).key() == 0) by {
                reveal(Single::over_spec);
                lemma_zero(none);
                lemma_rounded_sign(none.size() * pow2(149), v.size());
            }
        }
    }
}

/// The time at which the ball meets the nearer side wall, for ever on when it
/// goes straight up or down.
pub open spec fn side_time_spec(ball: Ball) -> Single {
    let inf = Single::infinity_spec();
    let zero = Single::zero_spec();
    let left = if ball.vx.lt_spec(zero) {
        Single::whole_spec(WALL_L as nat).minus_spec(ball.x).over_spec(ball.vx)
    } else {
        inf
    };
    let right = if zero.lt_spec(ball.vx) {
        Single::whole_spec(WALL_R as nat).minus_spec(ball.x).over_spec(ball.vx)
    } else {
        inf
    };
    left.min_spec(right)
}

/// The time at which the ball meets the apex, for ever on when it does not
/// rise.
pub open spec fn top_time_spec(ball: Ball) -> Single {
    if ball.vy.lt_spec(Single::zero_spec()) {
        Single::whole_spec(WALL_TOP as nat).minus_spec(ball.y).over_spec(ball.vy)
    } else {
        Single::infinity_spec()
    }
}

/// Two times this close are the same time: a ball in a corner meets both walls.
pub open spec fn same_time_spec(a: Single, b: Single) -> bool {
    a.minus_spec(b).abs_spec().lt_spec(Single::ratio_spec(1, 10_000))
}

/// The time at which the ball meets a wall.
pub open spec fn wall_time_spec(ball: Ball) -> Single {
    side_time_spec(ball).min_spec(top_time_spec(ball))
}

/// The wall that the ball meets within `limit`, if any. Time zero counts: a
/// ball on the wall that moves into it is reflected.
pub open spec fn wall_impact_spec(ball: Ball, limit: Single) -> Impact {
    let t = wall_time_spec(ball);
    if Single::zero_spec().le_spec(t) && t.lt_spec(limit) {
        Impact::Wall(
            same_time_spec(side_time_spec(ball), t),
            same_time_spec(top_time_spec(ball), t),
            t,
        )
    } else {
        Impact::Free
    }
}

/// The wall that the ball meets within `limit`, if any.
pub fn wall_impact(ball: &Ball, limit: Single) -> (hit: Impact)
    ensures
        hit == wall_impact_spec(*ball, limit),
{
    let inf: Single = Single::infinity();
    let zero: Single = Single::zero();
    let left: Single = if ball.vx.lt(zero) {
        Single::whole(WALL_L).minus(ball.x).over(ball.vx)
    } else {
        inf
    };
    let right: Single = if zero.lt(ball.vx) {
        Single::whole(WALL_R).minus(ball.x).over(ball.vx)
    } else {
        inf
    };
    let top: Single = if ball.vy.lt(zero) {
        Single::whole(WALL_TOP).minus(ball.y).over(ball.vy)
    } else {
        inf
    };
    let side: Single = left.min(right);
    let t: Single = side.min(top);
    if zero.le(t) && t.lt(limit) {
        let close: Single = Single::ratio(1, 10_000);
        Impact::Wall(side.minus(t).abs().lt(close), top.minus(t).abs().lt(close), t)
    } else {
        Impact::Free
    }
}

} // verus!
