//! The x-ray: where the ball will go.
//!
//! The trace jumps from impact to impact by the same rule as the live ball, so
//! the two cannot drift apart. The blocks that it would break are listed, so
//! that the rest of the path goes through where they were.
use crate::board::Block;
use crate::impact::{next_impact, next_impact_spec};
use crate::lung::Point;
use crate::motion::{
    bounce_off_block, bounce_off_paddle, meets_paddle_spec, off_centre, off_centre_spec,
    paddle_return_spec, reach_spec, Axis, Ball, Impact,
};
use crate::single::Single;
use crate::{BALL_R, CELLS, CIG_Y, H};
use vstd::prelude::*;

verus! {

/// Impacts that a trace goes through.
pub const MAX_BOUNCES: u32 = 160;

/// A trace on its way: the ball, the corners of the path so far, the blocks
/// broken, and whether the paddle has returned the ball.
#[verifier::ext_equal]
pub struct Trace {
    pub ball: Ball,
    pub path: Seq<Point>,
    pub broken: Seq<usize>,
    pub returned: bool,
}

/// The time at which the ball is below the floor, for ever on when it does not
/// fall.
pub open spec fn floor_time_spec(ball: Ball) -> Single {
    if Single::zero_spec().lt_spec(ball.vy) {
        Single::whole_spec((H + BALL_R) as nat).minus_spec(ball.y).over_spec(ball.vy)
    } else {
        Single::infinity_spec()
    }
}

/// The time at which the ball comes down on the face of the paddle; for ever on
/// where it does not come down on it. A ball that will miss the paddle is traced
/// to the floor.
pub open spec fn paddle_time_spec(ball: Ball, cig_x: Single) -> Single {
    let face = Single::whole_spec((CIG_Y - BALL_R) as nat);
    let t = face.minus_spec(ball.y).over_spec(ball.vy);
    if Single::zero_spec().lt_spec(ball.vy) && ball.y.lt_spec(face) && off_centre_spec(
        ball.x.plus_spec(ball.vx.times_spec(t)),
        cig_x,
    ).abs_spec().lt_spec(reach_spec()) {
        t
    } else {
        Single::infinity_spec()
    }
}

/// How far ahead the trace looks: to the floor, or to the paddle if that has
/// not returned the ball yet.
pub open spec fn horizon_spec(ball: Ball, cig_x: Single, returned: bool) -> Single {
    floor_time_spec(ball).min_spec(
        if returned {
            Single::infinity_spec()
        } else {
            paddle_time_spec(ball, cig_x)
        },
    )
}

impl Trace {
    /// The trace that starts with a ball.
    pub open spec fn start(ball: Ball) -> Trace {
        Trace { ball, path: seq![ball.point_spec()], broken: Seq::empty(), returned: false }
    }

    /// The trace from where the ball is, with no corner yet.
    pub open spec fn bare(ball: Ball) -> Trace {
        Trace { ball, path: Seq::empty(), broken: Seq::empty(), returned: false }
    }

    /// The trace at the next wall. The apex ends the leg after the paddle; a
    /// side wall only deflects it.
    pub open spec fn off_wall(self, fx: bool, fy: bool, t: Single) -> (Trace, bool) {
        let ball = self.ball.moved_spec(t);
        let path = self.path.push(ball.point_spec());
        if self.returned && fy {
            (Trace { ball, path, ..self }, false)
        } else {
            (Trace { ball: ball.turned_spec(fx, fy), path, ..self }, true)
        }
    }

    /// The trace a time on. A step of no length adds no corner.
    pub open spec fn advanced(self, t: Single) -> Trace {
        let ball = self.ball.moved_spec(t);
        Trace {
            ball,
            path: if Single::zero_spec().lt_spec(t) {
                self.path.push(ball.point_spec())
            } else {
                self.path
            },
            ..self
        }
    }

    /// The trace has come below the field.
    pub open spec fn is_out(self) -> bool {
        Single::whole_spec(H as nat).le_spec(self.ball.y)
    }

    /// The trace at a block it has come to. After the paddle the first block
    /// ends it: that is where the shot goes.
    pub open spec fn through_block(self, i: usize, axis: Axis, pierces: bool) -> (Trace, bool) {
        if self.is_out() || self.returned {
            (self, false)
        } else {
            (
                Trace {
                    ball: if pierces {
                        self.ball
                    } else {
                        self.ball.reflected_spec(axis)
                    },
                    broken: self.broken.push(i),
                    ..self
                },
                true,
            )
        }
    }

    /// The trace at the end of what it looked at: the paddle returns it once,
    /// and otherwise it ends.
    pub open spec fn at_horizon(self, cig_x: Single) -> (Trace, bool) {
        if self.is_out() || self.returned || !meets_paddle_spec(self.ball, cig_x) {
            (self, false)
        } else {
            (Trace { ball: paddle_return_spec(self.ball, cig_x), returned: true, ..self }, true)
        }
    }

    /// The trace one impact on, and whether it goes on from there.
    pub open spec fn step(self, b: Seq<Block>, cig_x: Single, pierces: bool) -> (Trace, bool) {
        let limit = horizon_spec(self.ball, cig_x, self.returned);
        match next_impact_spec(b, self.ball, limit, self.broken) {
            Impact::Wall(fx, fy, t) => self.off_wall(fx, fy, t),
            Impact::Block(i, t, axis) => if t.finite() {
                self.advanced(t).through_block(i, axis, pierces)
            } else {
                (self, false)
            },
            Impact::Free => if limit.finite() {
                self.advanced(limit).at_horizon(cig_x)
            } else {
                (self, false)
            },
        }
    }

    /// The trace at its end, or after `n` impacts.
    pub open spec fn run(self, b: Seq<Block>, cig_x: Single, pierces: bool, n: nat) -> Trace
        decreases n,
    {
        if n == 0 {
            self
        } else {
            let (next, on) = self.step(b, cig_x, pierces);
            if on {
                next.run(b, cig_x, pierces, (n - 1) as nat)
            } else {
                next
            }
        }
    }
}

/// How far ahead the trace looks.
fn horizon(ball: Ball, cig_x: Single, returned: bool) -> (r: Single)
    ensures
        r == horizon_spec(ball, cig_x, returned),
{
    let inf: Single = Single::infinity();
    let falls: bool = Single::zero().lt(ball.vy);
    let floor: Single = if falls {
        Single::whole(H + BALL_R).minus(ball.y).over(ball.vy)
    } else {
        inf
    };
    let face: Single = Single::whole(CIG_Y - BALL_R);
    let paddle: Single = if !returned && falls && ball.y.lt(face) {
        let t: Single = face.minus(ball.y).over(ball.vy);
        if off_centre(ball.x.plus(ball.vx.times(t)), cig_x).abs().lt(Single::ratio(12, 10)) {
            t
        } else {
            inf
        }
    } else {
        inf
    };
    floor.min(paddle)
}

/// Trace where the ball will go, as a polyline from its position down to the
/// floor, or past the paddle to the first thing that it is returned to.
pub fn predict(
    b: &Vec<Block>,
    start: Ball,
    cig_x: Single,
    pierces: bool,
    path: &mut Vec<Point>,
    broken: &mut Vec<usize>,
)
    requires
        b.len() == CELLS,
    ensures
        final(path)@ == Trace::start(start).run(b@, cig_x, pierces, MAX_BOUNCES as nat).path,
        final(broken)@ == Trace::start(start).run(b@, cig_x, pierces, MAX_BOUNCES as nat).broken,
{
    path.clear();
    broken.clear();
    path.push(start.point());
    let mut ball: Ball = start;
    let mut returned: bool = false;
    let mut left: u32 = MAX_BOUNCES;
    let ghost end = Trace::start(start).run(b@, cig_x, pierces, MAX_BOUNCES as nat);
    assert(path@ =~= Trace::start(start).path);
    let zero: Single = Single::zero();
    let floor: Single = Single::whole(H);
    while left > 0
        invariant_except_break
            left <= MAX_BOUNCES,
            b.len() == CELLS,
            zero == Single::zero_spec(),
            floor == Single::whole_spec(H as nat),
            end == (Trace { ball, path: path@, broken: broken@, returned }).run(
                b@,
                cig_x,
                pierces,
                left as nat,
            ),
        ensures
            path@ == end.path,
            broken@ == end.broken,
        decreases left,
    {
        let limit: Single = horizon(ball, cig_x, returned);
        let hit: Impact = next_impact(b, &ball, limit, broken.as_slice());
        left = left - 1;
        match hit {
            Impact::Wall(fx, fy, t) => {
                ball = ball.moved(t);
                path.push(ball.point());
                if returned && fy {
                    break ;
                }
                ball = ball.turned(fx, fy);
            },
            Impact::Block(i, t, axis) => {
                if !t.is_finite() {
                    break ;
                }
                ball = ball.moved(t);
                if zero.lt(t) {
                    path.push(ball.point());
                }
                if floor.le(ball.y) || returned {
                    break ;
                }
                broken.push(i);
                if !pierces {
                    bounce_off_block(&mut ball, axis);
                }
            },
            Impact::Free => {
                if !limit.is_finite() {
                    break ;
                }
                ball = ball.moved(limit);
                if zero.lt(limit) {
                    path.push(ball.point());
                }
                if floor.le(ball.y) || returned || !bounce_off_paddle(&mut ball, cig_x) {
                    break ;
                }
                returned = true;
            },
        }
    }
}

} // verus!
