//! The whole point of the x-ray: the path that is drawn is where the ball goes.
use crate::board::Block;
use crate::contact::lemma_reach;
use crate::history::lemma_off;
use crate::impact::{
    impact_time, in_the_way, is_struck_once, lemma_same_push, lemma_struck_next,
    looking_further_finds_the_same_impact, next_impact_is_the_soonest, next_impact_spec,
    only_what_is_in_the_way_matters, same_way,
};
use crate::laws::a_ball_strikes_live_blocks_once;
use crate::lung::Point;
use crate::margin::within;
use crate::motion::{
    meets_paddle_spec, off_centre_spec, paddle_return_spec, reach_spec, Axis, Ball, Impact,
};
use crate::pleura::{lemma_arrive, lemma_halves};
use crate::single::{
    lemma_negated, lemma_plus_exact, lemma_plus_order, lemma_rounded_bounds, lemma_rounded_sign,
    lemma_value_order, lemma_whole, lemma_zero, Single,
};
use crate::speed::{is_moving, lemma_return_rises};
use crate::trace::{horizon_spec, Trace, MAX_BOUNCES};
use crate::walls::{lemma_ahead, lemma_struck_frame};
use crate::world::{
    bumped, dropped, is_caught, longest_tick, spent, swept, Flight, World, MOST_IMPACTS,
};
use crate::CELLS;
use vstd::arithmetic::mul::*;
use vstd::arithmetic::power2::*;
use vstd::prelude::*;
use vstd::seq_lib::lemma_seq_contains_after_push;

verus! {

/// A ball that goes on for a time from where a trace is meets neither the paddle
/// nor the floor, impact after impact: the player has no say in where it goes.
pub open spec fn clear_ahead(
    b: Seq<Block>,
    cig_x: Single,
    pierces: bool,
    t: Trace,
    left: Single,
    n: nat,
) -> bool
    decreases n,
{
    let hit = next_impact_spec(b, t.ball, left, t.broken);
    let time = impact_time(hit, left);
    n == 0 || left.le_spec(Single::zero_spec()) || {
        &&& left.finite()
        &&& left.le_spec(horizon_spec(t.ball, cig_x, false))
        &&& hit is Block ==> !t.advanced(time).is_out()
        &&& hit !is Free ==> clear_ahead(
            b,
            cig_x,
            pierces,
            t.step(b, cig_x, pierces).0,
            left.minus_spec(time),
            (n - 1) as nat,
        )
    }
}

/// The ball is where a trace is, or part of the way along the leg that starts
/// there, and has broken what the trace has.
pub open spec fn follows(b: Seq<Block>, f: Flight, e: Trace) -> bool {
    &&& f.hits == e.broken
    &&& f.ball == e.ball || {
        &&& f.ball == e.ball.moved_spec(f.left)
        &&& next_impact_spec(b, e.ball, f.left, e.broken) is Free
    }
}

/// The trace and the ball take the same step.
proof fn lemma_step(b: Seq<Block>, cig_x: Single, pierces: bool, t: Trace, left: Single)
    requires
        b.len() == CELLS,
        !t.returned,
        !left.le_spec(Single::zero_spec()),
        left.finite(),
        left.le_spec(horizon_spec(t.ball, cig_x, false)),
        next_impact_spec(b, t.ball, left, t.broken) !is Free,
        next_impact_spec(b, t.ball, left, t.broken) is Block ==> !t.advanced(
            impact_time(next_impact_spec(b, t.ball, left, t.broken), left),
        ).is_out(),
    ensures
        ({
            let hit = next_impact_spec(b, t.ball, left, t.broken);
            let time = impact_time(hit, left);
            let (next, on) = t.step(b, cig_x, pierces);
            &&& on
            &&& !next.returned
            &&& hit matches Impact::Wall(fx, fy, _) ==> next.ball == t.ball.moved_spec(
                time,
            ).turned_spec(fx, fy) && next.broken == t.broken
            &&& hit matches Impact::Block(i, _, axis) ==> next.broken == t.broken.push(i)
                && next.ball == if pierces {
                t.ball.moved_spec(time)
            } else {
                t.ball.moved_spec(time).reflected_spec(axis)
            }
        }),
{
    let far = horizon_spec(t.ball, cig_x, false);
    looking_further_finds_the_same_impact(b, t.ball, left, far, t.broken);
    next_impact_is_the_soonest(b, t.ball, left, t.broken);
}

/// From the same place, a ball that the player has no say in goes where the
/// trace goes: off the same walls and through the same blocks, in the same
/// order, to the last bit.
pub proof fn the_ball_follows_the_trace(
    b: Seq<Block>,
    cig_x: Single,
    pierces: bool,
    t: Trace,
    left: Single,
    n: nat,
) -> (k: nat)
    requires
        b.len() == CELLS,
        !t.returned,
        clear_ahead(b, cig_x, pierces, t, left, n),
    ensures
        k <= n,
        goes_on(b, cig_x, pierces, t, k),
        !t.run(b, cig_x, pierces, k).returned,
        follows(
            b,
            swept(b, pierces, Flight { ball: t.ball, left, hits: t.broken }, n),
            t.run(b, cig_x, pierces, k),
        ),
    decreases n,
{
    let f = Flight { ball: t.ball, left, hits: t.broken };
    if n == 0 || left.le_spec(Single::zero_spec()) {
        0
    } else {
        let hit = next_impact_spec(b, t.ball, left, t.broken);
        let rest = left.minus_spec(impact_time(hit, left));
        match hit {
            Impact::Free => 0,
            _ => {
                lemma_step(b, cig_x, pierces, t, left);
                let next = t.step(b, cig_x, pierces).0;
                let m: nat = (n - 1) as nat;
                let k = the_ball_follows_the_trace(b, cig_x, pierces, next, rest, m);
                assert(swept(b, pierces, f, n) == swept(
                    b,
                    pierces,
                    Flight { ball: next.ball, left: rest, hits: next.broken },
                    m,
                ));
                k + 1
            },
        }
    }
}

/// A trace goes on for so many impacts.
pub open spec fn goes_on(b: Seq<Block>, cig_x: Single, pierces: bool, t: Trace, n: nat) -> bool
    decreases n,
{
    n == 0 || {
        let (next, on) = t.step(b, cig_x, pierces);
        on && goes_on(b, cig_x, pierces, next, (n - 1) as nat)
    }
}

/// A trace can be taken in two parts.
proof fn lemma_parted(b: Seq<Block>, cig_x: Single, pierces: bool, t: Trace, k: nat, n: nat)
    requires
        goes_on(b, cig_x, pierces, t, k),
    ensures
        t.run(b, cig_x, pierces, k + n) == t.run(b, cig_x, pierces, k).run(b, cig_x, pierces, n),
    decreases k,
{
    if k > 0 {
        lemma_parted(b, cig_x, pierces, t.step(b, cig_x, pierces).0, (k - 1) as nat, n);
    }
}

/// The same trace with corners and broken blocks before its own.
pub open spec fn behind(t: Trace, path: Seq<Point>, broken: Seq<usize>) -> Trace {
    Trace { path: path + t.path, broken: broken + t.broken, ..t }
}

/// A trace does not turn on the corners before it, and a block that was broken
/// before it counts as a dead one.
pub proof fn only_what_is_ahead_matters(
    b: Seq<Block>,
    c: Seq<Block>,
    cig_x: Single,
    pierces: bool,
    t: Trace,
    path: Seq<Point>,
    broken: Seq<usize>,
    n: nat,
)
    requires
        b.len() == CELLS,
        same_way(b, broken + t.broken, c, t.broken),
    ensures
        behind(t, path, broken).run(b, cig_x, pierces, n) == behind(
            t.run(c, cig_x, pierces, n),
            path,
            broken,
        ),
    decreases n,
{
    if n > 0 {
        let limit = horizon_spec(t.ball, cig_x, t.returned);
        let s = broken + t.broken;
        let hit = next_impact_spec(c, t.ball, limit, t.broken);
        only_what_is_in_the_way_matters(b, s, c, t.broken, t.ball, limit);
        let (next, on) = t.step(c, cig_x, pierces);
        if let Impact::Block(i, time, _) = hit {
            lemma_same_push(b, s, c, t.broken, i);
            assert(s.push(i) =~= broken + t.broken.push(i));
        }
        let corner = next.ball.point_spec();
        assert((path + t.path).push(corner) =~= path + t.path.push(corner));
        let far = t.ball.moved_spec(impact_time(hit, limit)).point_spec();
        assert((path + t.path).push(far) =~= path + t.path.push(far));
        assert(behind(t, path, broken).step(b, cig_x, pierces) == (
            behind(next, path, broken),
            on,
        ));
        if on {
            only_what_is_ahead_matters(
                b,
                c,
                cig_x,
                pierces,
                next,
                path,
                broken,
                (n - 1) as nat,
            );
        }
    }
}

/// On boards with the same blocks in the way, a ball goes the same way.
proof fn lemma_same_swept(b: Seq<Block>, c: Seq<Block>, pierces: bool, f: Flight, n: nat)
    requires
        b.len() == CELLS,
        same_way(b, f.hits, c, f.hits),
    ensures
        swept(b, pierces, f, n) == swept(c, pierces, f, n),
    decreases n,
{
    if !(n == 0 || f.left.le_spec(Single::zero_spec())) {
        only_what_is_in_the_way_matters(b, f.hits, c, f.hits, f.ball, f.left);
        match next_impact_spec(b, f.ball, f.left, f.hits) {
            Impact::Wall(fx, fy, t) => lemma_same_swept(
                b,
                c,
                pierces,
                Flight {
                    ball: f.ball.moved_spec(t).turned_spec(fx, fy),
                    left: f.left.minus_spec(t),
                    hits: f.hits,
                },
                (n - 1) as nat,
            ),
            Impact::Block(i, t, axis) => {
                lemma_same_push(b, f.hits, c, f.hits, i);
                lemma_same_swept(
                    b,
                    c,
                    pierces,
                    Flight {
                        ball: if pierces {
                            f.ball.moved_spec(t)
                        } else {
                            f.ball.moved_spec(t).reflected_spec(axis)
                        },
                        left: f.left.minus_spec(t),
                        hits: f.hits.push(i),
                    },
                    (n - 1) as nat,
                );
            },
            Impact::Free => {},
        }
    }
}

/// One path is the first part of another.
pub open spec fn starts(a: Seq<Point>, b: Seq<Point>) -> bool {
    a.len() <= b.len() && forall|i: int| 0 <= i < a.len() ==> #[trigger] b[i] == a[i]
}

/// A trace that goes on only adds to its path.
pub proof fn a_path_only_grows(
    b: Seq<Block>,
    cig_x: Single,
    pierces: bool,
    t: Trace,
    k: nat,
    n: nat,
)
    requires
        k <= n,
    ensures
        starts(t.path, t.run(b, cig_x, pierces, k).path),
        starts(t.run(b, cig_x, pierces, k).path, t.run(b, cig_x, pierces, n).path),
    decreases n,
{
    if n > 0 {
        let (next, on) = t.step(b, cig_x, pierces);
        assert(starts(t.path, next.path));
        if on {
            if k > 0 {
                a_path_only_grows(b, cig_x, pierces, next, (k - 1) as nat, (n - 1) as nat);
            } else {
                a_path_only_grows(b, cig_x, pierces, next, 0, (n - 1) as nat);
            }
        }
    }
}

/// The drawn path is where the ball goes: until the paddle or the floor has a
/// say, the ball ends a tick at a corner of the trace, or part of the way along
/// the leg that starts there, having broken just the blocks that the trace had
/// broken by then; and the path up to that corner is the first part of the one
/// that is drawn.
pub proof fn the_drawn_path_is_where_the_ball_goes(w: World, dt: Single) -> (k: nat)
    requires
        w.wf(),
        clear_ahead(
            w.blocks,
            w.cig_x,
            w.pierce > 0,
            Trace::start(w.ball),
            dt,
            MOST_IMPACTS as nat,
        ),
    ensures
        follows(
            w.blocks,
            w.flight(dt),
            Trace::start(w.ball).run(w.blocks, w.cig_x, w.pierce > 0, k),
        ),
        starts(
            Trace::start(w.ball).run(w.blocks, w.cig_x, w.pierce > 0, k).path,
            w.predicted().path,
        ),
{
    reveal(World::flight);
    reveal(World::predicted);
    let t = Trace::start(w.ball);
    let k = the_ball_follows_the_trace(
        w.blocks,
        w.cig_x,
        w.pierce > 0,
        t,
        dt,
        MOST_IMPACTS as nat,
    );
    a_path_only_grows(w.blocks, w.cig_x, w.pierce > 0, t, k, MAX_BOUNCES as nat);
    k
}

/// What the hits of a tick leave in the way: all but the blocks that were hit.
proof fn lemma_struck_way(w: World, hits: Seq<usize>, n: nat)
    requires
        w.blocks.len() == CELLS,
        n <= hits.len(),
        forall|k: int| 0 <= k < hits.len() ==> #[trigger] hits[k] < CELLS,
    ensures
        same_way(w.blocks, hits.take(n as int), w.struck_all(hits, n).blocks, Seq::empty()),
        w.struck_all(hits, n).pierce == w.pierce,
        w.struck_all(hits, n).radiologist == w.radiologist,
        w.struck_all(hits, n).caught_seq == w.caught_seq,
        w.struck_all(hits, n).hits == w.hits,
    decreases n,
{
    if n == 0 {
        assert(hits.take(0) =~= Seq::<usize>::empty());
    } else {
        let m: nat = (n - 1) as nat;
        let before = w.struck_all(hits, m);
        let end = w.struck_all(hits, n);
        let s = hits.take(n as int);
        let i = hits[m as int];
        lemma_struck_way(w, hits, m);
        assert(s =~= hits.take(m as int).push(i));
        assert(end.blocks == before.ignited(i as int, Single::zero_spec()).blocks && end.pierce
            == before.pierce && end.radiologist == before.radiologist && end.caught_seq
            == before.caught_seq && end.hits == before.hits) by {
            reveal(World::struck);
        }
        assert forall|j: int| 0 <= j < CELLS implies {
            &&& #[trigger] in_the_way(w.blocks, s, j) == in_the_way(end.blocks, Seq::empty(), j)
            &&& in_the_way(w.blocks, s, j) ==> w.blocks[j].span == end.blocks[j].span
        } by {
            lemma_seq_contains_after_push(hits.take(m as int), i, j as usize);
            assert(in_the_way(w.blocks, hits.take(m as int), j) == in_the_way(
                before.blocks,
                Seq::empty(),
                j,
            ));
        }
    }
}

/// In a tick of a game that is on, nothing falls on the paddle.
pub open spec fn is_uncaught(w: World, d: Single) -> bool {
    &&& !w.lost && !w.won
    &&& w.pickup matches Some(p) ==> !is_caught(dropped(p, d), w.cig_x)
}

/// Nor does the paddle return the ball.
pub open spec fn is_plain(w: World, d: Single) -> bool {
    is_uncaught(w, d) && !meets_paddle_spec(w.flight(d).ball, w.cig_x)
}

/// What a tick leaves in which nothing is caught: the ball where its way ends, or as
/// the paddle returns it, and on the board all but the blocks that it hit.
pub proof fn lemma_uncaught(w: World, dt: Single)
    requires
        w.wf(),
        is_uncaught(w, dt.min_spec(longest_tick())),
    ensures
        ({
            let f = w.flight(dt.min_spec(longest_tick()));
            let v = w.ticked(dt);
            let back = meets_paddle_spec(f.ball, w.cig_x);
            &&& v.ball == if back {
                paddle_return_spec(f.ball, w.cig_x)
            } else {
                f.ball
            }
            &&& v.pierce == if back {
                spent(w.pierce)
            } else {
                w.pierce
            }
            &&& v.radiologist == if back {
                spent(w.radiologist)
            } else {
                w.radiologist
            }
            &&& v.bounces == if back {
                bumped(w.bounces)
            } else {
                w.bounces
            }
            &&& v.hits == f.hits
            &&& v.cig_x == w.cig_x
            &&& v.caught_seq == w.caught_seq
            &&& v.blocks.len() == CELLS
            &&& same_way(w.blocks, f.hits, v.blocks, Seq::empty())
        }),
{
    let d = dt.min_spec(longest_tick());
    let c = w.cooled(d);
    assert(c == (World { blocks: c.blocks, ..w }) && c.blocks.len() == CELLS) by {
        reveal(World::cooled);
    }
    assert forall|i: int| 0 <= i < CELLS implies #[trigger] c.blocks[i].alive == w.blocks[i].alive
        && c.blocks[i].span == w.blocks[i].span by {
        reveal(World::cooled);
    }
    let a = World { elapsed: c.elapsed.plus_spec(d), ..c }.fallen(d);
    assert(a.blocks == c.blocks && a.ball == w.ball && a.cig_x == w.cig_x && a.pierce == w.pierce
        && a.radiologist == w.radiologist && a.bounces == w.bounces && a.caught_seq
        == w.caught_seq) by {
        reveal(World::fallen);
    }
    let f = w.flight(d);
    assert(a.flight(d) == f) by {
        reveal(World::flight);
        let start = Flight { ball: w.ball, left: d, hits: Seq::<usize>::empty() };
        lemma_same_swept(w.blocks, c.blocks, w.pierce > 0, start, MOST_IMPACTS as nat);
    }
    a_ball_strikes_live_blocks_once(w, d);
    reveal(World::played);
    let h = World { hits: f.hits, ..a };
    let r = if meets_paddle_spec(f.ball, w.cig_x) {
        h.returned()
    } else {
        h
    };
    assert(r.blocks == h.blocks && r.hits == h.hits && r.cig_x == h.cig_x && r.caught_seq
        == h.caught_seq) by {
        reveal(World::returned);
    }
    assert(meets_paddle_spec(f.ball, w.cig_x) ==> r.pierce == spent(w.pierce) && r.radiologist
        == spent(w.radiologist) && r.bounces == bumped(w.bounces)) by {
        reveal(World::returned);
    }
    lemma_struck_frame(r, f.hits, f.hits.len());
    lemma_struck_way(r, f.hits, f.hits.len());
    assert(f.hits.take(f.hits.len() as int) =~= f.hits);
    let v = w.ticked(dt);
    assert forall|i: int| 0 <= i < CELLS implies {
        &&& #[trigger] in_the_way(w.blocks, f.hits, i) == in_the_way(v.blocks, Seq::empty(), i)
        &&& in_the_way(w.blocks, f.hits, i) ==> w.blocks[i].span == v.blocks[i].span
    } by {
        assert(c.blocks[i].alive == w.blocks[i].alive);
        assert(in_the_way(c.blocks, f.hits, i) == in_the_way(v.blocks, Seq::empty(), i));
    }
}

/// What a plain tick leaves: the ball where its way ends, and on the board all
/// but the blocks that it hit.
proof fn lemma_plain(w: World, dt: Single)
    requires
        w.wf(),
        is_plain(w, dt.min_spec(longest_tick())),
    ensures
        ({
            let f = w.flight(dt.min_spec(longest_tick()));
            let v = w.ticked(dt);
            &&& v.ball == f.ball
            &&& v.cig_x == w.cig_x
            &&& v.pierce == w.pierce
            &&& same_way(w.blocks, f.hits, v.blocks, Seq::empty())
        }),
{
    lemma_uncaught(w, dt);
}

/// From tick to tick: where a plain tick ends at a corner of the trace, what is
/// predicted next is the rest of what was predicted before it, and as much more
/// as the trace that starts later goes on for. The blocks that the ball broke on
/// its way to the corner count in the old prediction as they do in the new one,
/// where they are dead.
pub proof fn the_next_prediction_is_the_rest_of_the_old(w: World, dt: Single) -> (k: nat)
    requires
        w.wf(),
        is_plain(w, dt.min_spec(longest_tick())),
        clear_ahead(
            w.blocks,
            w.cig_x,
            w.pierce > 0,
            Trace::start(w.ball),
            dt.min_spec(longest_tick()),
            MOST_IMPACTS as nat,
        ),
    ensures
        ({
            let d = dt.min_spec(longest_tick());
            let v = w.ticked(dt);
            let pierces = w.pierce > 0;
            let most = MAX_BOUNCES as nat;
            let corner = Trace::start(w.ball).run(w.blocks, w.cig_x, pierces, k);
            let old_end = Trace::start(w.ball).run(w.blocks, w.cig_x, pierces, k + most);
            let rest = Trace::bare(v.ball).run(v.blocks, w.cig_x, pierces, most);
            &&& v.ball == w.flight(d).ball
            &&& follows(w.blocks, w.flight(d), corner)
            &&& v.ball == corner.ball ==> {
                &&& v.predicted().path == seq![v.ball.point_spec()] + rest.path
                &&& v.predicted().broken == rest.broken
                &&& old_end.path == corner.path + rest.path
                &&& old_end.broken == corner.broken + rest.broken
                &&& starts(w.predicted().path, old_end.path)
            }
        }),
{
    let d = dt.min_spec(longest_tick());
    let v = w.ticked(dt);
    let pierces = w.pierce > 0;
    let most = MAX_BOUNCES as nat;
    let t = Trace::start(w.ball);
    lemma_plain(w, dt);
    reveal(World::flight);
    reveal(World::predicted);
    let k = the_ball_follows_the_trace(w.blocks, w.cig_x, pierces, t, d, MOST_IMPACTS as nat);
    let corner = t.run(w.blocks, w.cig_x, pierces, k);
    lemma_parted(w.blocks, w.cig_x, pierces, t, k, most);
    a_path_only_grows(w.blocks, w.cig_x, pierces, t, most, k + most);
    if v.ball == corner.ball {
        let bare = Trace::bare(v.ball);
        let none = Seq::<usize>::empty();
        let here = seq![v.ball.point_spec()];
        assert(corner.broken + bare.broken =~= corner.broken);
        assert(corner.path + bare.path =~= corner.path);
        assert(behind(bare, corner.path, corner.broken) == corner);
        only_what_is_ahead_matters(
            w.blocks,
            v.blocks,
            w.cig_x,
            pierces,
            bare,
            corner.path,
            corner.broken,
            most,
        );
        assert(none + bare.broken =~= none);
        assert(here + bare.path =~= here);
        assert(behind(bare, here, none) == Trace::start(v.ball));
        only_what_is_ahead_matters(
            v.blocks,
            v.blocks,
            w.cig_x,
            pierces,
            bare,
            here,
            none,
            most,
        );
        let rest = bare.run(v.blocks, w.cig_x, pierces, most);
        assert(none + rest.broken =~= rest.broken);
    }
    k
}

/// A path goes up, or stays as high, from corner to corner, from some corner on.
pub open spec fn only_rises(path: Seq<Point>, from: int) -> bool {
    forall|i: int|
        #![trigger path[i + 1]]
        from <= i && i + 1 < path.len() ==> path[i + 1].y.le_spec(path[i].y)
}

/// A trace that the paddle has returned, and that goes up.
pub open spec fn is_sent_back(t: Trace) -> bool {
    &&& t.returned
    &&& t.ball.vy.finite() && t.ball.vy.value() < 0
    &&& t.ball.y.lt_spec(Single::infinity_spec())
}

/// One that is no lower than its last corner.
spec fn is_rising(t: Trace) -> bool {
    &&& is_sent_back(t)
    &&& t.path.len() > 0
    &&& t.ball.y.le_spec(t.path.last().y)
}

/// A ball that goes up is not lower after a time.
proof fn lemma_not_lower(y: Single, v: Single, t: Single)
    requires
        y.lt_spec(Single::infinity_spec()),
        v.finite(),
        v.value() < 0,
        Single::zero_spec().le_spec(t),
    ensures
        y.plus_spec(v.times_spec(t)).le_spec(y),
{
    let zero = Single::zero_spec();
    let m = v.times_spec(t);
    lemma_zero(zero);
    lemma_zero(v);
    if t.finite() {
        let n = v.size() * t.size();
        let r = Single::rounded(false, n, pow2(149));
        lemma_zero(t);
        lemma_value_order(zero, t);
        lemma_pow2_pos(149);
        lemma_rounded_bounds(n, pow2(149), zero);
        lemma_rounded_sign(n, pow2(149));
        lemma_mul_basics(v.size() as int);
        lemma_mul_basics(pow2(149) as int);
        assert(m == r.negated_spec() || t.size() == 0) by {
            reveal(Single::times_spec);
        }
        if t.size() == 0 {
            assert(n == 0);
            lemma_negated(r);
            assert(m.finite() && m.value() == 0) by {
                reveal(Single::times_spec);
            }
        } else if r.finite() {
            lemma_negated(r);
        }
    } else {
        assert(m.bits == 0xff80_0000) by {
            reveal(Single::times_spec);
        }
    }
    if m.finite() && y.finite() {
        lemma_plus_exact(y, zero, y);
        lemma_value_order(y.plus_spec(zero), y);
        lemma_plus_order(y, m, y, zero);
    } else {
        reveal(Single::plus_spec);
    }
}

/// One step of a rising trace: it adds one corner at most, no lower than the last,
/// and rises on, or ends.
proof fn lemma_rising_step(b: Seq<Block>, cig_x: Single, pierces: bool, t: Trace)
    requires
        b.len() == CELLS,
        is_sent_back(t),
    ensures
        ({
            let (next, on) = t.step(b, cig_x, pierces);
            &&& next.broken == t.broken
            &&& next.path == t.path || {
                &&& next.path.len() == t.path.len() + 1
                &&& next.path.drop_last() == t.path
                &&& next.path.last().y.le_spec(t.ball.y)
            }
            &&& on ==> is_rising(next)
        }),
{
    let limit = horizon_spec(t.ball, cig_x, true);
    let zero = Single::zero_spec();
    let hit = next_impact_spec(b, t.ball, limit, t.broken);
    next_impact_is_the_soonest(b, t.ball, limit, t.broken);
    lemma_zero(zero);
    lemma_value_order(zero, t.ball.vy);
    assert(limit == Single::infinity_spec());
    let next = t.step(b, cig_x, pierces).0;
    match hit {
        Impact::Wall(_, _, time) => {
            lemma_not_lower(t.ball.y, t.ball.vy, time);
            assert(next.path.drop_last() =~= t.path);
        },
        Impact::Block(_, time, _) => {
            if time.finite() {
                lemma_not_lower(t.ball.y, t.ball.vy, time);
                if zero.lt_spec(time) {
                    assert(next.path.drop_last() =~= t.path);
                }
            }
        },
        Impact::Free => {},
    }
}

/// A rising trace goes up from corner to corner.
proof fn lemma_rising(b: Seq<Block>, cig_x: Single, pierces: bool, t: Trace, n: nat)
    requires
        b.len() == CELLS,
        is_rising(t),
    ensures
        only_rises(t.run(b, cig_x, pierces, n).path, t.path.len() - 1),
        starts(t.path, t.run(b, cig_x, pierces, n).path),
        t.run(b, cig_x, pierces, n).broken == t.broken,
    decreases n,
{
    if n > 0 {
        let (next, on) = t.step(b, cig_x, pierces);
        lemma_rising_step(b, cig_x, pierces, t);
        if next.path != t.path {
            assert forall|i: int| 0 <= i < t.path.len() implies #[trigger] next.path[i] == t.path[i]
                by {
                assert(next.path.drop_last()[i] == next.path[i]);
            }
        }
        if on {
            lemma_rising(b, cig_x, pierces, next, (n - 1) as nat);
        }
    }
}

/// The way back from the paddle ends at the first block or at the apex: it goes up
/// from corner to corner, the first of them no lower than the ball started back,
/// and never comes down again. It breaks nothing.
pub proof fn the_return_leg_only_rises(
    b: Seq<Block>,
    cig_x: Single,
    pierces: bool,
    t: Trace,
    n: nat,
)
    requires
        b.len() == CELLS,
        is_sent_back(t),
    ensures
        ({
            let end = t.run(b, cig_x, pierces, n);
            &&& only_rises(end.path, t.path.len() as int)
            &&& starts(t.path, end.path)
            &&& end.path.len() > t.path.len() ==> end.path[t.path.len() as int].y.le_spec(
                t.ball.y,
            )
            &&& end.broken == t.broken
        }),
{
    if n > 0 {
        let (next, on) = t.step(b, cig_x, pierces);
        lemma_rising_step(b, cig_x, pierces, t);
        if next.path != t.path {
            assert forall|i: int| 0 <= i < t.path.len() implies #[trigger] next.path[i] == t.path[i]
                by {
                assert(next.path.drop_last()[i] == next.path[i]);
            }
        }
        if on {
            lemma_rising(b, cig_x, pierces, next, (n - 1) as nat);
        }
    }
}

/// The path that is drawn comes back from the paddle once at most: after the
/// corner at which the paddle has sent it back, it only rises.
pub proof fn a_drawn_path_comes_back_once(w: World, k: nat)
    requires
        w.wf(),
        k <= MAX_BOUNCES,
        goes_on(w.blocks, w.cig_x, w.pierce > 0, Trace::start(w.ball), k),
        is_sent_back(Trace::start(w.ball).run(w.blocks, w.cig_x, w.pierce > 0, k)),
    ensures
        ({
            let e = Trace::start(w.ball).run(w.blocks, w.cig_x, w.pierce > 0, k);
            &&& starts(e.path, w.predicted().path)
            &&& only_rises(w.predicted().path, e.path.len() as int)
            &&& w.predicted().broken == e.broken
        }),
{
    reveal(World::predicted);
    let t = Trace::start(w.ball);
    let m: nat = (MAX_BOUNCES - k) as nat;
    lemma_parted(w.blocks, w.cig_x, w.pierce > 0, t, k, m);
    the_return_leg_only_rises(
        w.blocks,
        w.cig_x,
        w.pierce > 0,
        t.run(w.blocks, w.cig_x, w.pierce > 0, k),
        m,
    );
}

/// A trace that reaches the paddle is sent back just as the ball would be: where
/// nothing else comes first, and the ball touches the paddle there, the trace goes
/// on from there as the ball does, and with some speed it goes up. No other step
/// of a trace counts as a return.
pub proof fn the_trace_is_returned_as_the_ball_is(
    b: Seq<Block>,
    cig_x: Single,
    pierces: bool,
    t: Trace,
)
    requires
        b.len() == CELLS,
        !t.returned,
    ensures
        ({
            let limit = horizon_spec(t.ball, cig_x, false);
            let at = t.ball.moved_spec(limit);
            let (next, on) = t.step(b, cig_x, pierces);
            let back = next_impact_spec(b, t.ball, limit, t.broken) is Free && limit.finite()
                && !Single::whole_spec(800).le_spec(at.y) && meets_paddle_spec(at, cig_x);
            &&& back <==> next.returned
            &&& back ==> on && next.ball == paddle_return_spec(at, cig_x) && next.broken == t.broken
            &&& back && Single::zero_spec().lt_spec(limit) ==> next.path == t.path.push(
                at.point_spec(),
            )
            &&& back && at.x.finite() && cig_x.finite() && is_moving(at) ==> is_sent_back(next)
        }),
{
    let limit = horizon_spec(t.ball, cig_x, false);
    let at = t.ball.moved_spec(limit);
    if at.x.finite() && cig_x.finite() && is_moving(at) {
        lemma_goes_up(at, cig_x);
    }
}

/// A ball that the paddle returns goes up from its face.
#[verifier::rlimit(30)]
proof fn lemma_goes_up(ball: Ball, cig_x: Single)
    requires
        ball.x.finite(),
        cig_x.finite(),
        is_moving(ball),
    ensures
        ({
            let back = paddle_return_spec(ball, cig_x);
            &&& back.vy.finite() && back.vy.value() < 0
            &&& back.y.lt_spec(Single::infinity_spec())
        }),
{
    let zero = Single::zero_spec();
    let vy = paddle_return_spec(ball, cig_x).vy;
    lemma_whole(753);
    lemma_zero(zero);
    lemma_off(ball.x, cig_x);
    lemma_return_rises(ball, cig_x);
    lemma_value_order(vy, zero);
}

/// A ball is in the field or not far off it, and not too fast.
pub open spec fn is_about(ball: Ball) -> bool {
    &&& ball.y.finite() && ball.vy.finite()
    &&& 16 * pow2(149) <= ball.y.value() <= 807 * pow2(149)
    &&& ball.vy.size() <= 4096 * pow2(149)
}

/// A trace that nothing turns ends a leg at the floor, or where the ball touches
/// the face of the paddle: within half a pixel of the height at which the whole
/// ball is below the field, or of that at which it lies on the face. Where the
/// paddle does not reach it, that is the floor.
pub proof fn a_trace_comes_down_to_the_paddle_or_the_floor(
    b: Seq<Block>,
    cig_x: Single,
    pierces: bool,
    t: Trace,
)
    requires
        b.len() == CELLS,
        !t.returned,
        is_about(t.ball),
        next_impact_spec(b, t.ball, horizon_spec(t.ball, cig_x, false), t.broken) is Free,
    ensures
        ({
            let limit = horizon_spec(t.ball, cig_x, false);
            let y = t.ball.moved_spec(limit).y;
            let floor = 1613 * pow2(148) <= y.value() <= 1615 * pow2(148);
            let face = 1505 * pow2(148) <= y.value() <= 1507 * pow2(148);
            &&& t.ball.vy.value() > 0 && limit.finite() ==> y.finite() && (floor || face)
            &&& t.ball.vy.value() > 0 && limit.finite() && !face ==> !t.step(
                b,
                cig_x,
                pierces,
            ).1
            &&& t.ball.vy.value() <= 0 ==> !limit.finite() && !t.step(b, cig_x, pierces).1
            &&& t.ball.vy.value() > 0 && t.ball.y.value() >= 753 * pow2(149) && limit.finite()
                ==> floor
        }),
{
    let limit = horizon_spec(t.ball, cig_x, false);
    let zero = Single::zero_spec();
    let face = Single::whole_spec(753);
    lemma_zero(zero);
    lemma_whole(753);
    lemma_whole(807);
    lemma_whole(800);
    lemma_halves();
    lemma_value_order(zero, t.ball.vy);
    lemma_value_order(t.ball.y, face);
    if t.ball.vy.value() > 0 && limit.finite() {
        let down = Single::whole_spec(807).minus_spec(t.ball.y).over_spec(t.ball.vy);
        let hit = face.minus_spec(t.ball.y).over_spec(t.ball.vy);
        let y = t.ball.moved_spec(limit).y;
        lemma_ahead(Single::whole_spec(807), t.ball.y, t.ball.vy);
        if t.ball.y.value() < 753 * pow2(149) {
            lemma_ahead(face, t.ball.y, t.ball.vy);
        }
        assert(limit == down || (limit == hit && t.ball.y.value() < 753 * pow2(149)));
        if limit == down {
            lemma_value_order(zero, limit);
            lemma_arrive(t.ball.y, t.ball.vy, 807, limit);
            lemma_value_order(Single::whole_spec(800), y);
        } else {
            lemma_value_order(zero, limit);
            lemma_arrive(t.ball.y, t.ball.vy, 753, limit);
        }
    }
}

/// A trace leaves a corner wherever it meets something after some time, or a wall at
/// any: where the ball is by then, going straight on. A block that it meets before it
/// was returned is broken, unless that is below the field; after that, none is. The
/// ball goes on from the corner, reversed as the ball in play is.
pub proof fn a_trace_leaves_a_corner_at_every_turn(
    b: Seq<Block>,
    cig_x: Single,
    pierces: bool,
    t: Trace,
)
    ensures
        ({
            let (next, on) = t.step(b, cig_x, pierces);
            let limit = horizon_spec(t.ball, cig_x, t.returned);
            let hit = next_impact_spec(b, t.ball, limit, t.broken);
            let time = impact_time(hit, limit);
            let at = t.ball.moved_spec(time);
            let there = Single::whole_spec(800).le_spec(at.y);
            let long = time.finite() && Single::zero_spec().lt_spec(time);
            &&& hit is Wall || long ==> next.path == t.path.push(at.point_spec())
            &&& !(hit is Wall || long) ==> next.path == t.path
            &&& hit matches Impact::Wall(fx, fy, _) ==> {
                &&& on <==> !(t.returned && fy)
                &&& on ==> next.ball == at.turned_spec(fx, fy)
                &&& next.broken == t.broken
            }
            &&& hit matches Impact::Block(i, _, axis) ==> {
                &&& on <==> time.finite() && !there && !t.returned
                &&& on ==> next.broken == t.broken.push(i)
                &&& on && pierces ==> next.ball == at
                &&& on && !pierces && axis == Axis::X ==> next.ball == at.turned_spec(true, false)
                &&& on && !pierces && axis == Axis::Y ==> next.ball == at.turned_spec(false, true)
            }
            &&& !on ==> next.broken == t.broken
        }),
{
}

/// A trace that falls stops at the paddle just when it comes down on it: where the
/// ball is less than 54 off the middle of the paddle at the time at which it lies on
/// the face, it goes no farther than that, and where it is more, it goes on to the
/// floor; but for two thousandths of a pixel.
pub proof fn a_trace_stops_at_the_paddle_when_it_reaches_it(ball: Ball, cig_x: Single)
    requires
        is_about(ball),
        ball.vy.value() > 0,
        cig_x.finite(),
        ({
            let x = ball.moved_spec(
                Single::whole_spec(753).minus_spec(ball.y).over_spec(ball.vy),
            ).x;
            x.finite() && within(x.value() - cig_x.value(), 0, 2000 * pow2(149))
        }),
    ensures
        ({
            let face = Single::whole_spec(753).minus_spec(ball.y).over_spec(ball.vy);
            let floor = Single::whole_spec(807).minus_spec(ball.y).over_spec(ball.vy);
            let d = ball.moved_spec(face).x.value() - cig_x.value();
            let t = pow2(149);
            let limit = horizon_spec(ball, cig_x, false);
            &&& ball.y.value() < 753 * t && within(d, 0, (54 * t - pow2(140)) as nat)
                ==> limit.le_spec(face)
            &&& ball.y.value() >= 753 * t ==> limit == floor
            &&& d >= 54 * t + pow2(140) || d <= -(54 * t + pow2(140)) ==> limit == floor
            &&& horizon_spec(ball, cig_x, true) == floor
        }),
{
    let zero = Single::zero_spec();
    let face = Single::whole_spec(753).minus_spec(ball.y).over_spec(ball.vy);
    lemma_zero(zero);
    lemma_whole(753);
    lemma_whole(807);
    lemma_value_order(zero, ball.vy);
    lemma_value_order(ball.y, Single::whole_spec(753));
    lemma_ahead(Single::whole_spec(807), ball.y, ball.vy);
    if ball.y.value() < 753 * pow2(149) {
        lemma_ahead(Single::whole_spec(753), ball.y, ball.vy);
    }
    let x = ball.moved_spec(face).x;
    let off = off_centre_spec(x, cig_x);
    lemma_reach(x, cig_x);
    lemma_off(x, cig_x);
    assert(!reach_spec().nan()) by {
        lemma_whole(2);
        lemma_rounded_bounds(12 * pow2(149), 10, Single::whole_spec(2));
    }
}

/// A step of a trace adds one corner at most, and breaks one live block at most.
proof fn lemma_one_more(b: Seq<Block>, cig_x: Single, pierces: bool, t: Trace)
    requires
        b.len() == CELLS,
        is_struck_once(b, t.broken),
    ensures
        ({
            let next = t.step(b, cig_x, pierces).0;
            &&& t.path.len() <= next.path.len() <= t.path.len() + 1
            &&& t.path.len() > 0 ==> next.path[0] == t.path[0]
            &&& is_struck_once(b, next.broken)
        }),
{
    let limit = horizon_spec(t.ball, cig_x, t.returned);
    lemma_struck_next(b, t.ball, limit, t.broken);
}

/// A trace of so many steps has no more corners than that and those that it
/// started with.
proof fn lemma_corners(b: Seq<Block>, cig_x: Single, pierces: bool, t: Trace, n: nat)
    requires
        b.len() == CELLS,
        is_struck_once(b, t.broken),
        t.path.len() > 0,
    ensures
        ({
            let end = t.run(b, cig_x, pierces, n);
            &&& t.path.len() <= end.path.len() <= t.path.len() + n
            &&& end.path[0] == t.path[0]
            &&& is_struck_once(b, end.broken)
        }),
    decreases n,
{
    if n > 0 {
        lemma_one_more(b, cig_x, pierces, t);
        let (next, on) = t.step(b, cig_x, pierces);
        if on {
            lemma_corners(b, cig_x, pierces, next, (n - 1) as nat);
        }
    }
}

/// A prediction starts at the ball, has at most as many corners more as a trace
/// has steps, lists live blocks, each once, touches nothing but the path and
/// that list, and comes out the same when it is made again.
pub proof fn a_prediction_is_well_formed(w: World)
    requires
        w.wf(),
    ensures
        ({
            let p = w.predicted();
            &&& 1 <= p.path.len() <= MAX_BOUNCES + 1
            &&& p.path[0] == w.ball.point_spec()
            &&& is_struck_once(w.blocks, p.broken)
            &&& p == (World { path: p.path, broken: p.broken, ..w })
            &&& p.predicted() == p
        }),
{
    reveal(World::predicted);
    lemma_corners(
        w.blocks,
        w.cig_x,
        w.pierce > 0,
        Trace::start(w.ball),
        MAX_BOUNCES as nat,
    );
}

} // verus!
