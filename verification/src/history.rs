//! What holds of a game from its start on, whatever happens in it.
use crate::board::{alive_tally, Block};
use crate::handle::damage_spec;
use crate::impact::next_impact_spec;
use crate::kind::Kind;
use crate::laws::{
    a_catch_is_recorded, a_catch_leads_on, a_tick_leads_on, damage_tracks_the_board, is_level,
    leads_to, lemma_leads_on, the_end_stops_the_game, the_paddle_stays_in_the_field,
};
use crate::motion::{meets_paddle_spec, off_centre_spec, paddle_return_spec, Ball, Impact};
use crate::single::{
    lemma_between, lemma_negated, lemma_over_number, lemma_plus_exact, lemma_plus_number,
    lemma_plus_order, lemma_size_order, lemma_value_order, lemma_whole, lemma_zero, Single,
};
use crate::speed::{a_return_keeps_the_speed, energy, is_moving, near};
use crate::walls::{
    a_serve_is_inside, at_game_speed, inside, lemma_fall_frame, lemma_played, the_ball_stays_inside,
    TOP_SPEED,
};
use crate::world::{longest_tick, swept, Flight, World, MOST_IMPACTS};
use crate::{BALL_R, CIG_W, H, W};
use vstd::arithmetic::mul::*;
use vstd::arithmetic::power2::*;
use vstd::prelude::*;

verus! {

/// What can happen in a game.
pub enum Event {
    /// The paddle is moved.
    Aim(Single),
    /// A pickup is caught.
    Catch(Kind),
    /// A time passes.
    Tick(Single),
    /// The scene is drawn. A frame is a tick and a drawing.
    Draw,
}

/// The game after an event.
pub open spec fn next(w: World, e: Event) -> World {
    match e {
        Event::Aim(x) => w.aimed(x),
        Event::Catch(kind) => w.applied(kind),
        Event::Tick(dt) => w.ticked(dt),
        Event::Draw => w.rebuilt(),
    }
}

/// A drawing changes the scene, and the predicted path that is drawn in it. All
/// else of the game is as it was.
pub proof fn a_drawing_leaves_the_game(w: World)
    ensures
        w.rebuilt() == (World {
            instances: w.rebuilt().instances,
            path: w.rebuilt().path,
            broken: w.rebuilt().broken,
            ..w
        }),
        w.rebuilt().rebuilt() == w.rebuilt(),
{
    reveal(World::predicted);
}

/// The game after all that happened in it.
pub open spec fn after(w: World, events: Seq<Event>) -> World
    decreases events.len(),
{
    if events.len() == 0 {
        w
    } else {
        next(after(w, events.drop_last()), events.last())
    }
}

/// How often the ball came back from the paddle.
pub open spec fn rallies(w: World, events: Seq<Event>) -> nat
    decreases events.len(),
{
    if events.len() == 0 {
        0
    } else {
        let before = after(w, events.drop_last());
        rallies(w, events.drop_last()) + if next(before, events.last()).bounces
            != before.bounces {
            1nat
        } else {
            0
        }
    }
}

/// The paddle was never moved to what is no number.
pub open spec fn is_aimed(events: Seq<Event>) -> bool {
    forall|k: int|
        0 <= k < events.len() ==> !(#[trigger] events[k] matches Event::Aim(x) && x.nan())
}

/// The way of a ball keeps its speed, each way, to the last bit.
proof fn lemma_swept_speed(b: Seq<Block>, pierces: bool, f: Flight, n: nat)
    requires
        f.ball.vx.finite(),
        f.ball.vy.finite(),
    ensures
        ({
            let end = swept(b, pierces, f, n).ball;
            &&& end.vx.finite() && end.vy.finite()
            &&& end.vx.size() == f.ball.vx.size()
            &&& end.vy.size() == f.ball.vy.size()
        }),
    decreases n,
{
    if !(n == 0 || f.left.le_spec(Single::zero_spec())) {
        lemma_negated(f.ball.vx);
        lemma_negated(f.ball.vy);
        match next_impact_spec(b, f.ball, f.left, f.hits) {
            Impact::Wall(fx, fy, t) => lemma_swept_speed(
                b,
                pierces,
                Flight {
                    ball: f.ball.moved_spec(t).turned_spec(fx, fy),
                    left: f.left.minus_spec(t),
                    hits: f.hits,
                },
                (n - 1) as nat,
            ),
            Impact::Block(i, t, axis) => lemma_swept_speed(
                b,
                pierces,
                Flight {
                    ball: if pierces {
                        f.ball.moved_spec(t)
                    } else {
                        f.ball.moved_spec(t).reflected_spec(axis)
                    },
                    left: f.left.minus_spec(t),
                    hits: f.hits.push(i),
                },
                (n - 1) as nat,
            ),
            Impact::Free => {},
        }
    }
}

/// The way of a ball in a tick keeps its speed, each way.
pub proof fn lemma_flight_speed(w: World, d: Single)
    requires
        w.wf(),
        w.ball.vx.finite(),
        w.ball.vy.finite(),
    ensures
        ({
            let ball = (World { elapsed: w.elapsed.plus_spec(d), ..w }).fallen(d).flight(d).ball;
            &&& ball.vx.finite() && ball.vy.finite()
            &&& ball.vx.size() == w.ball.vx.size()
            &&& ball.vy.size() == w.ball.vy.size()
        }),
{
    let e = World { elapsed: w.elapsed.plus_spec(d), ..w };
    lemma_fall_frame(e, d);
    let a = e.fallen(d);
    reveal(World::flight);
    lemma_swept_speed(
        a.blocks,
        a.pierce > 0,
        Flight { ball: a.ball, left: d, hits: Seq::empty() },
        MOST_IMPACTS as nat,
    );
}

/// A ball that is not below the field is not far down.
proof fn lemma_not_lost(y: Single)
    requires
        Single::zero_spec().le_spec(y),
        !Single::whole_spec(H as nat).lt_spec(
            y.minus_spec(Single::whole_spec(BALL_R as nat)),
        ),
    ensures
        y.le_spec(Single::whole_spec((2 * H) as nat)),
{
    let seven = Single::whole_spec(7);
    let low = Single::whole_spec(800);
    let far = Single::whole_spec(1600);
    let half = Single::whole_spec(900);
    let zero = Single::zero_spec();
    lemma_whole(7);
    lemma_whole(800);
    lemma_whole(1600);
    lemma_whole(900);
    lemma_zero(zero);
    lemma_negated(seven);
    lemma_pow2_pos(149);
    if !y.le_spec(far) {
        if y.finite() {
            lemma_value_order(y, far);
            lemma_plus_order(half, zero, y, seven.negated_spec());
            lemma_plus_exact(half, zero, half);
            lemma_zero(half);
            lemma_value_order(low, half);
        } else {
            reveal(Single::plus_spec);
        }
    }
}

/// How far off the middle of the paddle a ball in the field is, is a number.
pub proof fn lemma_off(x: Single, cig_x: Single)
    requires
        x.finite(),
        cig_x.finite(),
    ensures
        !off_centre_spec(x, cig_x).nan(),
{
    let half = Single::whole_spec(45);
    lemma_whole(45);
    lemma_pow2_pos(149);
    lemma_negated(cig_x);
    lemma_plus_number(x, cig_x.negated_spec());
    lemma_over_number(x.minus_spec(cig_x), half);
}

/// What a tick does to the speed: without a return from the paddle nothing at
/// all, and with one at most three parts in a million of its square.
pub proof fn a_tick_keeps_the_speed(w: World, dt: Single)
    requires
        w.wf(),
        inside(w.ball),
        w.ball.y.le_spec(Single::whole_spec((2 * H) as nat)),
        at_game_speed(w.ball),
        is_moving(w.ball),
        w.cig_x.finite(),
    ensures
        ({
            let a = w.ticked(dt);
            &&& a.ball.vx.finite() && a.ball.vy.finite()
            &&& a.bounces == w.bounces ==> energy(a.ball) == energy(w.ball)
            &&& near(energy(a.ball), energy(w.ball), 3000)
            &&& a.cig_x == w.cig_x
            &&& !a.lost ==> a.ball.y.le_spec(Single::whole_spec((2 * H) as nat))
        }),
{
    let d = dt.min_spec(longest_tick());
    let c = w.cooled(d);
    assert(c.ball == w.ball && c.cig_x == w.cig_x && c.bounces == w.bounces && c.lost == w.lost
        && c.won == w.won && c.elapsed == w.elapsed) by {
        reveal(World::cooled);
    }
    w.cooling_keeps_the_board(d);
    let e = energy(w.ball);
    assert(near(e, e, 3000)) by {
        lemma_mul_nonnegative(w.ball.vx.size() as int, w.ball.vx.size() as int);
        lemma_mul_nonnegative(w.ball.vy.size() as int, w.ball.vy.size() as int);
    }
    if !(c.lost || c.won) {
        let ball = (World { elapsed: c.elapsed.plus_spec(d), ..c }).fallen(d).flight(d).ball;
        lemma_flight_speed(c, d);
        lemma_played(c, d);
        the_ball_stays_inside(w, dt);
        if meets_paddle_spec(ball, c.cig_x) {
            lemma_whole(21);
            lemma_whole(579);
            lemma_between(
                Single::whole_spec(21),
                paddle_return_spec(ball, c.cig_x).x,
                Single::whole_spec(579),
            );
            lemma_off(ball.x, c.cig_x);
            a_return_keeps_the_speed(ball, c.cig_x);
        }
        if !w.ticked(dt).lost {
            lemma_under(w.ticked(dt).ball.y);
            lemma_not_lost(w.ticked(dt).ball.y);
        }
    }
}

/// What is under the apex is not over the field.
proof fn lemma_under(y: Single)
    requires
        Single::whole_spec(21).le_spec(y),
    ensures
        Single::zero_spec().le_spec(y),
{
    lemma_whole(21);
    lemma_zero(Single::zero_spec());
    lemma_zero(Single::whole_spec(21));
}

/// Returns from the paddle over which the ball is known to keep its pace. At
/// one every second or two that is hours of play.
pub const MOST_RALLIES: u32 = 11_000;

/// The square of the ball's speed is that of the serve, but for what so many
/// returns can have changed.
pub open spec fn is_paced(ball: Ball, k: nat) -> bool {
    let unit = pow2(149) * pow2(149);
    &&& ball.vx.finite() && ball.vy.finite()
    &&& (98_100_000 - 310 * k) * unit <= 1000 * energy(ball) <= (98_100_000 + 310 * k) * unit
}

/// A ball that keeps its pace is at the speed of the game.
pub proof fn lemma_paced(ball: Ball, k: nat)
    requires
        is_paced(ball, k),
        k <= MOST_RALLIES,
    ensures
        at_game_speed(ball),
        is_moving(ball),
        energy(ball) <= 101_761 * (pow2(149) * pow2(149)),
{
    let t = pow2(149);
    let unit: int = (t * t) as int;
    let ki: int = k as int;
    lemma_pow2_pos(149);
    lemma_mul_strictly_positive(t as int, t as int);
    assert((98_100_000 + 310 * ki) * unit <= 101_510_000 * unit) by {
        lemma_mul_inequality(98_100_000 + 310 * ki, 101_510_000, unit);
    }
    assert(94_690_000 * unit <= (98_100_000 - 310 * ki) * unit) by {
        lemma_mul_inequality(94_690_000, 98_100_000 - 310 * ki, unit);
    }
    let x = ball.vx.size();
    let y = ball.vy.size();
    lemma_mul_nonnegative(x as int, x as int);
    lemma_mul_nonnegative(y as int, y as int);
    lemma_component(ball.vx);
    lemma_component(ball.vy);
}

/// A component whose square is small is at the speed of the game.
proof fn lemma_component(v: Single)
    requires
        v.finite(),
        v.size() * v.size() <= 101_761 * (pow2(149) * pow2(149)),
    ensures
        v.size() <= 319 * pow2(149),
        v.abs_spec().le_spec(Single::whole_spec(TOP_SPEED as nat)),
{
    let t = pow2(149);
    let x = v.size();
    let top = Single::whole_spec(TOP_SPEED as nat);
    lemma_whole(TOP_SPEED as nat);
    if x > 319 * t {
        let y: int = (319 * t + 1) as int;
        lemma_mul_upper_bound(y, x as int, y, x as int);
        assert(y * y > 101_761 * (t * t)) by (nonlinear_arith)
            requires
                y == 319 * t + 1,
                t >= 0,
        ;
    }
    lemma_size_order(v, top);
}

/// One return more.
pub proof fn lemma_pace(a: Ball, b: Ball, k: nat)
    requires
        is_paced(a, k),
        k < MOST_RALLIES,
        b.vx.finite(),
        b.vy.finite(),
        near(energy(b), energy(a), 3000),
    ensures
        is_paced(b, k + 1),
{
    let unit: int = (pow2(149) * pow2(149)) as int;
    let ki: int = k as int;
    lemma_paced(a, k);
    lemma_mul_is_distributive_add_other_way(unit, 98_100_000 + 310 * ki, 310);
    lemma_mul_is_distributive_sub_other_way(unit, 98_100_000 - 310 * ki, 310);
    assert((98_100_000 + 310 * (ki + 1)) * unit == (98_100_000 + 310 * ki) * unit + 310 * unit);
    assert((98_100_000 - 310 * (ki + 1)) * unit == (98_100_000 - 310 * ki) * unit - 310 * unit);
}

/// The game is as it has been since its start: the ball inside, at its pace, and
/// the paddle in the field.
pub open spec fn is_kept(w: World, k: nat) -> bool {
    &&& w.wf()
    &&& inside(w.ball)
    &&& is_paced(w.ball, k)
    &&& w.cig_x.finite()
    &&& w.lost || w.ball.y.le_spec(Single::whole_spec((2 * H) as nat))
}

/// A game starts so.
pub proof fn lemma_start()
    ensures
        is_kept(World::fresh(), 0),
{
    let ball = World::fresh().ball;
    let t = pow2(149);
    World::lemma_fresh();
    a_serve_is_inside(World::unserved());
    lemma_whole(90);
    lemma_whole(300);
    lemma_pow2_pos(149);
    assert(ball.vx == Single::whole_spec(90) && ball.vy == Single::whole_spec(300));
    assert(World::fresh().cig_x == Single::whole_spec(300));
    assert((90 * t) * (90 * t) + (300 * t) * (300 * t) == 98_100 * (t * t)) by (nonlinear_arith);
    assert(energy(ball) == 98_100 * (t * t));
    let k: nat = 0;
    assert(310 * k == 0);
    assert((98_100_000 - 310 * k) * (t * t) == 98_100_000 * (t * t));
    assert((98_100_000 + 310 * k) * (t * t) == 98_100_000 * (t * t));
    assert(is_paced(ball, k));
    lemma_field_height();
}

/// The field ends above twice its height.
pub proof fn lemma_field_height()
    ensures
        Single::whole_spec(H as nat).le_spec(Single::whole_spec((2 * H) as nat)),
{
    lemma_whole(800);
    lemma_whole(1600);
    lemma_pow2_pos(149);
    lemma_value_order(Single::whole_spec(800), Single::whole_spec(1600));
}

/// One event more.
pub proof fn lemma_event(w: World, e: Event, k: nat)
    requires
        is_kept(w, k),
        k <= MOST_RALLIES,
        !(e matches Event::Aim(x) && x.nan()),
        next(w, e).bounces != w.bounces ==> k < MOST_RALLIES,
    ensures
        is_kept(
            next(w, e),
            if next(w, e).bounces != w.bounces {
                k + 1
            } else {
                k
            },
        ),
{
    match e {
        Event::Aim(x) => {
            let lo = Single::whole_spec((CIG_W / 2) as nat);
            let hi = Single::whole_spec((W - CIG_W / 2) as nat);
            lemma_whole((CIG_W / 2) as nat);
            lemma_whole((W - CIG_W / 2) as nat);
            the_paddle_stays_in_the_field(w, x);
            lemma_between(lo, w.aimed(x).cig_x, hi);
        },
        Event::Catch(kind) => {
            a_catch_is_recorded(w, kind);
            a_catch_leads_on(w, kind);
        },
        Event::Tick(dt) => {
            a_tick_leads_on(w, dt);
            lemma_paced(w.ball, k);
            if w.lost {
                the_end_stops_the_game(w, dt);
            } else {
                a_tick_keeps_the_speed(w, dt);
                the_ball_stays_inside(w, dt);
                if next(w, e).bounces != w.bounces {
                    lemma_pace(w.ball, next(w, e).ball, k);
                }
            }
        },
        Event::Draw => a_drawing_leaves_the_game(w),
    }
}

/// The events before the last, of a game that was aimed, are so too.
proof fn lemma_kept(events: Seq<Event>)
    requires
        is_aimed(events),
        rallies(World::fresh(), events) <= MOST_RALLIES,
    ensures
        is_kept(after(World::fresh(), events), rallies(World::fresh(), events)),
    decreases events.len(),
{
    if events.len() == 0 {
        lemma_start();
    } else {
        let before = events.drop_last();
        assert forall|k: int| 0 <= k < before.len() implies !(#[trigger] before[k] matches
            Event::Aim(x) && x.nan()) by {
            assert(events[k] == before[k]);
        }
        lemma_kept(before);
        assert(events[events.len() - 1] == events.last());
        lemma_event(
            after(World::fresh(), before),
            events.last(),
            rallies(World::fresh(), before),
        );
    }
}

/// From the serve on, whatever the player does and whatever is caught, and for
/// as many returns from the paddle as a game is ever likely to have, the ball is
/// inside after every event: it never enters the pleura. It keeps the speed of
/// its serve, but for what the returns can have changed.
pub proof fn the_ball_stays_inside_all_game(events: Seq<Event>)
    requires
        is_aimed(events),
        rallies(World::fresh(), events) <= MOST_RALLIES,
    ensures
        inside(after(World::fresh(), events).ball),
        at_game_speed(after(World::fresh(), events).ball),
        is_paced(after(World::fresh(), events).ball, rallies(World::fresh(), events)),
{
    lemma_kept(events);
    lemma_paced(after(World::fresh(), events).ball, rallies(World::fresh(), events));
}

/// No more returns than ticks.
pub proof fn a_tick_has_one_return(w: World, events: Seq<Event>)
    ensures
        rallies(w, events) <= events.len(),
    decreases events.len(),
{
    if events.len() > 0 {
        a_tick_has_one_return(w, events.drop_last());
    }
}

/// An event leads on.
proof fn lemma_next_leads_on(w: World, e: Event)
    requires
        w.wf(),
    ensures
        leads_to(w, next(w, e)),
{
    match e {
        Event::Aim(x) => {
            let a = w.aimed(x);
            assert(a.blocks == w.blocks);
            lemma_same_level(w.copd);
        },
        Event::Catch(kind) => a_catch_leads_on(w, kind),
        Event::Tick(dt) => a_tick_leads_on(w, dt),
        Event::Draw => {
            a_drawing_leaves_the_game(w);
            lemma_same_level(w.copd);
        },
    }
}

/// A level is at most itself.
proof fn lemma_same_level(c: Single)
    ensures
        is_level(c) ==> c.le_spec(c),
{
}

/// From a new game on, whatever happens: the count of live blocks is right,
/// nothing comes back to life, what there was at the start is remembered, an
/// end is for good, and once no block is left the game is won.
pub proof fn the_board_is_right_all_game(events: Seq<Event>)
    ensures
        ({
            let w = after(World::fresh(), events);
            &&& w.wf()
            &&& leads_to(World::fresh(), w)
            &&& w.alive_count == alive_tally(w.blocks)
            &&& w.starting_alive == World::fresh().starting_alive
            &&& 0 < w.starting_alive
            &&& w.alive_count == 0 ==> w.won
            &&& w.won ==> w.alive_count == 0
            &&& events.len() > 0 ==> leads_to(after(World::fresh(), events.drop_last()), w)
        }),
    decreases events.len(),
{
    let start = World::fresh();
    World::lemma_fresh();
    if events.len() == 0 {
        lemma_same_level(start.copd);
    } else {
        let before = after(start, events.drop_last());
        the_board_is_right_all_game(events.drop_last());
        lemma_next_leads_on(before, events.last());
        lemma_leads_on(start, before, after(start, events));
    }
}

/// The share of the lung that is gone in a game.
pub open spec fn damage_of(w: World) -> Single {
    damage_spec(alive_tally(w.blocks), w.starting_alive as nat)
}

/// From a new game on, whatever happens: there is no damage at first, it is a
/// share, it never falls, it rises with every block that goes, and it is whole
/// just when no block is left.
pub proof fn damage_tells_the_game(events: Seq<Event>)
    ensures
        ({
            let w = after(World::fresh(), events);
            let before = after(World::fresh(), events.drop_last());
            &&& damage_of(World::fresh()) == Single::zero_spec()
            &&& is_level(damage_of(w))
            &&& damage_of(w) == Single::whole_spec(1) <==> w.alive_count == 0
            &&& events.len() > 0 ==> damage_of(before).le_spec(damage_of(w))
            &&& events.len() > 0 && w.alive_count < before.alive_count ==> damage_of(
                before,
            ).lt_spec(damage_of(w))
        }),
{
    let start = World::fresh();
    let w = after(start, events);
    let n = w.starting_alive as nat;
    World::lemma_fresh();
    the_board_is_right_all_game(events);
    damage_tracks_the_board(n, n, n);
    damage_tracks_the_board(w.alive_count as nat, w.alive_count as nat, n);
    if events.len() > 0 {
        let before = after(start, events.drop_last());
        the_board_is_right_all_game(events.drop_last());
        damage_tracks_the_board(before.alive_count as nat, w.alive_count as nat, n);
    }
}

} // verus!
