//! What holds of every game, whatever happens in it.
use crate::angle::{cosine_spec, lemma_cosine, lemma_sine, sine_spec};
use crate::board::{
    alive_tally, is_alive, is_alive_on, is_exposed, lemma_cell, lemma_sides, lemma_tally_none,
    lemma_tally_order, lemma_tally_same, on_left, scatter_spec, side_tally, tally, Block,
};
use crate::handle::damage_spec;
use crate::impact::{impact_time, is_struck_once, lemma_struck_next, next_impact_spec};
use crate::kind::Kind;
use crate::lung::{length_spec, Point};
use crate::merge::{
    a_search_finds_what_there_is, clean, find_patch_spec, lemma_find,
    merging_frees_all_cells_but_one, Patch,
};
use crate::motion::{
    meets_paddle_spec, min_angle_spec, off_centre_spec, paddle_return_spec,
    return_angle_is_never_vertical, return_angle_spec, Ball, Impact,
};
use crate::rng::xorshift;
use crate::scene::{
    ball_instance, block_instance, block_instances, block_kind_spec, burnt_spec, dot_spec,
    dots_spec, paddle_instance, path_length_spec, pickup_instances, pleura_spec, segment_spec,
    segments, trail_spec, Instance,
};
use crate::single::{
    lemma_between, lemma_exact, lemma_negated, lemma_over_least, lemma_over_number,
    lemma_over_order, lemma_over_self, lemma_plus_between, lemma_plus_exact, lemma_plus_number,
    lemma_plus_order, lemma_rounded_bounds, lemma_rounded_sign, lemma_size_order, lemma_value_order,
    lemma_whole, lemma_zero, Single,
};
use crate::world::{
    bumped, collapse_delay_spec, cooled, longest_tick, swept, total_weight, Flight, World,
    MOST_IMPACTS,
};
use crate::{
    CELLS, CIG_W, COLS, MAX_TRAIL_DOTS, PIERCE_BOUNCES, RADIOLOGIST_BOUNCES, ROWS, SPACING_PX,
    SPAWN_EVERY, W,
};
use vstd::arithmetic::div_mod::*;
use vstd::arithmetic::mul::*;
use vstd::arithmetic::power2::*;
use vstd::prelude::*;

verus! {

/// A level of disease: between none and one.
pub open spec fn is_level(c: Single) -> bool {
    Single::zero_spec().le_spec(c) && c.le_spec(Single::whole_spec(1))
}

/// What one state of a game can lead to. The board only empties; an end, won or
/// lost, is for good, and a win comes only when nothing is left; what lasts for
/// bounces is never more than its full charge; the disease does not recede.
pub open spec fn leads_to(a: World, b: World) -> bool {
    &&& b.wf()
    &&& b.starting_alive == a.starting_alive
    &&& forall|i: int|
        #![trigger b.blocks[i]]
        0 <= i < CELLS ==> {
            &&& b.blocks[i].alive ==> a.blocks[i].alive
            &&& b.blocks[i].airway == a.blocks[i].airway
        }
    &&& b.alive_count <= a.alive_count
    &&& a.destroyed <= b.destroyed
    &&& b.destroyed + b.alive_count <= a.destroyed + a.alive_count
    &&& a.won ==> b.won
    &&& a.lost ==> b.lost
    &&& b.won ==> a.won || b.alive_count == 0
    &&& a.win_latched() ==> b.win_latched()
    &&& a.pierce <= PIERCE_BOUNCES ==> b.pierce <= PIERCE_BOUNCES
    &&& a.radiologist <= RADIOLOGIST_BOUNCES ==> b.radiologist <= RADIOLOGIST_BOUNCES
    &&& is_level(a.copd) ==> is_level(b.copd) && a.copd.le_spec(b.copd)
}

/// What leads on from what is led to is led to.
pub proof fn lemma_leads_on(a: World, b: World, c: World)
    requires
        leads_to(a, b),
        leads_to(b, c),
    ensures
        leads_to(a, c),
{
    assert forall|i: int| #![trigger c.blocks[i]] 0 <= i < CELLS implies {
        &&& c.blocks[i].alive ==> a.blocks[i].alive
        &&& c.blocks[i].airway == a.blocks[i].airway
    } by {
        assert(b.blocks[i].airway == a.blocks[i].airway);
    }
}

/// The disease advances by a step, up to one.
proof fn lemma_disease(c: Single, step: Single)
    requires
        step.finite(),
        !step.neg(),
    ensures
        is_level(c) ==> ({
            let d = c.plus_spec(step).min_spec(Single::whole_spec(1));
            is_level(d) && c.le_spec(d)
        }),
{
    if is_level(c) {
        let zero = Single::zero_spec();
        lemma_whole(1);
        lemma_zero(zero);
        assert(c.finite());
        lemma_plus_order(c, zero, c, step);
        lemma_plus_exact(c, zero, c);
        let s = c.plus_spec(zero);
        lemma_value_order(c, s);
    }
}

/// A ratio that is named is a number, and not under zero.
proof fn lemma_step(n: nat, d: nat)
    requires
        0 < d,
        n <= d,
    ensures
        Single::ratio_spec(n, d).finite(),
        !Single::ratio_spec(n, d).neg(),
{
    lemma_whole(1);
    let one = Single::whole_spec(1);
    assert(n * pow2(149) <= (1 * pow2(149)) * d) by (nonlinear_arith)
        requires
            n <= d,
            pow2(149) >= 0,
    ;
    lemma_rounded_bounds(n * pow2(149), d, one);
}

/// A burning block leads on.
pub proof fn lemma_ignited(w: World, i: int, extra: Single)
    requires
        w.wf(),
        0 <= i < CELLS,
    ensures
        leads_to(w, w.ignited(i, extra)),
{
    w.burning_keeps_the_board(i, extra);
}

/// A collapse leads on, cell by cell.
proof fn lemma_collapsed_among(w: World, left: bool, n: nat)
    requires
        w.wf(),
        n <= CELLS,
    ensures
        leads_to(w, w.collapsed_among(left, n)),
    decreases n,
{
    if n == 0 {
        assert(w.collapsed_among(left, 0) =~= w);
    } else {
        let m: nat = (n - 1) as nat;
        let before = w.collapsed_among(left, m);
        lemma_collapsed_among(w, left, m);
        w.lemma_collapse_step(left, m);
        if is_alive_on(w.blocks, left)(m as int) {
            lemma_ignited(before, m as int, collapse_delay_spec(m as int));
            lemma_leads_on(w, before, w.collapsed_among(left, n));
        }
    }
}

/// A collapse leads on.
proof fn lemma_collapsed(w: World)
    requires
        w.wf(),
    ensures
        leads_to(w, w.collapsed()),
{
    reveal(World::collapsed);
    lemma_collapsed_among(w, w.fuller_side(), CELLS as nat);
    lemma_step(15, 100);
    lemma_disease(w.copd, Single::ratio_spec(15, 100));
}

/// A merge leads on.
proof fn lemma_merged(w: World)
    requires
        w.wf(),
    ensures
        leads_to(w, w.merged_once()),
        w.merged_once().alive_count == 0 <==> w.alive_count == 0,
        w.merged_once().destroyed == w.destroyed,
        w.merged_once().won == w.won,
{
    w.merging_keeps_the_board();
    reveal(World::merged_once);
    let span = w.merge_span_spec();
    lemma_find(w.blocks, w.rng, span);
    lemma_step(5, 100);
    lemma_disease(w.copd, Single::ratio_spec(5, 100));
    let m = w.merged_once();
    if let Some(p) = find_patch_spec(w.blocks, w.rng, span).0 {
        merging_frees_all_cells_but_one(w.blocks, p);
        lemma_cell(p.col as int, p.row as int);
        assert(p.span * p.span >= 4) by (nonlinear_arith)
            requires
                p.span >= 2,
        ;
        lemma_tally_none(CELLS as nat, is_alive(m.blocks));
        assert(is_alive(m.blocks)(p.corner()));
    }
}

/// Merges lead on.
proof fn lemma_merged_times(w: World, n: nat)
    requires
        w.wf(),
    ensures
        leads_to(w, w.merged_times(n)),
        w.merged_times(n).alive_count == 0 <==> w.alive_count == 0,
        w.merged_times(n).destroyed == w.destroyed,
        w.merged_times(n).won == w.won,
    decreases n,
{
    if n > 0 {
        let m: nat = (n - 1) as nat;
        lemma_merged_times(w, m);
        lemma_merged(w.merged_times(m));
        lemma_leads_on(w, w.merged_times(m), w.merged_times(n));
    }
}

/// A carton never quietly does nothing: while a square of untouched tissue is
/// left where the search goes, a merge lands, and leaves fewer blocks, at least
/// one of them bigger.
pub proof fn a_merge_lands_while_it_can(w: World, p: Patch)
    requires
        w.wf(),
        p.wf(),
        p.span <= w.merge_span_spec(),
        p.col + p.span < COLS,
        p.row + p.span < ROWS,
        clean(w.blocks, p),
    ensures
        w.merged_once().alive_count <= w.alive_count - (p.span * p.span - 1),
        w.merged_once().destroyed == w.destroyed,
        exists|i: int|
            0 <= i < CELLS && (#[trigger] w.merged_once().blocks[i]).alive
                && w.merged_once().blocks[i].span >= p.span,
{
    let span = w.merge_span_spec();
    let m = w.merged_once();
    lemma_merged(w);
    lemma_find(w.blocks, w.rng, span);
    a_search_finds_what_there_is(w.blocks, w.rng, span, p);
    reveal(World::merged_once);
    let q = find_patch_spec(w.blocks, w.rng, span).0->Some_0;
    merging_frees_all_cells_but_one(w.blocks, q);
    lemma_cell(q.col as int, q.row as int);
    assert(q.span * q.span >= p.span * p.span) by (nonlinear_arith)
        requires
            q.span >= p.span,
            p.span >= 0,
    ;
    assert(m.blocks[q.corner()].alive && m.blocks[q.corner()].span >= p.span);
}

/// A catch only empties the board, whatever is caught: see `leads_to`.
pub proof fn a_catch_leads_on(w: World, kind: Kind)
    requires
        w.wf(),
    ensures
        leads_to(w, w.applied(kind)),
{
    reveal(World::applied);
    let a = World { caught: Some(kind), caught_seq: bumped(w.caught_seq), ..w };
    assert(leads_to(w, a));
    match kind {
        Kind::Cigarettes => {
            lemma_merged_times(a, 5);
            lemma_leads_on(w, a, a.merged_times(5));
        },
        Kind::Pneumothorax => {
            lemma_collapsed(a);
            lemma_leads_on(w, a, a.collapsed());
        },
        _ => {},
    }
}

/// What falls leads on.
proof fn lemma_fallen(w: World, dt: Single)
    requires
        w.wf(),
    ensures
        leads_to(w, w.fallen(dt)),
{
    reveal(World::fallen);
    if let Some(p) = w.pickup {
        a_catch_leads_on(w, p.kind);
    }
}

/// A hit leads on.
proof fn lemma_struck(w: World, i: int)
    requires
        w.wf(),
        0 <= i < CELLS,
    ensures
        leads_to(w, w.struck(i)),
        !w.struck(i).blocks[i].alive,
        w.struck(i).lost == w.lost,
{
    reveal(World::struck);
    lemma_ignited(w, i, Single::zero_spec());
}

/// Hits lead on.
proof fn lemma_struck_all(w: World, hits: Seq<usize>, n: nat)
    requires
        w.wf(),
        n <= hits.len(),
        forall|k: int| 0 <= k < hits.len() ==> #[trigger] hits[k] < CELLS,
    ensures
        leads_to(w, w.struck_all(hits, n)),
        forall|k: int|
            0 <= k < n ==> !w.struck_all(hits, n).blocks[#[trigger] hits[k] as int].alive,
    decreases n,
{
    if n > 0 {
        let m: nat = (n - 1) as nat;
        let before = w.struck_all(hits, m);
        lemma_struck_all(w, hits, m);
        lemma_struck(before, hits[m as int] as int);
        lemma_leads_on(w, before, w.struck_all(hits, n));
    }
}

/// Burns lead on.
proof fn lemma_cooled(w: World, dt: Single)
    requires
        w.wf(),
    ensures
        leads_to(w, w.cooled(dt)),
{
    w.cooling_keeps_the_board(dt);
    reveal(World::cooled);
}

/// What the ball strikes on its way are live blocks, each once.
proof fn lemma_hits(b: Seq<Block>, pierces: bool, f: Flight, n: nat)
    requires
        b.len() == CELLS,
        is_struck_once(b, f.hits),
    ensures
        is_struck_once(b, swept(b, pierces, f, n).hits),
    decreases n,
{
    if !(n == 0 || f.left.le_spec(Single::zero_spec())) {
        lemma_struck_next(b, f.ball, f.left, f.hits);
        match next_impact_spec(b, f.ball, f.left, f.hits) {
            Impact::Wall(fx, fy, t) => lemma_hits(
                b,
                pierces,
                Flight {
                    ball: f.ball.moved_spec(t).turned_spec(fx, fy),
                    left: f.left.minus_spec(t),
                    hits: f.hits,
                },
                (n - 1) as nat,
            ),
            Impact::Block(i, t, axis) => lemma_hits(
                b,
                pierces,
                Flight {
                    ball: if pierces {
                        f.ball.moved_spec(t)
                    } else {
                        f.ball.moved_spec(t).reflected_spec(axis)
                    },
                    left: f.left.minus_spec(t),
                    hits: f.hits.push(i),
                },
                (n - 1) as nat,
            ),
            Impact::Free => {},
        }
    }
}

/// What the ball strikes in a tick are live blocks, and none of them twice.
pub proof fn a_ball_strikes_live_blocks_once(w: World, dt: Single)
    requires
        w.wf(),
    ensures
        is_struck_once(w.blocks, w.flight(dt).hits),
{
    reveal(World::flight);
    lemma_hits(
        w.blocks,
        w.pierce > 0,
        Flight { ball: w.ball, left: dt, hits: Seq::empty() },
        MOST_IMPACTS as nat,
    );
}

/// Play only empties the board: see `leads_to`. In particular the count of live
/// blocks never drifts, nothing comes back to life, and an end is for good.
pub proof fn a_tick_leads_on(w: World, dt: Single)
    requires
        w.wf(),
    ensures
        leads_to(w, w.ticked(dt)),
{
    let dt = dt.min_spec(longest_tick());
    let c = w.cooled(dt);
    lemma_cooled(w, dt);
    if !(c.lost || c.won) {
        reveal(World::played);
        let e = World { elapsed: c.elapsed.plus_spec(dt), ..c };
        let a = e.fallen(dt);
        assert(leads_to(c, e));
        lemma_fallen(e, dt);
        lemma_leads_on(c, e, a);
        a_ball_strikes_live_blocks_once(a, dt);
        let f = a.flight(dt);
        let h = World { hits: f.hits, ..a };
        assert(leads_to(a, h));
        let r = if meets_paddle_spec(f.ball, h.cig_x) {
            h.returned()
        } else {
            h
        };
        assert(leads_to(h, r)) by {
            reveal(World::returned);
        }
        lemma_leads_on(a, h, r);
        let s = r.struck_all(f.hits, f.hits.len());
        lemma_struck_all(r, f.hits, f.hits.len());
        lemma_leads_on(a, r, s);
        assert(leads_to(s, c.played(dt)));
        lemma_leads_on(a, s, c.played(dt));
        lemma_leads_on(c, a, c.played(dt));
        lemma_leads_on(w, c, c.played(dt));
    }
}

/// Once a game has ended, a tick touches nothing but the burns: the ball stands
/// still and the clock stops.
pub proof fn the_end_stops_the_game(w: World, dt: Single)
    requires
        w.lost || w.won,
    ensures
        w.ticked(dt) == (World { blocks: w.ticked(dt).blocks, ..w }),
        w.ticked(dt).blocks.len() == w.blocks.len(),
        forall|i: int|
            0 <= i < w.blocks.len() ==> #[trigger] w.ticked(dt).blocks[i] == cooled(
                w.blocks[i],
                dt.min_spec(longest_tick()),
            ),
{
    reveal(World::cooled);
}

/// A burn that has no more left than a time is out after it, and one that is out
/// stays out.
pub proof fn a_burn_runs_out(b: Block, dt: Single)
    requires
        b.burn.finite(),
        dt.finite(),
        b.burn.le_spec(dt),
    ensures
        cooled(b, dt).burn.le_spec(Single::zero_spec()),
        cooled(b, dt) == (Block { burn: cooled(b, dt).burn, ..b }),
{
    let zero = Single::zero_spec();
    lemma_zero(zero);
    lemma_value_order(b.burn, dt);
    lemma_negated(dt);
    lemma_plus_order(b.burn, dt.negated_spec(), zero, zero);
    lemma_plus_exact(zero, zero, zero);
    lemma_value_order(zero.plus_spec(zero), zero);
}

/// A collapse empties the fuller side and leaves the other as it was.
pub proof fn a_collapse_takes_one_side(w: World)
    requires
        w.wf(),
    ensures
        ({
            let c = w.collapsed();
            let left = w.fuller_side();
            &&& side_tally(w.blocks, left) >= side_tally(w.blocks, !left)
            &&& forall|i: int|
                #![trigger c.blocks[i]]
                0 <= i < CELLS ==> {
                    &&& on_left(i) == left ==> !c.blocks[i].alive
                    &&& on_left(i) != left ==> c.blocks[i] == w.blocks[i]
                }
            &&& c.alive_count == side_tally(w.blocks, !left)
            &&& c.destroyed == w.destroyed + side_tally(w.blocks, left)
            &&& side_tally(c.blocks, left) == 0
            &&& side_tally(c.blocks, !left) == side_tally(w.blocks, !left)
            &&& w.alive_count > 0 && c.alive_count == 0 ==> c.won
        }),
{
    lemma_collapsed(w);
    reveal(World::collapsed);
    lemma_sides(w.blocks);
    let c = w.collapsed();
    let left = w.fuller_side();
    lemma_tally_order(CELLS as nat, is_alive_on(w.blocks, left), is_alive(w.blocks));
    lemma_tally_none(CELLS as nat, is_alive_on(c.blocks, left));
    lemma_tally_same(
        CELLS as nat,
        is_alive_on(c.blocks, !left),
        is_alive_on(w.blocks, !left),
    );
}

/// Two pneumothoraces clear both lungs, and win a game that was not cleared yet.
pub proof fn two_collapses_clear_the_lungs(w: World)
    requires
        w.wf(),
    ensures
        ({
            let c = w.applied(Kind::Pneumothorax).applied(Kind::Pneumothorax);
            &&& c.alive_count == 0
            &&& w.alive_count > 0 ==> c.won
            &&& c.lost == w.lost
        }),
{
    reveal(World::applied);
    let k = Kind::Pneumothorax;
    let a = World { caught: Some(k), caught_seq: bumped(w.caught_seq), ..w };
    let b = a.collapsed();
    a_collapse_takes_one_side(a);
    lemma_collapsed(a);
    let d = World { caught: Some(k), caught_seq: bumped(b.caught_seq), ..b };
    a_collapse_takes_one_side(d);
    lemma_collapsed(d);
    lemma_sides(b.blocks);
    reveal(World::collapsed);
}

/// A catch is recorded, and bumps the sequence, whatever is caught.
pub proof fn a_catch_is_recorded(w: World, kind: Kind)
    requires
        w.wf(),
    ensures
        w.applied(kind).caught == Some(kind),
        w.applied(kind).caught_seq == bumped(w.caught_seq),
        w.applied(kind).pickup == w.pickup,
        w.applied(kind).ball == w.ball,
        w.applied(kind).cig_x == w.cig_x,
        w.applied(kind).bounces == w.bounces,
        w.applied(kind).elapsed == w.elapsed,
        w.applied(kind).lost == w.lost,
{
    reveal(World::applied);
    reveal(World::collapsed);
    let a = World { caught: Some(kind), caught_seq: bumped(w.caught_seq), ..w };
    lemma_merge_frame(a, 5);
}

/// Merges touch nothing but the board, the disease and the generator.
pub proof fn lemma_merge_frame(w: World, n: nat)
    ensures
        ({
            let m = w.merged_times(n);
            m == World {
                blocks: m.blocks,
                alive_count: m.alive_count,
                copd: m.copd,
                rng: m.rng,
                ..w
            }
        }),
    decreases n,
{
    reveal(World::merged_once);
    if n > 0 {
        lemma_merge_frame(w, (n - 1) as nat);
    }
}

/// A fibre refreshes the piercing to its full charge; it does not add to what is
/// left of one.
pub proof fn asbestos_refreshes(w: World)
    ensures
        w.applied(Kind::Asbestos).pierce == PIERCE_BOUNCES,
        w.applied(Kind::Asbestos).applied(Kind::Asbestos).pierce == PIERCE_BOUNCES,
{
    reveal(World::applied);
}

/// So many returns from the paddle.
pub open spec fn returned_times(w: World, n: nat) -> World
    decreases n,
{
    if n == 0 {
        w
    } else {
        returned_times(w, (n - 1) as nat).returned()
    }
}

/// A countdown after so many returns.
proof fn lemma_countdown(w: World, n: nat)
    ensures
        returned_times(w, n).pierce == if n <= w.pierce {
            w.pierce - n
        } else {
            0
        },
        returned_times(w, n).radiologist == if n <= w.radiologist {
            w.radiologist - n
        } else {
            0
        },
    decreases n,
{
    reveal(World::returned);
    if n > 0 {
        lemma_countdown(w, (n - 1) as nat);
    }
}

/// A fibre lasts four paddle bounces, and not one more; a radiologist one.
pub proof fn pickups_last_their_bounces(w: World, n: nat)
    ensures
        returned_times(w.applied(Kind::Asbestos), n).pierce > 0 <==> n < PIERCE_BOUNCES,
        returned_times(w.applied(Kind::Radiologist), n).radiologist > 0 <==> n
            < RADIOLOGIST_BOUNCES,
{
    reveal(World::applied);
    lemma_countdown(w.applied(Kind::Asbestos), n);
    lemma_countdown(w.applied(Kind::Radiologist), n);
}

/// A return that ends a barren rally sends a radiologist when it is the second
/// in a row and nothing falls, and not before.
pub proof fn barren_rallies_send_help(w: World)
    requires
        w.barren == 0,
        !w.broke_since_bounce,
        w.pickup is None,
    ensures
        w.returned().pickup is None,
        w.returned().returned().pickup matches Some(p) && p.kind == Kind::Radiologist,
        w.returned().returned().barren == 0,
{
    reveal(World::returned);
}

/// A rally that broke something is not barren, and starts the count over.
pub proof fn breaking_a_block_resets_the_barren_count(w: World, i: int)
    requires
        w.wf(),
        0 <= i < CELLS,
    ensures
        w.struck(i).broke_since_bounce,
        w.struck(i).returned().barren == 0,
        w.struck(i).returned().pickup == w.struck(i).pickup,
{
    reveal(World::struck);
    reveal(World::returned);
}

/// The scatter level is a share: between none and one.
pub proof fn scatter_is_a_share(b: Seq<Block>)
    requires
        b.len() == CELLS,
    ensures
        is_level(scatter_spec(b)),
{
    let zero = Single::zero_spec();
    let one = Single::whole_spec(1);
    lemma_whole(1);
    lemma_zero(zero);
    lemma_pow2_pos(149);
    lemma_mul_basics(pow2(149) as int);
    lemma_value_order(zero, one);
    lemma_value_order(one, one);
    let n = alive_tally(b);
    let e = tally(b.len(), is_exposed(b));
    lemma_tally_order(b.len(), is_exposed(b), is_alive(b));
    if n > 0 {
        let x = Single::whole_spec(e);
        let y = Single::whole_spec(n);
        lemma_whole(e);
        lemma_whole(n);
        assert(e * pow2(149) <= n * pow2(149) && n * pow2(149) > 0) by (nonlinear_arith)
            requires
                e <= n,
                n > 0,
                pow2(149) > 0,
        ;
        lemma_over_order(x, y, y);
        lemma_over_self(y);
        lemma_mul_basics(y.size() as int);
        lemma_over_least(x, y, zero);
    }
}

/// A lung of which every live cell meets a gap is as scattered as can be.
pub proof fn lone_cells_are_all_scatter(b: Seq<Block>)
    requires
        b.len() == CELLS,
        forall|i: int| 0 <= i < CELLS && #[trigger] is_alive(b)(i) ==> is_exposed(b)(i),
    ensures
        scatter_spec(b) == Single::whole_spec(1),
{
    let n = alive_tally(b);
    assert forall|i: int| 0 <= i < b.len() implies #[trigger] is_exposed(b)(i) == is_alive(b)(
        i,
    ) by {
        assert(is_alive(b)(i) ==> is_exposed(b)(i));
    }
    lemma_tally_same(b.len(), is_exposed(b), is_alive(b));
    lemma_tally_order(b.len(), is_alive(b), is_alive(b));
    if n > 0 {
        let y = Single::whole_spec(n);
        lemma_whole(n);
        lemma_pow2_pos(149);
        assert(n * pow2(149) > 0) by (nonlinear_arith)
            requires
                n > 0,
                pow2(149) > 0,
        ;
        lemma_over_self(y);
    }
}

/// A roll comes to something whenever any kind has weight, and only to kinds that
/// have.
pub proof fn a_roll_goes_by_weight(w: World)
    requires
        w.wf(),
    ensures
        ({
            let s = scatter_spec(w.blocks);
            &&& w.rolled().1 is Some <==> total_weight(s) > 0
            &&& w.rolled().1 matches Some(k) ==> k.weight_spec(s) > 0
        }),
{
    let s = scatter_spec(w.blocks);
    if total_weight(s) > 0 {
        let n = xorshift(w.rng) as nat % total_weight(s);
        assert(n < total_weight(s));
    }
}

/// A roll always comes to something.
pub proof fn a_roll_comes_to_something(w: World)
    requires
        w.wf(),
    ensures
        w.rolled().1 is Some,
{
    let s = scatter_spec(w.blocks);
    scatter_is_a_share(w.blocks);
    lemma_whole(1);
    lemma_zero(Single::zero_spec());
    lemma_between(Single::zero_spec(), s, Single::whole_spec(1));
    Kind::something_always_drops(s);
    a_roll_goes_by_weight(w);
}

/// Drops come one in six hits: a hit while something falls drops nothing and
/// does not count; any other counts, and every sixth that counts drops
/// something, from the middle of the block that was hit.
pub proof fn drops_come_every_sixth_hit(w: World, i: int)
    requires
        w.wf(),
        0 <= i < CELLS,
    ensures
        w.pickup is Some ==> w.struck(i).pickup == w.pickup && w.struck(i).spawn_counter
            == w.spawn_counter,
        w.pickup is None ==> w.struck(i).spawn_counter == bumped(w.spawn_counter),
        w.pickup is None ==> (w.struck(i).pickup is Some <==> w.struck(i).spawn_counter
            % SPAWN_EVERY == 0),
{
    reveal(World::struck);
    let a = w.ignited(i, Single::zero_spec());
    lemma_ignited(w, i, Single::zero_spec());
    let c = World { broke_since_bounce: true, ..a };
    let d = World { spawn_counter: bumped(c.spawn_counter), ..c };
    a_roll_comes_to_something(d);
}

/// A lung that is mostly whole drops only cigarettes and asbestos.
pub proof fn an_intact_lung_drops_only_what_breaks_tissue(w: World)
    requires
        w.wf(),
        scatter_spec(w.blocks).le_spec(Single::ratio_spec(55, 100)),
    ensures
        w.rolled().1 == Some(Kind::Cigarettes) || w.rolled().1 == Some(Kind::Asbestos),
{
    scatter_is_a_share(w.blocks);
    lemma_whole(1);
    lemma_zero(Single::zero_spec());
    lemma_between(Single::zero_spec(), scatter_spec(w.blocks), Single::whole_spec(1));
    Kind::the_opening_drops_only_what_breaks_tissue(scatter_spec(w.blocks));
    a_roll_goes_by_weight(w);
}

/// Shares of the blocks that there were are told apart, by three parts in four
/// thousand at least.
proof fn lemma_shares_apart(alive: nat, fewer: nat, start: nat)
    requires
        fewer < alive <= start,
        0 < start <= CELLS,
    ensures
        ({
            let s = Single::whole_spec(start);
            let a = Single::whole_spec(alive).over_spec(s);
            let f = Single::whole_spec(fewer).over_spec(s);
            &&& a.finite() && f.finite()
            &&& f.value() + 6 * pow2(136) <= a.value() <= pow2(149)
            &&& f.value() >= 0
        }),
{
    let q = pow2(136);
    let k: nat = (fewer * 8192 + start - 1) as nat / start;
    let l: nat = (alive * 8192) / start;
    lemma_fundamental_div_mod((fewer * 8192 + start - 1) as int, start as int);
    lemma_fundamental_div_mod((alive * 8192) as int, start as int);
    lemma_mul_is_commutative(start as int, k as int);
    lemma_mul_is_commutative(start as int, l as int);
    assert(fewer * 8192 <= k * start <= fewer * 8192 + start - 1);
    assert(l * start <= alive * 8192 < l * start + start);
    assert(l >= k + 6) by {
        if l < k + 6 {
            lemma_mul_inequality(l as int, (k + 5) as int, start as int);
            lemma_mul_is_distributive_add_other_way(start as int, k as int, 5);
        }
    }
    assert(l <= 8192) by {
        if l > 8192 {
            lemma_mul_inequality(8193, l as int, start as int);
        }
    }
    lemma_share_bounds(fewer, start, 0, k);
    lemma_share_bounds(alive, start, l, 8192);
    lemma_mul_inequality((k + 6) as int, l as int, q as int);
    lemma_mul_is_distributive_add_other_way(q as int, k as int, 6);
    lemma2_to64();
    lemma_pow2_adds(13, 136);
}

/// A share lies between parts that it lies between exactly.
proof fn lemma_share_bounds(n: nat, start: nat, k: nat, l: nat)
    requires
        0 < start <= CELLS,
        n <= start,
        k <= l <= 8192,
        k * start <= n * 8192 <= l * start,
    ensures
        ({
            let r = Single::whole_spec(n).over_spec(Single::whole_spec(start));
            &&& r.finite() && !r.neg()
            &&& k * pow2(136) <= r.value() <= l * pow2(136)
        }),
{
    let p = pow2(149);
    let q = pow2(136);
    let x = Single::whole_spec(n);
    let y = Single::whole_spec(start);
    let r = x.over_spec(y);
    lemma_whole(n);
    lemma_whole(start);
    lemma_exact(k, 136);
    lemma_exact(l, 136);
    lemma2_to64();
    lemma_pow2_adds(13, 136);
    lemma_pow2_pos(136);
    lemma_zero(x);
    lemma_zero(y);
    lemma_mul_strictly_positive(start as int, p as int);
    let lo = Single::rounded(false, k * q, 1);
    let hi = Single::rounded(false, l * q, 1);
    let c = (n * p) * p;
    let d = start * p;
    assert((k * q) * d <= c) by {
        lemma_mul_inequality((k * start) as int, (n * 8192) as int, (q * p) as int);
        assert((k * start) * (q * p) == (k * q) * (start * p)) by (nonlinear_arith);
        assert((n * 8192) * (q * p) == (n * (8192 * q)) * p) by (nonlinear_arith);
        lemma_mul_nonnegative(q as int, p as int);
    }
    assert(c <= (l * q) * d) by {
        lemma_mul_inequality((n * 8192) as int, (l * start) as int, (q * p) as int);
        assert((l * start) * (q * p) == (l * q) * (start * p)) by (nonlinear_arith);
        assert((n * 8192) * (q * p) == (n * (8192 * q)) * p) by (nonlinear_arith);
        lemma_mul_nonnegative(q as int, p as int);
    }
    lemma_rounded_bounds(c, d, lo);
    lemma_rounded_bounds(c, d, hi);
    lemma_mul_nonnegative(k as int, q as int);
    if n == 0 {
        assert(r == Single::zero_spec()) by {
            reveal(Single::over_spec);
            lemma_mul_basics(p as int);
        }
        lemma_zero(r);
        lemma_mul_basics(p as int);
        lemma_mul_basics(start as int);
        if k > 0 {
            lemma_mul_strictly_positive(k as int, start as int);
        }
        lemma_mul_basics(q as int);
        lemma_mul_nonnegative(l as int, q as int);
    } else {
        lemma_mul_strictly_positive(n as int, p as int);
        assert(r == Single::rounded(false, c, d)) by {
            reveal(Single::over_spec);
        }
    }
}

/// What is well apart is apart when it is taken from one.
proof fn lemma_rest_apart(a: Single, f: Single)
    requires
        a.finite(),
        f.finite(),
        0 <= f.value(),
        f.value() + 6 * pow2(136) <= a.value() <= pow2(149),
    ensures
        ({
            let one = Single::whole_spec(1);
            &&& one.minus_spec(a).finite() && one.minus_spec(f).finite()
            &&& one.minus_spec(a).value() < one.minus_spec(f).value()
            &&& 0 <= one.minus_spec(a).value()
            &&& one.minus_spec(f).value() <= pow2(149)
        }),
{
    let one = Single::whole_spec(1);
    let p = pow2(149);
    let q: int = pow2(136) as int;
    let u: int = p - a.value();
    lemma_whole(1);
    lemma_mul_basics(p as int);
    lemma2_to64();
    lemma_pow2_adds(13, 136);
    lemma_pow2_pos(136);
    lemma_negated(a);
    lemma_negated(f);
    let k: nat = (u / q + 1) as nat;
    lemma_fundamental_div_mod(u, q);
    lemma_div_pos_is_pos(u, q);
    lemma_mul_is_commutative(q, u / q);
    lemma_mul_is_distributive_add_other_way(q, u / q, 1);
    lemma_mul_is_distributive_add_other_way(q, u / q, 2);
    assert(u < k * q <= u + q);
    assert(k <= 8192) by {
        if k > 8192 {
            lemma_mul_inequality(8193, k as int, q);
        }
    }
    let s = Single::rounded(false, k * pow2(136), 1);
    let r = Single::rounded(false, (k + 1) * pow2(136), 1);
    let zero = Single::zero_spec();
    lemma_zero(zero);
    lemma_exact(k, 136);
    lemma_exact(k + 1, 136);
    lemma_plus_between(one, a.negated_spec(), zero, s);
    lemma_plus_between(one, f.negated_spec(), r, one);
}

/// An untouched lung has no damage, a cleared one is all damage and only that,
/// and every block that goes is more damage.
pub proof fn damage_tracks_the_board(alive: nat, fewer: nat, start: nat)
    requires
        fewer <= alive <= start,
        0 < start <= CELLS,
    ensures
        damage_spec(start, start) == Single::zero_spec(),
        damage_spec(0, start) == Single::whole_spec(1),
        is_level(damage_spec(alive, start)),
        fewer < alive ==> damage_spec(alive, start).lt_spec(damage_spec(fewer, start)),
        damage_spec(alive, start) == Single::whole_spec(1) <==> alive == 0,
{
    let zero = Single::zero_spec();
    let one = Single::whole_spec(1);
    let s = Single::whole_spec(start);
    lemma_whole(1);
    lemma_whole(0);
    lemma_whole(start);
    lemma_zero(zero);
    lemma_negated(zero);
    lemma_negated(one);
    lemma_pow2_pos(149);
    lemma_mul_basics(pow2(149) as int);
    lemma_mul_strictly_positive(start as int, pow2(149) as int);
    // Untouched.
    lemma_over_self(s);
    assert(damage_spec(start, start) == zero) by {
        reveal(Single::plus_spec);
    }
    // Cleared.
    let w0 = Single::whole_spec(0);
    lemma_zero(w0);
    assert(w0.over_spec(s) == zero) by {
        reveal(Single::over_spec);
        lemma_zero(s);
    }
    lemma_plus_exact(one, zero.negated_spec(), one);
    // In between.
    lemma_value_order(zero, one);
    lemma_value_order(one, one);
    if fewer < alive {
        lemma_damage_rises(alive, fewer, start);
    }
    if 0 < alive {
        lemma_damage_rises(alive, 0, start);
    }
}

/// A block that goes is more damage.
proof fn lemma_damage_rises(alive: nat, fewer: nat, start: nat)
    requires
        fewer < alive <= start,
        0 < start <= CELLS,
    ensures
        is_level(damage_spec(alive, start)),
        damage_spec(alive, start).lt_spec(damage_spec(fewer, start)),
{
    let zero = Single::zero_spec();
    let one = Single::whole_spec(1);
    let s = Single::whole_spec(start);
    let a = Single::whole_spec(alive).over_spec(s);
    let f = Single::whole_spec(fewer).over_spec(s);
    lemma_shares_apart(alive, fewer, start);
    lemma_rest_apart(a, f);
    lemma_whole(1);
    lemma_mul_basics(pow2(149) as int);
    lemma_zero(zero);
    lemma_value_order(one.minus_spec(a), one.minus_spec(f));
    lemma_value_order(zero, one.minus_spec(a));
    lemma_value_order(one.minus_spec(a), one);
}

/// The paddle sends the ball up and never straight up: a return has some travel
/// to a side, wherever on the paddle it lands.
pub proof fn a_return_goes_up_and_aside(ball: Ball, cig_x: Single)
    requires
        meets_paddle_spec(ball, cig_x),
        ball.x.finite(),
        cig_x.finite(),
        length_spec(ball.vx, ball.vy).finite(),
        Single::whole_spec(1).le_spec(length_spec(ball.vx, ball.vy)),
    ensures
        paddle_return_spec(ball, cig_x).vy.lt_spec(Single::zero_spec()),
        paddle_return_spec(ball, cig_x).vx.lt_spec(Single::zero_spec())
            || Single::zero_spec().lt_spec(paddle_return_spec(ball, cig_x).vx),
{
    let off = off_centre_spec(ball.x, cig_x);
    let angle = return_angle_spec(off);
    let speed = length_spec(ball.vx, ball.vy);
    let half = Single::whole_spec((CIG_W / 2) as nat);
    lemma_whole((CIG_W / 2) as nat);
    lemma_whole(1);
    lemma_pow2_pos(149);
    lemma_mul_basics(pow2(149) as int);
    lemma_negated(cig_x);
    lemma_plus_number(ball.x, cig_x.negated_spec());
    assert(half.size() > 0) by (nonlinear_arith)
        requires
            half.size() == 45 * pow2(149),
            pow2(149) > 0,
    ;
    lemma_over_number(ball.x.minus_spec(cig_x), half);
    return_angle_is_never_vertical(off);
    lemma_least_angle(angle);
    lemma_sine(angle);
    lemma_cosine(angle);
    lemma_value_order(Single::whole_spec(1), speed);
    lemma_negated(speed);
    lemma_product(speed, sine_spec(angle));
    lemma_product(speed.negated_spec(), cosine_spec(angle));
}

/// An angle that is not less than the least has a sine.
proof fn lemma_least_angle(angle: Single)
    requires
        angle.finite(),
        min_angle_spec().le_spec(angle.abs_spec()),
    ensures
        angle.size() >= pow2(89),
{
    let s = Single::rounded(false, 1 * pow2(89), 1);
    lemma_exact(1, 89);
    lemma2_to64();
    lemma_pow2_adds(60, 89);
    lemma2_to64_rest();
    assert(6 * pow2(149) >= s.size() * 100) by (nonlinear_arith)
        requires
            s.size() == 1 * pow2(89),
            pow2(149) == pow2(60) * pow2(89),
            pow2(60) >= 100,
    ;
    lemma_rounded_bounds(6 * pow2(149), 100, s);
    assert(s.bits % 0x8000_0000 <= angle.bits % 0x8000_0000);
    lemma_size_order(s, angle);
}

/// A product of a speed by what is not too small is not zero, and has the sign
/// that the two signs give.
proof fn lemma_product(a: Single, b: Single)
    requires
        a.finite(),
        b.finite(),
        a.size() >= pow2(149),
        b.size() >= pow2(89),
    ensures
        a.neg() != b.neg() ==> a.times_spec(b).lt_spec(Single::zero_spec()),
        a.neg() == b.neg() ==> Single::zero_spec().lt_spec(a.times_spec(b)),
{
    reveal(Single::times_spec);
    let p = pow2(149);
    let s = Single::rounded(false, 1 * pow2(89), 1);
    lemma_exact(1, 89);
    lemma_pow2_pos(89);
    lemma_pow2_pos(149);
    lemma_zero(s);
    assert(a.size() * b.size() >= s.size() * p) by (nonlinear_arith)
        requires
            a.size() >= p,
            b.size() >= pow2(89),
            s.size() == 1 * pow2(89),
            p >= 0,
    ;
    lemma_rounded_bounds(a.size() * b.size(), p, s);
    lemma_rounded_sign(a.size() * b.size(), p);
}

/// How far a block has burnt is drawn as a share: between none and one.
pub proof fn a_burn_is_drawn_as_a_share(b: Block)
    requires
        b.burn.finite(),
        b.burn_full.finite(),
    ensures
        is_level(burnt_spec(b)),
{
    let zero = Single::zero_spec();
    let one = Single::whole_spec(1);
    let least = Single::ratio_spec(1, 10_000);
    let full = b.burn_full.max_spec(least);
    lemma_zero(zero);
    lemma_whole(1);
    lemma_pow2_pos(149);
    lemma_mul_basics(pow2(149) as int);
    lemma_value_order(zero, one);
    lemma_value_order(one, one);
    lemma_value_order(zero, zero);
    lemma_step(1, 10_000);
    lemma_least_share();
    assert(full.finite());
    lemma_value_order(least, full);
    let share = b.burn.over_spec(full);
    lemma_over_number(b.burn, full);
    assert(!one.minus_spec(share).nan()) by {
        reveal(Single::plus_spec);
        if share.finite() {
            lemma_negated(share);
            lemma_plus_number(one, share.negated_spec());
        }
    }
}

/// The least burn that a share is taken of is over zero.
proof fn lemma_least_share()
    ensures
        Single::ratio_spec(1, 10_000).value() > 0,
{
    let s = Single::rounded(false, 1 * pow2(89), 1);
    lemma_exact(1, 89);
    lemma_pow2_pos(89);
    lemma_pow2_adds(60, 89);
    lemma2_to64_rest();
    assert(1 * pow2(149) >= s.size() * 10_000) by (nonlinear_arith)
        requires
            s.size() == 1 * pow2(89),
            pow2(149) == pow2(60) * pow2(89),
            pow2(60) >= 10_000,
    ;
    lemma_step(1, 10_000);
    lemma_rounded_bounds(1 * pow2(149), 10_000, s);
}

/// The number of what is drawn is a whole one, and one that the renderer knows.
pub open spec fn is_known(i: Instance) -> bool {
    exists|n: nat| n <= 13 && #[trigger] Single::whole_spec(n) == i.kind
}

/// Everything in a scene is drawn under a whole number that the renderer knows.
pub proof fn a_scene_is_numbered(w: World, k: int)
    requires
        0 <= k < w.rebuilt().instances.len(),
    ensures
        is_known(w.rebuilt().instances[k]),
{
    let v = if w.radiologist > 0 {
        w.predicted()
    } else {
        w
    };
    let a = pleura_spec();
    let b = block_instances(w.blocks, CELLS as nat);
    let c = seq![paddle_instance(w.cig_x), ball_instance(w.ball)];
    let d = if w.radiologist > 0 {
        trail_spec(v.path, segments(v.path)).dots
    } else {
        Seq::empty()
    };
    let e = pickup_instances(w.pickup);
    lemma_blocks_known(w.blocks, CELLS as nat);
    lemma_trail_known(v.path, segments(v.path));
    assert(Single::whole_spec(8) == a[0].kind);
    assert(Single::whole_spec(2) == c[0].kind);
    assert(Single::whole_spec(3) == c[1].kind);
    let at = w.rebuilt().instances[k];
    if k < a.len() {
        assert(at == a[k]);
    } else if k < a.len() + b.len() {
        assert(at == b[k - a.len()]);
    } else if k < a.len() + b.len() + c.len() {
        assert(at == c[k - a.len() - b.len()]);
    } else if k < a.len() + b.len() + c.len() + d.len() {
        assert(at == d[k - a.len() - b.len() - c.len()]);
    } else {
        assert(at == e[k - a.len() - b.len() - c.len() - d.len()]);
        assert(Single::whole_spec(w.pickup->Some_0.kind.sprite_spec() as nat) == at.kind);
    }
}

/// Blocks are drawn under numbers that are known.
proof fn lemma_blocks_known(b: Seq<Block>, n: nat)
    ensures
        forall|k: int|
            0 <= k < block_instances(b, n).len() ==> is_known(#[trigger] block_instances(b, n)[k]),
    decreases n,
{
    if n > 0 {
        let before = block_instances(b, (n - 1) as nat);
        let all = block_instances(b, n);
        lemma_blocks_known(b, (n - 1) as nat);
        assert(Single::whole_spec(block_kind_spec(b[n - 1])) == block_instance(
            b[n - 1],
            n - 1,
        ).kind);
        assert forall|k: int| 0 <= k < all.len() implies is_known(#[trigger] all[k]) by {
            if k < before.len() {
                assert(all[k] == before[k]);
            }
        }
    }
}

/// Dots are drawn under a number that is known.
proof fn lemma_dots_known(
    a: Point,
    b: Point,
    len: Single,
    t: Single,
    walked: Single,
    total: Single,
    room: nat,
)
    ensures
        forall|k: int|
            0 <= k < dots_spec(a, b, len, t, walked, total, room).0.len() ==> is_known(
                #[trigger] dots_spec(a, b, len, t, walked, total, room).0[k],
            ),
    decreases room,
{
    if room > 0 && t.lt_spec(len) {
        let next = t.plus_spec(Single::whole_spec(SPACING_PX as nat));
        lemma_dots_known(a, b, len, next, walked, total, (room - 1) as nat);
        assert(Single::whole_spec(7) == dot_spec(a, b, len, t, walked, total).kind);
        let rest = dots_spec(a, b, len, next, walked, total, (room - 1) as nat).0;
        let all = dots_spec(a, b, len, t, walked, total, room).0;
        assert forall|k: int| 0 <= k < all.len() implies is_known(#[trigger] all[k]) by {
            if k > 0 {
                assert(all[k] == rest[k - 1]);
            }
        }
    }
}

/// A trail is drawn under a number that is known.
proof fn lemma_trail_known(path: Seq<Point>, n: nat)
    ensures
        forall|k: int|
            0 <= k < trail_spec(path, n).dots.len() ==> is_known(
                #[trigger] trail_spec(path, n).dots[k],
            ),
    decreases n,
{
    if n > 0 {
        let s = trail_spec(path, (n - 1) as nat);
        let len = segment_spec(path, n - 1);
        lemma_trail_known(path, (n - 1) as nat);
        lemma_dots_known(
            path[n - 1],
            path[n as int],
            len,
            s.carry,
            s.walked,
            path_length_spec(path, segments(path)),
            (MAX_TRAIL_DOTS - s.dots.len()) as nat,
        );
    }
}

/// The paddle stays in the field, wherever it is moved to.
pub proof fn the_paddle_stays_in_the_field(w: World, x: Single)
    requires
        !x.nan(),
    ensures
        Single::whole_spec((CIG_W / 2) as nat).le_spec(w.aimed(x).cig_x),
        w.aimed(x).cig_x.le_spec(Single::whole_spec((W - CIG_W / 2) as nat)),
{
    let lo = Single::whole_spec((CIG_W / 2) as nat);
    let hi = Single::whole_spec((W - CIG_W / 2) as nat);
    lemma_whole((CIG_W / 2) as nat);
    lemma_whole((W - CIG_W / 2) as nat);
    lemma_pow2_pos(149);
    lemma_value_order(lo, hi);
    assert(45 * pow2(149) <= 555 * pow2(149));
}

/// A ball that pierces is turned by walls alone: at a block it goes straight on.
pub proof fn a_piercing_ball_goes_straight_through(
    b: Seq<Block>,
    f: Flight,
    n: nat,
)
    requires
        n > 0,
        !f.left.le_spec(Single::zero_spec()),
        next_impact_spec(b, f.ball, f.left, f.hits) is Block,
    ensures
        ({
            let hit = next_impact_spec(b, f.ball, f.left, f.hits);
            let t = impact_time(hit, f.left);
            swept(b, true, f, n) == swept(
                b,
                true,
                Flight {
                    ball: f.ball.moved_spec(t),
                    left: f.left.minus_spec(t),
                    hits: f.hits.push(hit->Block_0),
                },
                (n - 1) as nat,
            ) && f.ball.moved_spec(t).vx == f.ball.vx && f.ball.moved_spec(t).vy == f.ball.vy
        }),
{
}

} // verus!
