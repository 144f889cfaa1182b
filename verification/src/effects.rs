//! What events do, read off the state before and after them.
use crate::board::{
    blocks_serve, cell_at, clear_row, col_of, first_clear_row, is_alive, is_alive_on, is_exposed,
    is_open, lemma_tally_order, lemma_tally_same, row_of, scatter_spec, serve_row_spec, tally,
    Block,
};
use crate::collapse::a_collapse_sets_fire;
use crate::distance::{hair, lemma_bounds, lemma_drop, lemma_hair};
use crate::drops::lemma_side;
use crate::impact::in_the_way;
use crate::kind::Kind;
use crate::laws::{
    a_ball_strikes_live_blocks_once, a_catch_is_recorded, a_collapse_takes_one_side,
    lemma_merge_frame,
};
use crate::margin::{
    lemma_minus_off, lemma_over_off, lemma_plus_off, lemma_rounded_off, lemma_times_off, within,
};
use crate::merge::{
    clean, find_patch_spec, first_clean, lemma_find, merging_frees_all_cells_but_one, probe_spec,
    PROBES,
};
use crate::motion::{meets_paddle_spec, paddle_return_spec};
use crate::pleura::lemma_half;
use crate::rng::{xorshift, xorshift_at};
use crate::single::{
    lemma_negated, lemma_plus_exact, lemma_plus_order, lemma_value_order, lemma_whole, lemma_zero,
    Single,
};
use crate::trace::MAX_BOUNCES;
use crate::walls::lemma_played;
use crate::world::{
    bumped, burn_time_spec, cooled, dropped, is_caught, longest_tick, World, MOST_IMPACTS,
};
use crate::xray::{is_uncaught, lemma_uncaught};
use crate::{
    BALL_R, BARREN_BOUNCES, CELL, CELLS, CIG_H, CIG_W, CIG_Y, COLS, GRID_X, GRID_Y, H,
    MAX_TRAIL_DOTS, PIERCE_BOUNCES, PLEURA, RADIOLOGIST_BOUNCES, ROWS, SPACING_PX, SPAWN_EVERY, W,
    WALL_L, WALL_R, WALL_TOP,
};
use vstd::arithmetic::mul::*;
use vstd::arithmetic::power2::*;
use vstd::prelude::*;

verus! {

/// A hit on a live block takes it off the board and leaves it on fire where it is
/// and as big as it is, for 45 hundredths of a second and the longer the bigger it
/// is. The count of blocks falls by one and that of destroyed ones rises by one. No
/// other block is touched, nor the ball, the paddle, or what was caught. The last
/// block wins the game.
pub proof fn a_struck_block_burns(w: World, i: int)
    requires
        w.wf(),
        0 <= i < CELLS,
        w.blocks[i].alive,
    ensures
        ({
            let v = w.struck(i);
            let a = w.blocks[i];
            let b = v.blocks[i];
            &&& v.blocks.len() == CELLS
            &&& !b.alive && b.span == a.span && b.airway == a.airway
            &&& b.burn == b.burn_full && b.burn.finite()
            &&& within(1000 * b.burn.value(), (315 + 135 * a.span) * pow2(149), 20_000 * hair())
            &&& forall|j: int| 0 <= j < CELLS && j != i ==> #[trigger] v.blocks[j] == w.blocks[j]
            &&& v.alive_count == w.alive_count - 1
            &&& v.destroyed == w.destroyed + 1
            &&& v.won == (w.won || w.alive_count == 1)
            &&& v.ball == w.ball && v.cig_x == w.cig_x && v.lost == w.lost
            &&& v.caught_seq == w.caught_seq && v.caught == w.caught && v.copd == w.copd
            &&& v.pierce == w.pierce && v.radiologist == w.radiologist
            &&& v.bounces == w.bounces && v.elapsed == w.elapsed
        }),
{
    reveal(World::struck);
    w.burning_keeps_the_board(i, Single::zero_spec());
    lemma_zero(Single::zero_spec());
    lemma_pow2_pos(149);
    a_burn_is_as_long_as_the_block_is_big(w.blocks[i].span, Single::zero_spec());
}

/// A tick in which nothing is caught breaks just the blocks that the ball struck on
/// its way: every other block that lived lives, as big as it was. Where the paddle
/// returns the ball, that is counted and what lasts for returns is spent by one;
/// where it does not, nothing is, and the ball is where its way took it.
pub proof fn a_tick_breaks_just_what_it_struck(w: World, dt: Single)
    requires
        w.wf(),
        is_uncaught(w, dt.min_spec(longest_tick())),
    ensures
        ({
            let v = w.ticked(dt);
            let f = w.flight(dt.min_spec(longest_tick()));
            let back = meets_paddle_spec(f.ball, w.cig_x);
            &&& v.hits == f.hits
            &&& v.caught_seq == w.caught_seq && v.cig_x == w.cig_x
            &&& !back ==> {
                &&& v.ball == f.ball
                &&& v.pierce == w.pierce && v.radiologist == w.radiologist
                &&& v.bounces == w.bounces
            }
            &&& back ==> {
                &&& v.ball == paddle_return_spec(f.ball, w.cig_x)
                &&& v.pierce + 1 == w.pierce || (v.pierce == 0 && w.pierce == 0)
                &&& v.radiologist + 1 == w.radiologist || (v.radiologist == 0 && w.radiologist
                    == 0)
                &&& v.bounces == w.bounces + 1 || (v.bounces == 0 && w.bounces == u32::MAX)
            }
            &&& forall|i: int|
                #![trigger v.blocks[i]]
                0 <= i < CELLS ==> {
                    &&& v.blocks[i].alive <==> w.blocks[i].alive && !f.hits.contains(i as usize)
                    &&& v.blocks[i].alive ==> v.blocks[i].span == w.blocks[i].span
                }
        }),
{
    let d = dt.min_spec(longest_tick());
    let v = w.ticked(dt);
    let f = w.flight(d);
    lemma_uncaught(w, dt);
    assert forall|i: int| #![trigger v.blocks[i]] 0 <= i < CELLS implies {
        &&& v.blocks[i].alive <==> w.blocks[i].alive && !f.hits.contains(i as usize)
        &&& v.blocks[i].alive ==> v.blocks[i].span == w.blocks[i].span
    } by {
        assert(in_the_way(w.blocks, f.hits, i) == in_the_way(v.blocks, Seq::empty(), i));
    }
}

/// A carton of cigarettes is five merges, one after the other.
pub proof fn a_carton_merges_five_times(w: World)
    requires
        w.wf(),
    ensures
        ({
            let v = w.applied(Kind::Cigarettes);
            let m = w.merged_once().merged_once().merged_once().merged_once().merged_once();
            &&& v.blocks == m.blocks && v.rng == m.rng && v.copd == m.copd
            &&& v.alive_count == m.alive_count
            &&& v.pierce == w.pierce && v.radiologist == w.radiologist
            &&& v.asbestos_caught == w.asbestos_caught
        }),
{
    reveal(World::applied);
    let a = World { caught: Some(Kind::Cigarettes), caught_seq: bumped(w.caught_seq), ..w };
    lemma_same_merge(a, w);
    let (a1, w1) = (a.merged_once(), w.merged_once());
    lemma_same_merge(a1, w1);
    let (a2, w2) = (a1.merged_once(), w1.merged_once());
    lemma_same_merge(a2, w2);
    let (a3, w3) = (a2.merged_once(), w2.merged_once());
    lemma_same_merge(a3, w3);
    let (a4, w4) = (a3.merged_once(), w3.merged_once());
    lemma_same_merge(a4, w4);
    assert(a.merged_times(0) == a);
    assert(a.merged_times(1) == a1);
    assert(a.merged_times(2) == a2);
    assert(a.merged_times(3) == a3);
    assert(a.merged_times(4) == a4);
    lemma_merge_frame(a, 5);
}

/// A merge goes by the board, the disease and the generator alone.
proof fn lemma_same_merge(a: World, b: World)
    requires
        a.blocks == b.blocks,
        a.rng == b.rng,
        a.copd == b.copd,
        a.alive_count == b.alive_count,
    ensures
        a.merged_once().blocks == b.merged_once().blocks,
        a.merged_once().rng == b.merged_once().rng,
        a.merged_once().copd == b.merged_once().copd,
        a.merged_once().alive_count == b.merged_once().alive_count,
{
    reveal(World::merged_once);
}

/// What the other pickups do: a fibre charges the ball for four returns and is
/// counted; a radiologist sets to work for one; neither touches the board, the
/// disease or the other.
pub proof fn a_fibre_and_a_radiologist_leave_the_board(w: World)
    ensures
        ({
            let a = w.applied(Kind::Asbestos);
            let r = w.applied(Kind::Radiologist);
            &&& a == (World {
                pierce: 4,
                asbestos_caught: bumped(w.asbestos_caught),
                caught: Some(Kind::Asbestos),
                caught_seq: bumped(w.caught_seq),
                ..w
            })
            &&& r == (World {
                radiologist: 1,
                caught: Some(Kind::Radiologist),
                caught_seq: bumped(w.caught_seq),
                ..w
            })
        }),
{
    reveal(World::applied);
}

/// A merge turns a square of untouched cells, two to four a side, into one live
/// block over all of them. The others of the square are gone, and not on fire. No
/// cell outside the square is touched. Without such a square nothing is.
pub proof fn a_merge_makes_one_sac(w: World)
    requires
        w.wf(),
    ensures
        ({
            let v = w.merged_once();
            ||| v == (World { rng: v.rng, ..w })
            ||| exists|c: int, r: int, n: int|
                {
                    &&& 2 <= n <= w.merge_span_spec()
                    &&& 0 <= c && c + n <= 40 && 0 <= r && r + n <= 24
                    &&& v.blocks.len() == CELLS
                    &&& v.alive_count == w.alive_count - (n * n - 1)
                    &&& #[trigger] is_merge_of(w.blocks, v.blocks, c, r, n)
                }
        }),
{
    reveal(World::merged_once);
    let span = w.merge_span_spec();
    lemma_find(w.blocks, w.rng, span);
    if let Some(p) = find_patch_spec(w.blocks, w.rng, span).0 {
        let v = w.merged_once();
        let (c, r, n) = (p.col as int, p.row as int, p.span as int);
        merging_frees_all_cells_but_one(w.blocks, p);
        assert forall|i: int| 0 <= i < CELLS && c <= col_of(i) < c + n && r <= row_of(i) < r
            + n implies (#[trigger] w.blocks[i]).alive && w.blocks[i].span == 1 by {
            assert(p.has(i));
        }
        assert(is_merge_of(w.blocks, v.blocks, c, r, n));
        assert(p.span * p.span == n * n);
    }
}

/// One board is another after a square of it has merged.
pub open spec fn is_merge_of(a: Seq<Block>, b: Seq<Block>, c: int, r: int, n: int) -> bool {
    forall|i: int|
        #![trigger b[i]]
        #![trigger a[i]]
        0 <= i < CELLS ==> {
            let within = c <= col_of(i) < c + n && r <= row_of(i) < r + n;
            &&& !within ==> b[i] == a[i]
            &&& within ==> a[i].alive && a[i].span == 1
            &&& within && col_of(i) == c && row_of(i) == r ==> b[i] == (Block {
                span: n as u8,
                ..a[i]
            })
            &&& within && !(col_of(i) == c && row_of(i) == r) ==> b[i] == (Block {
                alive: false,
                ..a[i]
            })
        }
}

/// A second barren rally sends a radiologist, from the top of the grid, over the
/// paddle, but no nearer to a side than forty pixels.
pub proof fn help_comes_down_over_the_paddle(w: World)
    requires
        w.barren == 1,
        !w.broke_since_bounce,
        w.pickup is None,
        w.cig_x.finite(),
    ensures
        w.returned().pickup matches Some(p) && {
            let t = pow2(149);
            &&& p.kind == Kind::Radiologist
            &&& p.y == Single::whole_spec(70)
            &&& p.x.finite()
            &&& 40 * t <= w.cig_x.value() <= 560 * t ==> p.x == w.cig_x
            &&& w.cig_x.value() < 40 * t ==> p.x.value() == 40 * t
            &&& w.cig_x.value() > 560 * t ==> p.x.value() == 560 * t
        },
        w.returned().bounces == bumped(w.bounces),
{
    reveal(World::returned);
    lemma_whole(40);
    lemma_whole(560);
    lemma_value_order(w.cig_x, Single::whole_spec(40));
    lemma_value_order(Single::whole_spec(560), w.cig_x);
}

/// The paddle goes where it is moved to, as far as it fits: from 45 to 555.
/// Nothing else of the game changes.
pub proof fn the_paddle_goes_where_it_is_moved(w: World, x: Single)
    requires
        x.finite(),
    ensures
        ({
            let t = pow2(149);
            let c = w.aimed(x).cig_x;
            &&& 45 * t <= x.value() <= 555 * t ==> c == x
            &&& x.value() < 45 * t ==> c.value() == 45 * t
            &&& x.value() > 555 * t ==> c.value() == 555 * t
            &&& w.aimed(x) == (World { cig_x: c, ..w })
        }),
{
    lemma_whole(45);
    lemma_whole(555);
    lemma_value_order(x, Single::whole_spec(45));
    lemma_value_order(Single::whole_spec(555), x);
}

/// While a game is on, a tick adds its time to the clock, no more than a twentieth
/// of a second; and the ball is lost just when it is below the field: with its upper
/// edge, that is, for what lies within a thousandth of a pixel aside.
pub proof fn a_tick_runs_the_clock_and_tells_a_loss(w: World, dt: Single)
    requires
        w.wf(),
        !w.lost,
        !w.won,
    ensures
        ({
            let t = pow2(149);
            let v = w.ticked(dt);
            let y = v.ball.y;
            &&& v.elapsed == w.elapsed.plus_spec(dt.min_spec(longest_tick()))
            &&& y.finite() && y.value() <= 807 * t ==> !v.lost
            &&& y.finite() && 807 * t + pow2(139) <= y.value() <= 2000 * t ==> v.lost
        }),
{
    let d = dt.min_spec(longest_tick());
    let c = w.cooled(d);
    assert(c == (World { blocks: c.blocks, ..w })) by {
        reveal(World::cooled);
    }
    w.cooling_keeps_the_board(d);
    lemma_played(c, d);
    lemma_clock(c, d);
    let y = w.ticked(dt).ball.y;
    if y.finite() {
        lemma_under_the_field(y);
    }
}

/// The clock runs for the time of the tick.
proof fn lemma_clock(w: World, d: Single)
    requires
        w.wf(),
    ensures
        w.played(d).elapsed == w.elapsed.plus_spec(d),
{
    reveal(World::played);
    let e = World { elapsed: w.elapsed.plus_spec(d), ..w };
    let a = e.fallen(d);
    assert(a.elapsed == e.elapsed) by {
        reveal(World::fallen);
        if let Some(p) = e.pickup {
            a_catch_is_recorded(e, dropped(p, d).kind);
        }
    }
    let f = a.flight(d);
    let h = World { hits: f.hits, ..a };
    assert(h.returned().elapsed == h.elapsed) by {
        reveal(World::returned);
    }
    lemma_struck_clock(h, f.hits, f.hits.len());
    lemma_struck_clock(h.returned(), f.hits, f.hits.len());
}

/// Hits take no time.
proof fn lemma_struck_clock(w: World, hits: Seq<usize>, n: nat)
    ensures
        w.struck_all(hits, n).elapsed == w.elapsed,
    decreases n,
{
    reveal(World::struck);
    if n > 0 {
        lemma_struck_clock(w, hits, (n - 1) as nat);
    }
}

/// Whether a ball is below the field.
proof fn lemma_under_the_field(y: Single)
    requires
        y.finite(),
    ensures
        ({
            let under = Single::whole_spec(800).lt_spec(y.minus_spec(Single::whole_spec(7)));
            &&& y.value() <= 807 * pow2(149) ==> !under
            &&& 807 * pow2(149) + pow2(139) <= y.value() <= 2000 * pow2(149) ==> under
        }),
{
    let t = pow2(149);
    let r = Single::whole_spec(7);
    lemma_whole(7);
    lemma_whole(800);
    lemma_pow2_pos(137);
    lemma_pow2_adds(2, 137);
    lemma_pow2_adds(12, 137);
    lemma2_to64();
    if y.value() <= 807 * t {
        lemma_side(y, r, 800);
    } else if y.value() <= 2000 * t {
        lemma_minus_off(y, r, 137);
        lemma_value_order(Single::whole_spec(800), y.minus_spec(r));
    }
}

/// A share named in hundredths, within a hair.
pub proof fn lemma_named(n: nat, d: nat)
    requires
        0 < d,
        n <= d,
    ensures
        Single::ratio_spec(n, d).finite(),
        !Single::ratio_spec(n, d).neg(),
        within((d * Single::ratio_spec(n, d).size()) as int, (n * pow2(149)) as int, d * hair()),
        Single::ratio_spec(n, d).size() <= pow2(149),
{
    let t = pow2(149);
    lemma_hair();
    lemma_mul_inequality(n as int, d as int, t as int);
    lemma_mul_is_commutative(d as int, t as int);
    lemma_rounded_off(n * t, d, 125);
    lemma_mul_is_commutative(d as int, Single::ratio_spec(n, d).size() as int);
    lemma_mul_is_commutative(d as int, hair() as int);
}

/// A product with a whole number up to four.
proof fn lemma_so_many(c: Single, n: nat)
    requires
        c.finite(),
        c.size() <= pow2(149),
        n <= 4,
    ensures
        c.times_spec(Single::whole_spec(n)).finite(),
        within(c.times_spec(Single::whole_spec(n)).value(), c.value() * n, 4 * hair()),
{
    let t = pow2(149);
    let m = c.times_spec(Single::whole_spec(n));
    lemma_hair();
    lemma_whole(n);
    assert(c.size() * (n * t) <= (0x100_0000 * pow2(127)) * t) by {
        lemma_mul_inequality(n as int, 4, t as int);
        lemma_mul_upper_bound(c.size() as int, t as int, (n * t) as int, (4 * t) as int);
        lemma_mul_is_commutative(t as int, (4 * t) as int);
    }
    lemma_times_off(c, Single::whole_spec(n), 127);
    assert(c.value() * (n * t) == (c.value() * n) * t) by (nonlinear_arith);
    lemma_mul_is_associative(4, hair() as int, t as int);
    lemma_drop(m.value(), c.value() * n, (4 * hair()) as int, t as int);
    lemma_drop(c.value() * n, m.value(), (4 * hair()) as int, t as int);
}

/// How long a block burns: 45 hundredths of a second for one cell, 135 thousandths
/// more for every further cell of its side, and the delay.
pub proof fn a_burn_is_as_long_as_the_block_is_big(span: u8, extra: Single)
    requires
        1 <= span <= 4,
        extra.finite(),
        0 <= extra.value() <= 2 * pow2(149),
    ensures
        ({
            let b = burn_time_spec(span, extra);
            &&& b.finite()
            &&& within(
                1000 * b.value(),
                (315 + 135 * span) * pow2(149) + 1000 * extra.value(),
                20_000 * hair(),
            )
            &&& Single::zero_spec().lt_spec(b)
        }),
{
    let t = pow2(149);
    let h = hair();
    let n = span as nat;
    lemma_hair();
    lemma_named(45, 100);
    lemma_named(7, 10);
    lemma_named(3, 10);
    let a = Single::ratio_spec(45, 100);
    let c = Single::ratio_spec(3, 10);
    let s = c.times_spec(Single::whole_spec(n));
    lemma_so_many(c, n);
    lemma_up_to_four(c.value(), n);
    lemma_up_to_four(t as int, n);
    lemma_plus_off(Single::ratio_spec(7, 10), s, 126);
    let k = Single::ratio_spec(7, 10).plus_spec(s);
    let m = a.times_spec(k);
    assert(a.size() * k.size() <= (0x100_0000 * pow2(126)) * t) by {
        lemma_mul_upper_bound(a.size() as int, t as int, k.size() as int, (2 * t) as int);
        lemma_mul_is_commutative(t as int, (2 * t) as int);
    }
    lemma_times_off(a, k, 126);
    assert((7 + 3 * n) * t == 7 * t + 3 * (t * n)) by (nonlinear_arith);
    lemma_burn_product(a.value(), k.value(), m.value(), n, t, h);
    lemma_plus_off(m, extra, 127);
    lemma_zero(Single::zero_spec());
    lemma_value_order(Single::zero_spec(), m.plus_spec(extra));
    assert((315 + 135 * n) * t == 315 * t + 135 * (t * n)) by (nonlinear_arith);
}

/// A product with one, two, three or four.
proof fn lemma_up_to_four(x: int, n: nat)
    requires
        1 <= n <= 4,
        x >= 0,
    ensures
        x <= x * n <= 4 * x,
        n == 1 ==> x * n == x,
        n == 2 ==> x * n == 2 * x,
        n == 3 ==> x * n == 3 * x,
        n == 4 ==> x * n == 4 * x,
{
    lemma_mul_inequality(1, n as int, x);
    lemma_mul_inequality(n as int, 4, x);
    lemma_mul_is_commutative(x, n as int);
}

/// The product of the two parts of a burn.
proof fn lemma_burn_product(a: int, k: int, m: int, n: nat, t: nat, h: nat)
    requires
        1 <= n <= 4,
        t == 0x100_0000 * h,
        h > 0,
        0 <= a <= t,
        0 <= k <= 2 * t,
        within(100 * a, (45 * t) as int, 100 * h),
        within(10 * k, ((7 + 3 * n) * t) as int, 120 * h),
        within(m * t, a * k, (2 * h) * t),
    ensures
        within(1000 * m, ((315 + 135 * n) * t) as int, 10_000 * h),
{
    let e = 7 + 3 * n;
    // a k against 45 e t t
    let da = 100 * a - 45 * t;
    let dk = 10 * k - e * t;
    lemma_bounds(da, k, 100 * h, 2 * t);
    lemma_bounds((45 * t) as int, dk, 45 * t, 120 * h);
    assert(da * (10 * k) + (45 * t) * dk == 1000 * (a * k) - (45 * e) * (t * t))
        by (nonlinear_arith)
        requires
            da == 100 * a - 45 * t,
            dk == 10 * k - e * t,
    ;
    assert(da * (10 * k) == 10 * (da * k)) by (nonlinear_arith);
    assert((100 * h) * (2 * t) == 200 * (h * t)) by (nonlinear_arith);
    assert((45 * t) * (120 * h) == 5400 * (h * t)) by (nonlinear_arith);
    assert((2 * h) * t == 2 * (h * t)) by (nonlinear_arith);
    assert((45 * e) * (t * t) == ((315 + 135 * n) * t) * t) by (nonlinear_arith)
        requires
            e == 7 + 3 * n,
    ;
    assert((10_000 * h) * t == 10_000 * (h * t)) by (nonlinear_arith);
    assert((1000 * m) * t == 1000 * (m * t)) by (nonlinear_arith);
    lemma_mul_nonnegative(h as int, t as int);
    lemma_drop(1000 * m, ((315 + 135 * n) * t) as int, (10_000 * h) as int, t as int);
    lemma_drop(((315 + 135 * n) * t) as int, 1000 * m, (10_000 * h) as int, t as int);
}

/// A burn goes down by the time that passes, to nothing at last.
pub proof fn a_burn_goes_down_with_time(b: Block, dt: Single)
    requires
        b.burn.finite(),
        dt.finite(),
        0 <= dt.value() <= pow2(149),
        0 < b.burn.value() <= 4 * pow2(149),
    ensures
        ({
            let left = b.burn.value() - dt.value();
            let after = cooled(b, dt).burn;
            &&& after.finite()
            &&& left >= 0 ==> within(after.value(), left, 4 * hair())
            &&& left <= 0 ==> after.value() == 0
            &&& cooled(b, dt) == (Block { burn: after, ..b })
        }),
{
    let zero = Single::zero_spec();
    lemma_hair();
    lemma_zero(zero);
    lemma_value_order(zero, b.burn);
    lemma_minus_off(b.burn, dt, 127);
    let d = b.burn.minus_spec(dt);
    lemma_value_order(d, zero);
    lemma_negated(dt);
    if b.burn.value() <= dt.value() {
        lemma_plus_order(b.burn, dt.negated_spec(), zero, zero);
        lemma_plus_exact(zero, zero, zero);
        lemma_value_order(zero.plus_spec(zero), zero);
    } else {
        lemma_plus_order(zero, zero, b.burn, dt.negated_spec());
        lemma_plus_exact(zero, zero, zero);
        lemma_value_order(zero, zero.plus_spec(zero));
    }
}

/// The disease advances by fifteen hundredths with a collapse and by five with a
/// merge that lands, up to one.
pub proof fn the_disease_advances_by_steps(w: World)
    requires
        w.copd.finite(),
        0 <= w.copd.value() <= pow2(149),
    ensures
        ({
            let t: int = pow2(149) as int;
            let c = 100 * w.copd.value();
            let a = w.collapsed().copd;
            let m = w.merged_once().copd;
            &&& c + 15 * t <= 99 * t ==> within(100 * a.value(), c + 15 * t, 400 * hair())
            &&& c + 15 * t >= 101 * t ==> a.value() == t
            &&& w.merged_once().blocks != w.blocks && c + 5 * t <= 99 * t ==> within(
                100 * m.value(),
                c + 5 * t,
                400 * hair(),
            )
            &&& w.merged_once().blocks != w.blocks && c + 5 * t >= 101 * t ==> m.value() == t
        }),
{
    reveal(World::collapsed);
    reveal(World::merged_once);
    lemma_step_up(w.copd, 15);
    lemma_step_up(w.copd, 5);
}

/// A step of the disease.
proof fn lemma_step_up(c: Single, n: nat)
    requires
        c.finite(),
        0 <= c.value() <= pow2(149),
        n == 5 || n == 15,
    ensures
        ({
            let t: int = pow2(149) as int;
            let d = c.plus_spec(Single::ratio_spec(n, 100)).min_spec(Single::whole_spec(1));
            let e = 100 * c.value() + n * t;
            &&& e <= 99 * t ==> within(100 * d.value(), e, 400 * hair())
            &&& e >= 101 * t ==> d.value() == t
        }),
{
    let one = Single::whole_spec(1);
    lemma_hair();
    lemma_whole(1);
    lemma_named(n, 100);
    lemma_plus_off(c, Single::ratio_spec(n, 100), 126);
    lemma_value_order(one, c.plus_spec(Single::ratio_spec(n, 100)));
}

/// The largest side that merges: two in a lung that is hardly diseased, three from a
/// quarter on, and four from 55 hundredths on, but for what lies within a hair of
/// those.
pub proof fn sacs_grow_with_the_disease(w: World)
    requires
        w.copd.finite(),
        0 <= w.copd.value() <= pow2(149),
    ensures
        ({
            let t: int = pow2(149) as int;
            let c = 100 * w.copd.value();
            let n = w.merge_span_spec();
            &&& c <= 25 * t - 200 * hair() ==> n == 2
            &&& 25 * t + 200 * hair() <= c <= 55 * t - 200 * hair() ==> n == 3
            &&& c >= 55 * t + 200 * hair() ==> n == 4
            &&& 2 <= n <= 4
        }),
{
    lemma_hair();
    lemma_named(25, 100);
    lemma_named(55, 100);
    lemma_value_order(Single::ratio_spec(25, 100), w.copd);
    lemma_value_order(Single::ratio_spec(55, 100), w.copd);
}

/// The cells of a half of the grid that hold a live block, counted.
pub open spec fn living_half(b: Seq<Block>, left: bool) -> nat {
    tally(CELLS as nat, |i: int| b[i].alive && (col_of(i) < 20) == left)
}

/// A pneumothorax takes the half of the lungs with more live blocks, the left one
/// where they have as many, and only that half: all that lived there burns, and
/// what lived on the other half lives on.
pub proof fn a_pneumothorax_takes_the_fuller_half(w: World, i: int)
    requires
        w.wf(),
        0 <= i < CELLS,
    ensures
        ({
            let v = w.applied(Kind::Pneumothorax);
            let left = living_half(w.blocks, true) >= living_half(w.blocks, false);
            let taken = (col_of(i) < 20) == left;
            &&& v.blocks.len() == CELLS
            &&& taken ==> !v.blocks[i].alive
            &&& !taken ==> v.blocks[i] == w.blocks[i]
            &&& taken && w.blocks[i].alive ==> {
                &&& v.blocks[i].span == w.blocks[i].span
                &&& v.blocks[i].burn == v.blocks[i].burn_full
                &&& Single::zero_spec().lt_spec(v.blocks[i].burn)
            }
            &&& v.pierce == w.pierce && v.radiologist == w.radiologist && v.rng == w.rng
        }),
{
    reveal(World::applied);
    reveal(World::collapsed);
    let a = World {
        caught: Some(Kind::Pneumothorax),
        caught_seq: bumped(w.caught_seq),
        ..w
    };
    let f = |j: int| w.blocks[j].alive && (col_of(j) < 20) == true;
    let g = |j: int| w.blocks[j].alive && (col_of(j) < 20) == false;
    lemma_tally_same(CELLS as nat, f, is_alive_on(w.blocks, true));
    lemma_tally_same(CELLS as nat, g, is_alive_on(w.blocks, false));
    a_collapse_takes_one_side(a);
    if is_alive_on(a.blocks, a.fuller_side())(i) {
        a_collapse_sets_fire(a, i);
    }
}

/// The ball is served on the midline, from the middle of a row, down and a little to
/// the right; and where the board has a row from the carina down in which nothing is
/// in its way, it overlaps no live block.
pub proof fn a_serve_is_clear(w: World, i: int)
    requires
        w.wf(),
        0 <= i < CELLS,
        exists|r: int| 4 <= r < 24 && #[trigger] clear_row(w.blocks, r),
    ensures
        ({
            let t = pow2(149);
            let s = w.served().ball;
            let n = w.blocks[i].span as int;
            let x0 = 40 + 13 * col_of(i);
            let y0 = 70 + 13 * row_of(i);
            &&& s.x.finite() && s.x.value() == 300 * t
            &&& s.y.finite()
            &&& s.vx == Single::whole_spec(90) && s.vy == Single::whole_spec(300)
            &&& w.blocks[i].alive ==> {
                ||| s.x.value() + 7 * t <= x0 * t
                ||| s.x.value() - 7 * t >= (x0 + 13 * n) * t
                ||| s.y.value() + 7 * t <= y0 * t
                ||| s.y.value() - 7 * t >= (y0 + 13 * n) * t
            }
            &&& w.served() == (World { ball: s, ..w })
        }),
{
    let t: int = pow2(149) as int;
    let h: int = pow2(148) as int;
    let r = choose|r: int| 4 <= r < 24 && #[trigger] clear_row(w.blocks, r);
    lemma_finds_clear(w.blocks, 4, r as nat);
    let row = serve_row_spec(w.blocks) as int;
    let m: nat = (2 * (70 + 13 * row) + 13) as nat;
    lemma_whole(300);
    lemma_half(m);
    lemma_pow2_adds(1, 148);
    lemma2_to64();
    lemma_pow2_pos(148);
    assert(!blocks_serve(w.blocks, row, i));
    let x0 = 40 + 13 * col_of(i);
    let y0 = 70 + 13 * row_of(i);
    let n = w.blocks[i].span as int;
    assert(w.served().ball.y == Single::ratio_spec(m, 2));
    if w.blocks[i].alive {
        if x0 >= 307 {
            lemma_mul_inequality(307, x0, t);
        }
        lemma_edge(m as int, y0, h, t);
        lemma_edge(m as int, y0 + 13 * n, h, t);
        if x0 + 13 * n <= 293 {
            lemma_mul_inequality(x0 + 13 * n, 293, t);
        }
    }
}

/// A height in halves against one in wholes.
proof fn lemma_edge(m: int, n: int, h: int, t: int)
    requires
        t == 2 * h,
        h > 0,
    ensures
        m + 14 <= 2 * n ==> m * h + 7 * t <= n * t,
        m - 14 >= 2 * n ==> m * h - 7 * t >= n * t,
{
    assert(n * t == (2 * n) * h) by (nonlinear_arith)
        requires
            t == 2 * h,
    ;
    if m + 14 <= 2 * n {
        lemma_mul_inequality(m + 14, 2 * n, h);
        lemma_mul_is_distributive_add_other_way(h, m, 14);
    }
    if m - 14 >= 2 * n {
        lemma_mul_inequality(2 * n, m - 14, h);
        lemma_mul_is_distributive_sub_other_way(h, m, 14);
    }
}

/// A clear row is found where there is one.
proof fn lemma_finds_clear(b: Seq<Block>, row: nat, r: nat)
    requires
        row <= r < 24,
        clear_row(b, r as int),
    ensures
        first_clear_row(b, row) matches Some(k) && k < 24 && clear_row(b, k as int),
    decreases r - row,
{
    if !clear_row(b, row as int) {
        lemma_finds_clear(b, row + 1, r);
    }
}

/// A cell lies at the edge of the grid, or a cell beside it, over it or under it has
/// no live block.
pub open spec fn has_a_gap_beside(b: Seq<Block>, i: int) -> bool {
    ||| col_of(i) == 0 || col_of(i) == 39 || row_of(i) == 0 || row_of(i) == 23
    ||| !b[i - 1].alive || !b[i + 1].alive || !b[i - 40].alive || !b[i + 40].alive
}

/// The scatter level is the share of the live blocks that have a gap beside their
/// cell, within a hair; with none left it is one.
pub proof fn scatter_is_the_share_with_a_gap(b: Seq<Block>)
    requires
        b.len() == CELLS,
    ensures
        ({
            let n = tally(CELLS as nat, |i: int| b[i].alive);
            let e = tally(CELLS as nat, |i: int| b[i].alive && has_a_gap_beside(b, i));
            let s = scatter_spec(b);
            &&& n == 0 ==> s == Single::whole_spec(1)
            &&& n > 0 ==> s.finite() && within(
                n * s.value(),
                (e * pow2(149)) as int,
                n * hair(),
            )
        }),
{
    let t = pow2(149);
    let f = |i: int| b[i].alive;
    let g = |i: int| b[i].alive && has_a_gap_beside(b, i);
    let n = tally(CELLS as nat, f);
    let e = tally(CELLS as nat, g);
    lemma_tally_same(CELLS as nat, f, is_alive(b));
    assert forall|i: int| 0 <= i < CELLS implies #[trigger] g(i) == is_exposed(b)(i) by {
        lemma_open(b, i);
    }
    lemma_tally_same(CELLS as nat, g, is_exposed(b));
    lemma_tally_order(CELLS as nat, g, f);
    if n > 0 {
        let x = Single::whole_spec(e);
        let y = Single::whole_spec(n);
        lemma_hair();
        lemma_whole(e);
        lemma_whole(n);
        lemma_mul_inequality(e as int, n as int, t as int);
        lemma_mul_strictly_positive(n as int, t as int);
        assert(x.size() * t <= (0x100_0000 * pow2(125)) * y.size()) by {
            lemma_mul_inequality((e * t) as int, (n * t) as int, t as int);
            lemma_mul_is_commutative((n * t) as int, t as int);
        }
        lemma_over_off(x, y, 125);
        let s = x.over_spec(y).value();
        assert(s * (n * t) == (n * s) * t) by (nonlinear_arith);
        assert(hair() * (n * t) == (n * hair()) * t) by (nonlinear_arith);
        lemma_drop(n * s, (e * t) as int, (n * hair()) as int, t as int);
        lemma_drop((e * t) as int, n * s, (n * hair()) as int, t as int);
    }
}

/// A cell has a gap beside it where a face of it is open.
proof fn lemma_open(b: Seq<Block>, i: int)
    requires
        b.len() == CELLS,
        0 <= i < CELLS,
    ensures
        is_open(b, i) == has_a_gap_beside(b, i),
{
    let c = col_of(i);
    let r = row_of(i);
    assert(cell_at(c, r) == i);
    assert(cell_at(c - 1, r) == i - 1 && cell_at(c + 1, r) == i + 1);
    assert(cell_at(c, r - 1) == i - 40 && cell_at(c, r + 1) == i + 40);
}

/// Every cell of a square holds a live block of its own.
pub open spec fn is_untouched(b: Seq<Block>, c: int, r: int, n: int) -> bool {
    forall|i: int|
        #![trigger b[i]]
        0 <= i < CELLS && c <= col_of(i) < c + n && r <= row_of(i) < r + n ==> b[i].alive
            && b[i].span == 1
}

/// A merge lands at random: it tries the square that the next number of the
/// generator gives first, at the largest side that the disease allows, and takes it
/// if it is untouched.
pub proof fn a_merge_lands_where_the_generator_says(w: World)
    requires
        w.wf(),
    ensures
        ({
            let n = w.merge_span_spec() as int;
            let x = xorshift(w.rng) as int;
            let c = x % (40 - n);
            let r = (x / 40) % (24 - n);
            let v = w.merged_once();
            is_untouched(w.blocks, c, r, n) ==> {
                &&& is_merge_of(w.blocks, v.blocks, c, r, n)
                &&& v.rng == xorshift(w.rng)
            }
        }),
{
    reveal(World::merged_once);
    let n = w.merge_span_spec();
    let x = xorshift(w.rng) as int;
    let c = x % (40 - n);
    let r = (x / 40) % (24 - n);
    if is_untouched(w.blocks, c, r, n as int) {
        let p = probe_spec(w.rng, n, 0);
        assert(xorshift_at(w.rng, 0) == w.rng);
        assert(xorshift_at(w.rng, 1) == xorshift(w.rng));
        assert(p.col == c && p.row == r && p.span == n);
        assert(clean(w.blocks, p)) by {
            assert forall|i: int| #![trigger w.blocks[i]] 0 <= i < w.blocks.len() && p.has(
                i,
            ) implies w.blocks[i].alive && w.blocks[i].span == 1 by {}
        }
        assert(first_clean(w.blocks, w.rng, n, 0) == 0);
        assert(find_patch_spec(w.blocks, w.rng, n).0 == Some(p));
        lemma_find(w.blocks, w.rng, n);
        assert(is_merge_of(w.blocks, w.merged_once().blocks, c, r, n as int));
    }
}

/// A return while something falls sends nothing more, and keeps the count of barren
/// rallies for when nothing does.
pub proof fn help_waits_for_what_falls(w: World)
    requires
        w.pickup is Some,
    ensures
        w.returned().pickup == w.pickup,
        !w.broke_since_bounce ==> w.returned().barren == bumped(w.barren),
        w.broke_since_bounce ==> w.returned().barren == 0,
        !w.returned().broke_since_bounce,
{
    reveal(World::returned);
}

/// A return touches neither the board nor the ball, and nothing that was caught.
pub proof fn a_return_leaves_the_board(w: World)
    ensures
        ({
            let v = w.returned();
            &&& v.blocks == w.blocks && v.ball == w.ball && v.cig_x == w.cig_x
            &&& v.caught == w.caught && v.caught_seq == w.caught_seq && v.copd == w.copd
            &&& v.alive_count == w.alive_count && v.destroyed == w.destroyed
            &&& v.rng == w.rng && v.spawn_counter == w.spawn_counter
            &&& v.lost == w.lost && v.won == w.won && v.elapsed == w.elapsed
        }),
{
    reveal(World::returned);
}

/// A block that is gone is left alone.
pub proof fn what_is_gone_does_not_burn_again(w: World, i: int, extra: Single)
    requires
        0 <= i < w.blocks.len(),
        !w.blocks[i].alive,
    ensures
        w.ignited(i, extra) == w,
{
}

/// What a tick breaks counts for the rally that follows its return: after a tick with
/// a hit the rally is not barren, whether the paddle returned the ball in it or not.
pub proof fn the_hits_of_a_tick_count(w: World, dt: Single)
    requires
        w.wf(),
        !w.lost,
        !w.won,
        w.ticked(dt).hits.len() > 0,
    ensures
        w.ticked(dt).broke_since_bounce,
{
    let d = dt.min_spec(longest_tick());
    let c = w.cooled(d);
    assert(c == (World { blocks: c.blocks, ..w })) by {
        reveal(World::cooled);
    }
    reveal(World::played);
    let a = World { elapsed: c.elapsed.plus_spec(d), ..c }.fallen(d);
    let f = a.flight(d);
    let h = World { hits: f.hits, ..a };
    assert(h.returned().hits == h.hits) by {
        reveal(World::returned);
    }
    lemma_struck_marks(h, f.hits, f.hits.len());
    lemma_struck_marks(h.returned(), f.hits, f.hits.len());
}

/// Hits are marked.
proof fn lemma_struck_marks(w: World, hits: Seq<usize>, n: nat)
    ensures
        n > 0 ==> w.struck_all(hits, n).broke_since_bounce,
        w.struck_all(hits, n).hits == w.hits,
    decreases n,
{
    reveal(World::struck);
    if n > 0 {
        lemma_struck_marks(w, hits, (n - 1) as nat);
    }
}

/// Burns run on while the ball is in play: in a tick in which nothing is caught, every
/// block that the ball does not strike is as it was but for its burn, which has gone
/// on for the time.
pub proof fn burns_run_on_in_play(w: World, dt: Single, i: int)
    requires
        w.wf(),
        0 <= i < CELLS,
        is_uncaught(w, dt.min_spec(longest_tick())),
        !w.ticked(dt).hits.contains(i as usize),
    ensures
        w.ticked(dt).blocks[i] == cooled(w.blocks[i], dt.min_spec(longest_tick())),
{
    let d = dt.min_spec(longest_tick());
    let c = w.cooled(d);
    a_tick_breaks_just_what_it_struck(w, dt);
    lemma_uncaught(w, dt);
    assert(c == (World { blocks: c.blocks, ..w }) && c.blocks.len() == CELLS && c.blocks[i]
        == cooled(w.blocks[i], d)) by {
        reveal(World::cooled);
    }
    reveal(World::played);
    let a = World { elapsed: c.elapsed.plus_spec(d), ..c }.fallen(d);
    assert(a.blocks == c.blocks && a.cig_x == w.cig_x) by {
        reveal(World::fallen);
    }
    let f = a.flight(d);
    let h = World { hits: f.hits, ..a };
    assert(h.returned().blocks == h.blocks && h.returned().hits == h.hits) by {
        reveal(World::returned);
    }
    lemma_struck_marks(h, f.hits, f.hits.len());
    lemma_struck_marks(h.returned(), f.hits, f.hits.len());
    assert(w.ticked(dt).hits == f.hits);
    a_ball_strikes_live_blocks_once(w, d);
    lemma_untouched(h, f.hits, f.hits.len(), i);
    lemma_untouched(h.returned(), f.hits, f.hits.len(), i);
}

/// A block that is not struck is not touched by hits.
proof fn lemma_untouched(w: World, hits: Seq<usize>, n: nat, i: int)
    requires
        w.blocks.len() == CELLS,
        n <= hits.len(),
        forall|k: int| 0 <= k < hits.len() ==> #[trigger] hits[k] < CELLS,
        0 <= i < CELLS,
        !hits.contains(i as usize),
    ensures
        w.struck_all(hits, n).blocks.len() == CELLS,
        w.struck_all(hits, n).blocks[i] == w.blocks[i],
    decreases n,
{
    reveal(World::struck);
    if n > 0 {
        lemma_untouched(w, hits, (n - 1) as nat, i);
        assert(hits[n - 1] != i as usize);
        assert(hits.contains(hits[n - 1]));
    }
}

/// What is caught works at once: a tick in which a fibre or a radiologist is caught is
/// the tick of a game in which it has been.
pub proof fn what_is_caught_works_at_once(w: World, dt: Single)
    requires
        w.wf(),
        !w.lost && !w.won,
        w.pickup matches Some(p) && (p.kind == Kind::Asbestos || p.kind == Kind::Radiologist)
            && is_caught(dropped(p, dt.min_spec(longest_tick())), w.cig_x),
    ensures
        w.pickup matches Some(p) ==> w.ticked(dt) == (World {
            pickup: None,
            ..w.applied(p.kind)
        }).ticked(dt),
{
    let d = dt.min_spec(longest_tick());
    let p = w.pickup->Some_0;
    let u = World { pickup: None, ..w.applied(p.kind) };
    reveal(World::cooled);
    reveal(World::applied);
    reveal(World::fallen);
    let a = w.cooled(d);
    let b = u.cooled(d);
    assert(a.blocks == b.blocks);
    let x = World { elapsed: a.elapsed.plus_spec(d), ..a }.fallen(d);
    let y = World { elapsed: b.elapsed.plus_spec(d), ..b }.fallen(d);
    assert(x =~= y);
    reveal(World::played);
}

/// A new game starts with the paddle in the middle, the lungs whole, nothing falling,
/// nothing caught, nothing counted, and the generator at its seed.
pub proof fn a_new_game_starts_over(i: int)
    requires
        0 <= i < CELLS,
    ensures
        ({
            let w = World::fresh();
            let zero = Single::zero_spec();
            &&& w.cig_x == Single::whole_spec(300)
            &&& w.pickup is None && w.caught is None && w.caught_seq == 0
            &&& w.pierce == 0 && w.radiologist == 0 && w.asbestos_caught == 0
            &&& w.bounces == 0 && w.barren == 0 && !w.broke_since_bounce && w.spawn_counter == 0
            &&& w.destroyed == 0 && w.alive_count == w.starting_alive
            &&& !w.lost && !w.won
            &&& w.copd == zero && w.elapsed == zero
            &&& w.rng == 0x2545F491
            &&& w.blocks[i].span == 1 && w.blocks[i].burn == zero
        }),
{
}

/// The numbers of the game: the field and what is in it, in pixels and in cells, how
/// often something drops, how long what is caught lasts, and how far a search, a tick,
/// a trace and a trail go.
pub proof fn the_numbers_of_the_game()
    ensures
        W == 600 && H == 800 && COLS == 40 && ROWS == 24 && CELLS == 960,
        CELL == 13 && GRID_X == 40 && GRID_Y == 70,
        CIG_W == 90 && CIG_H == 12 && CIG_Y == 760 && BALL_R == 7,
        PLEURA == 14 && WALL_L == 21 && WALL_R == 579 && WALL_TOP == 21,
        SPAWN_EVERY == 6 && PIERCE_BOUNCES == 4 && RADIOLOGIST_BOUNCES == 1,
        BARREN_BOUNCES == 2,
        PROBES == 96 && MOST_IMPACTS == 16 && MAX_BOUNCES == 160,
        MAX_TRAIL_DOTS == 512 && SPACING_PX == 15,
{
}

} // verus!
