//! What a scene shows, and where: read off the rectangles that are drawn.
use crate::board::{col_of, row_of, tally, Block};
use crate::scene::{
    block_instance, block_instances, burnt_spec, is_shown, segments, trail_spec, Instance,
};
use crate::distance::{hair, lemma_bounds, lemma_hair};
use crate::margin::{lemma_minus_off, lemma_over_off, lemma_rounded_off, within};
use crate::single::{
    lemma_negated, lemma_over_self, lemma_plus_exact, lemma_plus_order, lemma_value_order,
    lemma_whole, lemma_zero, Single,
};
use crate::world::World;
use crate::CELLS;
use vstd::arithmetic::mul::*;
use vstd::arithmetic::power2::*;
use vstd::prelude::*;

verus! {

/// The cells whose block is live or still burns.
pub open spec fn to_be_seen(b: Seq<Block>) -> spec_fn(int) -> bool {
    |i: int| b[i].alive || Single::zero_spec().lt_spec(b[i].burn) || b[i].burn.nan()
}

/// An instance lies on the cells that a block covers: so many pixels to a cell,
/// from the first of them on, as many across as down.
pub open spec fn lies_on(d: Instance, i: int, span: u8) -> bool {
    &&& d.x == Single::whole_spec((40 + 13 * col_of(i)) as nat)
    &&& d.y == Single::whole_spec((70 + 13 * row_of(i)) as nat)
    &&& d.w == Single::whole_spec((13 * span) as nat)
    &&& d.h == Single::whole_spec((13 * span) as nat)
}

/// Whole numbers are told apart.
proof fn lemma_apart(m: nat, n: nat)
    requires
        m < 16,
        n < 16,
    ensures
        Single::whole_spec(m) == Single::whole_spec(n) <==> m == n,
{
    let p = pow2(149);
    lemma_whole(m);
    lemma_whole(n);
    lemma_pow2_pos(149);
    if Single::whole_spec(m) == Single::whole_spec(n) {
        assert(m == n) by (nonlinear_arith)
            requires
                m * p == n * p,
                p > 0,
        ;
    }
}

/// Where a block is in the list of those that are drawn.
proof fn lemma_listed(b: Seq<Block>, n: nat, i: int)
    requires
        0 <= i < n,
        to_be_seen(b)(i),
    ensures
        tally(i as nat, to_be_seen(b)) < block_instances(b, n).len(),
        block_instances(b, n)[tally(i as nat, to_be_seen(b)) as int] == block_instance(b[i], i),
    decreases n,
{
    lemma_length(b, (n - 1) as nat);
    if i < n - 1 {
        lemma_listed(b, (n - 1) as nat, i);
    }
}

/// As many blocks are drawn as are to be seen.
proof fn lemma_length(b: Seq<Block>, n: nat)
    ensures
        block_instances(b, n).len() == tally(n, to_be_seen(b)),
    decreases n,
{
    if n > 0 {
        lemma_length(b, (n - 1) as nat);
        assert(is_shown(b[n - 1]) == to_be_seen(b)(n - 1));
    }
}

/// Every block that lives or burns is drawn, each in its turn after the three
/// strips of pleura, on the cells that it covers. Of the live ones those of the
/// airway are drawn under 5; of the others, those over more than one cell under 1
/// and those over one under 0. What burns is drawn under 6. What lives is drawn
/// as not burnt.
pub proof fn a_block_is_drawn_as_what_it_is(w: World, i: int)
    requires
        w.blocks.len() == CELLS,
        0 <= i < CELLS,
        to_be_seen(w.blocks)(i),
    ensures
        ({
            let b = w.blocks[i];
            let at = 3 + tally(i as nat, to_be_seen(w.blocks)) as int;
            let d = w.rebuilt().instances[at];
            &&& at < w.rebuilt().instances.len()
            &&& lies_on(d, i, b.span)
            &&& b.alive && b.airway <==> d.kind == Single::whole_spec(5)
            &&& b.alive && !b.airway && b.span > 1 <==> d.kind == Single::whole_spec(1)
            &&& b.alive && !b.airway && b.span <= 1 <==> d.kind == Single::whole_spec(0)
            &&& !b.alive <==> d.kind == Single::whole_spec(6)
            &&& b.alive ==> d.burn == Single::zero_spec()
            &&& !b.alive ==> d.burn == burnt_spec(b)
        }),
{
    let b = w.blocks[i];
    lemma_listed(w.blocks, CELLS as nat, i);
    let k = tally(i as nat, to_be_seen(w.blocks)) as int;
    let d = w.rebuilt().instances[3 + k];
    assert(d == block_instance(b, i));
    lemma_apart(0, 1);
    lemma_apart(0, 5);
    lemma_apart(0, 6);
    lemma_apart(1, 5);
    lemma_apart(1, 6);
    lemma_apart(5, 6);
}

/// The dots of the path, which are drawn while a radiologist is at work.
pub open spec fn dots_shown(w: World) -> Seq<Instance> {
    if w.radiologist > 0 {
        trail_spec(w.predicted().path, segments(w.predicted().path)).dots
    } else {
        Seq::empty()
    }
}

/// An instance is a rectangle of whole pixels.
pub open spec fn is_frame(d: Instance, x: nat, y: nat, w: nat, h: nat) -> bool {
    &&& d.x == Single::whole_spec(x) && d.y == Single::whole_spec(y)
    &&& d.w == Single::whole_spec(w) && d.h == Single::whole_spec(h)
}

/// What is drawn after the blocks: the paddle, the ball, the dots of the path
/// while a radiologist is at work, and what falls. Nothing else is drawn but the
/// pleura, which comes first. The paddle, the ball and what falls lie around their
/// middles.
pub proof fn a_scene_holds_nothing_else(w: World)
    requires
        w.blocks.len() == CELLS,
    ensures
        ({
            let all = w.rebuilt().instances;
            let n = 3 + tally(CELLS as nat, to_be_seen(w.blocks)) as int;
            let dots = dots_shown(w);
            let falling = if w.pickup is Some {
                1int
            } else {
                0
            };
            &&& all.len() == n + 2 + dots.len() + falling
            &&& forall|k: int| 0 <= k < 3 ==> #[trigger] all[k].kind == Single::whole_spec(8)
            &&& is_frame(all[0], 0, 0, 14, 800) && all[0].burn == Single::zero_spec()
            &&& is_frame(all[1], 586, 0, 14, 800) && all[1].burn == Single::zero_spec()
            &&& is_frame(all[2], 0, 0, 600, 14) && all[2].burn == Single::whole_spec(1)
            &&& all[n].kind == Single::whole_spec(2)
            &&& all[n].x == w.cig_x.minus_spec(Single::whole_spec(45))
            &&& all[n].w == Single::whole_spec(90)
            &&& all[n].y == Single::whole_spec(760)
            &&& all[n].h == Single::whole_spec(12)
            &&& all[n + 1].kind == Single::whole_spec(3)
            &&& all[n + 1].x == w.ball.x.minus_spec(Single::whole_spec(7))
            &&& all[n + 1].y == w.ball.y.minus_spec(Single::whole_spec(7))
            &&& all[n + 1].w == Single::whole_spec(14)
            &&& all[n + 1].h == Single::whole_spec(14)
            &&& forall|k: int|
                0 <= k < dots.len() ==> all[n + 2 + k] == #[trigger] dots[k]
            &&& w.pickup matches Some(p) ==> {
                let d = all[all.len() - 1];
                let (pw, ph) = p.kind.size_spec();
                &&& d.kind == Single::whole_spec(p.kind.sprite_spec() as nat)
                &&& d.w == Single::whole_spec(pw as nat)
                &&& d.h == Single::whole_spec(ph as nat)
                &&& d.x == p.x.minus_spec(Single::whole_spec((pw / 2) as nat))
                &&& d.y == p.y.minus_spec(Single::whole_spec((ph / 2) as nat))
            }
        }),
{
    lemma_length(w.blocks, CELLS as nat);
    let dots = dots_shown(w);
    let n = 3 + tally(CELLS as nat, to_be_seen(w.blocks)) as int;
    assert forall|k: int| 0 <= k < dots.len() implies w.rebuilt().instances[n + 2 + k]
        == #[trigger] dots[k] by {
    }
}

/// What burns is drawn as far gone as it is: nothing at first, all at last, and in
/// between the share of its whole time that has passed, within three hairs.
pub proof fn a_burn_is_drawn_as_far_as_it_has_gone(b: Block)
    requires
        !b.alive,
        b.burn.finite() && b.burn_full.finite(),
        0 <= b.burn.value() <= b.burn_full.value(),
        pow2(149) <= 1000 * b.burn_full.value(),
    ensures
        ({
            let d = burnt_spec(b);
            let full = b.burn_full.value();
            &&& d.finite() && 0 <= d.value() <= pow2(149)
            &&& b.burn.value() == full ==> d.value() == 0
            &&& b.burn.value() == 0 ==> d.value() == pow2(149)
            &&& within(
                d.value() * full,
                (full - b.burn.value()) * pow2(149),
                (3 * hair()) * full as nat,
            )
        }),
{
    let t = pow2(149);
    let h = hair();
    let one = Single::whole_spec(1);
    let zero = Single::zero_spec();
    let least = Single::ratio_spec(1, 10_000);
    let full = b.burn_full;
    let q = b.burn.over_spec(full);
    lemma_hair();
    lemma_whole(1);
    lemma_zero(zero);
    lemma_rounded_off(1 * t, 10_000, 125);
    lemma_value_order(full, least);
    assert(full.max_spec(least) == full);
    assert(b.burn.size() * t <= (0x100_0000 * pow2(125)) * full.size()) by {
        lemma_mul_inequality(b.burn.size() as int, full.size() as int, t as int);
        lemma_mul_is_commutative(full.size() as int, t as int);
    }
    lemma_over_off(b.burn, full, 125);
    assert(q.value() >= 0) by {
        if b.burn.size() == 0 {
            lemma_zero(b.burn);
            lemma_zero(full);
            reveal(Single::over_spec);
            lemma_zero(q);
        }
    }
    lemma_minus_off(one, q, 125);
    let d = one.minus_spec(q);
    lemma_unit_rest(one, q);
    lemma_value_order(d, zero);
    lemma_value_order(one, d);
    // d full against (full - burn) t
    let f = full.value();
    let e = d.value() - (t - q.value());
    lemma_bounds(e, f, h, f as nat);
    assert(e * f == d.value() * f - t * f + q.value() * f) by (nonlinear_arith)
        requires
            e == d.value() - (t - q.value()),
    ;
    lemma_mul_is_distributive_sub_other_way(t as int, f, b.burn.value());
    lemma_mul_is_commutative(t as int, f);
    lemma_mul_is_associative(3, h as int, f);
    lemma_mul_nonnegative(h as int, f);
    if b.burn.value() == f {
        assert(q == one) by {
            lemma_same_bits(b.burn, full);
            lemma_over_self(full);
        }
        lemma_negated(one);
        lemma_plus_exact(one, one.negated_spec(), zero);
    }
    if b.burn.value() == 0 {
        assert(q.value() == 0) by {
            lemma_zero(b.burn);
            lemma_zero(full);
            reveal(Single::over_spec);
            lemma_zero(q);
        }
        lemma_negated(q);
        lemma_plus_exact(one, q.negated_spec(), one);
    }
}

/// Numbers over zero that are worth the same are the same.
proof fn lemma_same_bits(a: Single, b: Single)
    requires
        a.finite() && b.finite(),
        a.value() == b.value(),
        a.value() > 0,
    ensures
        a == b,
{
    lemma_value_order(a, b);
    lemma_value_order(b, a);
}

/// One less a share is a share.
proof fn lemma_unit_rest(one: Single, q: Single)
    requires
        one == Single::whole_spec(1),
        q.finite(),
        0 <= q.value() <= pow2(149),
        one.minus_spec(q).finite(),
    ensures
        0 <= one.minus_spec(q).value() <= pow2(149),
{
    let zero = Single::zero_spec();
    lemma_whole(1);
    lemma_zero(zero);
    lemma_negated(q);
    lemma_plus_exact(zero, zero, zero);
    lemma_plus_exact(one, zero, one);
    lemma_plus_order(zero, zero, one, q.negated_spec());
    lemma_plus_order(one, q.negated_spec(), one, zero);
    lemma_value_order(zero.plus_spec(zero), one.minus_spec(q));
    lemma_value_order(one.minus_spec(q), one.plus_spec(zero));
}

/// The renderer reads an instance as its place, its size, what it shows and how far
/// that has burnt, in this order.
pub proof fn an_instance_is_read_in_order(d: Instance)
    ensures
        d.words_spec() == seq![
            d.x.bits,
            d.y.bits,
            d.w.bits,
            d.h.bits,
            d.kind.bits,
            d.burn.bits,
        ],
{
}

} // verus!
