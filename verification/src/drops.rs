//! What falls: what drops out of a block, who catches it, and where it goes.
use crate::board::{col_of, row_of, scatter_spec};
use crate::kind::Kind;
use crate::laws::{a_catch_is_recorded, a_roll_comes_to_something, lemma_ignited};
use crate::margin::{lemma_minus_off, lemma_plus_off, within};
use crate::pleura::lemma_half;
use crate::rng::xorshift;
use crate::single::{
    lemma_negated, lemma_plus_exact, lemma_plus_number, lemma_plus_order, lemma_rounded_bounds,
    lemma_rounded_sign, lemma_size_order, lemma_value_order, lemma_whole, lemma_zero, Single,
};
use crate::world::{bumped, dropped, is_caught, total_weight, Pickup, World};
use crate::CELLS;
use vstd::arithmetic::mul::*;
use vstd::arithmetic::power2::*;
use vstd::prelude::*;

verus! {

/// What a hit drops, if it drops anything, is what the roll comes to: the weights
/// of the board that the hit leaves are laid end to end, and the next number of
/// the generator falls on one of them. It comes out of the middle of the block
/// that was hit, from its upper edge. The generator goes one step on for a drop,
/// and none without one.
pub proof fn a_drop_is_what_the_roll_came_to(w: World, i: int)
    requires
        w.wf(),
        0 <= i < CELLS,
        w.pickup is None,
    ensures
        ({
            let v = w.struck(i);
            let s = scatter_spec(v.blocks);
            let c = Kind::Cigarettes.weight_spec(s) as nat;
            let p = Kind::Pneumothorax.weight_spec(s) as nat;
            let a = Kind::Asbestos.weight_spec(s) as nat;
            let r = Kind::Radiologist.weight_spec(s) as nat;
            let n = xorshift(w.rng) as nat % (c + p + a + r);
            &&& v.pickup is None ==> v.rng == w.rng
            &&& v.pickup matches Some(q) ==> {
                &&& v.rng == xorshift(w.rng)
                &&& c + p + a + r > 0
                &&& q.kind == Kind::Cigarettes <==> n < c
                &&& q.kind == Kind::Pneumothorax <==> c <= n < c + p
                &&& q.kind == Kind::Asbestos <==> c + p <= n < c + p + a
                &&& q.kind == Kind::Radiologist <==> c + p + a <= n
                &&& q.x.finite()
                &&& 2 * q.x.value() == (2 * (40 + 13 * col_of(i)) + 13 * w.blocks[i].span)
                    * pow2(149)
                &&& q.y == Single::whole_spec((70 + 13 * row_of(i)) as nat)
            }
        }),
{
    reveal(World::struck);
    let a = w.ignited(i, Single::zero_spec());
    lemma_ignited(w, i, Single::zero_spec());
    let d = World { broke_since_bounce: true, spawn_counter: bumped(a.spawn_counter), ..a };
    a_roll_comes_to_something(d);
    let m: nat = (2 * (40 + 13 * col_of(i)) + 13 * w.blocks[i].span) as nat;
    let h = pow2(148);
    lemma_half(m);
    lemma_pow2_adds(1, 148);
    lemma2_to64();
    assert(2 * (m * h) == m * (2 * h)) by (nonlinear_arith);
    let s = scatter_spec(d.blocks);
    let t = total_weight(s);
    assert(w.struck(i).blocks == d.blocks);
    if t > 0 {
        assert(xorshift(w.rng) as nat % t < t);
    }
}

/// Where a pickup is after a time, down.
pub open spec fn fallen_to(p: Pickup, dt: Single) -> Single {
    p.y.plus_spec(Single::whole_spec(p.kind.fall_speed_spec() as nat).times_spec(dt))
}

/// A pickup ends to the left of the paddle or starts to the right of it. The
/// paddle is 90 wide, and each lies around its middle.
pub open spec fn is_beside(p: Pickup, cig_x: Single) -> bool {
    let t = pow2(149);
    let w = p.kind.size_spec().0;
    ||| 2 * p.x.value() + w * t <= 2 * cig_x.value() - 90 * t
    ||| 2 * p.x.value() - w * t >= 2 * cig_x.value() + 90 * t
}

/// A pickup ends above the paddle or starts below it: the paddle reaches from 760
/// to 772 down.
pub open spec fn is_over_or_under(y: Single, kind: Kind) -> bool {
    let t = pow2(149);
    let h = kind.size_spec().1;
    ||| 2 * y.value() + h * t <= 1520 * t
    ||| 2 * y.value() - h * t >= 1544 * t
}

/// Half of a size, in pixels.
proof fn lemma_sizes(kind: Kind)
    ensures
        ({
            let (w, h) = kind.size_spec();
            &&& w % 2 == 0 && h % 2 == 0
            &&& 24 <= w <= 40 && 24 <= h <= 40
        }),
{
}

/// A difference that is rounded stays on the side of a whole number on which it
/// is.
pub proof fn lemma_side(a: Single, b: Single, n: nat)
    requires
        a.finite(),
        b.finite(),
        n < 1000,
    ensures
        a.value() - b.value() >= n * pow2(149) ==> !a.minus_spec(b).lt_spec(Single::whole_spec(n)),
        a.value() - b.value() <= -(n * pow2(149)) ==> !Single::whole_spec(n).negated_spec().lt_spec(
            a.minus_spec(b),
        ),
        a.value() - b.value() <= n * pow2(149) ==> !Single::whole_spec(n).lt_spec(a.minus_spec(b)),
        !a.minus_spec(b).nan(),
{
    let zero = Single::zero_spec();
    let m = Single::whole_spec(n);
    lemma_whole(n);
    lemma_negated(b);
    lemma_negated(m);
    lemma_zero(zero);
    lemma_plus_number(a, b.negated_spec());
    lemma_plus_exact(m, zero, m);
    lemma_plus_exact(m.negated_spec(), zero, m.negated_spec());
    lemma_value_order(m.plus_spec(zero), m);
    lemma_value_order(m, m.plus_spec(zero));
    lemma_value_order(m.negated_spec().plus_spec(zero), m.negated_spec());
    lemma_value_order(m.negated_spec(), m.negated_spec().plus_spec(zero));
    if a.value() - b.value() >= m.value() {
        lemma_plus_order(m, zero, a, b.negated_spec());
    }
    if a.value() - b.value() <= m.value() {
        lemma_plus_order(a, b.negated_spec(), m, zero);
    }
    if a.value() - b.value() <= -m.value() {
        lemma_plus_order(a, b.negated_spec(), m.negated_spec(), zero);
    }
}

/// A pickup is not caught by a paddle that it does not overlap: one that is beside
/// it, and one that is over or under it after its fall, does nothing at all. It
/// falls on, or is gone.
pub proof fn a_pickup_off_the_paddle_is_not_caught(w: World, dt: Single)
    requires
        w.pickup matches Some(p) && p.x.finite() && fallen_to(p, dt).finite() && (is_beside(
            p,
            w.cig_x,
        ) || is_over_or_under(fallen_to(p, dt), p.kind)),
        w.cig_x.finite(),
    ensures
        w.fallen(dt) == (World { pickup: w.fallen(dt).pickup, ..w }),
        w.fallen(dt).caught_seq == w.caught_seq,
        w.fallen(dt).blocks == w.blocks,
{
    reveal(World::fallen);
    let p = w.pickup->Some_0;
    let q = dropped(p, dt);
    let (pw, ph) = p.kind.size_spec();
    let t = pow2(149);
    let reach: nat = (45 + pw / 2) as nat;
    let half: nat = (ph / 2) as nat;
    lemma_sizes(p.kind);
    lemma_pow2_pos(149);
    lemma_twice(reach, (90 + pw) as nat, t);
    lemma_twice(half, ph as nat, t);
    assert(p.kind.size_spec() == q.kind.size_spec());
    if is_beside(p, w.cig_x) {
        let d = p.x.minus_spec(w.cig_x);
        lemma_side(p.x, w.cig_x, reach);
        assert((90 + pw) * t == 90 * t + pw * t) by (nonlinear_arith);
        lemma_far(d, reach);
    } else {
        lemma_edges(q.y, half);
    }
}

/// So many, halved and doubled.
proof fn lemma_twice(m: nat, n: nat, t: nat)
    requires
        2 * m == n,
    ensures
        2 * (m * t) == n * t,
{
    assert(2 * (m * t) == n * t) by (nonlinear_arith)
        requires
            2 * m == n,
    ;
}

/// What is as far off as a whole number, either way, is not nearer than that.
proof fn lemma_far(d: Single, n: nat)
    requires
        n < 1000,
        !d.nan(),
        !d.lt_spec(Single::whole_spec(n)) || !Single::whole_spec(n).negated_spec().lt_spec(d),
    ensures
        !d.abs_spec().lt_spec(Single::whole_spec(n)),
{
    let m = Single::whole_spec(n);
    lemma_whole(n);
    lemma_zero(m);
}

/// The edges of what lies around a height.
proof fn lemma_edges(y: Single, half: nat)
    requires
        y.finite(),
        half < 100,
    ensures
        y.value() + half * pow2(149) <= 760 * pow2(149) ==> !Single::whole_spec(760).lt_spec(
            y.plus_spec(Single::whole_spec(half)),
        ),
        y.value() - half * pow2(149) >= 772 * pow2(149) ==> !y.minus_spec(
            Single::whole_spec(half),
        ).lt_spec(Single::whole_spec(772)),
        y.value() - half * pow2(149) <= 800 * pow2(149) ==> !Single::whole_spec(800).lt_spec(
            y.minus_spec(Single::whole_spec(half)),
        ),
{
    let m = Single::whole_spec(half);
    lemma_whole(half);
    lemma_negated(m);
    lemma_side(y, m, 772);
    lemma_side(y, m, 800);
    lemma_side(y, m.negated_spec(), 760);
    assert(m.negated_spec().negated_spec() == m);
}

/// A pickup that overlaps the paddle after its fall, by more than rounding takes,
/// is caught: it does what its kind does, and falls no more.
pub proof fn a_pickup_on_the_paddle_is_caught(w: World, dt: Single)
    requires
        w.pickup is Some,
        w.cig_x.finite(),
        w.pickup matches Some(p) ==> ({
            let t = pow2(149);
            let y = fallen_to(p, dt);
            let (pw, ph) = p.kind.size_spec();
            let across = 2 * (p.x.value() - w.cig_x.value());
            &&& p.x.finite() && y.finite()
            &&& within(across, 0, ((90 + pw) * t - pow2(139)) as nat)
            &&& 2 * y.value() + ph * t >= 1520 * t + pow2(139)
            &&& 2 * y.value() - ph * t <= 1544 * t - pow2(139)
        }),
    ensures
        w.pickup matches Some(p) ==> {
            &&& w.fallen(dt) == (World { pickup: None, ..w.applied(p.kind) })
            &&& w.fallen(dt).pickup is None
        },
{
    reveal(World::fallen);
    let p = w.pickup->Some_0;
    let q = dropped(p, dt);
    let (pw, ph) = p.kind.size_spec();
    let t = pow2(149);
    let reach: nat = (45 + pw / 2) as nat;
    let half: nat = (ph / 2) as nat;
    lemma_sizes(p.kind);
    lemma_pow2_adds(1, 138);
    lemma2_to64();
    lemma_twice(reach, (90 + pw) as nat, t);
    lemma_twice(half, ph as nat, t);
    assert((90 + pw) * t == 90 * t + pw * t) by (nonlinear_arith);
    lemma_near_across(p.x, w.cig_x, reach);
    lemma_near_down(q.y, half);
    assert(is_caught(q, w.cig_x));
}

/// What is nearer than a whole number, by more than rounding takes.
proof fn lemma_near_across(x: Single, c: Single, n: nat)
    requires
        x.finite(),
        c.finite(),
        n < 100,
        -(n * pow2(149)) + pow2(138) <= x.value() - c.value() <= n * pow2(149) - pow2(138),
    ensures
        x.minus_spec(c).abs_spec().lt_spec(Single::whole_spec(n)),
{
    let t = pow2(149);
    let m = Single::whole_spec(n);
    lemma_whole(n);
    lemma_pow2_adds(1, 137);
    lemma_pow2_adds(12, 137);
    lemma_pow2_pos(137);
    lemma2_to64();
    assert(n * t <= 100 * t) by (nonlinear_arith)
        requires
            n < 100,
    ;
    lemma_minus_off(x, c, 137);
    lemma_size_order(x.minus_spec(c), m);
    lemma_zero(m);
}

/// What lies around a height at which the paddle is, by more than rounding takes.
proof fn lemma_near_down(y: Single, half: nat)
    requires
        y.finite(),
        half < 100,
        y.value() + half * pow2(149) >= 760 * pow2(149) + pow2(138),
        y.value() - half * pow2(149) <= 772 * pow2(149) - pow2(138),
    ensures
        Single::whole_spec(760).lt_spec(y.plus_spec(Single::whole_spec(half))),
        y.minus_spec(Single::whole_spec(half)).lt_spec(Single::whole_spec(772)),
{
    let t = pow2(149);
    let m = Single::whole_spec(half);
    lemma_whole(half);
    lemma_whole(760);
    lemma_whole(772);
    lemma_pow2_adds(1, 137);
    lemma_pow2_adds(12, 137);
    lemma_pow2_pos(137);
    lemma2_to64();
    assert(half * t <= 100 * t) by (nonlinear_arith)
        requires
            half < 100,
    ;
    lemma_plus_off(y, m, 137);
    lemma_minus_off(y, m, 137);
    lemma_value_order(Single::whole_spec(760), y.plus_spec(m));
    lemma_value_order(y.minus_spec(m), Single::whole_spec(772));
}

/// A paddle catches as far on one side as on the other: of two pickups of a kind
/// that are as high and as far off its middle, it catches both or none.
pub proof fn a_catch_is_as_wide_on_either_side(p: Pickup, q: Pickup, cig_x: Single)
    requires
        p.x.finite(),
        q.x.finite(),
        cig_x.finite(),
        p.kind == q.kind,
        p.y == q.y,
        p.x.value() - cig_x.value() == cig_x.value() - q.x.value(),
    ensures
        is_caught(p, cig_x) == is_caught(q, cig_x),
{
    let a = p.x.minus_spec(cig_x);
    let b = q.x.minus_spec(cig_x);
    let u = p.x.value() - cig_x.value();
    let n: nat = if u < 0 {
        (-u) as nat
    } else {
        u as nat
    };
    lemma_negated(cig_x);
    assert(a.abs_spec() == b.abs_spec()) by {
        reveal(Single::plus_spec);
        lemma_rounded_sign(n, 1);
    }
}

/// What falls and is not caught keeps its kind and its column, and is lower by
/// what its kind falls in the time; it never rises. It is gone only when it is
/// below the field with its upper edge, and then it is gone.
pub proof fn a_pickup_falls_until_it_is_below(w: World, dt: Single)
    requires
        w.pickup is Some,
        !dt.nan(),
        w.fallen(dt).caught_seq == w.caught_seq,
        w.wf(),
    ensures
        w.pickup matches Some(p) ==> ({
            let t = pow2(149);
            let y = fallen_to(p, dt);
            let h = p.kind.size_spec().1;
            &&& w.fallen(dt).pickup matches Some(q) ==> {
                &&& q.x == p.x && q.kind == p.kind
                &&& q.y == y
            }
            &&& y.finite() && w.fallen(dt).pickup is None ==> 2 * y.value() - h * t > 1600 * t
            &&& y.finite() && 2 * y.value() - h * t > 1600 * t + pow2(139) && y.value() <= 2000 * t
                ==> w.fallen(dt).pickup is None
            &&& p.y.finite() && dt.finite() && dt.value() >= 0 ==> p.y.le_spec(y)
        }),
{
    reveal(World::fallen);
    let p = w.pickup->Some_0;
    let q = dropped(p, dt);
    let t = pow2(149);
    let half: nat = (p.kind.size_spec().1 / 2) as nat;
    let speed = Single::whole_spec(p.kind.fall_speed_spec() as nat);
    let zero = Single::zero_spec();
    lemma_sizes(p.kind);
    lemma_pow2_pos(149);
    lemma_twice(half, p.kind.size_spec().1 as nat, t);
    if is_caught(q, w.cig_x) {
        a_catch_is_recorded(w, q.kind);
    }
    if q.y.finite() {
        let m = Single::whole_spec(half);
        lemma_edges(q.y, half);
        lemma_whole(half);
        lemma_whole(800);
        if 2 * q.y.value() - p.kind.size_spec().1 * t > 1600 * t + pow2(139) && q.y.value() <= 2000
            * t {
            lemma_pow2_adds(2, 137);
            lemma_pow2_adds(12, 137);
            lemma_pow2_pos(137);
            lemma2_to64();
            lemma_minus_off(q.y, m, 137);
            lemma_value_order(Single::whole_spec(800), q.y.minus_spec(m));
        }
    }
    if p.y.finite() && dt.finite() && dt.value() >= 0 {
        lemma_whole(p.kind.fall_speed_spec() as nat);
        lemma_not_up(p.y, speed, dt);
    }
}

/// What is moved down is not higher.
proof fn lemma_not_up(y: Single, v: Single, dt: Single)
    requires
        y.finite(),
        v.finite(),
        dt.finite(),
        v.value() >= 0,
        dt.value() >= 0,
    ensures
        y.le_spec(y.plus_spec(v.times_spec(dt))),
{
    let m = v.times_spec(dt);
    let zero = Single::zero_spec();
    let n = v.size() * dt.size();
    lemma_zero(zero);
    lemma_zero(v);
    lemma_zero(dt);
    lemma_pow2_pos(149);
    lemma_plus_exact(y, zero, y);
    lemma_value_order(y, y.plus_spec(zero));
    lemma_rounded_bounds(n, pow2(149), zero);
    lemma_rounded_sign(n, pow2(149));
    let r = Single::rounded(false, n, pow2(149));
    assert(m.finite() ==> m.value() >= 0) by {
        reveal(Single::times_spec);
        if v.neg() != dt.neg() {
            lemma_mul_basics(v.size() as int);
            lemma_mul_basics(dt.size() as int);
            lemma_mul_basics(pow2(149) as int);
            assert(n == 0);
            lemma_negated(r);
        }
    }
    if m.finite() {
        lemma_plus_order(y, zero, y, m);
    } else {
        assert(m.bits == 0x7f80_0000) by {
            reveal(Single::times_spec);
        }
        reveal(Single::plus_spec);
    }
}

} // verus!
