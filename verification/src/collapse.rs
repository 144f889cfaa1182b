//! A pneumothorax spreads: the outer tissue burns the longer.
use crate::board::{col_of, is_alive_on, row_of};
use crate::interval::{lemma_apart, lemma_over_in, lemma_part, lemma_times_in, parts};
use crate::single::{
    lemma_negated, lemma_over_self, lemma_parts, lemma_plus_between, lemma_plus_exact,
    lemma_rounded_bounds, lemma_rounded_sign, lemma_value_order, lemma_whole, lemma_zero, Single,
};
use crate::world::{burning, collapse_delay_spec, World};
use crate::{CELLS, COLS, ROWS};
use vstd::arithmetic::mul::*;
use vstd::arithmetic::power2::*;
use vstd::prelude::*;

verus! {

/// How far a cell is from the midline, in columns.
pub open spec fn columns_out(i: int) -> nat {
    let mid = (COLS / 2) as int;
    if col_of(i) < mid {
        (mid - col_of(i)) as nat
    } else {
        (col_of(i) - mid) as nat
    }
}

/// How far out a cell is, as the share of half the grid that the delay goes by.
spec fn out(i: int) -> Single {
    let mid = (COLS / 2) as nat;
    Single::whole_spec(col_of(i) as nat).minus_spec(Single::whole_spec(mid)).abs_spec().over_spec(
        Single::whole_spec(mid),
    ).min_spec(Single::whole_spec(1))
}

/// The first two parts of the delay.
spec fn outward(i: int) -> Single {
    Single::ratio_spec(10, 100).plus_spec(Single::ratio_spec(55, 100).times_spec(out(i)))
}

/// The last part of the delay.
spec fn downward(i: int) -> Single {
    Single::ratio_spec(10, 100).times_spec(
        Single::whole_spec(row_of(i) as nat).over_spec(Single::whole_spec(ROWS as nat)),
    )
}

/// A sixteen thousandth.
proof fn lemma_fine()
    ensures
        pow2(14) == 16384,
        pow2(149) == 16384 * pow2(135),
        pow2(135) > 0,
{
    lemma2_to64();
    lemma_part(135, 1);
}

/// The distance from the midline is worked out exactly.
proof fn lemma_columns(i: int)
    requires
        0 <= i < CELLS,
    ensures
        ({
            let d = Single::whole_spec(col_of(i) as nat).minus_spec(
                Single::whole_spec(20),
            ).abs_spec();
            &&& d.finite() && !d.neg()
            &&& d.size() == columns_out(i) * pow2(149)
            &&& columns_out(i) <= 20
        }),
{
    let k = columns_out(i);
    let a = Single::whole_spec(col_of(i) as nat);
    let b = Single::whole_spec(20);
    let c = Single::whole_spec(k);
    let p = pow2(149);
    lemma_whole(col_of(i) as nat);
    lemma_whole(20);
    lemma_whole(k);
    lemma_negated(b);
    lemma_negated(c);
    let n = col_of(i);
    assert(n * p - 20 * p == (n - 20) * p && (20 - n) * p == 20 * p - n * p) by (nonlinear_arith);
    let d = a.minus_spec(b);
    if n < 20 {
        lemma_plus_exact(a, b.negated_spec(), c.negated_spec());
    } else {
        lemma_plus_exact(a, b.negated_spec(), c);
    }
    let z = d.abs_spec();
    assert(d.size() == k * p) by {
        lemma_mul_nonnegative(k as int, p as int);
    }
    lemma_parts(d);
    lemma_parts(z);
}

/// The share of half the grid, in sixteen thousandths.
proof fn lemma_out(i: int)
    requires
        0 <= i < CELLS,
    ensures
        ({
            let k = columns_out(i);
            &&& k <= 20
            &&& out(i).finite() && !out(i).neg()
            &&& (819 * k) * pow2(135) <= out(i).size() <= (820 * k) * pow2(135)
        }),
{
    let k = columns_out(i);
    let mid = Single::whole_spec(20);
    let one = Single::whole_spec(1);
    let d = Single::whole_spec(col_of(i) as nat).minus_spec(mid).abs_spec();
    let q = pow2(135);
    let r = d.over_spec(mid);
    lemma_fine();
    lemma_columns(i);
    lemma_whole(20);
    lemma_whole(1);
    lemma_mul_basics(q as int);
    if k == 0 {
        lemma_mul_basics(pow2(149) as int);
        lemma_zero(d);
        assert(r == Single::zero_spec()) by {
            reveal(Single::over_spec);
            lemma_zero(mid);
        }
        lemma_zero(r);
        lemma_value_order(one, r);
    } else {
        let n: nat = 16384 * k;
        assert(k * (16384 * q) == (16384 * k) * q) by (nonlinear_arith);
        assert((819 * k) * 327680 <= 16384 * n && 16384 * n <= (820 * k) * 327680)
            by (nonlinear_arith)
            requires
                n == 16384 * k,
        ;
        lemma_over_in(135, d, mid, n, n, 327680, 327680, 819 * k, 820 * k);
        lemma_mul_inequality((819 * k) as int, (820 * k) as int, q as int);
        if k == 20 {
            lemma_zero(d);
            lemma_value_order(d, mid);
            assert(d == mid);
            lemma_over_self(mid);
        } else {
            lemma_mul_inequality((820 * k) as int, 16384, q as int);
            lemma_value_order(one, r);
        }
    }
}

/// The part of the delay that grows outward, in sixteen thousandths.
proof fn lemma_outward(i: int)
    requires
        0 <= i < CELLS,
    ensures
        ({
            let k = columns_out(i);
            &&& k <= 20
            &&& outward(i).finite()
            &&& (1638 + 450 * k) * pow2(135) <= outward(i).value() <= (1639 + 452 * k) * pow2(135)
        }),
{
    let k = columns_out(i);
    let q = pow2(135);
    let p = pow2(149);
    let share = Single::ratio_spec(55, 100);
    let start = Single::ratio_spec(10, 100);
    lemma_fine();
    lemma_out(i);
    lemma_part(135, 9011);
    lemma_part(135, 9012);
    lemma_part(135, 1638);
    lemma_part(135, 1639);
    lemma_part(135, 450 * k);
    lemma_part(135, 452 * k);
    lemma_part(135, 1638 + 450 * k);
    lemma_part(135, 1639 + 452 * k);
    lemma_rounded_bounds(55 * p, 100, parts(135, 9011));
    lemma_rounded_bounds(55 * p, 100, parts(135, 9012));
    lemma_rounded_bounds(10 * p, 100, parts(135, 1638));
    lemma_rounded_bounds(10 * p, 100, parts(135, 1639));
    lemma_times_in(
        135,
        share,
        out(i),
        9011,
        9012,
        819 * k,
        820 * k,
        450 * k,
        452 * k,
    );
    let m = share.times_spec(out(i));
    lemma_mul_is_distributive_add_other_way(q as int, 1638, (450 * k) as int);
    lemma_mul_is_distributive_add_other_way(q as int, 1639, (452 * k) as int);
    lemma_plus_between(
        start,
        m,
        parts(135, 1638 + 450 * k),
        parts(135, 1639 + 452 * k),
    );
}

/// The part of the delay that grows downward is small.
proof fn lemma_downward(i: int)
    requires
        0 <= i < CELLS,
    ensures
        downward(i).finite(),
        0 <= downward(i).value() <= 1640 * pow2(135),
{
    let k: nat = row_of(i) as nat;
    let q = pow2(135);
    let p = pow2(149);
    let a = Single::whole_spec(k);
    let b = Single::whole_spec(24);
    let tenth = Single::ratio_spec(10, 100);
    lemma_fine();
    lemma_whole(k);
    lemma_whole(24);
    lemma_part(135, 1638);
    lemma_part(135, 1639);
    lemma_rounded_bounds(10 * p, 100, parts(135, 1638));
    lemma_rounded_bounds(10 * p, 100, parts(135, 1639));
    let r = a.over_spec(b);
    assert(r.finite() && !r.neg() && r.size() <= 16384 * q) by {
        if k == 0 {
            lemma_mul_basics(p as int);
            lemma_zero(a);
            lemma_zero(b);
            assert(r == Single::zero_spec()) by {
                reveal(Single::over_spec);
            }
            lemma_zero(r);
        } else {
            assert(k * (16384 * q) == (16384 * k) * q) by (nonlinear_arith);
            lemma_over_in(135, a, b, 16384 * k, 16384 * k, 393216, 393216, 0, 16384);
        }
    }
    lemma_mul_basics(q as int);
    lemma_times_in(135, tenth, r, 0, 1639, 0, 16384, 0, 1639);
}

/// How long a block burns without any delay.
proof fn lemma_base(span: u8)
    requires
        1 <= span <= 4,
    ensures
        ({
            let base = Single::ratio_spec(45, 100).times_spec(
                Single::ratio_spec(7, 10).plus_spec(
                    Single::ratio_spec(3, 10).times_spec(Single::whole_spec(span as nat)),
                ),
            );
            &&& base.finite()
            &&& 0 <= base.value() <= 32768 * pow2(135)
        }),
{
    let q = pow2(135);
    let p = pow2(149);
    let n: nat = span as nat;
    let a = Single::ratio_spec(45, 100);
    let b = Single::ratio_spec(7, 10);
    let c = Single::ratio_spec(3, 10);
    let s = Single::whole_spec(n);
    lemma_fine();
    lemma_whole(n);
    lemma_part(135, 16384);
    lemma_part(135, 8192);
    lemma_part(135, 32768);
    lemma_part(135, 49152);
    lemma_zero(Single::zero_spec());
    lemma_rounded_bounds(45 * p, 100, parts(135, 8192));
    lemma_rounded_bounds(7 * p, 10, parts(135, 16384));
    lemma_rounded_bounds(3 * p, 10, parts(135, 8192));
    assert(s.size() <= 65536 * q) by {
        lemma_mul_inequality(n as int, 4, p as int);
    }
    lemma_mul_basics(q as int);
    lemma_times_in(135, c, s, 0, 8192, 0, 65536, 0, 32768);
    let m = c.times_spec(s);
    lemma_plus_between(b, m, Single::zero_spec(), parts(135, 49152));
    let d = b.plus_spec(m);
    assert(!d.neg()) by {
        reveal(Single::plus_spec);
        lemma_rounded_sign((b.size() + m.size()) as nat, 1);
    }
    lemma_times_in(135, a, d, 0, 8192, 0, 49152, 0, 24576);
    lemma_mul_inequality(24576, 32768, q as int);
}

/// What a collapse takes burns, from its whole time on.
pub proof fn a_collapse_sets_fire(w: World, i: int)
    requires
        w.wf(),
        0 <= i < CELLS,
        is_alive_on(w.blocks, w.fuller_side())(i),
    ensures
        ({
            let b = w.collapsed().blocks[i];
            &&& b == burning(w.blocks[i], collapse_delay_spec(i))
            &&& b.burn == b.burn_full
            &&& Single::zero_spec().lt_spec(b.burn)
        }),
{
    reveal(World::collapsed);
    let zero = Single::zero_spec();
    let span = w.blocks[i].span;
    let base = Single::ratio_spec(45, 100).times_spec(
        Single::ratio_spec(7, 10).plus_spec(
            Single::ratio_spec(3, 10).times_spec(Single::whole_spec(span as nat)),
        ),
    );
    let a = outward(i);
    let v = downward(i);
    let k = columns_out(i);
    let q = pow2(135);
    lemma_outward(i);
    lemma_downward(i);
    lemma_base(span);
    lemma_fine();
    lemma_zero(zero);
    lemma_mul_inequality(1638, (1638 + 450 * k) as int, q as int);
    lemma_mul_inequality((1639 + 452 * k) as int, 20000, q as int);
    lemma_part(135, 1638);
    lemma_part(135, 30000);
    lemma_part(135, 70000);
    lemma_plus_between(a, v, parts(135, 1638), parts(135, 30000));
    let x = a.plus_spec(v);
    lemma_plus_between(base, x, parts(135, 1638), parts(135, 70000));
    lemma_value_order(zero, base.plus_spec(x));
}

/// A collapse spreads outward: of two blocks of a row that are as big as each
/// other the one farther from the midline burns longer.
pub proof fn a_collapse_spreads_outward(w: World, i: int, j: int)
    requires
        w.wf(),
        0 <= i < CELLS,
        0 <= j < CELLS,
        is_alive_on(w.blocks, w.fuller_side())(i),
        is_alive_on(w.blocks, w.fuller_side())(j),
        row_of(i) == row_of(j),
        w.blocks[i].span == w.blocks[j].span,
        columns_out(i) < columns_out(j),
    ensures
        ({
            let b = w.collapsed().blocks;
            b[i].burn.lt_spec(b[j].burn)
        }),
{
    reveal(World::collapsed);
    let q = pow2(135);
    let k = columns_out(i);
    let l = columns_out(j);
    let b = w.collapsed().blocks;
    let span = w.blocks[i].span;
    let base = Single::ratio_spec(45, 100).times_spec(
        Single::ratio_spec(7, 10).plus_spec(
            Single::ratio_spec(3, 10).times_spec(Single::whole_spec(span as nat)),
        ),
    );
    assert(b[i] == burning(w.blocks[i], collapse_delay_spec(i)));
    assert(b[j] == burning(w.blocks[j], collapse_delay_spec(j)));
    lemma_outward(i);
    lemma_outward(j);
    lemma_downward(i);
    lemma_base(span);
    lemma_fine();
    let a = outward(i);
    let c = outward(j);
    let v = downward(i);
    assert(downward(j) == v);
    assert(a.value() + 400 * q <= c.value() && 1638 * q <= a.value() && c.value() <= 20000 * q) by {
        let m: int = (1639 + 452 * k) as int;
        lemma_mul_inequality(m + 400, (1638 + 450 * l) as int, q as int);
        lemma_mul_is_distributive_add_other_way(q as int, m, 400);
        lemma_mul_inequality((1639 + 452 * l) as int, 20000, q as int);
        lemma_mul_inequality(1638, (1638 + 450 * k) as int, q as int);
    }
    lemma_apart(135, a, c, v, 400);
    lemma_part(135, 1638);
    lemma_part(135, 30000);
    lemma_plus_between(a, v, parts(135, 1638), parts(135, 30000));
    let x = a.plus_spec(v);
    let y = c.plus_spec(v);
    lemma_longer(base, x, y);
}

/// Delays that are apart are apart when what they delay is added.
proof fn lemma_longer(base: Single, x: Single, y: Single)
    requires
        base.finite(),
        x.finite(),
        y.finite(),
        0 <= base.value() <= 32768 * pow2(135),
        0 <= x.value(),
        x.value() + 398 * pow2(135) <= y.value() <= 30000 * pow2(135),
        1000 * pow2(135) <= x.value(),
    ensures
        base.plus_spec(x).lt_spec(base.plus_spec(y)),
        Single::zero_spec().lt_spec(base.plus_spec(x)),
{
    let zero = Single::zero_spec();
    lemma_fine();
    lemma_zero(zero);
    lemma_apart(135, x, y, base, 398);
    assert(base.plus_spec(x) == x.plus_spec(base) && base.plus_spec(y) == y.plus_spec(base)) by {
        reveal(Single::plus_spec);
    }
    lemma_part(135, 1000);
    lemma_part(135, 70000);
    lemma_plus_between(x, base, parts(135, 1000), parts(135, 70000));
    lemma_value_order(x.plus_spec(base), y.plus_spec(base));
    lemma_value_order(zero, x.plus_spec(base));
}

} // verus!
