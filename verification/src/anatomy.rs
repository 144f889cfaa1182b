//! What a fresh pair of lungs looks like, cell by cell.
use crate::board::{
    alive_tally, blocks_serve, cell_at, clear_row, col_of, first_clear_row, fresh_block, fresh_spec,
    is_alive, lemma_cell, lemma_tally_none, row_of, seed_at, serve_row_spec,
};
use crate::distance::lemma_hair;
use crate::lobes::{
    is_row_root, is_well_inside, is_well_outside, lemma_cell_place, lemma_hundredths, lemma_in_lobe,
    lemma_notch, lemma_over_the_apex, off_midline,
};
use crate::lung::{
    airways_spec, cell_pos_spec, dist_to_segment_spec, hundredths, in_airway_spec, in_lobe_spec,
    in_lung_spec, in_notch_spec, is_trachea_spec, Airway,
};
use crate::reach::{is_at, lemma_out_of_reach, lemma_within_reach};
use crate::single::lemma_value_order;
use crate::{CELLS, COLS, ROWS};
use vstd::arithmetic::mul::*;
use vstd::arithmetic::power2::*;
use vstd::prelude::*;

verus! {

/// The stretches of the airway tree: both ends in hundredths, and the radius in
/// thousandths.
pub open spec fn stretch(k: int) -> (int, int, int, int, nat) {
    if k == 0 {
        (0, -58, -32, -20, 62)
    } else if k == 1 {
        (0, -58, 32, -20, 62)
    } else if k == 2 {
        (-24, -28, -44, -38, 48)
    } else if k == 3 {
        (24, -28, 44, -38, 48)
    } else if k == 4 {
        (-28, -22, -34, 42, 50)
    } else if k == 5 {
        (28, -22, 34, 42, 50)
    } else if k == 6 {
        (-32, 12, -56, 22, 42)
    } else if k == 7 {
        (32, 12, 56, 22, 42)
    } else {
        (33, 34, 50, 44, 40)
    }
}

/// These are the stretches of the tree.
proof fn lemma_stretch(k: int)
    requires
        0 <= k < 9,
    ensures
        airways_spec().len() == 9,
        ({
            let (ax, ay, bx, by, rad) = stretch(k);
            &&& airways_spec()[k] == Airway::at(ax, ay, bx, by, rad)
            &&& -100 <= ax <= 100 && -100 <= ay <= 100
            &&& -100 <= bx <= 100 && -100 <= by <= 100
            &&& 40 <= rad <= 100
        }),
{
}

/// A cell lies to one side of a stretch, further than its radius. The side is
/// given by a direction, which is no longer than `m`.
pub open spec fn is_beside(c: int, r: int, k: int, nx: int, ny: int, m: int) -> bool {
    let (ax, ay, bx, by, rad) = stretch(k);
    let px = 150 * (2 * c - 39);
    let py = 250 * (2 * r - 23);
    &&& nx * (px - 60 * ax) + ny * (py - 60 * ay) >= (6 * rad + 2) * m
    &&& nx * (px - 60 * bx) + ny * (py - 60 * by) >= (6 * rad + 2) * m
}

/// The ends of a stretch, in parts.
proof fn lemma_ends(ax: int, ay: int, bx: int, by: int, rad: nat)
    requires
        -100 <= ax <= 100 && -100 <= ay <= 100,
        -100 <= bx <= 100 && -100 <= by <= 100,
    ensures
        is_at(Airway::at(ax, ay, bx, by, rad).a, 60 * ax, 60 * ay),
        is_at(Airway::at(ax, ay, bx, by, rad).b, 60 * bx, 60 * by),
{
    lemma_hundredths(ax);
    lemma_hundredths(ay);
    lemma_hundredths(bx);
    lemma_hundredths(by);
}

/// A cell beside a stretch is not in it.
proof fn lemma_clear_of(c: int, r: int, k: int, nx: int, ny: int, m: nat)
    requires
        0 <= c < 40,
        0 <= r < 24,
        0 <= k < 9,
        0 < m,
        nx * nx + ny * ny <= m * m,
        is_beside(c, r, k, nx, ny, m as int),
    ensures
        ({
            let w = airways_spec()[k];
            !dist_to_segment_spec(cell_pos_spec(c as nat, r as nat), w.a, w.b).lt_spec(w.r)
        }),
{
    let (ax, ay, bx, by, rad) = stretch(k);
    let w = airways_spec()[k];
    lemma_stretch(k);
    lemma_ends(ax, ay, bx, by, rad);
    lemma_cell_place(c as nat, r as nat);
    lemma_out_of_reach(
        cell_pos_spec(c as nat, r as nat),
        w.a,
        w.b,
        150 * (2 * c - 39),
        250 * (2 * r - 23),
        60 * ax,
        60 * ay,
        60 * bx,
        60 * by,
        rad,
        nx,
        ny,
        m,
    );
}

/// A cell that lies within the radius of a point of a stretch is in the airways.
/// The point lies `q` of sixty along the stretch, `cx` and `cy` parts away.
proof fn lemma_through(c: int, r: int, k: int, q: int, cx: int, cy: int, rad: nat)
    requires
        0 <= c < 40,
        0 <= r < 24,
        0 <= k < 9,
        0 <= q <= 60,
        ({
            let (ax, ay, bx, by, radius) = stretch(k);
            &&& rad == radius
            &&& cx == 150 * (2 * c - 39) - 60 * ax - (bx - ax) * q
            &&& cy == 250 * (2 * r - 23) - 60 * ay - (by - ay) * q
        }),
        cx * cx + cy * cy + 900 <= 36 * (rad * rad),
    ensures
        in_airway_spec(cell_pos_spec(c as nat, r as nat)),
{
    let (ax, ay, bx, by, _) = stretch(k);
    let w = airways_spec()[k];
    lemma_stretch(k);
    lemma_ends(ax, ay, bx, by, rad);
    lemma_cell_place(c as nat, r as nat);
    lemma_mul_is_associative(60, bx - ax, q);
    lemma_mul_is_associative(60, by - ay, q);
    lemma_within_reach(
        cell_pos_spec(c as nat, r as nat),
        w.a,
        w.b,
        150 * (2 * c - 39),
        250 * (2 * r - 23),
        60 * ax,
        60 * ay,
        60 * bx,
        60 * by,
        rad,
        q,
        cx,
        cy,
    );
}

/// The trachea: two cells wide, from the top row to the carina.
pub open spec fn on_trachea(c: int, r: int) -> bool {
    (c == 19 || c == 20) && 0 <= r <= 4
}

/// The half columns from the midline at which the lobes start in a row.
pub open spec fn inner_edge(r: int) -> int {
    if r <= 4 {
        9
    } else if r <= 16 {
        7
    } else {
        5
    }
}

/// The half columns from the midline at which the lobes end in a row.
pub open spec fn outer_edge(r: int) -> int {
    if r <= 2 {
        13
    } else if r <= 3 {
        17
    } else if r <= 4 {
        19
    } else if r <= 5 {
        21
    } else if r <= 6 {
        23
    } else if r <= 8 {
        25
    } else if r <= 9 {
        27
    } else if r <= 11 {
        29
    } else if r <= 13 {
        31
    } else if r <= 15 {
        33
    } else if r <= 20 {
        35
    } else if r <= 21 {
        29
    } else if r <= 22 {
        21
    } else {
        15
    }
}

/// The half columns from the midline up to which the heart takes the left lobe in
/// a row.
pub open spec fn heart_edge(r: int) -> int {
    if r <= 12 {
        0
    } else if r <= 13 {
        11
    } else if r <= 14 {
        13
    } else if r <= 19 {
        15
    } else if r <= 20 {
        13
    } else if r <= 21 {
        11
    } else if r <= 22 {
        7
    } else {
        0
    }
}

/// The columns of a row that the airways take out of the lobes.
pub open spec fn is_carved(c: int, r: int) -> bool {
    if r <= 5 {
        false
    } else if r <= 6 {
        c == 16 || c == 23
    } else if r <= 7 {
        10 <= c <= 13 || 15 <= c <= 16 || 23 <= c <= 24 || 26 <= c <= 29
    } else if r <= 8 {
        13 <= c <= 16 || 23 <= c <= 26
    } else if r <= 9 {
        12 <= c <= 14 || 25 <= c <= 27
    } else if r <= 12 {
        13 <= c <= 14 || 25 <= c <= 26
    } else if r <= 13 {
        11 <= c <= 13 || 25 <= c <= 28
    } else if r <= 14 {
        8 <= c <= 11 || 25 <= c <= 26 || 28 <= c <= 31
    } else if r <= 15 {
        26 <= c <= 27
    } else if r <= 16 {
        26 <= c <= 28
    } else if r <= 17 {
        c == 26 || 29 <= c <= 30
    } else {
        false
    }
}

/// There is tissue in a cell: it is on the trachea, or in a lobe and neither
/// taken by the heart nor carved out by the airways.
pub open spec fn is_drawn(c: int, r: int) -> bool {
    let k = off_midline(c);
    &&& 0 <= c < 40 && 0 <= r < 24
    &&& on_trachea(c, r) || {
        &&& 2 <= r
        &&& inner_edge(r) <= k <= outer_edge(r)
        &&& c >= 20 || k > heart_edge(r)
        &&& !is_carved(c, r)
    }
}

/// The root that the half width at a row goes with, in parts.
spec fn row_root(r: int) -> int {
    if r <= 2 {
        1325
    } else if r <= 3 {
        1974
    } else if r <= 4 {
        2458
    } else if r <= 5 {
        2861
    } else if r <= 6 {
        3213
    } else if r <= 7 {
        3531
    } else if r <= 8 {
        3822
    } else if r <= 9 {
        4093
    } else if r <= 10 {
        4347
    } else if r <= 11 {
        4587
    } else if r <= 12 {
        4815
    } else if r <= 13 {
        5032
    } else if r <= 14 {
        5241
    } else if r <= 15 {
        5441
    } else if r <= 16 {
        5635
    } else if r <= 17 {
        5822
    } else {
        5999
    }
}

/// These are the roots.
proof fn lemma_row_root(r: int)
    requires
        2 <= r < 24,
    ensures
        is_row_root(r, row_root(r)),
{
    if r == 2 {
        assert(is_row_root(2, 1325));
    } else if r == 3 {
        assert(is_row_root(3, 1974));
    } else if r == 4 {
        assert(is_row_root(4, 2458));
    } else if r == 5 {
        assert(is_row_root(5, 2861));
    } else if r == 6 {
        assert(is_row_root(6, 3213));
    } else if r == 7 {
        assert(is_row_root(7, 3531));
    } else if r == 8 {
        assert(is_row_root(8, 3822));
    } else if r == 9 {
        assert(is_row_root(9, 4093));
    } else if r == 10 {
        assert(is_row_root(10, 4347));
    } else if r == 11 {
        assert(is_row_root(11, 4587));
    } else if r == 12 {
        assert(is_row_root(12, 4815));
    } else if r == 13 {
        assert(is_row_root(13, 5032));
    } else if r == 14 {
        assert(is_row_root(14, 5241));
    } else if r == 15 {
        assert(is_row_root(15, 5441));
    } else if r == 16 {
        assert(is_row_root(16, 5635));
    } else if r == 17 {
        assert(is_row_root(17, 5822));
    } else if r == 18 {
        assert(is_row_root(18, 5999));
    } else if r == 19 {
        assert(is_row_root(19, 5999));
    } else if r == 20 {
        assert(is_row_root(20, 5999));
    } else if r == 21 {
        assert(is_row_root(21, 5999));
    } else if r == 22 {
        assert(is_row_root(22, 5999));
    } else if r == 23 {
        assert(is_row_root(23, 5999));
    }
}

/// The outline of the lobes, in half columns.
proof fn lemma_outline(c: int, r: int)
    requires
        0 <= c < 40,
        0 <= r < 24,
    ensures
        in_lobe_spec(cell_pos_spec(c as nat, r as nat)) == (2 <= r && inner_edge(r) <= off_midline(
            c,
        ) <= outer_edge(r)),
{
    let p = cell_pos_spec(c as nat, r as nat);
    let k = off_midline(c);
    lemma_cell_place(c as nat, r as nat);
    if r < 2 {
        lemma_over_the_apex(p, r);
    } else {
        lemma_row_root(r);
        lemma_in_lobe(p, k, r, row_root(r));
        lemma_edges(c, r);
    }
}

/// The edges of the lobes leave room for what rounding takes.
proof fn lemma_edges(c: int, r: int)
    requires
        0 <= c < 40,
        2 <= r < 24,
    ensures
        ({
            let k = off_midline(c);
            if inner_edge(r) <= k <= outer_edge(r) {
                is_well_inside(k, r, row_root(r))
            } else {
                is_well_outside(k, r, row_root(r))
            }
        }),
{
}

/// The half columns from the midline from which the heart leaves the left lobe in
/// a row that it reaches.
spec fn free_edge(r: int) -> int {
    if r == 12 {
        7
    } else {
        heart_edge(r) + 2
    }
}

/// How far a cell of the left lobe is from the middle of the notch.
spec fn spread(k: int, r: int) -> int {
    let a = 150 * k - 840;
    let b = 250 * (2 * r - 23) - 2760;
    1764 * (a * a) + 676 * (b * b)
}

/// How far a cell is from the middle of the notch: `a` parts across and `b` down.
proof fn lemma_spread(k: int, r: int, a: int, b: int)
    requires
        a == 150 * k - 840,
        b == 250 * (2 * r - 23) - 2760,
    ensures
        spread(k, r) == 1764 * (a * a) + 676 * (b * b),
{
}

/// What the heart takes.
proof fn lemma_heart(c: int, r: int)
    requires
        0 <= c < 20,
        2 <= r < 24,
        inner_edge(r) <= off_midline(c),
    ensures
        in_notch_spec(cell_pos_spec(c as nat, r as nat)) == (off_midline(c) <= heart_edge(r)),
{
    let p = cell_pos_spec(c as nat, r as nat);
    let k = off_midline(c);
    let a = 150 * k - 840;
    lemma_cell_place(c as nat, r as nat);
    lemma_notch(p, 150 * k, 250 * (2 * r - 23), spread(k, r));
    lemma_heart_row(r);
    if k <= heart_edge(r) {
        let edge = 150 * heart_edge(r) - 840;
        assert(a * a <= edge * edge) by (nonlinear_arith)
            requires
                -edge <= a <= edge,
        ;
    } else if 12 <= r <= 22 {
        let next = 150 * free_edge(r) - 840;
        lemma_mul_upper_bound(next, a, next, a);
    } else {
        assert(a * a >= 0) by (nonlinear_arith);
    }
}

/// The edges of the heart leave room for what rounding takes.
proof fn lemma_heart_row(r: int)
    requires
        2 <= r < 24,
    ensures
        13 <= r <= 22 ==> spread(heart_edge(r), r) + 200_000 <= 4_292_870_400,
        12 <= r <= 22 ==> spread(free_edge(r), r) >= 4_292_870_400 + 200_000,
        r < 12 || r == 23 ==> ({
            let b = 250 * (2 * r - 23) - 2760;
            676 * (b * b) >= 4_292_870_400 + 200_000
        }),
{
    if r < 12 {
        let b = 250 * (2 * r - 23) - 2760;
        assert(b * b >= 3010 * 3010) by (nonlinear_arith)
            requires
                b <= -3010,
        ;
    } else if r == 12 {
        lemma_spread(7, 12, 210, -2510);
        assert(spread(7, 12) >= 4_292_870_400 + 200_000);
    } else if r == 13 {
        lemma_spread(11, 13, 810, -2010);
        assert(spread(11, 13) + 200_000 <= 4_292_870_400);
        lemma_spread(13, 13, 1110, -2010);
        assert(spread(13, 13) >= 4_292_870_400 + 200_000);
    } else if r == 14 {
        lemma_spread(13, 14, 1110, -1510);
        assert(spread(13, 14) + 200_000 <= 4_292_870_400);
        lemma_spread(15, 14, 1410, -1510);
        assert(spread(15, 14) >= 4_292_870_400 + 200_000);
    } else if r == 15 {
        lemma_spread(15, 15, 1410, -1010);
        assert(spread(15, 15) + 200_000 <= 4_292_870_400);
        lemma_spread(17, 15, 1710, -1010);
        assert(1710 * 1710 == 2_924_100);
        assert(spread(17, 15) >= 4_292_870_400 + 200_000);
    } else if r == 16 {
        lemma_spread(15, 16, 1410, -510);
        assert(spread(15, 16) + 200_000 <= 4_292_870_400);
        lemma_spread(17, 16, 1710, -510);
        assert(spread(17, 16) >= 4_292_870_400 + 200_000);
    } else if r == 17 {
        lemma_spread(15, 17, 1410, -10);
        assert(spread(15, 17) + 200_000 <= 4_292_870_400);
        lemma_spread(17, 17, 1710, -10);
        assert(spread(17, 17) >= 4_292_870_400 + 200_000);
    } else if r == 18 {
        lemma_spread(15, 18, 1410, 490);
        assert(spread(15, 18) + 200_000 <= 4_292_870_400);
        lemma_spread(17, 18, 1710, 490);
        assert(spread(17, 18) >= 4_292_870_400 + 200_000);
    } else if r == 19 {
        lemma_spread(15, 19, 1410, 990);
        assert(spread(15, 19) + 200_000 <= 4_292_870_400);
        lemma_spread(17, 19, 1710, 990);
        assert(spread(17, 19) >= 4_292_870_400 + 200_000);
    } else if r == 20 {
        lemma_spread(13, 20, 1110, 1490);
        assert(spread(13, 20) + 200_000 <= 4_292_870_400);
        lemma_spread(15, 20, 1410, 1490);
        assert(spread(15, 20) >= 4_292_870_400 + 200_000);
    } else if r == 21 {
        lemma_spread(11, 21, 810, 1990);
        assert(spread(11, 21) + 200_000 <= 4_292_870_400);
        lemma_spread(13, 21, 1110, 1990);
        assert(spread(13, 21) >= 4_292_870_400 + 200_000);
    } else if r == 22 {
        lemma_spread(7, 22, 210, 2490);
        assert(spread(7, 22) + 200_000 <= 4_292_870_400);
        lemma_spread(9, 22, 510, 2490);
        assert(spread(9, 22) >= 4_292_870_400 + 200_000);
    } else {
        lemma_spread(5, 23, -90, 2990);
    }
}

/// A cell with tissue in a lobe is in no stretch of the airways.
proof fn lemma_spared(c: int, r: int, k: int)
    requires
        is_drawn(c, r),
        !on_trachea(c, r),
        0 <= k < 9,
    ensures
        ({
            let w = airways_spec()[k];
            !dist_to_segment_spec(cell_pos_spec(c as nat, r as nat), w.a, w.b).lt_spec(w.r)
        }),
{
    if k == 0 {
        if is_beside(c, r, 0, 20, 31, 37) {
            lemma_clear_of(c, r, 0, 20, 31, 37);
        } else if is_beside(c, r, 0, -4, -3, 5) {
            lemma_clear_of(c, r, 0, -4, -3, 5);
        } else if is_beside(c, r, 0, 1, 0, 1) {
            lemma_clear_of(c, r, 0, 1, 0, 1);
        } else if is_beside(c, r, 0, 0, 1, 1) {
            lemma_clear_of(c, r, 0, 0, 1, 1);
        } else {
            lemma_clear_of(c, r, 0, 16, 15, 22);
        }
    } else if k == 1 {
        if is_beside(c, r, 1, -20, 31, 37) {
            lemma_clear_of(c, r, 1, -20, 31, 37);
        } else if is_beside(c, r, 1, 4, -3, 5) {
            lemma_clear_of(c, r, 1, 4, -3, 5);
        } else if is_beside(c, r, 1, -1, 0, 1) {
            lemma_clear_of(c, r, 1, -1, 0, 1);
        } else if is_beside(c, r, 1, 0, 1, 1) {
            lemma_clear_of(c, r, 1, 0, 1, 1);
        } else {
            lemma_clear_of(c, r, 1, -16, 15, 22);
        }
    } else if k == 2 {
        if is_beside(c, r, 2, 8, 15, 17) {
            lemma_clear_of(c, r, 2, 8, 15, 17);
        } else if is_beside(c, r, 2, 0, -1, 1) {
            lemma_clear_of(c, r, 2, 0, -1, 1);
        } else if is_beside(c, r, 2, -3, 4, 5) {
            lemma_clear_of(c, r, 2, -3, 4, 5);
        } else if is_beside(c, r, 2, 3, -4, 5) {
            lemma_clear_of(c, r, 2, 3, -4, 5);
        } else {
            lemma_clear_of(c, r, 2, -16, 31, 35);
        }
    } else if k == 3 {
        if is_beside(c, r, 3, -8, 15, 17) {
            lemma_clear_of(c, r, 3, -8, 15, 17);
        } else if is_beside(c, r, 3, 0, -1, 1) {
            lemma_clear_of(c, r, 3, 0, -1, 1);
        } else if is_beside(c, r, 3, 3, 4, 5) {
            lemma_clear_of(c, r, 3, 3, 4, 5);
        } else if is_beside(c, r, 3, -3, -4, 5) {
            lemma_clear_of(c, r, 3, -3, -4, 5);
        } else {
            lemma_clear_of(c, r, 3, 16, 31, 35);
        }
    } else if k == 4 {
        if is_beside(c, r, 4, -224, -21, 225) {
            lemma_clear_of(c, r, 4, -224, -21, 225);
        } else if is_beside(c, r, 4, 224, 21, 225) {
            lemma_clear_of(c, r, 4, 224, 21, 225);
        } else if is_beside(c, r, 4, 0, -1, 1) {
            lemma_clear_of(c, r, 4, 0, -1, 1);
        } else {
            lemma_clear_of(c, r, 4, 0, 1, 1);
        }
    } else if k == 5 {
        if is_beside(c, r, 5, 224, -21, 225) {
            lemma_clear_of(c, r, 5, 224, -21, 225);
        } else if is_beside(c, r, 5, -224, 21, 225) {
            lemma_clear_of(c, r, 5, -224, 21, 225);
        } else if is_beside(c, r, 5, 3, 4, 5) {
            lemma_clear_of(c, r, 5, 3, 4, 5);
        } else {
            lemma_clear_of(c, r, 5, 0, -1, 1);
        }
    } else if k == 6 {
        if is_beside(c, r, 6, 61, -32, 69) {
            lemma_clear_of(c, r, 6, 61, -32, 69);
        } else if is_beside(c, r, 6, -3, 4, 5) {
            lemma_clear_of(c, r, 6, -3, 4, 5);
        } else if is_beside(c, r, 6, -5, -12, 13) {
            lemma_clear_of(c, r, 6, -5, -12, 13);
        } else if is_beside(c, r, 6, 5, 12, 13) {
            lemma_clear_of(c, r, 6, 5, 12, 13);
        } else {
            lemma_clear_of(c, r, 6, -1, 0, 1);
        }
    } else if k == 7 {
        if is_beside(c, r, 7, -15, 8, 17) {
            lemma_clear_of(c, r, 7, -15, 8, 17);
        } else if is_beside(c, r, 7, 11, -19, 22) {
            lemma_clear_of(c, r, 7, 11, -19, 22);
        } else if is_beside(c, r, 7, 0, 1, 1) {
            lemma_clear_of(c, r, 7, 0, 1, 1);
        } else if is_beside(c, r, 7, -5, 12, 13) {
            lemma_clear_of(c, r, 7, -5, 12, 13);
        } else {
            lemma_clear_of(c, r, 7, 5, -12, 13);
        }
    } else {
        if is_beside(c, r, 8, -44, -45, 63) {
            lemma_clear_of(c, r, 8, -44, -45, 63);
        } else if is_beside(c, r, 8, 9, 49, 50) {
            lemma_clear_of(c, r, 8, 9, 49, 50);
        } else if is_beside(c, r, 8, 11, -19, 22) {
            lemma_clear_of(c, r, 8, 11, -19, 22);
        } else if is_beside(c, r, 8, -8, 15, 17) {
            lemma_clear_of(c, r, 8, -8, 15, 17);
        } else {
            lemma_clear_of(c, r, 8, 1, 0, 1);
        }
    }
}

/// A carved cell is in the airways.
proof fn lemma_carved(c: int, r: int)
    requires
        is_carved(c, r),
        0 <= r < 24,
    ensures
        in_airway_spec(cell_pos_spec(c as nat, r as nat)),
{
    if r == 6 {
        if c == 16 {
            lemma_through(16, 6, 0, 25, -250, -220, 62);
        } else {
            lemma_through(23, 6, 1, 25, 250, -220, 62);
        }
    } else if r == 7 {
        if c == 10 {
            lemma_through(10, 7, 2, 60, -210, 30, 48);
        } else if c == 11 {
            lemma_through(11, 7, 2, 56, 10, -10, 48);
        } else if c == 12 {
            lemma_through(12, 7, 2, 44, 70, -130, 48);
        } else if c == 13 {
            lemma_through(13, 7, 2, 32, 130, -250, 48);
        } else if c == 15 {
            lemma_through(15, 7, 0, 36, -198, -138, 62);
        } else if c == 16 {
            lemma_through(16, 7, 0, 33, 6, -24, 62);
        } else if c == 23 {
            lemma_through(23, 7, 1, 33, -6, -24, 62);
        } else if c == 24 {
            lemma_through(24, 7, 1, 36, 198, -138, 62);
        } else if c == 26 {
            lemma_through(26, 7, 3, 32, -130, -250, 48);
        } else if c == 27 {
            lemma_through(27, 7, 3, 44, -70, -130, 48);
        } else if c == 28 {
            lemma_through(28, 7, 3, 56, -10, -10, 48);
        } else {
            lemma_through(29, 7, 3, 60, 210, 30, 48);
        }
    } else if r == 8 {
        if c == 13 {
            lemma_through(13, 8, 2, 22, -70, 150, 48);
        } else if c == 14 {
            lemma_through(14, 8, 0, 48, -114, -94, 62);
        } else if c == 15 {
            lemma_through(15, 8, 0, 44, 58, 58, 62);
        } else if c == 16 {
            lemma_through(16, 8, 0, 40, 230, 210, 62);
        } else if c == 23 {
            lemma_through(23, 8, 1, 40, -230, 210, 62);
        } else if c == 24 {
            lemma_through(24, 8, 1, 44, -58, 58, 62);
        } else if c == 25 {
            lemma_through(25, 8, 1, 48, 114, -94, 62);
        } else {
            lemma_through(26, 8, 3, 22, 70, 150, 48);
        }
    } else if r == 9 {
        if c == 12 {
            lemma_through(12, 9, 0, 60, -330, -50, 62);
        } else if c == 13 {
            lemma_through(13, 9, 0, 60, -30, -50, 62);
        } else if c == 14 {
            lemma_through(14, 9, 0, 56, 142, 102, 62);
        } else if c == 25 {
            lemma_through(25, 9, 1, 56, -142, 102, 62);
        } else if c == 26 {
            lemma_through(26, 9, 1, 60, 30, -50, 62);
        } else {
            lemma_through(27, 9, 1, 60, 330, -50, 62);
        }
    } else if r == 10 {
        if c == 13 {
            lemma_through(13, 10, 4, 9, -216, -6, 50);
        } else if c == 14 {
            lemma_through(14, 10, 4, 9, 84, -6, 50);
        } else if c == 25 {
            lemma_through(25, 10, 5, 9, -84, -6, 50);
        } else {
            lemma_through(26, 10, 5, 9, 216, -6, 50);
        }
    } else if r == 11 {
        if c == 13 {
            lemma_through(13, 11, 4, 17, -168, -18, 50);
        } else if c == 14 {
            lemma_through(14, 11, 4, 17, 132, -18, 50);
        } else if c == 25 {
            lemma_through(25, 11, 5, 17, -132, -18, 50);
        } else {
            lemma_through(26, 11, 5, 17, 168, -18, 50);
        }
    } else if r == 12 {
        if c == 13 {
            lemma_through(13, 12, 4, 25, -120, -30, 50);
        } else if c == 14 {
            lemma_through(14, 12, 4, 24, 174, 34, 50);
        } else if c == 25 {
            lemma_through(25, 12, 5, 24, -174, 34, 50);
        } else {
            lemma_through(26, 12, 5, 25, 120, -30, 50);
        }
    } else if r == 13 {
        if c == 11 {
            lemma_through(11, 13, 6, 23, -78, -200, 42);
        } else if c == 12 {
            lemma_through(12, 13, 6, 12, -42, -90, 42);
        } else if c == 13 {
            lemma_through(13, 13, 4, 32, -78, 22, 50);
        } else if c == 25 {
            lemma_through(25, 13, 5, 32, -222, 22, 50);
        } else if c == 26 {
            lemma_through(26, 13, 5, 32, 78, 22, 50);
        } else if c == 27 {
            lemma_through(27, 13, 7, 12, 42, -90, 42);
        } else {
            lemma_through(28, 13, 7, 23, 78, -200, 42);
        }
    } else if r == 14 {
        if c == 8 {
            lemma_through(8, 14, 6, 60, -90, -70, 42);
        } else if c == 9 {
            lemma_through(9, 14, 6, 52, 18, 10, 42);
        } else if c == 10 {
            lemma_through(10, 14, 6, 41, 54, 120, 42);
        } else if c == 11 {
            lemma_through(11, 14, 6, 30, 90, 230, 42);
        } else if c == 25 {
            lemma_through(25, 14, 5, 40, -270, 10, 50);
        } else if c == 26 {
            lemma_through(26, 14, 5, 40, 30, 10, 50);
        } else if c == 28 {
            lemma_through(28, 14, 7, 30, -90, 230, 42);
        } else if c == 29 {
            lemma_through(29, 14, 7, 41, -54, 120, 42);
        } else if c == 30 {
            lemma_through(30, 14, 7, 52, -18, 10, 42);
        } else {
            lemma_through(31, 14, 7, 60, 90, -70, 42);
        }
    } else if r == 15 {
        if c == 26 {
            lemma_through(26, 15, 5, 48, -18, -2, 50);
        } else {
            lemma_through(27, 15, 5, 48, 282, -2, 50);
        }
    } else if r == 16 {
        if c == 26 {
            lemma_through(26, 16, 5, 56, -66, -14, 50);
        } else if c == 27 {
            lemma_through(27, 16, 8, 17, -19, 40, 40);
        } else {
            lemma_through(28, 16, 8, 30, 60, -90, 40);
        }
    } else {
        if c == 26 {
            lemma_through(26, 17, 5, 60, -90, 230, 50);
        } else if c == 29 {
            lemma_through(29, 17, 8, 56, -82, 150, 40);
        } else {
            lemma_through(30, 17, 8, 60, 150, 110, 40);
        }
    }
}

/// A cell of the trachea is on it.
proof fn lemma_on_trachea(c: int, r: int, k: int, cx: int, cy: int)
    requires
        on_trachea(c, r),
        0 <= k <= 60,
        cx == 150 * (2 * c - 39),
        cy == 250 * (2 * r - 23) + 6000 - 40 * k,
        cx * cx + cy * cy + 900 <= 36 * (48 * 48),
    ensures
        is_trachea_spec(cell_pos_spec(c as nat, r as nat)),
{
    let top = Airway::at(0, -100, 0, -60, 48).a;
    let carina = Airway::at(0, -100, 0, -60, 48).b;
    lemma_ends(0, -100, 0, -60, 48);
    lemma_cell_place(c as nat, r as nat);
    lemma_within_reach(
        cell_pos_spec(c as nat, r as nat),
        top,
        carina,
        150 * (2 * c - 39),
        250 * (2 * r - 23),
        0,
        -6000,
        0,
        -3600,
        48,
        k,
        cx,
        cy,
    );
}

/// A cell to one side of the trachea is not on it.
proof fn lemma_off_trachea(c: int, r: int, nx: int, ny: int)
    requires
        0 <= c < 40,
        0 <= r < 24,
        nx * nx + ny * ny <= 1,
        nx * (150 * (2 * c - 39)) + ny * (250 * (2 * r - 23) + 6000) >= 290,
        nx * (150 * (2 * c - 39)) + ny * (250 * (2 * r - 23) + 3600) >= 290,
    ensures
        !is_trachea_spec(cell_pos_spec(c as nat, r as nat)),
{
    let top = Airway::at(0, -100, 0, -60, 48).a;
    let carina = Airway::at(0, -100, 0, -60, 48).b;
    lemma_ends(0, -100, 0, -60, 48);
    lemma_cell_place(c as nat, r as nat);
    lemma_out_of_reach(
        cell_pos_spec(c as nat, r as nat),
        top,
        carina,
        150 * (2 * c - 39),
        250 * (2 * r - 23),
        0,
        -6000,
        0,
        -3600,
        48,
        nx,
        ny,
        1,
    );
}

/// The trachea is where it is drawn.
proof fn lemma_trachea(c: int, r: int)
    requires
        0 <= c < 40,
        0 <= r < 24,
    ensures
        is_trachea_spec(cell_pos_spec(c as nat, r as nat)) == on_trachea(c, r),
{
    let x: int = if c == 19 {
        -150
    } else {
        150
    };
    if c < 19 {
        lemma_off_trachea(c, r, -1, 0);
    } else if c > 20 {
        lemma_off_trachea(c, r, 1, 0);
    } else if r > 4 {
        lemma_off_trachea(c, r, 0, 1);
    } else if r == 0 {
        lemma_on_trachea(c, r, 6, x, 10);
    } else if r == 1 {
        lemma_on_trachea(c, r, 19, x, -10);
    } else if r == 2 {
        lemma_on_trachea(c, r, 31, x, 10);
    } else if r == 3 {
        lemma_on_trachea(c, r, 44, x, -10);
    } else {
        lemma_on_trachea(c, r, 56, x, 10);
    }
}

/// Beside the mediastinum, or not.
proof fn lemma_mediastinum(c: int, r: int)
    requires
        0 <= c < 40,
        0 <= r < 24,
    ensures
        cell_pos_spec(c as nat, r as nat).x.abs_spec().lt_spec(hundredths(10)) == (off_midline(c)
            < 5),
{
    let x = cell_pos_spec(c as nat, r as nat).x.abs_spec();
    let k = off_midline(c);
    let s: int = pow2(149) as int;
    lemma_cell_place(c as nat, r as nat);
    lemma_hundredths(10);
    lemma_hair();
    lemma_value_order(x, hundredths(10));
    lemma_mul_is_associative(150, k, s);
    if k < 5 {
        lemma_mul_inequality(k, 3, s);
    } else {
        lemma_mul_inequality(5, k, s);
    }
}

/// Before any cell is culled there is tissue just where it is drawn.
pub proof fn the_lungs_are_as_drawn(c: int, r: int)
    ensures
        seed_at(c, r) == is_drawn(c, r),
{
    reveal(in_lung_spec);
    if 0 <= c < 40 && 0 <= r < 24 {
        let p = cell_pos_spec(c as nat, r as nat);
        let k = off_midline(c);
        lemma_trachea(c, r);
        lemma_mediastinum(c, r);
        lemma_outline(c, r);
        if 2 <= r && inner_edge(r) <= k <= outer_edge(r) {
            if c < 20 {
                lemma_heart(c, r);
            } else {
                lemma_cell_place(c as nat, r as nat);
            }
            if is_carved(c, r) {
                lemma_carved(c, r);
            } else if is_drawn(c, r) && !on_trachea(c, r) {
                lemma_not_in_airways(c, r);
            }
        }
    }
}

/// A cell with tissue in a lobe is not in the airways.
proof fn lemma_not_in_airways(c: int, r: int)
    requires
        is_drawn(c, r),
        !on_trachea(c, r),
    ensures
        !in_airway_spec(cell_pos_spec(c as nat, r as nat)),
{
    let p = cell_pos_spec(c as nat, r as nat);
    assert forall|k: int| 0 <= k < airways_spec().len() implies {
        let w = #[trigger] airways_spec()[k];
        !dist_to_segment_spec(p, w.a, w.b).lt_spec(w.r)
    } by {
        lemma_stretch(0);
        lemma_spared(c, r, k);
    }
}

/// There is tissue in a cell of a fresh pair of lungs.
pub open spec fn is_live(c: int, r: int) -> bool {
    0 <= c < COLS && 0 <= r < ROWS && fresh_spec()[cell_at(c, r)].alive
}

/// A cell that is drawn, and has support on both axes.
pub open spec fn is_supported(c: int, r: int) -> bool {
    &&& is_drawn(c, r)
    &&& is_drawn(c - 1, r) || is_drawn(c + 1, r)
    &&& is_drawn(c, r - 1) || is_drawn(c, r + 1)
}

/// A fresh pair of lungs has tissue just where it is drawn and supported.
pub proof fn fresh_lungs_are_what_is_supported(c: int, r: int)
    ensures
        is_live(c, r) == is_supported(c, r),
{
    if 0 <= c < COLS && 0 <= r < ROWS {
        lemma_cell(c, r);
        assert(fresh_spec()[cell_at(c, r)] == fresh_block(cell_at(c, r)));
    }
    the_lungs_are_as_drawn(c, r);
    the_lungs_are_as_drawn(c - 1, r);
    the_lungs_are_as_drawn(c + 1, r);
    the_lungs_are_as_drawn(c, r - 1);
    the_lungs_are_as_drawn(c, r + 1);
}

/// The trachea is solid, two cells wide, from the top row to the carina. Below it
/// the midline is clear. No other cell is airway.
pub proof fn the_trachea_runs_down_the_midline(c: int, r: int)
    requires
        0 <= c < COLS,
        0 <= r < ROWS,
    ensures
        c == 19 || c == 20 ==> is_live(c, r) == (r <= 4),
        fresh_spec()[cell_at(c, r)].airway == on_trachea(c, r),
{
    fresh_lungs_are_what_is_supported(c, r);
    lemma_cell(c, r);
    lemma_trachea(c, r);
    assert(fresh_spec()[cell_at(c, r)] == fresh_block(cell_at(c, r)));
}

/// A column of the left lung in which a row of the lobes has tissue.
spec fn left_column(r: int) -> int {
    if r <= 4 {
        14
    } else if r <= 6 {
        12
    } else if r <= 12 {
        8
    } else if r <= 21 {
        6
    } else if r == 22 {
        12
    } else {
        13
    }
}

/// There is tissue on both sides of the midline in every row of the lobes.
pub proof fn both_lungs_have_tissue(r: int) -> (sides: (int, int))
    requires
        2 <= r < ROWS,
    ensures
        sides.0 < 19 && is_live(sides.0, r),
        20 < sides.1 && is_live(sides.1, r),
{
    let c = left_column(r);
    fresh_lungs_are_what_is_supported(c, r);
    fresh_lungs_are_what_is_supported(39 - c, r);
    (c, 39 - c)
}

/// A fresh pair of lungs has tissue.
pub proof fn a_fresh_lung_has_tissue()
    ensures
        alive_tally(fresh_spec()) > 0,
{
    the_trachea_runs_down_the_midline(19, 1);
    lemma_cell(19, 1);
    lemma_tally_none(CELLS as nat, is_alive(fresh_spec()));
    assert(is_alive(fresh_spec())(cell_at(19, 1)));
}

/// A supported cell has supported neighbours on both axes: one pass of culling is
/// enough.
proof fn lemma_supported(c: int, r: int)
    requires
        is_supported(c, r),
    ensures
        is_supported(c - 1, r) || is_supported(c + 1, r),
        is_supported(c, r - 1) || is_supported(c, r + 1),
{
}

/// No cell of a fresh pair of lungs is stranded: each has a live neighbour on
/// both axes.
pub proof fn no_cell_is_stranded(c: int, r: int)
    requires
        is_live(c, r),
    ensures
        is_live(c - 1, r) || is_live(c + 1, r),
        is_live(c, r - 1) || is_live(c, r + 1),
{
    fresh_lungs_are_what_is_supported(c, r);
    fresh_lungs_are_what_is_supported(c - 1, r);
    fresh_lungs_are_what_is_supported(c + 1, r);
    fresh_lungs_are_what_is_supported(c, r - 1);
    fresh_lungs_are_what_is_supported(c, r + 1);
    lemma_supported(c, r);
}

/// The first serve is from the row under the one that the carina blocks, with the
/// midline clear around it.
pub proof fn the_ball_is_served_below_the_carina()
    ensures
        serve_row_spec(fresh_spec()) == 6,
        clear_row(fresh_spec(), 6),
{
    let b = fresh_spec();
    the_trachea_runs_down_the_midline(19, 4);
    lemma_cell(19, 4);
    let i = cell_at(19, 4);
    assert(b[i] == fresh_block(i));
    assert(blocks_serve(b, 4, i));
    assert(blocks_serve(b, 5, i));
    assert forall|j: int| 0 <= j < b.len() implies !#[trigger] blocks_serve(b, 6, j) by {
        assert(b[j] == fresh_block(j));
        let c = col_of(j);
        let r = row_of(j);
        if c == 19 || c == 20 {
            the_trachea_runs_down_the_midline(c, r);
            assert(cell_at(c, r) == j);
        }
    }
    assert(first_clear_row(b, 6) == Some(6nat));
    assert(first_clear_row(b, 5) == first_clear_row(b, 6));
    assert(first_clear_row(b, 4) == first_clear_row(b, 5));
}

} // verus!
