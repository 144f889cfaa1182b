//! The two lungs mirror each other, but for the heart and one twig.
use crate::lung::{
    airways_spec, along_spec, cell_pos_spec, dist_to_segment_spec, hundredths, in_airway_spec,
    in_lung_spec, is_trachea_spec, length_spec, Airway, Point,
};
use crate::single::{
    lemma_exact, lemma_negated, lemma_plus_exact, lemma_rounded_bounds, lemma_rounded_sign,
    lemma_whole, lemma_zero, Single,
};
use crate::ROWS;
use vstd::arithmetic::mul::*;
use vstd::arithmetic::power2::*;
use vstd::prelude::*;

verus! {

/// The same number, whichever way zero is signed; or both no number.
spec fn same(a: Single, b: Single) -> bool {
    a.nan() == b.nan() && (!a.nan() ==> a.key() == b.key())
}

/// The opposite number, whichever way zero is signed; or both no number.
spec fn opposite(a: Single, b: Single) -> bool {
    a.nan() == b.nan() && (!a.nan() ==> a.key() == -b.key())
}

/// What is the same or opposite has the same size.
proof fn lemma_alike(a: Single, b: Single)
    requires
        same(a, b) || opposite(a, b),
    ensures
        a.finite() == b.finite(),
        a.infinite() == b.infinite(),
        a.finite() ==> a.size() == b.size() && a.sig() == b.sig(),
        a.finite() && same(a, b) ==> a.value() == b.value(),
        a.finite() && opposite(a, b) ==> a.value() == -b.value(),
        a.bits % 0x8000_0000 != 0 && same(a, b) ==> a.nan() || a.neg() == b.neg(),
        a.bits % 0x8000_0000 != 0 && opposite(a, b) ==> a.nan() || a.neg() != b.neg(),
        a.nan() || a.bits % 0x8000_0000 == b.bits % 0x8000_0000,
{
    if a.finite() {
        assert(a.bits % 0x8000_0000 == b.bits % 0x8000_0000);
        assert(a.bits % 0x80_0000 == b.bits % 0x80_0000);
        assert(a.top() == b.top());
        lemma_zero(a);
        lemma_zero(b);
    }
}

/// Sums of the same are the same, and of opposites opposite.
proof fn lemma_plus_alike(a: Single, b: Single, c: Single, d: Single)
    ensures
        same(a, c) && same(b, d) ==> same(a.plus_spec(b), c.plus_spec(d)),
        opposite(a, c) && opposite(b, d) ==> opposite(a.plus_spec(b), c.plus_spec(d)),
{
    if (same(a, c) && same(b, d)) || (opposite(a, c) && opposite(b, d)) {
        lemma_alike(a, c);
        lemma_alike(b, d);
        let u = a.value() + b.value();
        lemma_rounded_sign(u as nat, 1);
        lemma_rounded_sign((-u) as nat, 1);
        reveal(Single::plus_spec);
    }
}

/// Products of the same are the same; one opposite turns them, two do not.
proof fn lemma_times_alike(a: Single, b: Single, c: Single, d: Single)
    ensures
        same(a, c) && same(b, d) ==> same(a.times_spec(b), c.times_spec(d)),
        opposite(a, c) && opposite(b, d) ==> same(a.times_spec(b), c.times_spec(d)),
        opposite(a, c) && same(b, d) ==> opposite(a.times_spec(b), c.times_spec(d)),
{
    if (same(a, c) || opposite(a, c)) && (same(b, d) || opposite(b, d)) {
        lemma_alike(a, c);
        lemma_alike(b, d);
        if a.finite() && b.finite() {
            lemma_product_alike(a, b, c, d);
        } else {
            if a.finite() {
                lemma_zero(a);
                lemma_zero(c);
            }
            if b.finite() {
                lemma_zero(b);
                lemma_zero(d);
            }
            reveal(Single::times_spec);
        }
    }
}

/// The same of numbers.
proof fn lemma_product_alike(a: Single, b: Single, c: Single, d: Single)
    requires
        a.finite(),
        b.finite(),
        c.finite(),
        d.finite(),
        a.size() == c.size(),
        b.size() == d.size(),
        (same(a, c) || opposite(a, c)) && (same(b, d) || opposite(b, d)),
    ensures
        same(a, c) && same(b, d) ==> same(a.times_spec(b), c.times_spec(d)),
        opposite(a, c) && opposite(b, d) ==> same(a.times_spec(b), c.times_spec(d)),
        opposite(a, c) && same(b, d) ==> opposite(a.times_spec(b), c.times_spec(d)),
{
    let n = a.size() * b.size();
    let t = pow2(149);
    let zero = Single::zero_spec();
    lemma_zero(a);
    lemma_zero(b);
    lemma_alike(a, c);
    lemma_alike(b, d);
    lemma_zero(zero);
    lemma_pow2_pos(149);
    lemma_rounded_sign(n, t);
    let r = Single::rounded(false, n, t);
    if n == 0 {
        lemma_mul_basics(t as int);
        lemma_rounded_bounds(n, t, zero);
        lemma_zero(r);
    } else {
        lemma_mul_basics(a.size() as int);
        lemma_mul_basics(b.size() as int);
    }
    reveal(Single::times_spec);
}

/// Differences of the same are the same, and of opposites opposite.
proof fn lemma_minus_alike(a: Single, b: Single, c: Single, d: Single)
    ensures
        same(a, c) && same(b, d) ==> same(a.minus_spec(b), c.minus_spec(d)),
        opposite(a, c) && opposite(b, d) ==> opposite(a.minus_spec(b), c.minus_spec(d)),
{
    lemma_plus_alike(a, b.negated_spec(), c, d.negated_spec());
}

/// Quotients of the same by the same that is over zero are the same.
proof fn lemma_over_alike(a: Single, d: Single, c: Single, e: Single)
    requires
        same(a, c),
        same(d, e),
        Single::zero_spec().lt_spec(d),
    ensures
        same(a.over_spec(d), c.over_spec(e)),
{
    lemma_alike(a, c);
    lemma_alike(d, e);
    assert(d == e);
    if a.finite() {
        lemma_zero(a);
        lemma_zero(c);
    }
    reveal(Single::over_spec);
}

/// Roots of the same are the same.
proof fn lemma_root_alike(a: Single, b: Single)
    requires
        same(a, b),
    ensures
        same(a.root_spec(), b.root_spec()),
{
    lemma_alike(a, b);
    if a.nan() || a.bits % 0x8000_0000 == 0 {
        reveal(Single::root_spec);
    } else {
        assert(a == b);
    }
}

/// Lengths of what is the same or opposite are the same.
proof fn lemma_length_alike(a: Single, b: Single, c: Single, d: Single)
    requires
        opposite(a, c),
        same(b, d),
    ensures
        same(length_spec(a, b), length_spec(c, d)),
{
    lemma_times_alike(a, a, c, c);
    lemma_times_alike(b, b, d, d);
    lemma_plus_alike(a.times_spec(a), b.times_spec(b), c.times_spec(c), d.times_spec(d));
    lemma_root_alike(
        a.times_spec(a).plus_spec(b.times_spec(b)),
        c.times_spec(c).plus_spec(d.times_spec(d)),
    );
}

/// A point is the mirror image of another.
spec fn mirrors(p: Point, q: Point) -> bool {
    opposite(p.x, q.x) && same(p.y, q.y)
}

/// How far along a segment a point lies is as far along its image.
proof fn lemma_along_alike(p: Point, a: Point, b: Point, q: Point, c: Point, d: Point)
    requires
        mirrors(p, q),
        mirrors(a, c),
        mirrors(b, d),
    ensures
        same(along_spec(p, a, b), along_spec(q, c, d)),
{
    let abx = b.x.minus_spec(a.x);
    let aby = b.y.minus_spec(a.y);
    let cdx = d.x.minus_spec(c.x);
    let cdy = d.y.minus_spec(c.y);
    let apx = p.x.minus_spec(a.x);
    let apy = p.y.minus_spec(a.y);
    let cqx = q.x.minus_spec(c.x);
    let cqy = q.y.minus_spec(c.y);
    lemma_minus_alike(b.x, a.x, d.x, c.x);
    lemma_minus_alike(b.y, a.y, d.y, c.y);
    lemma_minus_alike(p.x, a.x, q.x, c.x);
    lemma_minus_alike(p.y, a.y, q.y, c.y);
    lemma_times_alike(abx, abx, cdx, cdx);
    lemma_times_alike(aby, aby, cdy, cdy);
    let l = abx.times_spec(abx).plus_spec(aby.times_spec(aby));
    let m = cdx.times_spec(cdx).plus_spec(cdy.times_spec(cdy));
    lemma_plus_alike(
        abx.times_spec(abx),
        aby.times_spec(aby),
        cdx.times_spec(cdx),
        cdy.times_spec(cdy),
    );
    lemma_times_alike(apx, abx, cqx, cdx);
    lemma_times_alike(apy, aby, cqy, cdy);
    let v = apx.times_spec(abx).plus_spec(apy.times_spec(aby));
    let w = cqx.times_spec(cdx).plus_spec(cqy.times_spec(cdy));
    lemma_plus_alike(
        apx.times_spec(abx),
        apy.times_spec(aby),
        cqx.times_spec(cdx),
        cqy.times_spec(cdy),
    );
    if Single::zero_spec().lt_spec(l) {
        lemma_over_alike(v, l, w, m);
        lemma_clamp_alike(v.over_spec(l), w.over_spec(m));
    }
}

/// What is the same is the same between bounds.
proof fn lemma_clamp_alike(a: Single, b: Single)
    requires
        same(a, b),
    ensures
        same(
            a.clamp_spec(Single::zero_spec(), Single::whole_spec(1)),
            b.clamp_spec(Single::zero_spec(), Single::whole_spec(1)),
        ),
{
}

/// The distance to a segment is the distance of the image to its image.
proof fn lemma_distance_alike(p: Point, a: Point, b: Point, q: Point, c: Point, d: Point)
    requires
        mirrors(p, q),
        mirrors(a, c),
        mirrors(b, d),
    ensures
        same(dist_to_segment_spec(p, a, b), dist_to_segment_spec(q, c, d)),
{
    let t = along_spec(p, a, b);
    let u = along_spec(q, c, d);
    let abx = b.x.minus_spec(a.x);
    let aby = b.y.minus_spec(a.y);
    let cdx = d.x.minus_spec(c.x);
    let cdy = d.y.minus_spec(c.y);
    let apx = p.x.minus_spec(a.x);
    let apy = p.y.minus_spec(a.y);
    let cqx = q.x.minus_spec(c.x);
    let cqy = q.y.minus_spec(c.y);
    lemma_along_alike(p, a, b, q, c, d);
    lemma_minus_alike(b.x, a.x, d.x, c.x);
    lemma_minus_alike(b.y, a.y, d.y, c.y);
    lemma_minus_alike(p.x, a.x, q.x, c.x);
    lemma_minus_alike(p.y, a.y, q.y, c.y);
    lemma_times_alike(abx, t, cdx, u);
    lemma_times_alike(aby, t, cdy, u);
    lemma_minus_alike(apx, abx.times_spec(t), cqx, cdx.times_spec(u));
    lemma_minus_alike(apy, aby.times_spec(t), cqy, cdy.times_spec(u));
    lemma_length_alike(
        apx.minus_spec(abx.times_spec(t)),
        apy.minus_spec(aby.times_spec(t)),
        cqx.minus_spec(cdx.times_spec(u)),
        cqy.minus_spec(cdy.times_spec(u)),
    );
}

/// How far two columns are from the midline.
proof fn lemma_columns_mirror(col: nat) -> (s: Single)
    requires
        col < 20,
    ensures
        s.finite(),
        !s.neg(),
        s.size() >= pow2(148),
        Single::whole_spec(col).minus_spec(Single::ratio_spec(39, 2)) == s.negated_spec(),
        Single::whole_spec((39 - col) as nat).minus_spec(Single::ratio_spec(39, 2)) == s,
{
    let t = pow2(149);
    let h = pow2(148);
    let half = Single::ratio_spec(39, 2);
    let a = Single::whole_spec(col);
    let b = Single::whole_spec((39 - col) as nat);
    let n: nat = (39 - 2 * col) as nat;
    let s = Single::rounded(false, n * h, 1);
    let m = Single::rounded(false, 39 * h, 1);
    lemma_whole(col);
    lemma_whole((39 - col) as nat);
    lemma_exact(n, 148);
    lemma_exact(39, 148);
    lemma_pow2_unfold(149);
    lemma_pow2_pos(148);
    lemma_rounded_bounds(39 * t, 2, m);
    lemma_negated(half);
    lemma_negated(s);
    let nn: int = 39 - 2 * col;
    assert(col * (2 * h) - 39 * h == -(nn * h) && (39 - col) * (2 * h) - 39 * h == nn * h)
        by (nonlinear_arith)
        requires
            nn == 39 - 2 * col,
    ;
    lemma_mul_inequality(1, nn, h as int);
    lemma_plus_exact(a, half.negated_spec(), s.negated_spec());
    lemma_plus_exact(b, half.negated_spec(), s);
    s
}

/// Twentieths of a number and of its opposite.
proof fn lemma_twentieths(s: Single)
    requires
        s.finite(),
        !s.neg(),
        s.size() >= pow2(148),
    ensures
        ({
            let p = s.negated_spec().over_spec(Single::whole_spec(20));
            let q = s.over_spec(Single::whole_spec(20));
            &&& opposite(p, q)
            &&& p.abs_spec() == q.abs_spec()
            &&& p.lt_spec(Single::zero_spec())
            &&& !q.lt_spec(Single::zero_spec())
        }),
{
    let twenty = Single::whole_spec(20);
    let n = s.size() * pow2(149);
    lemma_whole(20);
    lemma_pow2_pos(148);
    lemma_pow2_pos(149);
    lemma_negated(s);
    lemma_zero(s);
    lemma_zero(twenty);
    lemma_rounded_sign(n, twenty.size());
    lemma_twentieth(s);
    assert(s.over_spec(twenty) == Single::rounded(false, n, twenty.size())) by {
        reveal(Single::over_spec);
    }
    assert(s.negated_spec().over_spec(twenty) == Single::rounded(true, n, twenty.size())) by {
        reveal(Single::over_spec);
    }
}

/// The cells of a row mirror each other.
proof fn lemma_cells_mirror(col: nat, row: nat)
    requires
        col < 20,
        row < ROWS,
    ensures
        ({
            let p = cell_pos_spec(col, row);
            let q = cell_pos_spec((39 - col) as nat, row);
            &&& mirrors(p, q)
            &&& p.x.abs_spec() == q.x.abs_spec()
            &&& p.y == q.y
            &&& p.x.lt_spec(Single::zero_spec())
            &&& !q.x.lt_spec(Single::zero_spec())
        }),
{
    let s = lemma_columns_mirror(col);
    lemma_twentieths(s);
}

/// A twentieth of a cell or more is something.
proof fn lemma_twentieth(s: Single)
    requires
        s.finite(),
        s.size() >= pow2(148),
    ensures
        Single::rounded(false, s.size() * pow2(149), Single::whole_spec(20).size()).bits
            % 0x8000_0000 > 0,
{
    let t = pow2(149);
    let least = Single::rounded(false, 1 * pow2(0), 1);
    let d = Single::whole_spec(20).size();
    lemma_whole(20);
    lemma_exact(1, 0);
    lemma2_to64();
    lemma_zero(least);
    lemma_pow2_unfold(149);
    lemma_pow2_adds(8, 140);
    lemma_pow2_pos(140);
    lemma_pow2_pos(149);
    assert(s.size() * t >= d) by {
        lemma_mul_inequality(20, s.size() as int, t as int);
    }
    lemma_mul_basics(d as int);
    lemma_rounded_bounds(s.size() * t, d, least);
    lemma_rounded_sign(s.size() * t, d);
}

/// Hundredths to one side are opposite to those to the other.
proof fn lemma_hundredths(n: int)
    ensures
        opposite(hundredths(n), hundredths(-n)),
        same(hundredths(n), hundredths(n)),
{
}

/// An airway and its image are as far from a point and its image.
proof fn lemma_airway(p: Point, q: Point, ax: int, ay: int, bx: int, by: int, r: nat)
    requires
        mirrors(p, q),
    ensures
        ({
            let v = Airway::at(ax, ay, bx, by, r);
            let w = Airway::at(-ax, ay, -bx, by, r);
            dist_to_segment_spec(p, v.a, v.b).lt_spec(v.r) == dist_to_segment_spec(
                q,
                w.a,
                w.b,
            ).lt_spec(w.r)
        }),
{
    let v = Airway::at(ax, ay, bx, by, r);
    let w = Airway::at(-ax, ay, -bx, by, r);
    lemma_hundredths(ax);
    lemma_hundredths(bx);
    lemma_distance_alike(p, v.a, v.b, q, w.a, w.b);
}

/// The airways of the right lung, but for the twig that only it has, are the
/// images of those of the left.
proof fn lemma_airways_mirror(p: Point, q: Point)
    requires
        mirrors(p, q),
        !in_airway_spec(p),
        ({
            let twig = airways_spec()[8];
            !dist_to_segment_spec(q, twig.a, twig.b).lt_spec(twig.r)
        }),
    ensures
        !in_airway_spec(q),
{
    let tree = airways_spec();
    lemma_airway(p, q, 0, -58, -32, -20, 62);
    lemma_airway(p, q, 0, -58, 32, -20, 62);
    lemma_airway(p, q, -24, -28, -44, -38, 48);
    lemma_airway(p, q, 24, -28, 44, -38, 48);
    lemma_airway(p, q, -28, -22, -34, 42, 50);
    lemma_airway(p, q, 28, -22, 34, 42, 50);
    lemma_airway(p, q, -32, 12, -56, 22, 42);
    lemma_airway(p, q, 32, 12, 56, 22, 42);
    assert forall|k: int| 0 <= k < tree.len() implies {
        let w = #[trigger] airways_spec()[k];
        !dist_to_segment_spec(q, w.a, w.b).lt_spec(w.r)
    } by {
        let j: int = if k == 8 {
            8
        } else if k % 2 == 0 {
            k + 1
        } else {
            k - 1
        };
        let w = airways_spec()[j];
        assert(!dist_to_segment_spec(p, w.a, w.b).lt_spec(w.r));
        assert(k == 0 || k == 1 || k == 2 || k == 3 || k == 4 || k == 5 || k == 6 || k == 7 || k
            == 8);
    }
}

/// The left lung is the image of the right with tissue only taken away, by the
/// heart, and none added: where there is tissue on the left, there is tissue on
/// the right, off the one twig that only the right lung has.
pub proof fn the_lungs_mirror_each_other(col: nat, row: nat)
    requires
        col < 20,
        row < ROWS,
        in_lung_spec(col, row),
        ({
            let twig = airways_spec()[8];
            let q = cell_pos_spec((39 - col) as nat, row);
            !dist_to_segment_spec(q, twig.a, twig.b).lt_spec(twig.r)
        }),
    ensures
        in_lung_spec((39 - col) as nat, row),
{
    reveal(in_lung_spec);
    let p = cell_pos_spec(col, row);
    let q = cell_pos_spec((39 - col) as nat, row);
    lemma_cells_mirror(col, row);
    if is_trachea_spec(p) {
        let top = Point { x: hundredths(0), y: hundredths(-100) };
        let carina = Point { x: hundredths(0), y: hundredths(-60) };
        lemma_hundredths(0);
        lemma_distance_alike(p, top, carina, q, top, carina);
    } else {
        lemma_airways_mirror(p, q);
    }
}

} // verus!
