//! Lung geometry: the silhouette, the airway tree, and the grid mask derived
//! from them. Pure functions of the cell, with no game state in them.
use crate::single::Single;
use crate::{COLS, ROWS};
use vstd::prelude::*;

verus! {

/// A point of the plane: of the playfield, in pixels, or of the lung, whose
/// grid spans -1 to 1 both ways.
#[derive(Clone, Copy, PartialEq, Eq, Structural, Debug)]
pub struct Point {
    pub x: Single,
    pub y: Single,
}

/// A stretch of the airway tree: a segment and the radius around it.
#[derive(Clone, Copy, PartialEq, Eq, Structural, Debug)]
pub struct Airway {
    pub a: Point,
    pub b: Point,
    pub r: Single,
}

/// Hundredths, to either side.
pub open spec fn hundredths(n: int) -> Single {
    if n < 0 {
        Single::ratio_spec((-n) as nat, 100).negated_spec()
    } else if n == 0 {
        Single::zero_spec()
    } else {
        Single::ratio_spec(n as nat, 100)
    }
}

/// Hundredths, to either side.
fn of_hundred(n: i32) -> (r: Single)
    requires
        -1000 <= n <= 1000,
    ensures
        r == hundredths(n as int),
{
    if n < 0 {
        Single::ratio((0 - n) as u32, 100).negated()
    } else if n == 0 {
        Single::zero()
    } else {
        Single::ratio(n as u32, 100)
    }
}

impl Airway {
    /// An airway between two points given in hundredths, its radius in
    /// thousandths.
    pub open spec fn at(ax: int, ay: int, bx: int, by: int, r: nat) -> Airway {
        Airway {
            a: Point { x: hundredths(ax), y: hundredths(ay) },
            b: Point { x: hundredths(bx), y: hundredths(by) },
            r: Single::ratio_spec(r, 1000),
        }
    }

    /// An airway between two points given in hundredths, its radius in
    /// thousandths.
    fn make(ax: i32, ay: i32, bx: i32, by: i32, r: u32) -> (w: Airway)
        requires
            -1000 <= ax <= 1000,
            -1000 <= ay <= 1000,
            -1000 <= bx <= 1000,
            -1000 <= by <= 1000,
            0 < r,
        ensures
            w == Airway::at(ax as int, ay as int, bx as int, by as int, r as nat),
    {
        Airway {
            a: Point { x: of_hundred(ax), y: of_hundred(ay) },
            b: Point { x: of_hundred(bx), y: of_hundred(by) },
            r: Single::ratio(r, 1000),
        }
    }
}

/// The airway tree below the carina: the two main bronchi, one generation of
/// lobar branches per side, the descending branches into the lower lobes, and
/// outward twigs. Radii taper by generation.
pub open spec fn airways_spec() -> Seq<Airway> {
    seq![
        Airway::at(0, -58, -32, -20, 62),
        Airway::at(0, -58, 32, -20, 62),
        Airway::at(-24, -28, -44, -38, 48),
        Airway::at(24, -28, 44, -38, 48),
        Airway::at(-28, -22, -34, 42, 50),
        Airway::at(28, -22, 34, 42, 50),
        Airway::at(-32, 12, -56, 22, 42),
        Airway::at(32, 12, 56, 22, 42),
        Airway::at(33, 34, 50, 44, 40),
    ]
}

/// The airway tree below the carina.
fn airways() -> (v: Vec<Airway>)
    ensures
        v@ == airways_spec(),
{
    let mut v: Vec<Airway> = Vec::new();
    v.push(Airway::make(0, -58, -32, -20, 62));
    v.push(Airway::make(0, -58, 32, -20, 62));
    v.push(Airway::make(-24, -28, -44, -38, 48));
    v.push(Airway::make(24, -28, 44, -38, 48));
    v.push(Airway::make(-28, -22, -34, 42, 50));
    v.push(Airway::make(28, -22, 34, 42, 50));
    v.push(Airway::make(-32, 12, -56, 22, 42));
    v.push(Airway::make(32, 12, 56, 22, 42));
    v.push(Airway::make(33, 34, 50, 44, 40));
    assert(v@ =~= airways_spec());
    v
}

/// The length of the vector `(dx, dy)`.
pub open spec fn length_spec(dx: Single, dy: Single) -> Single {
    dx.times_spec(dx).plus_spec(dy.times_spec(dy)).root_spec()
}

/// The length of the vector `(dx, dy)`.
pub fn length(dx: Single, dy: Single) -> (r: Single)
    ensures
        r == length_spec(dx, dy),
{
    dx.times(dx).plus(dy.times(dy)).root()
}

/// How far along the segment from `a` to `b`, between 0 and 1, its point next
/// to `p` lies.
pub open spec fn along_spec(p: Point, a: Point, b: Point) -> Single {
    let abx = b.x.minus_spec(a.x);
    let aby = b.y.minus_spec(a.y);
    let len2 = abx.times_spec(abx).plus_spec(aby.times_spec(aby));
    if Single::zero_spec().lt_spec(len2) {
        p.x.minus_spec(a.x).times_spec(abx).plus_spec(
            p.y.minus_spec(a.y).times_spec(aby),
        ).over_spec(len2).clamp_spec(Single::zero_spec(), Single::whole_spec(1))
    } else {
        Single::zero_spec()
    }
}

/// Distance from `p` to the segment from `a` to `b`.
pub open spec fn dist_to_segment_spec(p: Point, a: Point, b: Point) -> Single {
    let t = along_spec(p, a, b);
    length_spec(
        p.x.minus_spec(a.x).minus_spec(b.x.minus_spec(a.x).times_spec(t)),
        p.y.minus_spec(a.y).minus_spec(b.y.minus_spec(a.y).times_spec(t)),
    )
}

/// Distance from `p` to the segment from `a` to `b`.
pub fn dist_to_segment(p: Point, a: Point, b: Point) -> (r: Single)
    ensures
        r == dist_to_segment_spec(p, a, b),
{
    let abx: Single = b.x.minus(a.x);
    let aby: Single = b.y.minus(a.y);
    let apx: Single = p.x.minus(a.x);
    let apy: Single = p.y.minus(a.y);
    let len2: Single = abx.times(abx).plus(aby.times(aby));
    let t: Single = if Single::zero().lt(len2) {
        apx.times(abx).plus(apy.times(aby)).over(len2).clamp(Single::zero(), Single::whole(1))
    } else {
        Single::zero()
    };
    length(apx.minus(abx.times(t)), apy.minus(aby.times(t)))
}

/// Trachea: solid tissue down the midline, from the top edge to the carina
/// where it splits.
pub open spec fn is_trachea_spec(p: Point) -> bool {
    let top = Point { x: hundredths(0), y: hundredths(-100) };
    let carina = Point { x: hundredths(0), y: hundredths(-60) };
    dist_to_segment_spec(p, top, carina).lt_spec(Single::ratio_spec(48, 1000))
}

/// Trachea: solid tissue down the midline, from the top edge to the carina
/// where it splits.
pub fn is_trachea(p: Point) -> (b: bool)
    ensures
        b == is_trachea_spec(p),
{
    let top: Point = Point { x: of_hundred(0), y: of_hundred(-100) };
    let carina: Point = Point { x: of_hundred(0), y: of_hundred(-60) };
    dist_to_segment(p, top, carina).lt(Single::ratio(48, 1000))
}

/// The middle of a cell, in lung space: each way its distance from the middle
/// of the grid, as a share of half the grid.
pub open spec fn cell_pos_spec(col: nat, row: nat) -> Point {
    Point {
        x: Single::whole_spec(col).minus_spec(Single::ratio_spec(39, 2)).over_spec(
            Single::whole_spec(20),
        ),
        y: Single::whole_spec(row).minus_spec(Single::ratio_spec(23, 2)).over_spec(
            Single::whole_spec(12),
        ),
    }
}

/// The middle of a cell, in lung space.
pub fn cell_pos(col: usize, row: usize) -> (p: Point)
    requires
        col <= u32::MAX,
        row <= u32::MAX,
    ensures
        p == cell_pos_spec(col as nat, row as nat),
{
    Point {
        x: Single::whole(col as u32).minus(Single::ratio(39, 2)).over(Single::whole(20)),
        y: Single::whole(row as u32).minus(Single::ratio(23, 2)).over(Single::whole(12)),
    }
}

/// How deep a height is in the lobes: 0 at the apex, 1 at the base.
pub open spec fn depth_spec(y: Single) -> Single {
    y.minus_spec(hundredths(-86)).over_spec(hundredths(96).minus_spec(hundredths(-86)))
}

/// Half the width of the lungs at a depth. Apex narrow, base wide: that taper
/// is what reads as a lung.
pub open spec fn half_width_spec(depth: Single) -> Single {
    hundredths(22).plus_spec(
        hundredths(70).times_spec(
            depth.times_spec(hundredths(130)).min_spec(Single::whole_spec(1)).root_spec(),
        ),
    )
}

/// Where a lobe starts off the midline at a depth.
pub open spec fn inner_spec(depth: Single) -> Single {
    hundredths(10).plus_spec(hundredths(9).times_spec(Single::whole_spec(1).minus_spec(depth)))
}

/// The point is in the rounded-off corner at the outer base of a lobe.
pub open spec fn in_corner_spec(p: Point) -> bool {
    let from_base = hundredths(96).minus_spec(p.y).over_spec(
        hundredths(96).minus_spec(hundredths(-86)),
    );
    &&& from_base.lt_spec(hundredths(14))
    &&& half_width_spec(depth_spec(p.y)).minus_spec(
        hundredths(14).minus_spec(from_base).times_spec(hundredths(380)),
    ).lt_spec(p.x.abs_spec())
}

/// The point is in the lobe bodies: between apex and base, between where the
/// lobe starts and how wide it is, and not in the corner.
pub open spec fn in_lobe_spec(p: Point) -> bool {
    let ax = p.x.abs_spec();
    &&& !p.y.lt_spec(hundredths(-86))
    &&& !hundredths(96).lt_spec(p.y)
    &&& !half_width_spec(depth_spec(p.y)).lt_spec(ax)
    &&& !ax.lt_spec(inner_spec(depth_spec(p.y)))
    &&& !in_corner_spec(p)
}

/// The point is in the cardiac notch: the heart displaces the lower-inner left
/// lobe, which is the one on screen-left.
pub open spec fn in_notch_spec(p: Point) -> bool {
    let u = p.x.abs_spec().minus_spec(hundredths(14)).over_spec(hundredths(26));
    let v = p.y.minus_spec(hundredths(46)).over_spec(hundredths(42));
    &&& p.x.lt_spec(Single::zero_spec())
    &&& u.times_spec(u).plus_spec(v.times_spec(v)).lt_spec(Single::whole_spec(1))
}

/// The point is in the airway tree.
pub open spec fn in_airway_spec(p: Point) -> bool {
    exists|k: int|
        0 <= k < airways_spec().len() && {
            let w = #[trigger] airways_spec()[k];
            dist_to_segment_spec(p, w.a, w.b).lt_spec(w.r)
        }
}

/// True where a lung cell should exist: on the trachea, or beside the
/// mediastinum, inside a lobe silhouette, and carved out neither by the heart
/// nor by an airway. Outside the grid there is none.
#[verifier::opaque]
pub open spec fn in_lung_spec(col: nat, row: nat) -> bool {
    let p = cell_pos_spec(col, row);
    &&& col < COLS && row < ROWS
    &&& {
        ||| is_trachea_spec(p)
        ||| {
            &&& !p.x.abs_spec().lt_spec(hundredths(10))
            &&& in_lobe_spec(p)
            &&& !in_notch_spec(p)
            &&& !in_airway_spec(p)
        }
    }
}

/// The point is in the lobe bodies.
fn in_lobe(p: Point) -> (b: bool)
    ensures
        b == in_lobe_spec(p),
{
    let ax: Single = p.x.abs();
    let apex: Single = of_hundred(-86);
    let base: Single = of_hundred(96);
    if p.y.lt(apex) || base.lt(p.y) {
        return false;
    }
    let one: Single = Single::whole(1);
    let depth: Single = p.y.minus(apex).over(base.minus(apex));
    let half_width: Single = of_hundred(22).plus(
        of_hundred(70).times(depth.times(of_hundred(130)).min(one).root()),
    );
    let inner: Single = of_hundred(10).plus(of_hundred(9).times(one.minus(depth)));
    if half_width.lt(ax) || ax.lt(inner) {
        return false;
    }
    let corner: Single = of_hundred(14);
    let from_base: Single = base.minus(p.y).over(base.minus(apex));
    !(from_base.lt(corner) && half_width.minus(
        corner.minus(from_base).times(of_hundred(380)),
    ).lt(ax))
}

/// The point is in the cardiac notch.
fn in_notch(p: Point) -> (b: bool)
    ensures
        b == in_notch_spec(p),
{
    let u: Single = p.x.abs().minus(of_hundred(14)).over(of_hundred(26));
    let v: Single = p.y.minus(of_hundred(46)).over(of_hundred(42));
    p.x.lt(Single::zero()) && u.times(u).plus(v.times(v)).lt(Single::whole(1))
}

/// The point is in the airway tree.
fn in_airway(p: Point) -> (b: bool)
    ensures
        b == in_airway_spec(p),
{
    let tree: Vec<Airway> = airways();
    let mut k: usize = 0;
    while k < tree.len()
        invariant
            k <= tree.len(),
            tree@ == airways_spec(),
            forall|i: int|
                0 <= i < k ==> {
                    let w = #[trigger] airways_spec()[i];
                    !dist_to_segment_spec(p, w.a, w.b).lt_spec(w.r)
                },
        decreases tree.len() - k,
    {
        let w: Airway = tree[k];
        assert(w == airways_spec()[k as int]);
        if dist_to_segment(p, w.a, w.b).lt(w.r) {
            return true;
        }
        k = k + 1;
    }
    false
}

/// True where a lung cell should exist.
pub fn in_lung(col: usize, row: usize) -> (b: bool)
    ensures
        b == in_lung_spec(col as nat, row as nat),
{
    proof {
        reveal(in_lung_spec);
    }
    if col >= COLS || row >= ROWS {
        return false;
    }
    let p: Point = cell_pos(col, row);
    if is_trachea(p) {
        return true;
    }
    if p.x.abs().lt(of_hundred(10)) {
        return false;
    }
    in_lobe(p) && !in_notch(p) && !in_airway(p)
}

} // verus!
