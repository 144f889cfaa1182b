//! What is drawn: a list of rectangles, each with a number for what it shows.
use crate::board::{rect, rect_spec, Block};
use crate::lung::{length, length_spec, Point};
use crate::motion::Ball;
use crate::single::Single;
use crate::trail::dots_lie_at_the_marks;
use crate::world::Pickup;
use crate::{BALL_R, CELLS, CIG_H, CIG_W, CIG_Y, H, MAX_TRAIL_DOTS, PLEURA, SPACING_PX, W};
use vstd::prelude::*;

verus! {

/// A rectangle to draw: its place and size, the number of what it shows, and
/// how far that has burnt, 0 for what is intact.
#[derive(Clone, Copy, PartialEq, Eq, Structural, Debug)]
pub struct Instance {
    pub x: Single,
    pub y: Single,
    pub w: Single,
    pub h: Single,
    pub kind: Single,
    pub burn: Single,
}

/// Singles that an instance is made of.
pub const FLOATS_PER_INSTANCE: usize = 6;

/// Most instances of a scene: every cell, three strips of pleura, the paddle,
/// the ball, what falls, and a trail.
pub const MOST_INSTANCES: usize = 1478;

impl Instance {
    /// The patterns of the instance in the order in which the renderer reads
    /// them.
    pub open spec fn words_spec(self) -> Seq<u32> {
        seq![
            self.x.bits,
            self.y.bits,
            self.w.bits,
            self.h.bits,
            self.kind.bits,
            self.burn.bits,
        ]
    }

    /// An intact thing at a place and of a size given in whole pixels.
    pub open spec fn still(x: nat, y: nat, w: nat, h: nat, kind: nat) -> Instance {
        Instance {
            x: Single::whole_spec(x),
            y: Single::whole_spec(y),
            w: Single::whole_spec(w),
            h: Single::whole_spec(h),
            kind: Single::whole_spec(kind),
            burn: Single::zero_spec(),
        }
    }

    /// An intact thing at a place and of a size given in whole pixels.
    fn make(x: u32, y: u32, w: u32, h: u32, kind: u32) -> (r: Instance)
        ensures
            r == Instance::still(x as nat, y as nat, w as nat, h as nat, kind as nat),
    {
        Instance {
            x: Single::whole(x),
            y: Single::whole(y),
            w: Single::whole(w),
            h: Single::whole(h),
            kind: Single::whole(kind),
            burn: Single::zero(),
        }
    }
}

/// The pleura: the strips on the left, on the right and at the apex. The burn
/// of the last tells the renderer that it lies across.
pub open spec fn pleura_spec() -> Seq<Instance> {
    seq![
        Instance::still(0, 0, PLEURA as nat, H as nat, 8),
        Instance::still((W - PLEURA) as nat, 0, PLEURA as nat, H as nat, 8),
        Instance {
            burn: Single::whole_spec(1),
            ..Instance::still(0, 0, W as nat, PLEURA as nat, 8)
        },
    ]
}

/// Append the pleura.
pub fn draw_pleura(out: &mut Vec<Instance>)
    ensures
        final(out)@ == old(out)@ + pleura_spec(),
{
    let ghost before = out@;
    out.push(Instance::make(0, 0, PLEURA, H, 8));
    out.push(Instance::make(W - PLEURA, 0, PLEURA, H, 8));
    let top: Instance = Instance::make(0, 0, W, PLEURA, 8);
    out.push(
        Instance { x: top.x, y: top.y, w: top.w, h: top.h, kind: top.kind, burn: Single::whole(1) },
    );
    assert(out@ =~= before + pleura_spec());
}

/// The block is drawn: it lives, or still burns.
pub open spec fn is_shown(b: Block) -> bool {
    b.alive || !b.burn.le_spec(Single::zero_spec())
}

/// The number of what a block shows: airway, sac or tissue, or else fire.
pub open spec fn block_kind_spec(b: Block) -> nat {
    if !b.alive {
        6
    } else if b.airway {
        5
    } else if b.span > 1 {
        1
    } else {
        0
    }
}

/// How far a block has burnt.
pub open spec fn burnt_spec(b: Block) -> Single {
    if b.alive {
        Single::zero_spec()
    } else {
        Single::whole_spec(1).minus_spec(
            b.burn.over_spec(b.burn_full.max_spec(Single::ratio_spec(1, 10_000))),
        ).clamp_spec(Single::zero_spec(), Single::whole_spec(1))
    }
}

/// A block as it is drawn.
pub open spec fn block_instance(b: Block, i: int) -> Instance {
    let (x, y, w, h) = rect_spec(i, b.span);
    Instance {
        burn: burnt_spec(b),
        ..Instance::still(x as nat, y as nat, w as nat, h as nat, block_kind_spec(b))
    }
}

/// The first `n` blocks as they are drawn.
pub open spec fn block_instances(b: Seq<Block>, n: nat) -> Seq<Instance>
    decreases n,
{
    if n == 0 {
        Seq::empty()
    } else {
        let before = block_instances(b, (n - 1) as nat);
        if is_shown(b[n - 1]) {
            before.push(block_instance(b[n - 1], n - 1))
        } else {
            before
        }
    }
}

/// No block is drawn twice.
pub proof fn lemma_block_instances(b: Seq<Block>, n: nat)
    ensures
        block_instances(b, n).len() <= n,
    decreases n,
{
    if n > 0 {
        lemma_block_instances(b, (n - 1) as nat);
    }
}

/// Append the blocks.
pub fn draw_blocks(b: &Vec<Block>, out: &mut Vec<Instance>)
    requires
        b.len() == CELLS,
    ensures
        final(out)@ == old(out)@ + block_instances(b@, CELLS as nat),
{
    let ghost before = out@;
    let mut i: usize = 0;
    assert(out@ =~= before + block_instances(b@, 0));
    while i < b.len()
        invariant
            i <= b.len(),
            b.len() == CELLS,
            out@ == before + block_instances(b@, i as nat),
        decreases b.len() - i,
    {
        let block: Block = b[i];
        if block.alive || !block.burn.le(Single::zero()) {
            let (x, y, w, h) = rect(i, block.span);
            let (kind, burn): (u32, Single) = if block.alive {
                let base: u32 = if block.airway {
                    5
                } else if block.span > 1 {
                    1
                } else {
                    0
                };
                (base, Single::zero())
            } else {
                (
                    6,
                    Single::whole(1).minus(
                        block.burn.over(block.burn_full.max(Single::ratio(1, 10_000))),
                    ).clamp(Single::zero(), Single::whole(1)),
                )
            };
            let base: Instance = Instance::make(x, y, w, h, kind);
            let it: Instance = Instance {
                x: base.x,
                y: base.y,
                w: base.w,
                h: base.h,
                kind: base.kind,
                burn,
            };
            assert(it == block_instance(b@[i as int], i as int));
            out.push(it);
        }
        i = i + 1;
        assert(out@ =~= before + block_instances(b@, i as nat));
    }
}

/// The paddle.
pub open spec fn paddle_instance(cig_x: Single) -> Instance {
    Instance {
        x: cig_x.minus_spec(Single::whole_spec((CIG_W / 2) as nat)),
        ..Instance::still(0, CIG_Y as nat, CIG_W as nat, CIG_H as nat, 2)
    }
}

/// The paddle.
pub fn draw_paddle(cig_x: Single) -> (r: Instance)
    ensures
        r == paddle_instance(cig_x),
{
    let base: Instance = Instance::make(0, CIG_Y, CIG_W, CIG_H, 2);
    Instance {
        x: cig_x.minus(Single::whole(CIG_W / 2)),
        y: base.y,
        w: base.w,
        h: base.h,
        kind: base.kind,
        burn: base.burn,
    }
}

/// The ball.
pub open spec fn ball_instance(ball: Ball) -> Instance {
    Instance {
        x: ball.x.minus_spec(Single::whole_spec(BALL_R as nat)),
        y: ball.y.minus_spec(Single::whole_spec(BALL_R as nat)),
        ..Instance::still(0, 0, (2 * BALL_R) as nat, (2 * BALL_R) as nat, 3)
    }
}

/// The ball.
pub fn draw_ball(ball: Ball) -> (r: Instance)
    ensures
        r == ball_instance(ball),
{
    let base: Instance = Instance::make(0, 0, 2 * BALL_R, 2 * BALL_R, 3);
    Instance {
        x: ball.x.minus(Single::whole(BALL_R)),
        y: ball.y.minus(Single::whole(BALL_R)),
        w: base.w,
        h: base.h,
        kind: base.kind,
        burn: base.burn,
    }
}

/// What falls, if anything does.
pub open spec fn pickup_instances(p: Option<Pickup>) -> Seq<Instance> {
    match p {
        None => Seq::empty(),
        Some(p) => {
            let (w, h) = p.kind.size_spec();
            seq![
                Instance {
                    x: p.x.minus_spec(Single::whole_spec((w / 2) as nat)),
                    y: p.y.minus_spec(Single::whole_spec((h / 2) as nat)),
                    ..Instance::still(0, 0, w as nat, h as nat, p.kind.sprite_spec() as nat)
                },
            ]
        },
    }
}

/// Append what falls, if anything does.
pub fn draw_pickup(p: Option<Pickup>, out: &mut Vec<Instance>)
    ensures
        final(out)@ == old(out)@ + pickup_instances(p),
{
    let ghost before = out@;
    if let Some(p) = p {
        let (w, h) = p.kind.size();
        let base: Instance = Instance::make(0, 0, w, h, p.kind.sprite());
        out.push(
            Instance {
                x: p.x.minus(Single::whole(w / 2)),
                y: p.y.minus(Single::whole(h / 2)),
                w: base.w,
                h: base.h,
                kind: base.kind,
                burn: base.burn,
            },
        );
    }
    assert(out@ =~= before + pickup_instances(p));
}

/// The length of a segment of a path.
pub open spec fn segment_spec(path: Seq<Point>, k: int) -> Single {
    length_spec(path[k + 1].x.minus_spec(path[k].x), path[k + 1].y.minus_spec(path[k].y))
}

/// The length of the first `n` segments of a path.
pub open spec fn path_length_spec(path: Seq<Point>, n: nat) -> Single
    decreases n,
{
    if n == 0 {
        Single::zero_spec()
    } else {
        path_length_spec(path, (n - 1) as nat).plus_spec(segment_spec(path, n - 1))
    }
}

/// The segments of a path.
pub open spec fn segments(path: Seq<Point>) -> nat {
    if path.len() == 0 {
        0
    } else {
        (path.len() - 1) as nat
    }
}

/// A dot of a trail: a place along a segment, and the share of the whole path
/// that lies before it, by which the renderer fades the tail.
pub open spec fn dot_spec(
    a: Point,
    b: Point,
    len: Single,
    t: Single,
    walked: Single,
    total: Single,
) -> Instance {
    let share = if Single::zero_spec().lt_spec(total) {
        walked.plus_spec(t).over_spec(total)
    } else {
        Single::zero_spec()
    };
    Instance {
        x: a.x.plus_spec(b.x.minus_spec(a.x).times_spec(t.over_spec(len))).minus_spec(
            Single::whole_spec(2),
        ),
        y: a.y.plus_spec(b.y.minus_spec(a.y).times_spec(t.over_spec(len))).minus_spec(
            Single::whole_spec(2),
        ),
        burn: share.clamp_spec(Single::zero_spec(), Single::whole_spec(1)),
        ..Instance::still(0, 0, 4, 4, 7)
    }
}

/// The dots of a segment from `t` along it on, a fixed spacing apart, as far as
/// the budget goes, and where the next would be.
pub open spec fn dots_spec(
    a: Point,
    b: Point,
    len: Single,
    t: Single,
    walked: Single,
    total: Single,
    room: nat,
) -> (Seq<Instance>, Single)
    decreases room,
{
    if room > 0 && t.lt_spec(len) {
        let (rest, end) = dots_spec(
            a,
            b,
            len,
            t.plus_spec(Single::whole_spec(SPACING_PX as nat)),
            walked,
            total,
            (room - 1) as nat,
        );
        (seq![dot_spec(a, b, len, t, walked, total)] + rest, end)
    } else {
        (Seq::empty(), t)
    }
}

/// A trail on its way: the dots so far, the length of path behind them, and how
/// far into the next segment the next dot lies. The rhythm goes on through each
/// bounce.
#[verifier::ext_equal]
pub struct Trail {
    pub dots: Seq<Instance>,
    pub walked: Single,
    pub carry: Single,
}

/// The trail along the first `n` segments of a path. One too long for the
/// budget stops part way along.
pub open spec fn trail_spec(path: Seq<Point>, n: nat) -> Trail
    decreases n,
{
    if n == 0 {
        Trail { dots: Seq::empty(), walked: Single::zero_spec(), carry: Single::zero_spec() }
    } else {
        let s = trail_spec(path, (n - 1) as nat);
        let len = segment_spec(path, n - 1);
        if s.dots.len() >= MAX_TRAIL_DOTS || len.lt_spec(Single::ratio_spec(1, 1000)) {
            s
        } else {
            let (dots, t) = dots_spec(
                path[n - 1],
                path[n as int],
                len,
                s.carry,
                s.walked,
                path_length_spec(path, segments(path)),
                (MAX_TRAIL_DOTS - s.dots.len()) as nat,
            );
            Trail {
                dots: s.dots + dots,
                walked: s.walked.plus_spec(len),
                carry: t.minus_spec(len).max_spec(Single::zero_spec()),
            }
        }
    }
}

/// A trail stays within its budget of dots.
pub proof fn a_trail_respects_its_budget(path: Seq<Point>, n: nat)
    ensures
        trail_spec(path, n).dots.len() <= MAX_TRAIL_DOTS,
    decreases n,
{
    if n > 0 {
        a_trail_respects_its_budget(path, (n - 1) as nat);
        let s = trail_spec(path, (n - 1) as nat);
        if s.dots.len() < MAX_TRAIL_DOTS {
            dots_lie_at_the_marks(
                path[n - 1],
                path[n as int],
                segment_spec(path, n - 1),
                s.carry,
                s.walked,
                path_length_spec(path, segments(path)),
                (MAX_TRAIL_DOTS - s.dots.len()) as nat,
            );
        }
    }
}

/// The length of a segment of a path.
fn segment(path: &Vec<Point>, k: usize) -> (r: Single)
    requires
        k + 1 < path.len(),
    ensures
        r == segment_spec(path@, k as int),
{
    length(path[k + 1].x.minus(path[k].x), path[k + 1].y.minus(path[k].y))
}

/// The length of a path.
fn path_length(path: &Vec<Point>) -> (r: Single)
    ensures
        r == path_length_spec(path@, segments(path@)),
{
    let mut total: Single = Single::zero();
    if path.len() == 0 {
        return total;
    }
    let mut k: usize = 0;
    while k < path.len() - 1
        invariant
            k <= path.len() - 1,
            total == path_length_spec(path@, k as nat),
        decreases path.len() - k,
    {
        total = total.plus(segment(path, k));
        k = k + 1;
    }
    total
}

/// Append the dots of a segment, and return where the next would be.
fn draw_dots(
    a: Point,
    b: Point,
    len: Single,
    from: Single,
    walked: Single,
    total: Single,
    room: usize,
    out: &mut Vec<Instance>,
) -> (end: Single)
    ensures
        end == dots_spec(a, b, len, from, walked, total, room as nat).1,
        final(out)@ == old(out)@ + dots_spec(a, b, len, from, walked, total, room as nat).0,
{
    let ghost before = out@;
    let mut t: Single = from;
    let mut left: usize = room;
    let dx: Single = b.x.minus(a.x);
    let dy: Single = b.y.minus(a.y);
    let two: Single = Single::whole(2);
    let four: Single = Single::whole(4);
    let seven: Single = Single::whole(7);
    let spacing: Single = Single::whole(SPACING_PX);
    let zero: Single = Single::zero();
    let one: Single = Single::whole(1);
    assert(out@ =~= before + Seq::<Instance>::empty());
    while left > 0 && t.lt(len)
        invariant
            dx == b.x.minus_spec(a.x),
            dy == b.y.minus_spec(a.y),
            two == Single::whole_spec(2),
            four == Single::whole_spec(4),
            seven == Single::whole_spec(7),
            spacing == Single::whole_spec(SPACING_PX as nat),
            zero == Single::zero_spec(),
            one == Single::whole_spec(1),
            out@ + dots_spec(a, b, len, t, walked, total, left as nat).0 == before + dots_spec(
                a,
                b,
                len,
                from,
                walked,
                total,
                room as nat,
            ).0,
            dots_spec(a, b, len, t, walked, total, left as nat).1 == dots_spec(
                a,
                b,
                len,
                from,
                walked,
                total,
                room as nat,
            ).1,
        decreases left,
    {
        let along: Single = t.over(len);
        let share: Single = if zero.lt(total) {
            walked.plus(t).over(total)
        } else {
            zero
        };
        let ghost now = out@;
        let ghost rest = dots_spec(
            a,
            b,
            len,
            t.plus_spec(spacing),
            walked,
            total,
            (left - 1) as nat,
        ).0;
        let dot: Instance = Instance {
            x: a.x.plus(dx.times(along)).minus(two),
            y: a.y.plus(dy.times(along)).minus(two),
            w: four,
            h: four,
            kind: seven,
            burn: share.clamp(zero, one),
        };
        assert(dot == dot_spec(a, b, len, t, walked, total));
        out.push(dot);
        assert(now + (seq![dot] + rest) =~= out@ + rest);
        t = t.plus(spacing);
        left = left - 1;
    }
    assert(out@ + Seq::<Instance>::empty() =~= out@);
    t
}

/// Append a trail along a path.
pub fn draw_trail(path: &Vec<Point>, out: &mut Vec<Instance>)
    ensures
        final(out)@ == old(out)@ + trail_spec(path@, segments(path@)).dots,
{
    let ghost before = out@;
    let total: Single = path_length(path);
    let mut walked: Single = Single::zero();
    let mut carry: Single = Single::zero();
    let tiny: Single = Single::ratio(1, 1000);
    let mut room: usize = MAX_TRAIL_DOTS;
    if path.len() == 0 {
        assert(out@ =~= before + trail_spec(path@, 0).dots);
        return ;
    }
    let mut k: usize = 0;
    assert(out@ =~= before + trail_spec(path@, 0).dots);
    while k < path.len() - 1
        invariant
            k <= path.len() - 1,
            total == path_length_spec(path@, segments(path@)),
            tiny == Single::ratio_spec(1, 1000),
            out@ == before + trail_spec(path@, k as nat).dots,
            walked == trail_spec(path@, k as nat).walked,
            carry == trail_spec(path@, k as nat).carry,
            room + trail_spec(path@, k as nat).dots.len() == MAX_TRAIL_DOTS,
        decreases path.len() - k,
    {
        let ghost s = trail_spec(path@, k as nat);
        proof {
            a_trail_respects_its_budget(path@, (k + 1) as nat);
        }
        let len: Single = segment(path, k);
        if room > 0 && !len.lt(tiny) {
            let size: usize = out.len();
            let t: Single = draw_dots(
                path[k],
                path[k + 1],
                len,
                carry,
                walked,
                total,
                room,
                out,
            );
            let ghost dots = dots_spec(
                path@[k as int],
                path@[k + 1],
                len,
                carry,
                walked,
                total,
                room as nat,
            ).0;
            proof {
                assert(trail_spec(path@, (k + 1) as nat).dots == s.dots + dots);
                assert((before + s.dots) + dots =~= before + (s.dots + dots));
            }
            room = room - (out.len() - size);
            carry = t.minus(len).max(Single::zero());
            walked = walked.plus(len);
        }
        k = k + 1;
    }
}

} // verus!
