//! What the ball hits next: the one answer that the live ball and the drawn
//! path share.
use crate::board::{rect, rect_spec, Block};
use crate::motion::{axis_span, axis_span_spec, wall_impact, wall_impact_spec, Axis, Ball, Impact};
use crate::single::Single;
use crate::{BALL_R, CELLS};
use vstd::prelude::*;
use vstd::seq_lib::lemma_seq_contains_after_push;

verus! {

/// The time at which the ball's centre enters the block grown by a radius, the
/// time at which it leaves it, and the axis of the face through which it comes:
/// that of the range which it enters last.
pub open spec fn pass_spec(b: Seq<Block>, ball: Ball, i: int) -> (Single, Single, Axis) {
    let (bx, by, bw, bh) = rect_spec(i, b[i].span);
    let r = BALL_R as int;
    let (tx0, tx1) = axis_span_spec(
        ball.x,
        ball.vx,
        Single::whole_spec((bx - r) as nat),
        Single::whole_spec((bx + bw + r) as nat),
    );
    let (ty0, ty1) = axis_span_spec(
        ball.y,
        ball.vy,
        Single::whole_spec((by - r) as nat),
        Single::whole_spec((by + bh + r) as nat),
    );
    (
        tx0.max_spec(ty0),
        tx1.min_spec(ty1),
        if ty0.lt_spec(tx0) {
            Axis::X
        } else {
            Axis::Y
        },
    )
}

/// The time at which the ball enters a block.
pub open spec fn entry(b: Seq<Block>, ball: Ball, i: int) -> Single {
    pass_spec(b, ball, i).0
}

/// The ball, going straight on, hits the block: it is live, not to be skipped,
/// and the ball enters it now or later. A ball that is on its way out of it
/// does not.
pub open spec fn strikes(b: Seq<Block>, ball: Ball, skip: Seq<usize>, i: int) -> bool {
    let (enter, exit, _) = pass_spec(b, ball, i);
    &&& b[i].alive
    &&& !skip.contains(i as usize)
    &&& enter.le_spec(exit)
    &&& Single::zero_spec().le_spec(enter)
    &&& Single::zero_spec().lt_spec(exit)
}

/// The time of an impact, or the limit where there is none.
pub open spec fn impact_time(hit: Impact, limit: Single) -> Single {
    match hit {
        Impact::Block(_, t, _) => t,
        Impact::Wall(_, _, t) => t,
        Impact::Free => limit,
    }
}

/// The soonest impact with a wall or with one of the first `n` blocks.
pub open spec fn impact_among(
    b: Seq<Block>,
    ball: Ball,
    limit: Single,
    skip: Seq<usize>,
    n: nat,
) -> Impact
    decreases n,
{
    if n == 0 {
        wall_impact_spec(ball, limit)
    } else {
        let i = n - 1;
        let hit = impact_among(b, ball, limit, skip, i as nat);
        if strikes(b, ball, skip, i) && entry(b, ball, i).lt_spec(impact_time(hit, limit)) {
            Impact::Block(i as usize, entry(b, ball, i), pass_spec(b, ball, i).2)
        } else {
            hit
        }
    }
}

/// The soonest surface that the ball meets within `limit` seconds, leaving out
/// the blocks listed in `skip`.
#[verifier::opaque]
pub open spec fn next_impact_spec(
    b: Seq<Block>,
    ball: Ball,
    limit: Single,
    skip: Seq<usize>,
) -> Impact {
    impact_among(b, ball, limit, skip, b.len())
}

/// What `impact_among` finds is the soonest there is.
proof fn lemma_among(b: Seq<Block>, ball: Ball, limit: Single, skip: Seq<usize>, n: nat)
    requires
        n <= b.len() <= usize::MAX,
    ensures
        is_soonest(b, ball, limit, skip, n, impact_among(b, ball, limit, skip, n)),
    decreases n,
{
    if n > 0 {
        lemma_among(b, ball, limit, skip, (n - 1) as nat);
    }
}

/// The impact is the soonest with a wall or with one of the first `n` blocks.
/// Of two blocks entered at the same time it is the first, and of a block and a
/// wall the wall.
pub open spec fn is_soonest(
    b: Seq<Block>,
    ball: Ball,
    limit: Single,
    skip: Seq<usize>,
    n: nat,
    hit: Impact,
) -> bool {
    let wall = wall_impact_spec(ball, limit);
    match hit {
        Impact::Block(i, t, axis) => {
            &&& i < n
            &&& strikes(b, ball, skip, i as int)
            &&& t == entry(b, ball, i as int)
            &&& axis == pass_spec(b, ball, i as int).2
            &&& t.lt_spec(limit)
            &&& wall is Wall ==> t.lt_spec(wall->Wall_2)
            &&& forall|j: int|
                0 <= j < n && #[trigger] strikes(b, ball, skip, j) ==> {
                    &&& t.le_spec(entry(b, ball, j))
                    &&& j < i ==> t.lt_spec(entry(b, ball, j))
                }
        },
        _ => {
            &&& hit == wall
            &&& forall|j: int|
                0 <= j < n && #[trigger] strikes(b, ball, skip, j) ==> !entry(b, ball, j).lt_spec(
                    impact_time(wall, limit),
                )
        },
    }
}

/// The next impact is the soonest there is: no wall and no block in the way is
/// met earlier, and one that is met within the limit is not missed.
pub proof fn next_impact_is_the_soonest(b: Seq<Block>, ball: Ball, limit: Single, skip: Seq<usize>)
    requires
        b.len() <= usize::MAX,
    ensures
        is_soonest(b, ball, limit, skip, b.len(), next_impact_spec(b, ball, limit, skip)),
{
    reveal(next_impact_spec);
    lemma_among(b, ball, limit, skip, b.len());
}

/// A block is live and not to be skipped.
pub open spec fn in_the_way(b: Seq<Block>, skip: Seq<usize>, i: int) -> bool {
    b[i].alive && !skip.contains(i as usize)
}

/// Two boards, each with blocks to be skipped, have the same blocks in the way.
pub open spec fn same_way(b: Seq<Block>, s: Seq<usize>, c: Seq<Block>, u: Seq<usize>) -> bool {
    &&& b.len() == c.len()
    &&& forall|i: int|
        #![trigger in_the_way(b, s, i)]
        #![trigger in_the_way(c, u, i)]
        0 <= i < b.len() ==> {
            &&& in_the_way(b, s, i) == in_the_way(c, u, i)
            &&& in_the_way(b, s, i) ==> b[i].span == c[i].span
        }
}

/// Two boards with the same blocks in the way have the same soonest impact.
proof fn lemma_same_among(
    b: Seq<Block>,
    s: Seq<usize>,
    c: Seq<Block>,
    u: Seq<usize>,
    ball: Ball,
    limit: Single,
    n: nat,
)
    requires
        same_way(b, s, c, u),
        n <= b.len(),
    ensures
        impact_among(b, ball, limit, s, n) == impact_among(c, ball, limit, u, n),
    decreases n,
{
    if n > 0 {
        lemma_same_among(b, s, c, u, ball, limit, (n - 1) as nat);
        assert(in_the_way(b, s, n - 1) == in_the_way(c, u, n - 1));
    }
}

/// What the ball meets next is a matter of the blocks in the way alone.
pub proof fn only_what_is_in_the_way_matters(
    b: Seq<Block>,
    s: Seq<usize>,
    c: Seq<Block>,
    u: Seq<usize>,
    ball: Ball,
    limit: Single,
)
    requires
        same_way(b, s, c, u),
    ensures
        next_impact_spec(b, ball, limit, s) == next_impact_spec(c, ball, limit, u),
{
    reveal(next_impact_spec);
    lemma_same_among(b, s, c, u, ball, limit, b.len());
}

/// One block more is skipped on both boards.
pub proof fn lemma_same_push(b: Seq<Block>, s: Seq<usize>, c: Seq<Block>, u: Seq<usize>, i: usize)
    requires
        same_way(b, s, c, u),
        b.len() <= usize::MAX,
    ensures
        same_way(b, s.push(i), c, u.push(i)),
{
    assert forall|j: int| 0 <= j < b.len() implies {
        &&& #[trigger] in_the_way(b, s.push(i), j) == in_the_way(c, u.push(i), j)
        &&& in_the_way(b, s.push(i), j) ==> b[j].span == c[j].span
    } by {
        lemma_seq_contains_after_push(s, i, j as usize);
        lemma_seq_contains_after_push(u, i, j as usize);
        assert(in_the_way(b, s, j) == in_the_way(c, u, j));
    }
}

/// The board with the listed blocks dead.
pub open spec fn without(b: Seq<Block>, skip: Seq<usize>) -> Seq<Block> {
    Seq::new(
        b.len(),
        |i: int|
            if skip.contains(i as usize) {
                Block { alive: false, ..b[i] }
            } else {
                b[i]
            },
    )
}

/// A block that is left out counts as a dead one.
pub proof fn a_skipped_block_counts_as_a_dead_one(
    b: Seq<Block>,
    ball: Ball,
    limit: Single,
    skip: Seq<usize>,
)
    ensures
        next_impact_spec(b, ball, limit, skip) == next_impact_spec(
            without(b, skip),
            ball,
            limit,
            Seq::empty(),
        ),
{
    only_what_is_in_the_way_matters(b, skip, without(b, skip), Seq::empty(), ball, limit);
}

/// The listed blocks are live ones, each listed once.
pub open spec fn is_struck_once(b: Seq<Block>, hits: Seq<usize>) -> bool {
    &&& forall|k: int|
        0 <= k < hits.len() ==> #[trigger] hits[k] < CELLS && b[hits[k] as int].alive
    &&& hits.no_duplicates()
}

/// A block that is met next is a live one that was not listed.
pub proof fn lemma_struck_next(b: Seq<Block>, ball: Ball, limit: Single, hits: Seq<usize>)
    requires
        b.len() == CELLS,
        is_struck_once(b, hits),
    ensures
        next_impact_spec(b, ball, limit, hits) matches Impact::Block(i, _, _) ==> is_struck_once(
            b,
            hits.push(i),
        ),
{
    next_impact_is_the_soonest(b, ball, limit, hits);
    if let Impact::Block(i, _, _) = next_impact_spec(b, ball, limit, hits) {
        assert(b[i as int].alive && !hits.contains(i));
    }
}

/// How far ahead one looks does not change what one sees: an impact found
/// within one limit is the one found within any other that it comes before. The
/// path that is drawn and the ball that follows it look to different limits.
pub proof fn looking_further_finds_the_same_impact(
    b: Seq<Block>,
    ball: Ball,
    near: Single,
    far: Single,
    skip: Seq<usize>,
)
    requires
        b.len() <= usize::MAX,
        near.le_spec(far),
    ensures
        next_impact_spec(b, ball, near, skip) !is Free ==> next_impact_spec(b, ball, far, skip)
            == next_impact_spec(b, ball, near, skip),
        impact_time(next_impact_spec(b, ball, far, skip), far).lt_spec(near)
            ==> next_impact_spec(b, ball, near, skip) == next_impact_spec(b, ball, far, skip),
{
    next_impact_is_the_soonest(b, ball, near, skip);
    next_impact_is_the_soonest(b, ball, far, skip);
    let n = next_impact_spec(b, ball, near, skip);
    let f = next_impact_spec(b, ball, far, skip);
    match (n, f) {
        (Impact::Block(i, _, _), Impact::Block(j, _, _)) => {
            assert(strikes(b, ball, skip, i as int));
            assert(strikes(b, ball, skip, j as int));
        },
        (Impact::Block(i, _, _), _) => {
            assert(strikes(b, ball, skip, i as int));
        },
        (_, Impact::Block(j, _, _)) => {
            assert(strikes(b, ball, skip, j as int));
        },
        _ => {},
    }
}

/// Whether an index is listed.
fn listed(skip: &[usize], i: usize) -> (r: bool)
    ensures
        r == skip@.contains(i),
{
    let mut k: usize = 0;
    while k < skip.len()
        invariant
            k <= skip.len(),
            forall|j: int| 0 <= j < k ==> skip@[j] != i,
        decreases skip.len() - k,
    {
        if skip[k] == i {
            assert(skip@[k as int] == i);
            return true;
        }
        k = k + 1;
    }
    false
}

/// The soonest surface that the ball meets within `limit` seconds, leaving out
/// the blocks listed in `skip`.
pub fn next_impact(b: &Vec<Block>, ball: &Ball, limit: Single, skip: &[usize]) -> (hit: Impact)
    requires
        b.len() == CELLS,
    ensures
        hit == next_impact_spec(b@, *ball, limit, skip@),
        hit matches Impact::Block(i, _, _) ==> i < CELLS && b@[i as int].alive && !skip@.contains(
            i,
        ),
{
    proof {
        reveal(next_impact_spec);
    }
    let zero: Single = Single::zero();
    let mut hit: Impact = wall_impact(ball, limit);
    let mut best: Single = match hit {
        Impact::Wall(_, _, t) => t,
        _ => limit,
    };
    let mut i: usize = 0;
    while i < b.len()
        invariant
            i <= b.len(),
            b.len() == CELLS,
            zero == Single::zero_spec(),
            hit == impact_among(b@, *ball, limit, skip@, i as nat),
            best == impact_time(hit, limit),
        decreases b.len() - i,
    {
        let block: Block = b[i];
        if block.alive && !listed(skip, i) {
            let (bx, by, bw, bh) = rect(i, block.span);
            let (tx0, tx1) = axis_span(
                ball.x,
                ball.vx,
                Single::whole(bx - BALL_R),
                Single::whole(bx + bw + BALL_R),
            );
            let (ty0, ty1) = axis_span(
                ball.y,
                ball.vy,
                Single::whole(by - BALL_R),
                Single::whole(by + bh + BALL_R),
            );
            let enter: Single = tx0.max(ty0);
            let exit: Single = tx1.min(ty1);
            if enter.le(exit) && zero.le(enter) && zero.lt(exit) && enter.lt(best) {
                best = enter;
                hit = Impact::Block(
                    i,
                    enter,
                    if ty0.lt(tx0) {
                        Axis::X
                    } else {
                        Axis::Y
                    },
                );
            }
        }
        i = i + 1;
    }
    proof {
        lemma_among(b@, *ball, limit, skip@, b@.len());
    }
    hit
}

} // verus!
