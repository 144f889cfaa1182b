//! What the game is and what each event makes of it, as a function from one
//! state to the next.
use crate::board::{
    alive_tally, col_of, fresh_spec, is_alive, is_alive_on, lemma_cell, lemma_tally_drop,
    lemma_tally_order, lemma_tally_same, rect_spec, row_of, scatter_spec, serve_row_spec,
    side_tally, tally, Block,
};
use crate::impact::next_impact_spec;
use crate::kind::Kind;
use crate::lung::Point;
use crate::merge::{find_patch_spec, lemma_find, merged, merging_frees_all_cells_but_one};
use crate::motion::{meets_paddle_spec, paddle_return_spec, Ball, Impact};
use crate::rng::xorshift;
use crate::scene::{
    a_trail_respects_its_budget, ball_instance, block_instances, lemma_block_instances,
    paddle_instance, pickup_instances, pleura_spec, segments, trail_spec, Instance, MOST_INSTANCES,
};
use crate::single::Single;
use crate::anatomy::a_fresh_lung_has_tissue;
use crate::trace::{Trace, MAX_BOUNCES};
use crate::{
    BALL_R, BARREN_BOUNCES, CELL, CELLS, CIG_H, CIG_W, CIG_Y, COLS, GRID_Y, H, PIERCE_BOUNCES,
    RADIOLOGIST_BOUNCES, ROWS, SPAWN_EVERY, W,
};
use vstd::prelude::*;

verus! {

/// Something that falls.
#[derive(Clone, Copy, PartialEq, Eq, Structural, Debug)]
pub struct Pickup {
    pub x: Single,
    pub y: Single,
    pub kind: Kind,
}

/// The state of a game. `crate::game::Game` says what each part is.
#[verifier::ext_equal]
pub struct World {
    pub blocks: Seq<Block>,
    pub ball: Ball,
    pub cig_x: Single,
    pub pickup: Option<Pickup>,
    pub pierce: u32,
    pub radiologist: u32,
    pub barren: u32,
    pub broke_since_bounce: bool,
    pub path: Seq<Point>,
    pub broken: Seq<usize>,
    pub hits: Seq<usize>,
    pub rng: u32,
    pub spawn_counter: u32,
    pub caught: Option<Kind>,
    pub caught_seq: u32,
    pub bounces: u32,
    pub asbestos_caught: u32,
    pub copd: Single,
    pub lost: bool,
    pub won: bool,
    pub alive_count: usize,
    pub starting_alive: usize,
    pub destroyed: u32,
    pub elapsed: Single,
    pub instances: Seq<Instance>,
}

/// A counter one further on. It starts over after its last value.
pub open spec fn bumped(n: u32) -> u32 {
    if n == u32::MAX {
        0
    } else {
        (n + 1) as u32
    }
}

/// A countdown one further on. It stays at zero.
pub open spec fn spent(n: u32) -> u32 {
    if n == 0 {
        0
    } else {
        (n - 1) as u32
    }
}

/// The block covers the cell.
pub open spec fn covers(b: Seq<Block>, i: int, j: int) -> bool {
    &&& col_of(i) <= col_of(j) < col_of(i) + b[i].span
    &&& row_of(i) <= row_of(j) < row_of(i) + b[i].span
}

/// Every live block lies on the grid.
pub open spec fn on_grid(b: Seq<Block>) -> bool {
    forall|i: int|
        #![trigger b[i]]
        0 <= i < CELLS && b[i].alive ==> {
            &&& 1 <= b[i].span <= 4
            &&& col_of(i) + b[i].span <= COLS
            &&& row_of(i) + b[i].span <= ROWS
        }
}

/// No live block covers the cell of another: what a sac absorbed is dead.
pub open spec fn sacs_apart(b: Seq<Block>) -> bool {
    forall|i: int, j: int|
        0 <= i < CELLS && 0 <= j < CELLS && i != j && b[i].alive && #[trigger] covers(b, i, j)
            ==> !b[j].alive
}

/// How long a block burns: bigger blocks longer, and some after a delay.
pub open spec fn burn_time_spec(span: u8, extra: Single) -> Single {
    Single::ratio_spec(45, 100).times_spec(
        Single::ratio_spec(7, 10).plus_spec(
            Single::ratio_spec(3, 10).times_spec(Single::whole_spec(span as nat)),
        ),
    ).plus_spec(extra)
}

/// A live block, set on fire.
pub open spec fn burning(b: Block, extra: Single) -> Block {
    Block {
        alive: false,
        burn: burn_time_spec(b.span, extra),
        burn_full: burn_time_spec(b.span, extra),
        ..b
    }
}

/// The delay of a cell in the collapse of a lobe: it spreads outward from the
/// midline, and a little downward.
pub open spec fn collapse_delay_spec(i: int) -> Single {
    let mid = (COLS / 2) as nat;
    let d = Single::whole_spec(col_of(i) as nat).minus_spec(Single::whole_spec(mid)).abs_spec()
        .over_spec(Single::whole_spec(mid)).min_spec(Single::whole_spec(1));
    Single::ratio_spec(10, 100).plus_spec(Single::ratio_spec(55, 100).times_spec(d)).plus_spec(
        Single::ratio_spec(10, 100).times_spec(
            Single::whole_spec(row_of(i) as nat).over_spec(Single::whole_spec(ROWS as nat)),
        ),
    )
}

/// The burns a time on. What does not burn is left alone.
pub open spec fn cooled(b: Block, dt: Single) -> Block {
    if Single::zero_spec().lt_spec(b.burn) {
        Block { burn: b.burn.minus_spec(dt).max_spec(Single::zero_spec()), ..b }
    } else {
        b
    }
}

/// The longest time that one tick takes.
pub open spec fn longest_tick() -> Single {
    Single::ratio_spec(5, 100)
}

/// What all kinds weigh together.
pub open spec fn total_weight(scatter: Single) -> nat {
    Kind::Cigarettes.weight_spec(scatter) as nat + Kind::Pneumothorax.weight_spec(scatter) as nat
        + Kind::Asbestos.weight_spec(scatter) as nat + Kind::Radiologist.weight_spec(scatter) as nat
}

/// The kind that a number under the total falls on, when the weights are laid
/// end to end.
pub open spec fn kind_at(scatter: Single, n: nat) -> Option<Kind> {
    let c = Kind::Cigarettes.weight_spec(scatter) as nat;
    let p = c + Kind::Pneumothorax.weight_spec(scatter) as nat;
    let a = p + Kind::Asbestos.weight_spec(scatter) as nat;
    let r = a + Kind::Radiologist.weight_spec(scatter) as nat;
    if n < c {
        Some(Kind::Cigarettes)
    } else if n < p {
        Some(Kind::Pneumothorax)
    } else if n < a {
        Some(Kind::Asbestos)
    } else if n < r {
        Some(Kind::Radiologist)
    } else {
        None
    }
}

/// The pickup touches the paddle.
pub open spec fn is_caught(p: Pickup, cig_x: Single) -> bool {
    let (w, h) = p.kind.size_spec();
    let half = Single::whole_spec((h / 2) as nat);
    &&& Single::whole_spec(CIG_Y as nat).lt_spec(p.y.plus_spec(half))
    &&& p.y.minus_spec(half).lt_spec(Single::whole_spec((CIG_Y + CIG_H) as nat))
    &&& p.x.minus_spec(cig_x).abs_spec().lt_spec(Single::whole_spec((CIG_W / 2 + w / 2) as nat))
}

/// The pickup has fallen out of the field.
pub open spec fn is_gone(p: Pickup) -> bool {
    let half = Single::whole_spec((p.kind.size_spec().1 / 2) as nat);
    Single::whole_spec(H as nat).lt_spec(p.y.minus_spec(half))
}

/// A pickup a time on.
pub open spec fn dropped(p: Pickup, dt: Single) -> Pickup {
    Pickup {
        y: p.y.plus_spec(Single::whole_spec(p.kind.fall_speed_spec() as nat).times_spec(dt)),
        ..p
    }
}

/// The ball in the middle of a tick: where it is, how much of the tick is left,
/// and what it has struck.
#[verifier::ext_equal]
pub struct Flight {
    pub ball: Ball,
    pub left: Single,
    pub hits: Seq<usize>,
}

/// Impacts that one tick goes through. A guard against a corner that traps the
/// ball, not an expected limit.
pub const MOST_IMPACTS: u32 = 16;

/// The ball at the end of a tick: it goes from impact to impact, off walls, and
/// off blocks unless it pierces, until no time is left.
pub open spec fn swept(b: Seq<Block>, pierces: bool, f: Flight, n: nat) -> Flight
    decreases n,
{
    if n == 0 || f.left.le_spec(Single::zero_spec()) {
        f
    } else {
        match next_impact_spec(b, f.ball, f.left, f.hits) {
            Impact::Wall(fx, fy, t) => swept(
                b,
                pierces,
                Flight {
                    ball: f.ball.moved_spec(t).turned_spec(fx, fy),
                    left: f.left.minus_spec(t),
                    hits: f.hits,
                },
                (n - 1) as nat,
            ),
            Impact::Block(i, t, axis) => swept(
                b,
                pierces,
                Flight {
                    ball: if pierces {
                        f.ball.moved_spec(t)
                    } else {
                        f.ball.moved_spec(t).reflected_spec(axis)
                    },
                    left: f.left.minus_spec(t),
                    hits: f.hits.push(i),
                },
                (n - 1) as nat,
            ),
            Impact::Free => Flight { ball: f.ball.moved_spec(f.left), ..f },
        }
    }
}

impl World {
    /// The state is one that a game can be in: the count of live blocks is
    /// right, no more was destroyed than there was, and blocks lie on the grid,
    /// apart from each other.
    pub open spec fn wf(self) -> bool {
        &&& self.blocks.len() == CELLS
        &&& self.alive_count == alive_tally(self.blocks)
        &&& self.destroyed + self.alive_count <= self.starting_alive <= CELLS
        &&& on_grid(self.blocks)
        &&& sacs_apart(self.blocks)
    }

    /// The win is latched: once no block lives, the game is won.
    pub open spec fn win_latched(self) -> bool {
        self.alive_count == 0 ==> self.won
    }

    /// A block is retired into its burn-up. One that is not live is left alone.
    pub open spec fn ignited(self, i: int, extra: Single) -> World {
        if self.blocks[i].alive {
            World {
                blocks: self.blocks.update(i, burning(self.blocks[i], extra)),
                alive_count: (self.alive_count - 1) as usize,
                destroyed: (self.destroyed + 1) as u32,
                won: self.won || self.alive_count == 1,
                ..self
            }
        } else {
            self
        }
    }

    /// The side that a pneumothorax collapses: the one with more tissue left.
    pub open spec fn fuller_side(self) -> bool {
        side_tally(self.blocks, true) >= side_tally(self.blocks, false)
    }

    /// Of the first `n` cells, the live ones on a side are burning.
    pub open spec fn collapsed_among(self, left: bool, n: nat) -> World {
        let k = tally(n, is_alive_on(self.blocks, left));
        World {
            blocks: Seq::new(
                self.blocks.len(),
                |i: int|
                    if i < n && is_alive_on(self.blocks, left)(i) {
                        burning(self.blocks[i], collapse_delay_spec(i))
                    } else {
                        self.blocks[i]
                    },
            ),
            alive_count: (self.alive_count - k) as usize,
            destroyed: (self.destroyed + k) as u32,
            won: self.won || (k > 0 && self.alive_count == k),
            ..self
        }
    }

    /// One lung deflates: every live block on the fuller side burns away.
    #[verifier::opaque]
    pub open spec fn collapsed(self) -> World {
        let w = self.collapsed_among(self.fuller_side(), CELLS as nat);
        World {
            copd: self.copd.plus_spec(Single::ratio_spec(15, 100)).min_spec(Single::whole_spec(1)),
            ..w
        }
    }

    /// The largest side of a patch that merges. It grows with the disease.
    pub open spec fn merge_span_spec(self) -> nat {
        if Single::ratio_spec(55, 100).lt_spec(self.copd) {
            4
        } else if Single::ratio_spec(25, 100).lt_spec(self.copd) {
            3
        } else {
            2
        }
    }

    /// A patch of live cells becomes one sac, and the disease advances, if there
    /// is such a patch.
    #[verifier::opaque]
    pub open spec fn merged_once(self) -> World {
        let (found, rng) = find_patch_spec(self.blocks, self.rng, self.merge_span_spec());
        match found {
            None => World { rng, ..self },
            Some(p) => World {
                rng,
                blocks: merged(self.blocks, p),
                alive_count: (self.alive_count - (p.span * p.span - 1)) as usize,
                copd: self.copd.plus_spec(Single::ratio_spec(5, 100)).min_spec(
                    Single::whole_spec(1),
                ),
                ..self
            },
        }
    }

    /// So many merges.
    pub open spec fn merged_times(self, n: nat) -> World
        decreases n,
    {
        if n == 0 {
            self
        } else {
            self.merged_times((n - 1) as nat).merged_once()
        }
    }

    /// A pickup is caught, and does what it does.
    #[verifier::opaque]
    pub open spec fn applied(self, kind: Kind) -> World {
        let w = World { caught: Some(kind), caught_seq: bumped(self.caught_seq), ..self };
        match kind {
            Kind::Cigarettes => w.merged_times(5),
            Kind::Pneumothorax => w.collapsed(),
            Kind::Asbestos => World {
                asbestos_caught: bumped(self.asbestos_caught),
                pierce: PIERCE_BOUNCES,
                ..w
            },
            Kind::Radiologist => World { radiologist: RADIOLOGIST_BOUNCES, ..w },
        }
    }

    /// The generator a step on.
    pub open spec fn stepped(self) -> World {
        World { rng: xorshift(self.rng), ..self }
    }

    /// A kind is rolled by weight, at the scatter level of the board.
    pub open spec fn rolled(self) -> (World, Option<Kind>) {
        let s = scatter_spec(self.blocks);
        if total_weight(s) == 0 {
            (self, None)
        } else {
            (self.stepped(), kind_at(s, xorshift(self.rng) as nat % total_weight(s)))
        }
    }

    /// What falls has fallen for a time, and may be caught or gone.
    #[verifier::opaque]
    pub open spec fn fallen(self, dt: Single) -> World {
        match self.pickup {
            None => self,
            Some(p) => {
                let q = dropped(p, dt);
                if is_caught(q, self.cig_x) {
                    World { pickup: None, ..self.applied(q.kind) }
                } else if is_gone(q) {
                    World { pickup: None, ..self }
                } else {
                    World { pickup: Some(q), ..self }
                }
            },
        }
    }

    /// The ball came back from the paddle. What lasts for bounces is spent by
    /// one. A rally that broke nothing counts as barren, and after so many in a
    /// row a radiologist is sent, unless something falls already.
    #[verifier::opaque]
    pub open spec fn returned(self) -> World {
        let barren = if self.broke_since_bounce {
            0
        } else {
            bumped(self.barren)
        };
        let send = barren >= BARREN_BOUNCES && self.pickup is None;
        World {
            bounces: bumped(self.bounces),
            pierce: spent(self.pierce),
            radiologist: spent(self.radiologist),
            barren: if send {
                0
            } else {
                barren
            },
            broke_since_bounce: false,
            pickup: if send {
                Some(
                    Pickup {
                        x: self.cig_x.clamp_spec(
                            Single::whole_spec(40),
                            Single::whole_spec((W - 40) as nat),
                        ),
                        y: Single::whole_spec(GRID_Y as nat),
                        kind: Kind::Radiologist,
                    },
                )
            } else {
                self.pickup
            },
            ..self
        }
    }

    /// The ball struck a block: it burns, and every so many blocks something
    /// drops out of it. Only a hit that could drop something counts.
    #[verifier::opaque]
    pub open spec fn struck(self, i: int) -> World {
        let (bx, by, bw, _) = rect_spec(i, self.blocks[i].span);
        let w = World { broke_since_bounce: true, ..self.ignited(i, Single::zero_spec()) };
        if w.pickup is Some {
            w
        } else {
            let w = World { spawn_counter: bumped(w.spawn_counter), ..w };
            if w.spawn_counter % SPAWN_EVERY != 0 {
                w
            } else {
                let (w, kind) = w.rolled();
                match kind {
                    None => w,
                    Some(kind) => World {
                        pickup: Some(
                            Pickup {
                                x: Single::ratio_spec((2 * bx + bw) as nat, 2),
                                y: Single::whole_spec(by as nat),
                                kind,
                            },
                        ),
                        ..w
                    },
                }
            }
        }
    }

    /// The ball struck the first `n` of the listed blocks.
    pub open spec fn struck_all(self, hits: Seq<usize>, n: nat) -> World
        decreases n,
    {
        if n == 0 {
            self
        } else {
            self.struck_all(hits, (n - 1) as nat).struck(hits[n - 1] as int)
        }
    }

    /// The burns a time on.
    #[verifier::opaque]
    pub open spec fn cooled(self, dt: Single) -> World {
        World {
            blocks: Seq::new(self.blocks.len(), |i: int| cooled(self.blocks[i], dt)),
            ..self
        }
    }

    /// Where the ball goes in a time.
    #[verifier::opaque]
    pub open spec fn flight(self, dt: Single) -> Flight {
        swept(
            self.blocks,
            self.pierce > 0,
            Flight { ball: self.ball, left: dt, hits: Seq::empty() },
            MOST_IMPACTS as nat,
        )
    }

    /// The part of a tick that a game which has ended does not have.
    #[verifier::opaque]
    pub open spec fn played(self, dt: Single) -> World {
        let w = World { elapsed: self.elapsed.plus_spec(dt), ..self }.fallen(dt);
        let f = w.flight(dt);
        let w = World { hits: f.hits, ..w };
        let caught = meets_paddle_spec(f.ball, w.cig_x);
        let ball = if caught {
            paddle_return_spec(f.ball, w.cig_x)
        } else {
            f.ball
        };
        let w = if caught {
            w.returned()
        } else {
            w
        };
        let w = w.struck_all(f.hits, f.hits.len());
        World {
            lost: w.lost || Single::whole_spec(H as nat).lt_spec(
                ball.y.minus_spec(Single::whole_spec(BALL_R as nat)),
            ),
            ball,
            ..w
        }
    }

    /// The game a time on. Burns run on after the end, so that the last
    /// collapse plays out.
    pub open spec fn ticked(self, dt: Single) -> World {
        let dt = dt.min_spec(longest_tick());
        let w = self.cooled(dt);
        if w.lost || w.won {
            w
        } else {
            w.played(dt)
        }
    }

    /// The ball is served: on the midline, from the middle of the row that is
    /// clear, heading down, a little off the vertical.
    pub open spec fn served(self) -> World {
        World {
            ball: Ball {
                x: Single::whole_spec((W / 2) as nat),
                y: Single::ratio_spec(
                    (2 * (GRID_Y + serve_row_spec(self.blocks) * CELL) + CELL) as nat,
                    2,
                ),
                vx: Single::whole_spec(90),
                vy: Single::whole_spec(300),
            },
            ..self
        }
    }

    /// A game whose ball is not in play yet.
    pub open spec fn unserved() -> World {
        let zero = Single::zero_spec();
        World {
            blocks: fresh_spec(),
            ball: Ball { x: zero, y: zero, vx: zero, vy: zero },
            cig_x: Single::whole_spec((W / 2) as nat),
            pickup: None,
            pierce: 0,
            radiologist: 0,
            barren: 0,
            broke_since_bounce: false,
            path: Seq::empty(),
            broken: Seq::empty(),
            hits: Seq::empty(),
            rng: 0x2545F491,
            spawn_counter: 0,
            caught: None,
            caught_seq: 0,
            bounces: 0,
            asbestos_caught: 0,
            copd: zero,
            lost: false,
            won: false,
            alive_count: alive_tally(fresh_spec()) as usize,
            starting_alive: alive_tally(fresh_spec()) as usize,
            destroyed: 0,
            elapsed: zero,
            instances: Seq::empty(),
        }
    }

    /// A game that is about to start.
    pub open spec fn fresh() -> World {
        World::unserved().served()
    }

    /// The paddle is moved, and stays in the field.
    pub open spec fn aimed(self, x: Single) -> World {
        World {
            cig_x: x.clamp_spec(
                Single::whole_spec((CIG_W / 2) as nat),
                Single::whole_spec((W - CIG_W / 2) as nat),
            ),
            ..self
        }
    }

    /// The path of the ball is predicted.
    #[verifier::opaque]
    pub open spec fn predicted(self) -> World {
        let end = Trace::start(self.ball).run(
            self.blocks,
            self.cig_x,
            self.pierce > 0,
            MAX_BOUNCES as nat,
        );
        World { path: end.path, broken: end.broken, ..self }
    }

    /// The scene is drawn: pleura, blocks, paddle, ball, the predicted path while
    /// a radiologist is at work, and what falls.
    pub open spec fn rebuilt(self) -> World {
        let w = if self.radiologist > 0 {
            self.predicted()
        } else {
            self
        };
        World {
            instances: pleura_spec() + block_instances(self.blocks, CELLS as nat) + seq![
                paddle_instance(self.cig_x),
                ball_instance(self.ball),
            ] + (if self.radiologist > 0 {
                trail_spec(w.path, segments(w.path)).dots
            } else {
                Seq::empty()
            }) + pickup_instances(self.pickup),
            ..w
        }
    }

    /// A scene never outgrows the buffer that is reserved for it.
    pub proof fn a_scene_fits_its_buffer(self)
        ensures
            self.rebuilt().instances.len() <= MOST_INSTANCES,
    {
        lemma_block_instances(self.blocks, CELLS as nat);
        let path = self.predicted().path;
        reveal(World::predicted);
        a_trail_respects_its_budget(path, segments(path));
    }

    /// A fresh game is one that a game can be in. It has tissue, all of it
    /// live, and is not won.
    pub proof fn lemma_fresh()
        ensures
            World::unserved().wf(),
            World::fresh().wf(),
            alive_tally(fresh_spec()) > 0,
            World::fresh().alive_count > 0,
            World::fresh().starting_alive == World::fresh().alive_count,
            World::fresh().win_latched(),
            !World::fresh().won && !World::fresh().lost,
    {
        a_fresh_lung_has_tissue();
        let b = fresh_spec();
        lemma_tally_order(CELLS as nat, is_alive(b), is_alive(b));
        assert forall|i: int, j: int|
            0 <= i < CELLS && 0 <= j < CELLS && i != j && b[i].alive && #[trigger] covers(b, i, j)
                implies !b[j].alive by {
            assert(b[i].span == 1);
            assert(i == j);
        }
    }

    /// Burning a block keeps the board: the count stays right, and the blocks
    /// apart.
    pub proof fn burning_keeps_the_board(self, i: int, extra: Single)
        requires
            self.wf(),
            0 <= i < CELLS,
        ensures
            self.ignited(i, extra).wf(),
            self.blocks[i].alive ==> self.alive_count >= 1 && self.destroyed < CELLS,
    {
        let w = self.ignited(i, extra);
        if self.blocks[i].alive {
            lemma_tally_drop(CELLS as nat, is_alive(self.blocks), is_alive(w.blocks), i);
            assert forall|k: int, j: int|
                0 <= k < CELLS && 0 <= j < CELLS && k != j && w.blocks[k].alive && #[trigger] covers(
                    w.blocks,
                    k,
                    j,
                ) implies !w.blocks[j].alive by {
                assert(covers(self.blocks, k, j));
            }
        }
    }

    /// Cooling keeps the board: it touches nothing but burns.
    pub proof fn cooling_keeps_the_board(self, dt: Single)
        requires
            self.wf(),
        ensures
            self.cooled(dt).wf(),
    {
        reveal(World::cooled);
        let w = self.cooled(dt);
        lemma_tally_same(CELLS as nat, is_alive(self.blocks), is_alive(w.blocks));
        assert forall|k: int, j: int|
            0 <= k < CELLS && 0 <= j < CELLS && k != j && w.blocks[k].alive && #[trigger] covers(
                w.blocks,
                k,
                j,
            ) implies !w.blocks[j].alive by {
            assert(covers(self.blocks, k, j));
        }
    }

    /// Merging keeps the board: the count stays right, and the blocks apart.
    pub proof fn merging_keeps_the_board(self)
        requires
            self.wf(),
        ensures
            self.merged_once().wf(),
    {
        reveal(World::merged_once);
        let w = self.merged_once();
        let span = self.merge_span_spec();
        lemma_find(self.blocks, self.rng, span);
        if let Some(p) = find_patch_spec(self.blocks, self.rng, span).0 {
            merging_frees_all_cells_but_one(self.blocks, p);
            lemma_cell(p.col as int, p.row as int);
            assert(p.span * p.span >= 4) by (nonlinear_arith)
                requires
                    p.span >= 2,
            ;
            let b = self.blocks;
            let m = w.blocks;
            assert forall|i: int, j: int|
                0 <= i < CELLS && 0 <= j < CELLS && i != j && m[i].alive && #[trigger] covers(
                    m,
                    i,
                    j,
                ) implies !m[j].alive by {
                if i == p.corner() {
                    assert(p.has(j));
                } else {
                    assert(m[i] == b[i]);
                    assert(covers(b, i, j));
                }
            }
        }
    }

    /// One cell more of a collapse.
    pub proof fn lemma_collapse_step(self, left: bool, n: nat)
        requires
            self.wf(),
            n < CELLS,
            self.collapsed_among(left, n).wf(),
        ensures
            ({
                let w = self.collapsed_among(left, n);
                let next = self.collapsed_among(left, n + 1);
                &&& is_alive_on(self.blocks, left)(n as int) ==> next == w.ignited(
                    n as int,
                    collapse_delay_spec(n as int),
                )
                &&& !is_alive_on(self.blocks, left)(n as int) ==> next == w
                &&& w.blocks[n as int] == self.blocks[n as int]
            }),
    {
        let w = self.collapsed_among(left, n);
        let next = self.collapsed_among(left, n + 1);
        let p = is_alive_on(self.blocks, left);
        lemma_tally_prefix(n + 1, CELLS as nat, p);
        lemma_tally_order(CELLS as nat, p, is_alive(self.blocks));
        if p(n as int) {
            assert(next =~= w.ignited(n as int, collapse_delay_spec(n as int)));
        } else {
            assert(next =~= w);
        }
    }
}

/// A tally over more cells is no lower.
proof fn lemma_tally_prefix(m: nat, n: nat, p: spec_fn(int) -> bool)
    requires
        m <= n,
    ensures
        tally(m, p) <= tally(n, p),
    decreases n,
{
    if m < n {
        lemma_tally_prefix(m, (n - 1) as nat, p);
    }
}

} // verus!
