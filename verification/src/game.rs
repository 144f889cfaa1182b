//! The game.
use crate::board::{
    alive_tally, count_alive, count_side, fresh, rect, rect_spec, scatter, scatter_spec, serve_row,
    Block,
};
use crate::impact::{next_impact, next_impact_spec};
use crate::kind::Kind;
use crate::lung::Point;
use crate::merge::{find_patch, merge, merging_frees_all_cells_but_one};
use crate::motion::{bounce_off_block, bounce_off_paddle, Ball, Impact};
use crate::rng::next;
use crate::scene::{
    draw_ball, draw_blocks, draw_paddle, draw_pickup, draw_pleura, draw_trail, Instance,
    FLOATS_PER_INSTANCE, MOST_INSTANCES,
};
use crate::single::Single;
use crate::trace::predict;
use crate::world::{
    bumped, collapse_delay_spec, cooled, spent, swept, Flight, Pickup, World, MOST_IMPACTS,
};
use crate::{
    BALL_R, BARREN_BOUNCES, CELL, CELLS, CIG_H, CIG_W, CIG_Y, COLS, GRID_Y, H, PIERCE_BOUNCES,
    RADIOLOGIST_BOUNCES, ROWS, SPAWN_EVERY, W,
};
use vstd::prelude::*;

verus! {

/// A game.
pub struct Game {
    pub blocks: Vec<Block>,
    pub ball: Ball,
    /// The middle of the paddle.
    pub cig_x: Single,
    /// What falls. One thing at a time.
    pub pickup: Option<Pickup>,
    /// Paddle bounces left for which the ball pierces instead of reflecting.
    pub pierce: u32,
    /// Paddle bounces left for which the predicted path is shown.
    pub radiologist: u32,
    /// Paddle returns in a row that broke nothing.
    pub barren: u32,
    /// The current rally has broken something.
    pub broke_since_bounce: bool,
    /// The corners of the predicted path, and the blocks that it breaks.
    pub path: Vec<Point>,
    pub broken: Vec<usize>,
    /// Blocks struck in the last tick.
    pub hits: Vec<usize>,
    /// The state of the generator.
    pub rng: u32,
    pub spawn_counter: u32,
    /// What was caught last, and how often something was. The counter is what
    /// an announcement watches.
    pub caught: Option<Kind>,
    pub caught_seq: u32,
    pub bounces: u32,
    pub asbestos_caught: u32,
    /// How far the disease has come, up to one.
    pub copd: Single,
    pub lost: bool,
    /// Latched once the last block is destroyed.
    pub won: bool,
    /// Live blocks, and how many there were at first.
    pub alive_count: usize,
    pub starting_alive: usize,
    /// Blocks destroyed, and seconds played.
    pub destroyed: u32,
    pub elapsed: Single,
    /// What is drawn.
    pub instances: Vec<Instance>,
}

impl View for Game {
    type V = World;

    open spec fn view(&self) -> World {
        World {
            blocks: self.blocks@,
            ball: self.ball,
            cig_x: self.cig_x,
            pickup: self.pickup,
            pierce: self.pierce,
            radiologist: self.radiologist,
            barren: self.barren,
            broke_since_bounce: self.broke_since_bounce,
            path: self.path@,
            broken: self.broken@,
            hits: self.hits@,
            rng: self.rng,
            spawn_counter: self.spawn_counter,
            caught: self.caught,
            caught_seq: self.caught_seq,
            bounces: self.bounces,
            asbestos_caught: self.asbestos_caught,
            copd: self.copd,
            lost: self.lost,
            won: self.won,
            alive_count: self.alive_count,
            starting_alive: self.starting_alive,
            destroyed: self.destroyed,
            elapsed: self.elapsed,
            instances: self.instances@,
        }
    }
}

/// A counter one further on.
fn bump(n: u32) -> (r: u32)
    ensures
        r == bumped(n),
{
    if n == u32::MAX {
        0
    } else {
        n + 1
    }
}

/// A countdown one further on.
fn spend(n: u32) -> (r: u32)
    ensures
        r == spent(n),
{
    if n == 0 {
        0
    } else {
        n - 1
    }
}

impl Game {
    /// The ball is served from the first clear row at the carina or below it,
    /// heading down into the lungs, a little off the vertical.
    fn reset_ball(&mut self)
        requires
            old(self)@.wf(),
        ensures
            final(self)@ == old(self)@.served(),
    {
        let row: usize = serve_row(&self.blocks);
        self.ball = Ball {
            x: Single::whole(W / 2),
            y: Single::ratio(2 * (GRID_Y + row as u32 * CELL) + CELL, 2),
            vx: Single::whole(90),
            vy: Single::whole(300),
        };
    }

    /// A game that is about to start.
    pub fn new() -> (g: Game)
        ensures
            g@ == World::fresh(),
            g@.wf(),
    {
        let blocks: Vec<Block> = fresh();
        let alive: usize = count_alive(&blocks);
        let room: usize = MOST_INSTANCES;
        let nowhere: Single = Single::zero();
        let mut g: Game = Game {
            blocks,
            ball: Ball { x: nowhere, y: nowhere, vx: nowhere, vy: nowhere },
            cig_x: Single::whole(W / 2),
            pickup: None,
            pierce: 0,
            radiologist: 0,
            barren: 0,
            broke_since_bounce: false,
            path: Vec::with_capacity(256),
            broken: Vec::with_capacity(256),
            hits: Vec::with_capacity(16),
            rng: 0x2545F491,
            spawn_counter: 0,
            caught: None,
            caught_seq: 0,
            bounces: 0,
            asbestos_caught: 0,
            copd: Single::zero(),
            lost: false,
            won: false,
            alive_count: alive,
            starting_alive: alive,
            destroyed: 0,
            elapsed: Single::zero(),
            instances: Vec::with_capacity(room),
        };
        proof {
            World::lemma_fresh();
            assert(g@ =~= World::unserved());
        }
        g.reset_ball();
        g
    }

    /// The next number of the generator.
    pub fn rand(&mut self) -> (n: u32)
        ensures
            final(self)@ == old(self)@.stepped(),
            n == final(self)@.rng,
    {
        self.rng = next(self.rng);
        self.rng
    }

    /// Where a block is, in pixels: left, top, width and height.
    pub fn block_rect(&self, i: usize) -> (r: (u32, u32, u32, u32))
        requires
            self@.wf(),
            i < CELLS,
        ensures
            r.0 == rect_spec(i as int, self@.blocks[i as int].span).0,
            r.1 == rect_spec(i as int, self@.blocks[i as int].span).1,
            r.2 == rect_spec(i as int, self@.blocks[i as int].span).2,
            r.3 == rect_spec(i as int, self@.blocks[i as int].span).3,
    {
        rect(i, self.blocks[i].span)
    }

    /// Emphysema: a square patch of live cells collapses into one big fragile
    /// sac, if there is one left.
    pub fn merge_alveoli(&mut self)
        requires
            old(self)@.wf(),
        ensures
            final(self)@ == old(self)@.merged_once(),
            final(self)@.wf(),
    {
        proof {
            reveal(World::merged_once);
            self@.merging_keeps_the_board();
        }
        let span: usize = if Single::ratio(55, 100).lt(self.copd) {
            4
        } else if Single::ratio(25, 100).lt(self.copd) {
            3
        } else {
            2
        };
        let (found, rng) = find_patch(&self.blocks, self.rng, span);
        self.rng = rng;
        if let Some(p) = found {
            proof {
                merging_frees_all_cells_but_one(self.blocks@, p);
            }
            merge(&mut self.blocks, p);
            assert(4 <= p.span * p.span <= 16) by (nonlinear_arith)
                requires
                    2 <= p.span <= 4,
            ;
            let area: usize = p.span * p.span;
            self.alive_count = self.alive_count - (area - 1);
            self.copd = self.copd.plus(Single::ratio(5, 100)).min(Single::whole(1));
        }
    }

    /// Move the paddle. It stays in the field.
    pub fn set_paddle(&mut self, x: Single)
        ensures
            final(self)@ == old(self)@.aimed(x),
    {
        self.cig_x = x.clamp(Single::whole(CIG_W / 2), Single::whole(W - CIG_W / 2));
    }

    /// Whether no block lives.
    pub fn cleared(&self) -> (b: bool)
        requires
            self@.wf(),
        ensures
            b == (alive_tally(self@.blocks) == 0),
    {
        self.alive_count == 0
    }

    /// The number of instances that were drawn last.
    pub fn instance_count(&self) -> (n: i32)
        requires
            self@.instances.len() <= i32::MAX,
        ensures
            n == self@.instances.len(),
    {
        self.instances.len() as i32
    }

    /// The soonest surface that a ball meets within `limit` seconds, leaving out
    /// the blocks listed in `skip`.
    pub fn next_impact(&self, ball: &Ball, limit: Single, skip: &[usize]) -> (hit: Impact)
        requires
            self@.wf(),
        ensures
            hit == next_impact_spec(self@.blocks, *ball, limit, skip@),
            hit matches Impact::Block(i, _, _) ==> i < CELLS && self@.blocks[i as int].alive
                && !skip@.contains(i),
    {
        next_impact(&self.blocks, ball, limit, skip)
    }

    /// Trace where the ball will go.
    pub fn predict(&mut self)
        requires
            old(self)@.wf(),
        ensures
            final(self)@ == old(self)@.predicted(),
            final(self)@.wf(),
    {
        proof {
            reveal(World::predicted);
        }
        predict(
            &self.blocks,
            self.ball,
            self.cig_x,
            self.pierce > 0,
            &mut self.path,
            &mut self.broken,
        );
    }

    /// Retire a block into its burn-up, which is the longer the bigger the block
    /// and the longer `extra` is.
    pub fn ignite(&mut self, i: usize, extra: Single)
        requires
            old(self)@.wf(),
            i < CELLS,
        ensures
            final(self)@ == old(self)@.ignited(i as int, extra),
            final(self)@.wf(),
    {
        proof {
            self@.burning_keeps_the_board(i as int, extra);
        }
        if !self.blocks[i].alive {
            return ;
        }
        let was: Block = self.blocks[i];
        let full: Single = Single::ratio(45, 100).times(
            Single::ratio(7, 10).plus(Single::ratio(3, 10).times(Single::whole(was.span as u32))),
        ).plus(extra);
        self.blocks[i] = Block {
            alive: false,
            span: was.span,
            airway: was.airway,
            burn: full,
            burn_full: full,
        };
        self.alive_count = self.alive_count - 1;
        self.destroyed = self.destroyed + 1;
        if self.alive_count == 0 {
            self.won = true;
        }
    }

    /// Pneumothorax: one lung deflates. Every block on the fuller side burns
    /// away, the outer tissue last.
    pub fn collapse_lobe(&mut self)
        requires
            old(self)@.wf(),
        ensures
            final(self)@ == old(self)@.collapsed(),
            final(self)@.wf(),
    {
        let ghost w = self@;
        let left: bool = count_side(&self.blocks, true) >= count_side(&self.blocks, false);
        let mid: usize = COLS / 2;
        let mut i: usize = 0;
        assert(self@ =~= w.collapsed_among(left, 0));
        while i < CELLS
            invariant
                i <= CELLS,
                mid == COLS / 2,
                w.wf(),
                self@ == w.collapsed_among(left, i as nat),
                self@.wf(),
            decreases CELLS - i,
        {
            proof {
                w.lemma_collapse_step(left, i as nat);
            }
            if self.blocks[i].alive && (i % COLS < mid) == left {
                let col: Single = Single::whole((i % COLS) as u32);
                let row: Single = Single::whole((i / COLS) as u32);
                let half: Single = Single::whole(mid as u32);
                let d: Single = col.minus(half).abs().over(half).min(Single::whole(1));
                let extra: Single = Single::ratio(10, 100).plus(
                    Single::ratio(55, 100).times(d),
                ).plus(Single::ratio(10, 100).times(row.over(Single::whole(ROWS as u32))));
                assert(extra == collapse_delay_spec(i as int));
                self.ignite(i, extra);
            }
            i = i + 1;
        }
        self.copd = self.copd.plus(Single::ratio(15, 100)).min(Single::whole(1));
        proof {
            reveal(World::collapsed);
        }
    }

    /// A pickup is caught, and does what it does.
    pub fn apply(&mut self, kind: Kind)
        requires
            old(self)@.wf(),
        ensures
            final(self)@ == old(self)@.applied(kind),
            final(self)@.wf(),
    {
        proof {
            reveal(World::applied);
        }
        self.caught = Some(kind);
        self.caught_seq = bump(self.caught_seq);
        match kind {
            Kind::Cigarettes => {
                let ghost w = self@;
                let mut n: u32 = 0;
                while n < 5
                    invariant
                        n <= 5,
                        self@ == w.merged_times(n as nat),
                        self@.wf(),
                    decreases 5 - n,
                {
                    self.merge_alveoli();
                    n = n + 1;
                }
            },
            Kind::Pneumothorax => {
                self.collapse_lobe();
            },
            Kind::Asbestos => {
                self.asbestos_caught = bump(self.asbestos_caught);
                self.pierce = PIERCE_BOUNCES;
            },
            Kind::Radiologist => {
                self.radiologist = RADIOLOGIST_BOUNCES;
            },
        }
    }

    /// How broken up the lung is, from 0 to 1: the share of live cells with an
    /// exposed face.
    pub fn scatter(&self) -> (s: Single)
        requires
            self@.wf(),
        ensures
            s == scatter_spec(self@.blocks),
    {
        scatter(&self.blocks)
    }

    /// Roll a kind by weight.
    pub fn roll_kind(&mut self) -> (kind: Option<Kind>)
        requires
            old(self)@.wf(),
        ensures
            final(self)@ == old(self)@.rolled().0,
            kind == old(self)@.rolled().1,
            final(self)@.wf(),
    {
        let s: Single = self.scatter();
        let c: u32 = Kind::Cigarettes.weight(s);
        let p: u32 = Kind::Pneumothorax.weight(s);
        let a: u32 = Kind::Asbestos.weight(s);
        let r: u32 = Kind::Radiologist.weight(s);
        let total: u32 = c + p + a + r;
        if total == 0 {
            return None;
        }
        let n: u32 = self.rand() % total;
        if n < c {
            Some(Kind::Cigarettes)
        } else if n < c + p {
            Some(Kind::Pneumothorax)
        } else if n < c + p + a {
            Some(Kind::Asbestos)
        } else {
            Some(Kind::Radiologist)
        }
    }

    /// Let the burns run for a time.
    fn cool(&mut self, dt: Single)
        requires
            old(self)@.wf(),
        ensures
            final(self)@ == old(self)@.cooled(dt),
            final(self)@.wf(),
    {
        proof {
            reveal(World::cooled);
        }
        let ghost w = self@;
        let zero: Single = Single::zero();
        let mut i: usize = 0;
        while i < CELLS
            invariant
                i <= CELLS,
                zero == Single::zero_spec(),
                w.wf(),
                self@ == (World { blocks: self.blocks@, ..w }),
                self.blocks.len() == CELLS,
                forall|k: int| 0 <= k < i ==> #[trigger] self.blocks@[k] == cooled(w.blocks[k], dt),
                forall|k: int| i <= k < CELLS ==> #[trigger] self.blocks@[k] == w.blocks[k],
            decreases CELLS - i,
        {
            let was: Block = self.blocks[i];
            if zero.lt(was.burn) {
                self.blocks[i] = Block {
                    alive: was.alive,
                    span: was.span,
                    airway: was.airway,
                    burn: was.burn.minus(dt).max(zero),
                    burn_full: was.burn_full,
                };
            }
            i = i + 1;
        }
        assert(self@ =~= w.cooled(dt));
        proof {
            w.cooling_keeps_the_board(dt);
        }
    }

    /// Let what falls fall for a time, and catch it or lose it.
    pub fn fall(&mut self, dt: Single)
        requires
            old(self)@.wf(),
        ensures
            final(self)@ == old(self)@.fallen(dt),
            final(self)@.wf(),
    {
        proof {
            reveal(World::fallen);
        }
        if let Some(p) = self.pickup {
            let q: Pickup = Pickup {
                x: p.x,
                y: p.y.plus(Single::whole(p.kind.fall_speed()).times(dt)),
                kind: p.kind,
            };
            let (w, h) = q.kind.size();
            let half: Single = Single::whole(h / 2);
            let caught: bool = Single::whole(CIG_Y).lt(q.y.plus(half)) && q.y.minus(half).lt(
                Single::whole(CIG_Y + CIG_H),
            ) && q.x.minus(self.cig_x).abs().lt(Single::whole(CIG_W / 2 + w / 2));
            if caught {
                self.apply(q.kind);
                self.pickup = None;
            } else if Single::whole(H).lt(q.y.minus(half)) {
                self.pickup = None;
            } else {
                self.pickup = Some(q);
            }
        }
    }

    /// Move the ball for a time, from impact to impact, and list what it
    /// strikes. Returns where it is at the end.
    fn sweep(&mut self, dt: Single) -> (ball: Ball)
        requires
            old(self)@.wf(),
        ensures
            final(self)@ == (World { hits: old(self)@.flight(dt).hits, ..old(self)@ }),
            ball == old(self)@.flight(dt).ball,
            final(self)@.wf(),
            forall|k: int|
                0 <= k < old(self)@.flight(dt).hits.len() ==> #[trigger] old(self)@.flight(
                    dt,
                ).hits[k] < CELLS,
    {
        proof {
            reveal(World::flight);
        }
        let ghost w = self@;
        let ghost end = w.flight(dt);
        self.hits.clear();
        let mut ball: Ball = self.ball;
        let mut left: Single = dt;
        let mut n: u32 = MOST_IMPACTS;
        let pierces: bool = self.pierce > 0;
        let zero: Single = Single::zero();
        assert(self.hits@ =~= Seq::<usize>::empty());
        while n > 0
            invariant_except_break
                n <= MOST_IMPACTS,
                w.wf(),
                pierces == (w.pierce > 0),
                zero == Single::zero_spec(),
                self@ == (World { hits: self.hits@, ..w }),
                forall|k: int| 0 <= k < self.hits.len() ==> #[trigger] self.hits@[k] < CELLS,
                end == swept(
                    w.blocks,
                    pierces,
                    Flight { ball, left, hits: self.hits@ },
                    n as nat,
                ),
            ensures
                self@ == (World { hits: end.hits, ..w }),
                ball == end.ball,
                forall|k: int| 0 <= k < end.hits.len() ==> #[trigger] end.hits[k] < CELLS,
            decreases n,
        {
            if left.le(zero) {
                break ;
            }
            n = n - 1;
            match self.next_impact(&ball, left, self.hits.as_slice()) {
                Impact::Wall(fx, fy, t) => {
                    ball = ball.moved(t).turned(fx, fy);
                    left = left.minus(t);
                },
                Impact::Block(i, t, axis) => {
                    ball = ball.moved(t);
                    left = left.minus(t);
                    self.hits.push(i);
                    if !pierces {
                        bounce_off_block(&mut ball, axis);
                    }
                },
                Impact::Free => {
                    ball = ball.moved(left);
                    break ;
                },
            }
        }
        ball
    }

    /// Book a return of the ball from the paddle.
    pub fn book_return(&mut self)
        ensures
            final(self)@ == old(self)@.returned(),
            final(self).hits == old(self).hits,
            old(self)@.wf() ==> final(self)@.wf(),
    {
        proof {
            reveal(World::returned);
        }
        self.bounces = bump(self.bounces);
        self.pierce = spend(self.pierce);
        self.radiologist = spend(self.radiologist);
        if self.broke_since_bounce {
            self.barren = 0;
        } else {
            self.barren = bump(self.barren);
        }
        self.broke_since_bounce = false;
        if self.barren >= BARREN_BOUNCES && self.pickup.is_none() {
            self.barren = 0;
            self.pickup = Some(
                Pickup {
                    x: self.cig_x.clamp(Single::whole(40), Single::whole(W - 40)),
                    y: Single::whole(GRID_Y),
                    kind: Kind::Radiologist,
                },
            );
        }
    }

    /// Book a hit on a block.
    pub fn strike(&mut self, i: usize)
        requires
            old(self)@.wf(),
            i < CELLS,
        ensures
            final(self)@ == old(self)@.struck(i as int),
            final(self)@.wf(),
            final(self)@.hits == old(self)@.hits,
    {
        proof {
            reveal(World::struck);
        }
        let (bx, by, bw, _) = rect(i, self.blocks[i].span);
        self.ignite(i, Single::zero());
        self.broke_since_bounce = true;
        if self.pickup.is_none() {
            self.spawn_counter = bump(self.spawn_counter);
            if self.spawn_counter % SPAWN_EVERY == 0 {
                if let Some(kind) = self.roll_kind() {
                    self.pickup = Some(
                        Pickup { x: Single::ratio(2 * bx + bw, 2), y: Single::whole(by), kind },
                    );
                }
            }
        }
    }

    /// Play for a time. A time over a twentieth of a second is cut to that.
    pub fn tick(&mut self, dt: Single)
        requires
            old(self)@.wf(),
        ensures
            final(self)@ == old(self)@.ticked(dt),
            final(self)@.wf(),
    {
        let dt: Single = dt.min(Single::ratio(5, 100));
        self.cool(dt);
        if !(self.lost || self.won) {
            self.play(dt);
        }
    }

    /// Play for a time in a game that has not ended.
    fn play(&mut self, dt: Single)
        requires
            old(self)@.wf(),
        ensures
            final(self)@ == old(self)@.played(dt),
            final(self)@.wf(),
    {
        proof {
            reveal(World::played);
        }
        self.elapsed = self.elapsed.plus(dt);
        self.fall(dt);
        let ghost w = self@;
        let ghost f = w.flight(dt);
        let mut ball: Ball = self.sweep(dt);
        if bounce_off_paddle(&mut ball, self.cig_x) {
            self.book_return();
        }
        let ghost base = self@;
        let count: usize = self.hits.len();
        let mut k: usize = 0;
        while k < count
            invariant
                k <= count,
                count == f.hits.len(),
                self@ == base.struck_all(f.hits, k as nat),
                self@.wf(),
                self.hits@ == f.hits,
                forall|j: int| 0 <= j < f.hits.len() ==> #[trigger] f.hits[j] < CELLS,
            decreases count - k,
        {
            let i: usize = self.hits[k];
            self.strike(i);
            k = k + 1;
        }
        if Single::whole(H).lt(ball.y.minus(Single::whole(BALL_R))) {
            self.lost = true;
        }
        self.ball = ball;
    }

    /// Draw the scene anew.
    pub fn rebuild(&mut self)
        requires
            old(self)@.wf(),
        ensures
            final(self)@ == old(self)@.rebuilt(),
            final(self)@.wf(),
            final(self)@.instances.len() <= MOST_INSTANCES,
    {
        proof {
            self@.a_scene_fits_its_buffer();
            reveal(World::predicted);
        }
        self.instances.clear();
        draw_pleura(&mut self.instances);
        draw_blocks(&self.blocks, &mut self.instances);
        self.instances.push(draw_paddle(self.cig_x));
        self.instances.push(draw_ball(self.ball));
        if self.radiologist > 0 {
            self.predict();
            draw_trail(&self.path, &mut self.instances);
        }
        draw_pickup(self.pickup, &mut self.instances);
        assert(self@.instances =~= old(self)@.rebuilt().instances);
    }

    /// The patterns of all instances, one after the other, as the renderer reads
    /// them.
    pub fn words(&self) -> (v: Vec<u32>)
        ensures
            v@.len() == FLOATS_PER_INSTANCE * self@.instances.len(),
            forall|i: int, k: int|
                0 <= i < self@.instances.len() && 0 <= k < FLOATS_PER_INSTANCE
                    ==> v@[FLOATS_PER_INSTANCE * i + k] == #[trigger] self@.instances[i]
                    .words_spec()[k],
    {
        let mut v: Vec<u32> = Vec::new();
        let mut i: usize = 0;
        while i < self.instances.len()
            invariant
                i <= self.instances.len(),
                v.len() == 6 * i,
                forall|j: int, k: int|
                    0 <= j < i && 0 <= k < 6 ==> v@[6 * j + k] == #[trigger] self@.instances[j]
                        .words_spec()[k],
            decreases self.instances.len() - i,
        {
            let it: Instance = self.instances[i];
            v.push(it.x.bits);
            v.push(it.y.bits);
            v.push(it.w.bits);
            v.push(it.h.bits);
            v.push(it.kind.bits);
            v.push(it.burn.bits);
            i = i + 1;
        }
        v
    }
}

} // verus!
