//! What the page holds: a game, and what it is asked of it each frame.
use crate::board::alive_tally;
use crate::game::Game;
use crate::scene::MOST_INSTANCES;
use crate::single::Single;
use crate::world::World;
use crate::{H, W};
use vstd::prelude::*;

verus! {

/// A game in play.
pub struct GameHandle {
    pub inner: Game,
}

/// The share of the lung that is gone: of the blocks that there were, those that
/// are not live any more.
pub open spec fn damage_spec(alive: nat, start: nat) -> Single {
    let start = if start == 0 {
        1
    } else {
        start
    };
    Single::whole_spec(1).minus_spec(
        Single::whole_spec(alive).over_spec(Single::whole_spec(start)),
    )
}

impl GameHandle {
    /// A handle on a game that is about to start.
    pub fn new() -> (h: GameHandle)
        ensures
            h.inner@ == World::fresh(),
            h.inner@.wf(),
    {
        GameHandle { inner: Game::new() }
    }

    /// Move the paddle. It stays in the field.
    pub fn set_paddle(&mut self, x: Single)
        ensures
            final(self).inner@ == old(self).inner@.aimed(x),
    {
        self.inner.set_paddle(x);
    }

    /// Start over.
    pub fn restart(&mut self)
        ensures
            final(self).inner@ == World::fresh(),
            final(self).inner@.wf(),
    {
        self.inner = Game::new();
    }

    /// How far the disease has come.
    pub fn copd(&self) -> (r: Single)
        ensures
            r == self.inner@.copd,
    {
        self.inner.copd
    }

    /// Share of the lung destroyed so far, from 0 to 1. It counts tissue that is
    /// gone, where `copd` moves only when something is caught.
    pub fn damage(&self) -> (r: Single)
        requires
            self.inner@.wf(),
        ensures
            r == damage_spec(
                alive_tally(self.inner@.blocks),
                self.inner@.starting_alive as nat,
            ),
    {
        let start: usize = if self.inner.starting_alive == 0 {
            1
        } else {
            self.inner.starting_alive
        };
        Single::whole(1).minus(
            Single::whole(self.inner.alive_count as u32).over(Single::whole(start as u32)),
        )
    }

    /// Whether the ball is lost.
    pub fn lost(&self) -> (b: bool)
        ensures
            b == self.inner@.lost,
    {
        self.inner.lost
    }

    /// Paddle bounces for which the ball still pierces.
    pub fn pierce(&self) -> (n: u32)
        ensures
            n == self.inner@.pierce,
    {
        self.inner.pierce
    }

    /// Whether the predicted path is shown.
    pub fn radiologist(&self) -> (b: bool)
        ensures
            b == (self.inner@.radiologist > 0),
    {
        self.inner.radiologist > 0
    }

    /// Paddle bounces so far.
    pub fn bounces(&self) -> (n: u32)
        ensures
            n == self.inner@.bounces,
    {
        self.inner.bounces
    }

    /// Fibres caught so far.
    pub fn asbestos_caught(&self) -> (n: u32)
        ensures
            n == self.inner@.asbestos_caught,
    {
        self.inner.asbestos_caught
    }

    /// Pickups caught so far. A counter rather than a flag, so that a catch
    /// cannot be missed when two land within one frame.
    pub fn caught_seq(&self) -> (n: u32)
        ensures
            n == self.inner@.caught_seq,
    {
        self.inner.caught_seq
    }

    /// Name of what was caught last; empty before anything was.
    pub fn caught_name(&self) -> (s: String)
        ensures
            s@ == (match self.inner@.caught {
                Some(k) => k.name_spec(),
                None => Seq::empty(),
            }),
    {
        match self.inner.caught {
            Some(k) => k.name().to_owned(),
            None => String::new(),
        }
    }

    /// What it does; empty before anything was caught.
    pub fn caught_blurb(&self) -> (s: String)
        ensures
            s@ == (match self.inner@.caught {
                Some(k) => k.blurb_spec(),
                None => Seq::empty(),
            }),
    {
        match self.inner.caught {
            Some(k) => k.blurb().to_owned(),
            None => String::new(),
        }
    }

    /// Whether the game is won.
    pub fn cleared(&self) -> (b: bool)
        ensures
            b == self.inner@.won,
    {
        self.inner.won
    }

    /// Blocks destroyed so far.
    pub fn destroyed(&self) -> (n: u32)
        ensures
            n == self.inner@.destroyed,
    {
        self.inner.destroyed
    }

    /// Seconds of play, stopped once the game ends.
    pub fn elapsed(&self) -> (r: Single)
        ensures
            r == self.inner@.elapsed,
    {
        self.inner.elapsed
    }

    /// Play for a time and draw the scene. Returns the number of instances.
    pub fn frame(&mut self, dt: Single) -> (n: i32)
        requires
            old(self).inner@.wf(),
        ensures
            final(self).inner@ == old(self).inner@.ticked(dt).rebuilt(),
            final(self).inner@.wf(),
            n == final(self).inner@.instances.len(),
            n <= MOST_INSTANCES,
    {
        self.inner.tick(dt);
        self.inner.rebuild();
        self.inner.instance_count()
    }
}

/// Width and height of the playfield.
pub fn dimensions() -> (v: Vec<Single>)
    ensures
        v@ == seq![Single::whole_spec(W as nat), Single::whole_spec(H as nat)],
{
    let mut v: Vec<Single> = Vec::new();
    v.push(Single::whole(W));
    v.push(Single::whole(H));
    assert(v@ =~= seq![Single::whole_spec(W as nat), Single::whole_spec(H as nat)]);
    v
}

} // verus!
