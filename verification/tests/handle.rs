//! What the page asks of a game.
use lungbreak::handle::{dimensions, GameHandle};
use lungbreak::kind::{Kind, KINDS};
use lungbreak::scene::{Instance, FLOATS_PER_INSTANCE, MOST_INSTANCES};
use lungbreak::single::Single;
use lungbreak::world::Pickup;

fn s(x: f32) -> Single {
    Single { bits: x.to_bits() }
}

fn f(x: Single) -> f32 {
    f32::from_bits(x.bits)
}

#[test]
fn a_fresh_handle_reads_nothing_done() {
    let h = GameHandle::new();
    assert_eq!(f(h.copd()), 0.0);
    assert_eq!(f(h.damage()), 0.0);
    assert_eq!(f(h.elapsed()), 0.0);
    assert!(!h.lost() && !h.cleared() && !h.radiologist());
    assert_eq!((h.pierce(), h.bounces(), h.asbestos_caught()), (0, 0, 0));
    assert_eq!((h.caught_seq(), h.destroyed()), (0, 0));
    assert_eq!(h.caught_name(), "");
    assert_eq!(h.caught_blurb(), "");
}

#[test]
fn the_field_is_portrait() {
    let d: Vec<f32> = dimensions().iter().map(|x| f(*x)).collect();
    assert_eq!(d, vec![600.0, 800.0]);
}

#[test]
fn the_paddle_is_kept_in_the_field() {
    let mut h = GameHandle::new();
    for (x, at) in [
        (300.0, 300.0),
        (45.0, 45.0),
        (44.9, 45.0),
        (-1e9, 45.0),
        (555.0, 555.0),
        (555.1, 555.0),
        (f32::INFINITY, 555.0),
        (f32::NEG_INFINITY, 45.0),
    ] {
        h.set_paddle(s(x));
        assert_eq!(f(h.inner.cig_x), at, "paddle sent to {x}");
    }
}

#[test]
fn catches_are_announced_by_name() {
    let said = [
        ("cigarettes", "alveoli merge into fragile sacs"),
        ("pneumothorax", "collapses a whole lung"),
        ("asbestos", "the ball cuts straight through"),
        ("radiologist", "reveals the ball's path"),
    ];
    let mut h = GameHandle::new();
    for (n, kind) in KINDS.iter().enumerate() {
        h.inner.apply(*kind);
        assert_eq!(h.caught_name(), said[n].0);
        assert_eq!(h.caught_blurb(), said[n].1);
        assert_eq!(h.caught_seq(), n as u32 + 1);
    }
    assert_eq!(h.asbestos_caught(), 1);
    assert_eq!(h.pierce(), 4);
    assert!(h.radiologist());
}

#[test]
fn every_pickup_has_its_size_and_its_speed() {
    let rows = [(10, (40, 30), 120), (11, (34, 34), 150), (12, (40, 24), 190), (13, (34, 34), 135)];
    for (k, (sprite, size, speed)) in KINDS.iter().zip(rows) {
        assert_eq!((k.sprite(), k.size(), k.fall_speed()), (sprite, size, speed));
    }
}

#[test]
fn damage_is_a_share_of_the_lung() {
    let mut h = GameHandle::new();
    let start = h.inner.starting_alive;
    let mut last = 0.0;
    for i in 0..h.inner.blocks.len() {
        let was = h.inner.blocks[i].alive;
        h.inner.ignite(i, Single::zero());
        let now = f(h.damage());
        assert_eq!(now, 1.0 - h.inner.alive_count as f32 / start as f32);
        // Every block that goes is more damage, and only the last makes it whole.
        assert_eq!(now > last, was, "damage at {i}");
        assert_eq!(now == 1.0, h.inner.alive_count == 0);
        last = now;
    }
    assert_eq!(last, 1.0);
    assert!(h.cleared());
    assert_eq!(h.destroyed() as usize, start);
}

#[test]
fn starting_over_forgets_everything() {
    let mut h = GameHandle::new();
    h.inner.apply(Kind::Pneumothorax);
    h.inner.apply(Kind::Asbestos);
    h.inner.lost = true;
    for _ in 0..30 {
        h.frame(s(1.0 / 60.0));
    }
    h.restart();
    assert!(!h.lost());
    assert_eq!((h.caught_seq(), h.destroyed(), h.pierce()), (0, 0, 0));
    assert_eq!(h.caught_name(), "");
    assert_eq!(h.inner.alive_count, h.inner.starting_alive);
    assert_eq!(f(h.damage()), 0.0);
}

#[test]
fn a_frame_steps_and_draws() {
    let mut h = GameHandle::new();
    let n = h.frame(s(1.0 / 60.0));
    // Three strips of pleura, the blocks, the paddle and the ball.
    assert_eq!(n as usize, 3 + 382 + 2);
    assert_eq!(f(h.elapsed()), 1.0 / 60.0);
    assert_eq!(h.inner.instance_count(), n);
    let words = h.inner.words();
    assert_eq!(words.len(), n as usize * FLOATS_PER_INSTANCE);
    let first: Vec<f32> = words[..6].iter().map(|w| f32::from_bits(*w)).collect();
    assert_eq!(first, vec![0.0, 0.0, 14.0, 800.0, 8.0, 0.0]);
    let apex: Vec<f32> = words[12..18].iter().map(|w| f32::from_bits(*w)).collect();
    assert_eq!(apex, vec![0.0, 0.0, 600.0, 14.0, 8.0, 1.0]);
    let i: Instance = h.inner.instances[n as usize - 1];
    assert_eq!((f(i.w), f(i.h), f(i.kind)), (14.0, 14.0, 3.0));
    assert_eq!(f(i.x), f(h.inner.ball.x) - 7.0);

    // What falls is drawn last.
    h.inner.pickup = Some(Pickup { x: s(100.0), y: s(200.0), kind: Kind::Asbestos });
    h.inner.rebuild();
    let i: Instance = h.inner.instances[h.inner.instances.len() - 1];
    let drawn = [i.x, i.y, i.w, i.h, i.kind, i.burn].map(f);
    assert_eq!(drawn, [80.0, 188.0, 40.0, 24.0, 12.0, 0.0]);
    assert!(h.inner.instances.len() <= MOST_INSTANCES);
}

#[test]
fn a_long_frame_is_cut_short() {
    let mut a = GameHandle::new();
    let mut b = GameHandle::new();
    a.frame(s(3.0));
    b.frame(s(0.05));
    assert_eq!(a.inner.ball, b.inner.ball);
    assert_eq!(f(a.elapsed()), 0.05);
}
