//! The rules of a brick breaker played on a pair of lungs.
//!
//! The lungs are a grid of blocks, the ball breaks them, a cigarette is the
//! paddle, and what falls out of a broken block is a disease or a doctor.
#![allow(unused_imports)]

pub mod anatomy;
pub mod angle;
pub mod board;
pub mod circle;
pub mod collapse;
pub mod contact;
pub mod distance;
pub mod drops;
pub mod effects;
pub mod flight;
pub mod game;
pub mod handle;
pub mod history;
pub mod impact;
pub mod interval;
pub mod kind;
pub mod laws;
pub mod lobes;
pub mod lung;
pub mod margin;
pub mod merge;
pub mod mirror;
pub mod motion;
pub mod picture;
pub mod pleura;
pub mod rally;
pub mod reach;
pub mod rng;
pub mod scene;
pub mod sight;
pub mod single;
pub mod speed;
pub mod trace;
pub mod trail;
pub mod walls;
pub mod world;
pub mod xray;

use vstd::prelude::*;

verus! {

/// Playfield size in pixels. Portrait: the lung grid is centred in it, and the
/// height below is travel space.
pub const W: u32 = 600;

pub const H: u32 = 800;

pub const COLS: usize = 40;

pub const ROWS: usize = 24;

/// Cells of the grid, in reading order.
pub const CELLS: usize = 960;

/// Side of a cell.
pub const CELL: u32 = 13;

/// Where the grid starts. Across, that leaves the same margin on both sides.
pub const GRID_X: u32 = 40;

pub const GRID_Y: u32 = 70;

/// The paddle.
pub const CIG_W: u32 = 90;

pub const CIG_H: u32 = 12;

pub const CIG_Y: u32 = 760;

pub const BALL_R: u32 = 7;

/// Paddle bounces for which the predicted path is shown.
pub const RADIOLOGIST_BOUNCES: u32 = 1;

/// Paddle bounces for which a fibre keeps the ball piercing.
pub const PIERCE_BOUNCES: u32 = 4;

/// Paddle bounces in a row that break nothing before a radiologist is sent.
pub const BARREN_BOUNCES: u32 = 2;

/// Most dots that a trail has.
pub const MAX_TRAIL_DOTS: usize = 512;

/// Blocks broken per drop, counting those that could drop something.
pub const SPAWN_EVERY: u32 = 6;

/// Pixels between two dots of a trail.
pub const SPACING_PX: u32 = 15;

/// Thickness of the pleura, the membrane on the chest wall.
pub const PLEURA: u32 = 14;

/// Bounds for the ball's centre: the inner face of the pleura, a radius off.
pub const WALL_L: u32 = 21;

pub const WALL_R: u32 = 579;

pub const WALL_TOP: u32 = 21;

} // verus!
