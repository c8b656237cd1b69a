//! Fixed configuration of the simulated world.

use vstd::prelude::*;

verus! {

/// Width of the tile grid, in tiles.
pub const MAP_W: i32 = 64;

/// Height of the tile grid, in tiles.
pub const MAP_H: i32 = 64;

/// X coordinate of the single stockpile tile.
pub const STOCKPILE_X: i32 = 32;

/// Y coordinate of the single stockpile tile.
pub const STOCKPILE_Y: i32 = 32;

/// Number of ticks a pawn must spend chopping before a tree falls.
/// Progress runs from 0 through 9; the tenth increment completes the chop.
pub const CHOP_TICKS: u8 = 10;

/// Simulated milliseconds that must accumulate before one tick fires.
pub const TICK_INTERVAL_MS: u64 = 100;

} // verus!
