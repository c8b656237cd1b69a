//! Decision-and-movement core of a tick-driven colony simulation.
//!
//! A population of pawns locates harvestable tree tiles on a fixed grid,
//! travels to them, chops them over several ticks, carries the wood to the
//! stockpile tile and deposits it there, repeating forever.  The crate holds
//! the tile-grid world model, the reservation table that keeps two pawns from
//! claiming the same tree, the nearest-unreserved-tree search, the per-pawn
//! task state machine, and the fixed-rate simulation clock that gates ticks.
//! Presentation (windows, sprites, input) is left to the embedding program.

pub mod config;
pub mod world;
pub mod reservations;
pub mod colony;
pub mod pawn;
pub mod pawn_tasks;
pub mod sim;
