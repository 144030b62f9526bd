//! A verified exact-cover-style packing solver for dual-layer tiles.
//!
//! Tiles carry a 3x3 footprint of 2-bit cell values (two independent
//! occupancy layers) and a color-parity tag.  A bounded grid with a
//! permanently blocked border accepts placements that set no already-set
//! layer bit; a most-constrained-cell heuristic drives a backtracking
//! search that packs the grid interior completely, using each piece at
//! most once.

pub mod cell;
pub mod grid;
pub mod search;
pub mod tile;
