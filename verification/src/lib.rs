//! A rules engine for a Go (Baduk) board game on a fixed 19x19 grid:
//! board state, move legality (occupancy, self-capture, ko), group capture
//! via connected-component liberty analysis, and an append-only move
//! history with a view cursor for replaying earlier positions.

pub mod piece;
pub mod pos;
pub mod error;
pub mod model;
pub mod adjacency;
pub mod board;
pub mod game;
