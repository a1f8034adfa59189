//! A verified library for the two-player stone-placement game on a
//! 19x19 board: coordinate addressing, adjacency, connected-group
//! liberty analysis, capture, suicide prevention, the single-point ko
//! restriction, and the bookkeeping of challenges and running games
//! around it.

pub mod board;
pub mod challenge;
pub mod coord;
pub mod game;
pub mod group;
pub mod laws;
