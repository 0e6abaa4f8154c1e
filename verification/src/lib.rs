//! Procedural building layouts on an integer grid, and the navigation graph over them.
//!
//! A building is grown room by room on a grid of cells, its walls are resolved
//! to open, solid or door, and a graph of navigation nodes is laid over the
//! result. All lengths and positions are fixed-point integers (see
//! [`world::UNIT`]), so every decision the library takes is exact.

pub mod building;
pub mod cell;
pub mod coord;
pub mod doors;
pub mod generate;
pub mod laws;
pub mod nav;
pub mod navgen;
mod random;
pub mod rect;
pub mod room;
pub mod wall;
pub mod world;
