//! Procedural generation of irregular room shapes on a discrete tile grid.
//!
//! A rectangular target size is perturbed into an organic-looking closed
//! outline: the rectangle's corners are randomly offset, each edge is turned
//! into a jittered, reconnected, non-diagonal path, and the resulting outline
//! is stamped onto a grid whose interior is then flood-filled.

pub mod grid;
pub mod line_gen;
pub mod point;
mod rng;
pub mod room_gen;

pub use grid::Grid;
pub use line_gen::DistortedLineGnerator;
pub use point::Point;
pub use room_gen::{ConfigError, Room, RoomGenerator};
