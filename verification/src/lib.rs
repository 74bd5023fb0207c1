//! Seeded cell grids: a seed string is turned into a reproducible grid of
//! recursively subdivided cells, and every leaf cell is paired with one bit of
//! the letter that its parent stands for.
//!
//! All lengths are exact fractions. A cell counts its size and position in
//! `1/unit`-ths of the base length, and each subdivision refines the unit by
//! four, so no subdivision ever rounds.

pub mod rng;
pub mod cell;
pub mod bits;
pub mod grid;
pub mod model;
pub mod render;

pub use bits::letter_bits;
pub use cell::Cell;
pub use grid::gen_grid;
pub use model::{model, Model};
pub use render::{draw_boxes, DrawRequest, Shape, WalkError};
