//! A single-player flood-fill puzzle: a rectangular grid of colored cells,
//! where each move repaints the 4-connected region at the top-left anchor
//! cell to a chosen color, until the whole grid is one color.
//!
//! The grid engine (generation, flood-fill expansion, uniformity check) and
//! the game loop's turn handling live here, fully verified; terminal
//! rendering and key capture are left to the embedding program.

pub mod color;
pub mod game;
pub mod grid;
pub mod regions;
mod rng;

pub use color::Color;
pub use game::{classify, Game, GameEvent, Status};
pub use grid::Grid;
