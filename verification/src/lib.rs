//! A verified Conway's Game of Life engine on a fixed-size toroidal grid.
//!
//! The engine stores cells in a densely bit-packed buffer, advances the
//! simulation one generation at a time, and renders the state as text.
//! A plain-text seed format is parsed into an initial grid.

pub mod grid;
pub mod laws;
pub mod model;
pub mod seed;

pub use grid::GridError;
pub use grid::Universe;
pub use seed::parse_seed;
pub use seed::SeedError;
