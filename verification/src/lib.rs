//! Small grid simulations for the terminal: a maze carver with a shortest-path
//! solver, Conway's Game of Life, falling glyph rain and wandering snakes.
//!
//! Every function carries a contract over a mathematical model of its data and
//! is proved against it.

pub mod coords;
pub mod cells;
pub mod grid;
pub mod solve;
pub mod random;
pub mod tree;
pub mod carve;
pub mod display;
pub mod life;
pub mod rain;
pub mod snakes;
