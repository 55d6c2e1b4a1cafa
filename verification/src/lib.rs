//! A sliding-tile merge engine: the grid, its four directional moves, tile
//! spawning, the terminal-state test and the score.
pub mod grid;
pub mod line;
pub mod moves;
pub mod palette;
pub mod record;
pub mod session;
pub mod spawn;
