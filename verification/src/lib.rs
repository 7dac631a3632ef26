//! A Filler game bot: parsing of the engine's board and piece descriptions,
//! placement validation and the scoring heuristics that pick a move.
pub mod input;
pub mod contestant;
pub mod grid_matrix;
pub mod pitch;
pub mod object;
pub mod tactics;
pub mod game_analysis;
pub mod session;
