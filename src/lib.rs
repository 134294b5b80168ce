//! Referee library for a turn-based territorial conquest game on a square grid.

pub mod world;
pub mod game_state;
pub mod resolve;
pub mod regen;
pub mod connectivity;
pub mod tally;
pub mod generator;
pub mod turn;
pub mod agent;
pub mod laws;
pub mod render;
