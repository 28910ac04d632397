//! A disc-flipping board game engine (Othello / Reversi rules on any
//! rectangular board), with the integer parts of a simulation-based player.

pub mod game;
pub mod solver;
pub mod util;
