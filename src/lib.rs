//! Monte Carlo tree search over turn-based games, with a connect 4 game to play it on.

pub mod connect4;
pub mod game;
pub mod mcts;
