//! # Chameleon
//! A general game playing framework: Monte-Carlo Tree Search over any game that
//! implements the [game::Game] trait, with exact win/draw propagation on top of
//! the statistical estimates.

pub mod game;
pub mod mcts;
