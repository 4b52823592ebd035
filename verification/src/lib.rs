//! Verified core of an AlphaZero-style Monte Carlo tree search for
//! Connect Four and for Hnefatafl: board encodings, the search trees,
//! and the decisions that the search takes between network evaluations.

pub mod connect4;
pub mod con4_play;
pub mod con4_mcts;
pub mod mcts_par;
pub mod self_play;
