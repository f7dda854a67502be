//! A verified Monte-Carlo Tree Search engine for two-player, zero-sum,
//! perfect-information games.
//!
//! The engine keeps a transposition-keyed search graph (an arena of nodes with
//! a state lookup), selects edges with a UCB1 policy, evaluates leaves with
//! uniformly random rollouts, and backpropagates results with a mixed value
//! estimator.  All values are fixed-point numbers on an absolute scale
//! anchored to the first player.

pub mod game;
pub mod laws;
pub mod mcts;
pub mod num;
