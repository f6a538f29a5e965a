//! A verified engine for the nine-board tic-tac-toe variant: a bit-encoded
//! game model (nine local 3x3 boards plus one meta-board) together with a
//! Monte Carlo tree search that reuses its tree across turns.

pub mod game;
pub mod mcts;
pub mod rng;
pub mod numeric;
pub mod seq_util;
pub mod clock;
