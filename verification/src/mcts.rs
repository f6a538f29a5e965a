//! Monte Carlo tree search over the game model: node statistics, the
//! selection and expansion policy, rollouts, backpropagation, and
//! tree reuse across turns.

pub mod traits;
pub mod node;
pub mod tree;
