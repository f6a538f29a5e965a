//! Marker traits naming the roles of the game abstraction.
//!
//! The search is implemented once, for the one game in scope; these traits
//! only name which types stand for a terminal result and for a move.

use vstd::prelude::*;

verus! {

/// A terminal outcome of a game.
pub trait GameResult {

}

/// A move of a game, cheap to copy and compare.
pub trait GameAction: Eq + Clone {

}

/// A finished game's outcome relative to one player.
#[derive(Clone, Copy, PartialEq, Eq, Structural, Debug)]
pub enum GameEnd {
    Win,
    Loss,
    Draw,
}

impl GameEnd {
    /// The same outcome seen from the other player, as backpropagation
    /// alternates the viewpoint level by level.
    pub open spec fn spec_opposite(self) -> GameEnd {
        match self {
            GameEnd::Draw => GameEnd::Draw,
            GameEnd::Win => GameEnd::Loss,
            GameEnd::Loss => GameEnd::Win,
        }
    }

    /// The same outcome seen from the other player.
    pub fn opposite(&self) -> (r: GameEnd)
        ensures
            r == self.spec_opposite(),
    {
        match self {
            GameEnd::Draw => GameEnd::Draw,
            GameEnd::Win => GameEnd::Loss,
            GameEnd::Loss => GameEnd::Win,
        }
    }
}

} // verus!
