//! The two players.

use vstd::prelude::*;
use crate::game::game_state::UTTTResult;

verus! {

/// The two players; X always moves first.
#[derive(Clone, Copy, PartialEq, Eq, Structural, Debug)]
pub enum Player {
    X,
    O,
}

impl Player {
    /// The opponent of this player.
    pub open spec fn spec_other(self) -> Player {
        match self {
            Player::X => Player::O,
            Player::O => Player::X,
        }
    }

    /// The opponent of this player.
    pub fn other(&self) -> (r: Player)
        ensures
            r == self.spec_other(),
    {
        match self {
            Player::X => Player::O,
            Player::O => Player::X,
        }
    }

    /// The reward of a result from this player's viewpoint, in
    /// half-points: two for a win, one for a draw, nothing for a loss or
    /// for a game still in play.
    pub open spec fn spec_reward_halves(self, result: UTTTResult) -> u64 {
        match result {
            UTTTResult::Won(w) => if w == self {
                2
            } else {
                0
            },
            UTTTResult::Drawn => 1,
            UTTTResult::InPlay => 0,
        }
    }

    /// The reward of a result from this player's viewpoint, in
    /// half-points.
    pub fn reward_halves(&self, result: &UTTTResult) -> (r: u64)
        ensures
            r == self.spec_reward_halves(*result),
    {
        match result {
            UTTTResult::Won(w) => if *w == *self {
                2
            } else {
                0
            },
            UTTTResult::Drawn => 1,
            UTTTResult::InPlay => 0,
        }
    }
}

} // verus!
