//! One node of the search tree.
//!
//! A node owns a game position, an index link to its parent in the
//! tree's arena, a map from action to child index, the actions not yet
//! expanded, and its running statistics.  Rewards are counted in
//! half-points (two for a win, one for a draw), so the statistics stay in
//! integers; the visit count starts at one so a rate is always defined.
//! The selection score is the UCT formula in fixed-point arithmetic with
//! sixteen fractional bits and exploration constant 0.6.

use vstd::prelude::*;
use crate::game::game_state::{State, UTTTResult};
use crate::game::game_action::Action;
use crate::numeric::{isqrt, isqrt_spec, log2_floor, log2_spec};

verus! {

/// The natural logarithm of two, in fixed point.
pub const LN2_FP: u64 = 45426;

/// One node of the search tree: a position, its place in the arena, the
/// expansion frontier, and its statistics.
pub struct MctsNode {
    pub state: State,
    pub parent: Option<usize>,
    pub children: Vec<(Action, usize)>,
    pub unvisited_actions: Vec<Action>,
    pub expanded: bool,
    pub wins: u64,
    pub visits: u64,
}

/// The fixed-point natural logarithm of a visit count, by way of the
/// base-two logarithm: `floor(log2 n) * ln 2` at sixteen fractional
/// bits, so the value steps at powers of two rather than growing
/// smoothly.
pub open spec fn spec_ln_fp(n: nat) -> nat {
    log2_spec(n) * 45426
}

/// The fixed-point UCT selection score: the win rate plus 0.6 times the
/// square root of the parent's log-visits over this node's visits.
#[verifier::opaque]
pub open spec fn spec_uct(wins: u64, visits: u64, parent_ln_fp: u64) -> int {
    wins * 65536 / (2 * (visits as int)) + 3 * isqrt_spec((parent_ln_fp * 65536 / (visits as int)) as nat) / 5
}

/// The fixed-point natural logarithm of a visit count.
pub fn ln_fp(n: u64) -> (r: u64)
    requires
        n >= 1,
    ensures
        r == spec_ln_fp(n as nat),
        r <= 2862838,
{
    let l = log2_floor(n);
    l * LN2_FP
}

/// The fixed-point UCT score of a node with the given statistics under a
/// parent with the given log-visits.
pub fn uct_score(wins: u64, visits: u64, parent_ln_fp: u64) -> (r: u64)
    requires
        visits >= 1,
        wins <= 2 * visits,
        parent_ln_fp <= 2862838,
    ensures
        r == spec_uct(wins, visits, parent_ln_fp),
{
    proof {
        reveal(spec_uct);
    }
    let exploit_wide: u128 = (wins as u128) * 65536 / (2 * (visits as u128));
    proof {
        assert(exploit_wide == (wins as int) * 65536 / (2 * (visits as int)));
        assert(exploit_wide <= 65536) by (nonlinear_arith)
            requires
                exploit_wide == (wins as int) * 65536 / (2 * (visits as int)),
                wins <= 2 * visits,
                visits >= 1,
        ;
    }
    let exploit: u64 = exploit_wide as u64;
    let inner_wide: u128 = (parent_ln_fp as u128) * 65536 / (visits as u128);
    proof {
        assert(inner_wide == (parent_ln_fp as int) * 65536 / (visits as int));
        assert(inner_wide <= (parent_ln_fp as int) * 65536) by (nonlinear_arith)
            requires
                inner_wide == (parent_ln_fp as int) * 65536 / (visits as int),
                visits >= 1,
        ;
        assert((parent_ln_fp as int) * 65536 <= 2862838 * 65536) by (nonlinear_arith)
            requires
                parent_ln_fp <= 2862838,
        ;
    }
    let s = isqrt(inner_wide as u64);
    proof {
        assert(s * s <= inner_wide as u64);
        assert(s <= 0x1_0000_0000) by (nonlinear_arith)
            requires
                (s as int) * (s as int) <= 0xFFFF_FFFF_FFFF_FFFF,
        ;
    }
    exploit + 3 * s / 5
}

impl MctsNode {
    /// A root node for a position: the expansion frontier holds every
    /// legal move while the game is in play (a decided position is a leaf
    /// by game logic and gets no frontier), and the statistics start at
    /// one visit and no reward.
    pub fn new(state: State) -> (r: MctsNode)
        requires
            state.wf(),
        ensures
            r.state == state,
            r.parent is None,
            r.children@.len() == 0,
            r.unvisited_actions@.no_duplicates(),
            forall|a: Action| #[trigger]
                r.unvisited_actions@.contains(a) <==> (state.result == UTTTResult::InPlay
                    && state.action_legal(a)),
            r.expanded == false,
            r.wins == 0,
            r.visits == 1,
    {
        let unvisited = if state.playable() {
            state.possible_actions()
        } else {
            Vec::new()
        };
        MctsNode {
            state,
            parent: Option::None,
            children: Vec::new(),
            unvisited_actions: unvisited,
            expanded: false,
            wins: 0,
            visits: 1,
        }
    }

    /// A child node created under a parent, with the same frontier rule
    /// as a root.
    pub fn create_child(state: State, parent: usize) -> (r: MctsNode)
        requires
            state.wf(),
        ensures
            r.state == state,
            r.parent == Option::Some(parent),
            r.children@.len() == 0,
            r.unvisited_actions@.no_duplicates(),
            forall|a: Action| #[trigger]
                r.unvisited_actions@.contains(a) <==> (state.result == UTTTResult::InPlay
                    && state.action_legal(a)),
            r.expanded == false,
            r.wins == 0,
            r.visits == 1,
    {
        let unvisited = if state.playable() {
            state.possible_actions()
        } else {
            Vec::new()
        };
        MctsNode {
            state,
            parent: Option::Some(parent),
            children: Vec::new(),
            unvisited_actions: unvisited,
            expanded: false,
            wins: 0,
            visits: 1,
        }
    }

    /// This node's selection score under a parent with the given
    /// log-visits.
    pub fn uct(&self, parent_ln_fp: u64) -> (r: u64)
        requires
            self.visits >= 1,
            self.wins <= 2 * self.visits,
            parent_ln_fp <= 2862838,
        ensures
            r == spec_uct(self.wins, self.visits, parent_ln_fp),
    {
        uct_score(self.wins, self.visits, parent_ln_fp)
    }
}

} // verus!
