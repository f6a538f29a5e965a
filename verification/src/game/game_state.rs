//! The composed game state: current player, last move, the nine local
//! boards, the meta-board, and the terminal result.
//!
//! Applying an action occupies a cell for the player to move, recomputes
//! the local and overall outcomes, flips the player, and records the move
//! as the last action — all together.  The forced-board rule reads the
//! cell of the last move: if the board it names is still playable, only
//! that board's empty cells are legal; otherwise every playable board's
//! empty cells are.

use vstd::prelude::*;
use vstd::seq_lib::*;
use crate::game::masks::{BOARD_MASK, is_cell_mask, spec_local_to_global, local_to_global,
    spec_all_cells, lemma_nonfull_has_empty, lemma_and_with_zero, lemma_or_bound};
use crate::game::player::Player;
use crate::game::game_action::{Action, lemma_action_injective};
use crate::game::local_board::{LocalBoards, spec_local_set, spec_local_result, board_wf};
use crate::game::global_board::{GlobalBoard, spec_global_set, lemma_decided_board_stays_decided};
use crate::mcts::traits::GameResult;
use crate::rng::Rng;

verus! {

/// The outcome of a board or of the whole game.
#[derive(Clone, Copy, PartialEq, Eq, Structural, Debug)]
pub enum UTTTResult {
    Won(Player),
    Drawn,
    InPlay,
}

impl GameResult for UTTTResult {

}

/// The whole game position.
pub struct State {
    pub player: Player,
    pub last_action: Option<Action>,
    pub last_local_move: Option<u16>,
    pub local_boards: LocalBoards,
    pub global_states: GlobalBoard,
    pub result: UTTTResult,
}

impl State {
    /// The player to move.
    pub closed spec fn spec_player(self) -> Player {
        self.player
    }

    /// Well-formedness of the whole position: both board layers are well
    /// formed, every playable board still has an empty cell, the recorded
    /// last cell is a cell, and an in-play game has a playable board.
    pub open spec fn wf(self) -> bool {
        &&& self.local_boards.wf()
        &&& self.global_states.wf()
        &&& forall|b: usize|
            #[trigger] self.global_states.playable().contains(b) ==> (self.local_boards.xs()[
            b as int] | self.local_boards.os()[b as int]) != BOARD_MASK
        &&& match self.last_local_move {
            Option::Some(l) => is_cell_mask(l),
            Option::None => true,
        }
        &&& (self.result == UTTTResult::InPlay ==> self.global_states.playable().len() > 0)
    }

    /// A move that can be applied to this position: its board is still
    /// playable and its cell is still empty there.
    pub open spec fn board_action_ok(self, a: Action) -> bool {
        &&& a.wf()
        &&& self.global_states.playable().contains(a.spec_global())
        &&& self.local_boards.legal()[a.spec_global() as int].contains(a.spec_local())
    }

    /// A legal move: applicable, and within the forced board when the
    /// board named by the last move's cell is still playable.
    pub open spec fn action_legal(self, a: Action) -> bool {
        &&& self.board_action_ok(a)
        &&& match self.last_local_move {
            Option::Some(l) => self.global_states.playable().contains(spec_local_to_global(l))
                ==> a.spec_global() == spec_local_to_global(l),
            Option::None => true,
        }
    }

    /// The exact effect of applying action `a` to position `pre`: the
    /// local board transition for the mover, the meta-board transition
    /// fed with the local outcome, the player flipped, and the move
    /// recorded — all together.
    pub open spec fn spec_apply(pre: State, a: Action, post: State) -> bool {
        let g = a.spec_global();
        let l = a.spec_local();
        let mover = pre.spec_player();
        let nx = if mover == Player::X {
            (pre.local_boards.xs()[g as int] | l) as u16
        } else {
            pre.local_boards.xs()[g as int]
        };
        let no = if mover == Player::O {
            (pre.local_boards.os()[g as int] | l) as u16
        } else {
            pre.local_boards.os()[g as int]
        };
        let lr = spec_local_result(nx, no, l, mover);
        &&& spec_local_set(pre.local_boards, g as int, l, mover, post.local_boards, lr)
        &&& spec_global_set(pre.global_states, g, lr, post.global_states, post.result)
        &&& post.spec_player() == mover.spec_other()
        &&& post.last_action == Option::Some(a)
        &&& post.last_local_move == Option::Some(l)
    }

    /// A fresh game: everything empty, X to move, in play.
    pub fn new() -> (r: State)
        ensures
            r.wf(),
            r.spec_player() == Player::X,
            r.last_action is None,
            r.last_local_move is None,
            r.result == UTTTResult::InPlay,
            forall|g: int|
                0 <= g < 9 ==> r.local_boards.xs()[g] == 0 && r.local_boards.os()[g] == 0 && (
                #[trigger] r.local_boards.legal()[g]) == spec_all_cells(),
            r.global_states.x_mask() == 0,
            r.global_states.o_mask() == 0,
            r.global_states.closed_mask() == 0,
            r.global_states.x_count() == 0,
            r.global_states.o_count() == 0,
            r.global_states.playable() == seq![0usize, 1, 2, 3, 4, 5, 6, 7, 8],
    {
        let r = State {
            player: Player::X,
            last_action: Option::None,
            last_local_move: Option::None,
            local_boards: Default::default(),
            global_states: Default::default(),
            result: UTTTResult::InPlay,
        };
        proof {
            assert forall|b: usize| #[trigger] r.global_states.playable().contains(b) implies (
            r.local_boards.xs()[b as int] | r.local_boards.os()[b as int]) != BOARD_MASK by {
                let i = choose|i: int|
                    0 <= i < r.global_states.playable().len() && r.global_states.playable()[i] == b;
                lemma_and_with_zero(0);
            }
        }
        r
    }

    /// The player to move.
    pub fn current_player(&self) -> (r: Player)
        ensures
            r == self.spec_player(),
    {
        self.player
    }

    /// The player who moves after the current one.
    pub fn next_player(&self) -> (r: Player)
        ensures
            r == self.spec_player().spec_other(),
    {
        self.player.other()
    }

    /// The last action taken, if any.
    pub fn last_action(&self) -> (r: Option<Action>)
        ensures
            r == self.last_action,
    {
        self.last_action
    }

    /// The terminal result so far.
    pub fn outcome(&self) -> (r: UTTTResult)
        ensures
            r == self.result,
    {
        self.result
    }

    /// Whether the game is still in play.
    pub fn playable(&self) -> (r: bool)
        ensures
            r == (self.result == UTTTResult::InPlay),
    {
        match self.result {
            UTTTResult::InPlay => true,
            _ => false,
        }
    }

    /// Every applicable move of every playable board.
    fn all_board_actions(&self) -> (r: Vec<Action>)
        requires
            self.wf(),
        ensures
            r@.no_duplicates(),
            forall|a: Action| #[trigger] r@.contains(a) <==> self.board_action_ok(a),
    {
        let boards = self.global_states.playable_list();
        let mut acts: Vec<Action> = Vec::new();
        let mut k: usize = 0;
        while k < boards.len()
            invariant
                self.wf(),
                boards@ == self.global_states.playable(),
                k <= boards@.len(),
                acts@.no_duplicates(),
                forall|a: Action| #[trigger]
                    acts@.contains(a) <==> (self.board_action_ok(a) && exists|j: int|
                        0 <= j < k && self.global_states.playable()[j] == a.spec_global()),
            decreases boards@.len() - k,
        {
            let b = boards[k];
            proof {
                assert(self.global_states.playable().contains(b));
            }
            let row = self.local_boards.local_moves(b);
            let ghost acts_before = acts@;
            proof {
                assert forall|j: int| 0 <= j < acts_before.len() implies (#[trigger] acts_before[j]).spec_global()
                    != b by {
                    assert(acts_before.contains(acts_before[j]));
                    if acts_before[j].spec_global() == b {
                        let j2 = choose|j2: int|
                            0 <= j2 < k && self.global_states.playable()[j2] == acts_before[
                            j].spec_global();
                        assert(self.global_states.playable()[k as int] == b);
                        assert(self.global_states.playable().no_duplicates());
                        assert(false);
                    }
                }
            }
            let mut i: usize = 0;
            while i < row.len()
                invariant
                    self.wf(),
                    b < 9,
                    b == boards@[k as int],
                    k < boards@.len(),
                    boards@ == self.global_states.playable(),
                    self.global_states.playable().contains(b),
                    row@ == self.local_boards.legal()[b as int],
                    i <= row@.len(),
                    acts@.no_duplicates(),
                    acts@.len() == acts_before.len() + i,
                    forall|j: int| 0 <= j < acts_before.len() ==> acts@[j] == acts_before[j],
                    forall|j: int|
                        0 <= j < acts_before.len() ==> (#[trigger] acts_before[j]).spec_global()
                            != b,
                    forall|j: int|
                        0 <= j < i ==> (#[trigger] acts@[acts_before.len() + j]).spec_global() == b
                            && acts@[acts_before.len() + j].spec_local() == row@[j] && acts@[
                        acts_before.len() + j].wf(),
                    forall|a: Action| #[trigger]
                        acts_before.contains(a) <==> (self.board_action_ok(a) && exists|j: int|
                            0 <= j < k && self.global_states.playable()[j] == a.spec_global()),
                decreases row@.len() - i,
            {
                let local = row[i];
                proof {
                    assert(row@.contains(row@[i as int]));
                    assert(board_wf(
                        self.local_boards.xs()[b as int],
                        self.local_boards.os()[b as int],
                        self.local_boards.legal()[b as int],
                    ));
                }
                let a = Action::from_coords(b, local);
                let ghost acts_prev = acts@;
                acts.push(a);
                proof {
                    assert(acts@ == acts_prev.push(a));
                    assert forall|p: int| 0 <= p < acts_prev.len() implies acts_prev[p] != a by {
                        if p < acts_before.len() {
                            assert(acts_prev[p] == acts_before[p]);
                            assert((acts_before[p]).spec_global() != b);
                        } else {
                            let jj = p - acts_before.len();
                            assert(acts_prev[acts_before.len() + jj].spec_local() == row@[jj]);
                            assert(row@.no_duplicates());
                            assert(row@[jj] != row@[i as int]);
                        }
                    }
                    assert(acts@.no_duplicates()) by {
                        assert forall|p: int, q: int|
                            0 <= p < acts@.len() && 0 <= q < acts@.len() && p != q implies acts@[p]
                            != acts@[q] by {
                            if q == acts@.len() - 1 {
                                assert(acts@[p] == acts_prev[p]);
                            } else if p == acts@.len() - 1 {
                                assert(acts@[q] == acts_prev[q]);
                            }
                        }
                    }
                }
                i += 1;
            }
            proof {
                assert forall|a: Action| #[trigger] acts@.contains(a) implies (self.board_action_ok(
                    a,
                ) && exists|j: int|
                    0 <= j < k + 1 && self.global_states.playable()[j] == a.spec_global()) by {
                    let idx = choose|idx: int| 0 <= idx < acts@.len() && acts@[idx] == a;
                    if idx < acts_before.len() {
                        assert(acts@[idx] == acts_before[idx]);
                        assert(acts_before.contains(a));
                        let j = choose|j: int|
                            0 <= j < k && self.global_states.playable()[j] == a.spec_global();
                    } else {
                        let j = idx - acts_before.len();
                        assert(acts@[acts_before.len() + j] == a);
                        assert(a.spec_global() == b && a.spec_local() == row@[j]);
                        assert(row@.contains(row@[j]));
                        assert(self.global_states.playable()[k as int] == b);
                    }
                }
                assert forall|a: Action|
                    self.board_action_ok(a) && (exists|j: int|
                        0 <= j < k + 1
                            && self.global_states.playable()[j] == a.spec_global()) implies #[trigger] acts@.contains(
                    a,
                ) by {
                    let j = choose|j: int|
                        0 <= j < k + 1 && self.global_states.playable()[j] == a.spec_global();
                    if a.spec_global() == b {
                        let l = a.spec_local();
                        assert(row@.contains(l));
                        let li = choose|li: int| 0 <= li < row@.len() && row@[li] == l;
                        assert(acts@[acts_before.len() + li].spec_global() == b);
                        let pushed = acts@[acts_before.len() + li];
                        lemma_action_injective(a, pushed);
                        assert(acts@.contains(pushed));
                    } else {
                        assert(j < k) by {
                            if j == k {
                                assert(self.global_states.playable()[k as int] == b);
                                assert(false);
                            }
                        }
                        assert(acts_before.contains(a));
                        let idx = choose|idx: int|
                            0 <= idx < acts_before.len() && acts_before[idx] == a;
                        assert(acts@[idx] == acts_before[idx]);
                        assert(acts@[idx] == a);
                    }
                }
            }
            k += 1;
        }
        proof {
            assert forall|a: Action| #[trigger] acts@.contains(a) <==> self.board_action_ok(
                a,
            ) by {
                if self.board_action_ok(a) {
                    assert(self.global_states.playable().contains(a.spec_global()));
                }
            }
        }
        acts
    }

    /// The legal moves of this position, each exactly once: the empty
    /// cells of the forced board while it is playable, otherwise the
    /// empty cells of every playable board.
    pub fn possible_actions(&self) -> (r: Vec<Action>)
        requires
            self.wf(),
        ensures
            r@.no_duplicates(),
            forall|a: Action| #[trigger] r@.contains(a) <==> self.action_legal(a),
    {
        match self.last_local_move {
            Option::Some(last_local) => {
                let global = local_to_global(last_local);
                if self.global_states.in_play(global) {
                    let row = self.local_boards.local_moves(global);
                    let mut acts: Vec<Action> = Vec::new();
                    let mut i: usize = 0;
                    while i < row.len()
                        invariant
                            self.wf(),
                            global < 9,
                            self.global_states.playable().contains(global),
                            row@ == self.local_boards.legal()[global as int],
                            i <= row@.len(),
                            acts@.len() == i,
                            forall|j: int|
                                0 <= j < i ==> (#[trigger] acts@[j]).spec_global() == global
                                    && acts@[j].spec_local() == row@[j] && acts@[j].wf(),
                        decreases row@.len() - i,
                    {
                        let local = row[i];
                        proof {
                            assert(row@.contains(row@[i as int]));
                            assert(board_wf(
                                self.local_boards.xs()[global as int],
                                self.local_boards.os()[global as int],
                                self.local_boards.legal()[global as int],
                            ));
                        }
                        acts.push(Action::from_coords(global, local));
                        i += 1;
                    }
                    proof {
                        assert forall|a: Action| #[trigger] acts@.contains(a)
                            <==> self.action_legal(a) by {
                            if acts@.contains(a) {
                                let idx = choose|idx: int|
                                    0 <= idx < acts@.len() && acts@[idx] == a;
                                assert(row@.contains(row@[idx]));
                            }
                            if self.action_legal(a) {
                                assert(a.spec_global() == global);
                                let li = choose|li: int|
                                    0 <= li < row@.len() && row@[li] == a.spec_local();
                                lemma_action_injective(a, acts@[li]);
                                assert(acts@.contains(acts@[li]));
                            }
                        }
                        assert(acts@.no_duplicates()) by {
                            assert(row@.no_duplicates());
                        }
                    }
                    acts
                } else {
                    self.all_board_actions()
                }
            },
            Option::None => self.all_board_actions(),
        }
    }

    /// Applies a currently applicable action in place: occupies the cell
    /// for the player to move, recomputes the outcomes, flips the player,
    /// and records the move.
    pub fn apply_action(&mut self, action: &Action)
        requires
            old(self).wf(),
            old(self).result == UTTTResult::InPlay,
            old(self).board_action_ok(*action),
        ensures
            final(self).wf(),
            State::spec_apply(*old(self), *action, *final(self)),
    {
        let global = action.global();
        let local = action.local();
        proof {
            assert(board_wf(
                self.local_boards.xs()[global as int],
                self.local_boards.os()[global as int],
                self.local_boards.legal()[global as int],
            ));
        }
        let board_state = self.local_boards.set(global, local, self.player);
        let overall = self.global_states.set(global, board_state);
        self.result = overall;
        self.player = self.player.other();
        self.last_action = Option::Some(*action);
        self.last_local_move = Option::Some(local);
        proof {
            let g = global as int;
            assert forall|b: usize| #[trigger]
                self.global_states.playable().contains(b) implies (self.local_boards.xs()[b as int]
                | self.local_boards.os()[b as int]) != BOARD_MASK by {
                assert(self.global_states.playable().to_set().contains(b));
                assert(self.global_states.playable().to_set() <= old(
                    self,
                ).global_states.playable().to_set());
                assert(old(self).global_states.playable().to_set().contains(b));
                assert(old(self).global_states.playable().contains(b));
                if b as int != g {
                    assert(self.local_boards.xs()[b as int] == old(self).local_boards.xs()[
                    b as int]);
                    assert(self.local_boards.os()[b as int] == old(self).local_boards.os()[
                    b as int]);
                } else {
                    assert(board_state == UTTTResult::InPlay) by {
                        match board_state {
                            UTTTResult::InPlay => {
                            },
                            _ => {
                                assert(self.global_states.playable().to_set() == old(
                                    self,
                                ).global_states.playable().to_set().remove(global));
                                assert(!self.global_states.playable().to_set().contains(global));
                                assert(false);
                            },
                        }
                    }
                }
            }
        }
    }

    /// A copy of this position with the action applied.
    pub fn perform_action_copy(&self, action: &Action) -> (r: State)
        requires
            self.wf(),
            self.result == UTTTResult::InPlay,
            self.board_action_ok(*action),
        ensures
            r.wf(),
            State::spec_apply(*self, *action, r),
    {
        let mut new_state = self.clone();
        new_state.apply_action(action);
        new_state
    }

    /// A uniformly random legal move: a random empty cell of the forced
    /// board while it is playable, otherwise a random empty cell of a
    /// random playable board — two draws, not one flattened draw.
    /// Nothing is returned only when no board is playable.
    pub fn random_move(&self, rng: &mut Rng) -> (r: Option<Action>)
        requires
            self.wf(),
        ensures
            match r {
                Option::Some(a) => self.action_legal(a),
                Option::None => self.global_states.playable().len() == 0,
            },
    {
        let forced: Option<usize> = match self.last_local_move {
            Option::Some(l) => {
                let g = local_to_global(l);
                if self.global_states.in_play(g) {
                    Option::Some(g)
                } else {
                    Option::None
                }
            },
            Option::None => Option::None,
        };
        match forced {
            Option::Some(g) => {
                let row = self.local_moves_of_playable(g);
                match rng.choice(row) {
                    Option::Some(local) => {
                        proof {
                            assert(row@.contains(local));
                            assert(board_wf(
                                self.local_boards.xs()[g as int],
                                self.local_boards.os()[g as int],
                                self.local_boards.legal()[g as int],
                            ));
                        }
                        Option::Some(Action::from_coords(g, local))
                    },
                    Option::None => {
                        proof {
                            assert(false);
                        }
                        Option::None
                    },
                }
            },
            Option::None => {
                match rng.choice(self.global_states.playable_list()) {
                    Option::None => Option::None,
                    Option::Some(b) => {
                        proof {
                            assert(self.global_states.playable().contains(b));
                        }
                        let row = self.local_moves_of_playable(b);
                        match rng.choice(row) {
                            Option::Some(local) => {
                                proof {
                                    assert(row@.contains(local));
                                    assert(board_wf(
                                        self.local_boards.xs()[b as int],
                                        self.local_boards.os()[b as int],
                                        self.local_boards.legal()[b as int],
                                    ));
                                }
                                Option::Some(Action::from_coords(b, local))
                            },
                            Option::None => {
                                proof {
                                    assert(false);
                                }
                                Option::None
                            },
                        }
                    },
                }
            },
        }
    }

    /// The empty cells of a playable board; never empty.
    fn local_moves_of_playable(&self, b: usize) -> (r: &Vec<u16>)
        requires
            self.wf(),
            self.global_states.playable().contains(b),
        ensures
            r@ == self.local_boards.legal()[b as int],
            r@.len() > 0,
    {
        proof {
            let i = choose|i: int|
                0 <= i < self.global_states.playable().len() && self.global_states.playable()[i]
                    == b;
            assert(board_wf(
                self.local_boards.xs()[b as int],
                self.local_boards.os()[b as int],
                self.local_boards.legal()[b as int],
            ));
            let u = (self.local_boards.xs()[b as int] | self.local_boards.os()[b as int]) as u16;
            lemma_or_bound(self.local_boards.xs()[b as int], self.local_boards.os()[b as int]);
            lemma_nonfull_has_empty(u);
            let m = choose|m: u16| is_cell_mask(m) && u & m == 0;
            assert(board_wf(
                self.local_boards.xs()[b as int],
                self.local_boards.os()[b as int],
                self.local_boards.legal()[b as int],
            ));
            assert(self.local_boards.legal()[b as int].contains(m));
        }
        self.local_boards.local_moves(b)
    }

    /// Plays uniformly random legal moves in place until the game is
    /// decided, and reports the terminal result: whatever the generator
    /// draws, the result is one some sequence of legal moves reaches
    /// from this position.  (A position without a playable board would
    /// count as drawn, but a well-formed in-play position always has a
    /// legal move.)
    #[verifier::loop_isolation(false)]
    pub fn simulate_game(self, rng: &mut Rng) -> (r: UTTTResult)
        requires
            self.wf(),
            self.result == UTTTResult::InPlay,
        ensures
            r != UTTTResult::InPlay,
            rollout_reaches(self, r),
    {
        let ghost start = self;
        let mut s = self;
        loop
            invariant
                s.wf(),
                s.result == UTTTResult::InPlay,
                forall|t: UTTTResult| rollout_reaches(s, t) ==> #[trigger] rollout_reaches(
                    start,
                    t,
                ),
            decreases spec_open_cells(s.local_boards.legal(), 9),
        {
            let ghost legal_before = s.local_boards.legal();
            let ghost s_before = s;
            let action = s.random_move(rng);
            match action {
                Option::Some(a) => {
                    s.apply_action(&a);
                    proof {
                        lemma_open_cells_update(
                            legal_before,
                            s.local_boards.legal(),
                            a.spec_global() as int,
                            9,
                        );
                        assert forall|t: UTTTResult| rollout_reaches(s, t) implies #[trigger] rollout_reaches(
                            start,
                            t,
                        ) by {
                            assert(s_before.action_legal(a));
                            assert(State::spec_apply(s_before, a, s));
                            assert(rollout_reaches(s_before, t));
                        }
                    }
                    if !s.playable() {
                        proof {
                            assert(rollout_reaches(s, s.result));
                            assert(rollout_reaches(start, s.result));
                        }
                        return s.outcome();
                    }
                },
                Option::None => {
                    // unreachable: a well-formed in-play position has a
                    // playable board, so a move was drawn
                    proof {
                        assert(false);
                    }
                    return UTTTResult::Drawn;
                },
            }
        }
    }
}

/// The total count of empty cells over the first `n` boards.
pub open spec fn spec_open_cells(legal: Seq<Seq<u16>>, n: int) -> nat
    decreases n,
{
    if n <= 0 {
        0
    } else {
        (spec_open_cells(legal, n - 1) + legal[n - 1].len()) as nat
    }
}

/// Removing one cell from one board's list lowers the total count by one.
proof fn lemma_open_cells_update(a: Seq<Seq<u16>>, b: Seq<Seq<u16>>, g: int, n: int)
    requires
        0 <= g,
        forall|h: int| 0 <= h < n && h != g ==> a[h] == b[h],
        g < n ==> b[g].len() == a[g].len() - 1,
    ensures
        g < n ==> spec_open_cells(b, n) + 1 == spec_open_cells(a, n),
        g >= n ==> spec_open_cells(b, n) == spec_open_cells(a, n),
    decreases n,
{
    if n > 0 {
        lemma_open_cells_update(a, b, g, n - 1);
    }
}

/// A terminal result reachable from a position by applying some sequence
/// of moves, each applicable when taken; a decided position reaches
/// exactly its own result.
pub open spec fn rollout_reaches(s: State, r: UTTTResult) -> bool
    decreases spec_open_cells(s.local_boards.legal(), 9),
    via rollout_reaches_decreases
{
    if s.result != UTTTResult::InPlay {
        r == s.result
    } else {
        exists|a: Action, s2: State|
            {
                &&& s.action_legal(a)
                &&& #[trigger] State::spec_apply(s, a, s2)
                &&& rollout_reaches(s2, r)
            }
    }
}

#[via_fn]
proof fn rollout_reaches_decreases(s: State, r: UTTTResult) {
    assert forall|a: Action, s2: State|
        s.action_legal(a) && #[trigger] State::spec_apply(s, a, s2) implies spec_open_cells(
        s2.local_boards.legal(),
        9,
    ) < spec_open_cells(s.local_boards.legal(), 9) by {
        lemma_open_cells_update(
            s.local_boards.legal(),
            s2.local_boards.legal(),
            a.spec_global() as int,
            9,
        );
    }
}

/// However a legal game has been played, the two occupancies of each
/// local board never share a cell and never leave the nine-cell field:
/// no cell is counted for both players, and no board exceeds nine cells.
pub proof fn lemma_occupancy_sound(s: State, g: int)
    requires
        s.wf(),
        0 <= g < 9,
    ensures
        s.local_boards.xs()[g] & s.local_boards.os()[g] == 0,
        s.local_boards.xs()[g] < 512,
        s.local_boards.os()[g] < 512,
{
    assert(board_wf(s.local_boards.xs()[g], s.local_boards.os()[g], s.local_boards.legal()[g]));
}

/// The forced-board rule: when the board named by the last move's cell is
/// still playable, every legal move plays in that board; when it is
/// decided, a legal move may play in any playable board.
pub proof fn lemma_forced_board_rule(s: State, a: Action, l: u16)
    requires
        s.wf(),
        s.action_legal(a),
        s.last_local_move == Option::Some(l),
    ensures
        s.global_states.playable().contains(spec_local_to_global(l)) ==> a.spec_global()
            == spec_local_to_global(l),
        s.global_states.playable().contains(a.spec_global()),
{
}

/// A well-formed position still in play always has a legal move: the
/// forced board, or any playable board, still holds an empty cell.
pub proof fn lemma_in_play_has_legal_action(s: State)
    requires
        s.wf(),
        s.result == UTTTResult::InPlay,
    ensures
        exists|a: Action| #[trigger] s.action_legal(a),
{
    let forced = match s.last_local_move {
        Option::Some(l) => {
            let f = spec_local_to_global(l);
            if s.global_states.playable().contains(f) {
                Option::Some(f)
            } else {
                Option::<usize>::None
            }
        },
        Option::None => Option::<usize>::None,
    };
    let b = match forced {
        Option::Some(f) => f,
        Option::None => s.global_states.playable()[0],
    };
    assert(s.global_states.playable().contains(b)) by {
        if forced is None {
            assert(s.global_states.playable()[0] == b);
        }
    }
    let i = choose|i: int|
        0 <= i < s.global_states.playable().len() && s.global_states.playable()[i] == b;
    assert(board_wf(
        s.local_boards.xs()[b as int],
        s.local_boards.os()[b as int],
        s.local_boards.legal()[b as int],
    ));
    let u = (s.local_boards.xs()[b as int] | s.local_boards.os()[b as int]) as u16;
    lemma_or_bound(s.local_boards.xs()[b as int], s.local_boards.os()[b as int]);
    lemma_nonfull_has_empty(u);
    let m = choose|m: u16| is_cell_mask(m) && u & m == 0;
    assert(s.local_boards.legal()[b as int].contains(m));
    let a = Action::spec_from_coords(b, m);
    Action::lemma_spec_from_coords(b, m);
    assert(s.action_legal(a));
}

/// Once a local board is decided it never re-enters play: after any
/// further move, it is still out of the playable set and no legal move
/// plays in it.
pub proof fn lemma_decided_board_offers_no_moves(pre: State, a: Action, post: State, b: usize)
    requires
        pre.wf(),
        post.wf(),
        State::spec_apply(pre, a, post),
        !pre.global_states.playable().contains(b),
    ensures
        !post.global_states.playable().contains(b),
        forall|m: Action| post.action_legal(m) ==> (#[trigger] m.spec_global()) != b,
{
    let g = a.spec_global();
    let l = a.spec_local();
    let mover = pre.spec_player();
    let nx = if mover == Player::X {
        (pre.local_boards.xs()[g as int] | l) as u16
    } else {
        pre.local_boards.xs()[g as int]
    };
    let no = if mover == Player::O {
        (pre.local_boards.os()[g as int] | l) as u16
    } else {
        pre.local_boards.os()[g as int]
    };
    let lr = spec_local_result(nx, no, l, mover);
    lemma_decided_board_stays_decided(
        pre.global_states,
        g,
        lr,
        post.global_states,
        post.result,
        b,
    );
    assert forall|m: Action| post.action_legal(m) implies (#[trigger] m.spec_global()) != b by {
        assert(post.global_states.playable().contains(m.spec_global()));
    }
}

impl Clone for State {
    /// A copy observably equal to this position.
    fn clone(&self) -> (r: Self)
        ensures
            r.spec_player() == self.spec_player(),
            r.last_action == self.last_action,
            r.last_local_move == self.last_local_move,
            r.local_boards.xs() == self.local_boards.xs(),
            r.local_boards.os() == self.local_boards.os(),
            r.local_boards.legal() == self.local_boards.legal(),
            r.global_states.x_mask() == self.global_states.x_mask(),
            r.global_states.o_mask() == self.global_states.o_mask(),
            r.global_states.closed_mask() == self.global_states.closed_mask(),
            r.global_states.x_count() == self.global_states.x_count(),
            r.global_states.o_count() == self.global_states.o_count(),
            r.global_states.playable() == self.global_states.playable(),
            r.result == self.result,
            self.wf() ==> r.wf(),
    {
        State {
            player: self.player,
            last_action: self.last_action,
            last_local_move: self.last_local_move,
            local_boards: self.local_boards.clone(),
            global_states: self.global_states.clone(),
            result: self.result,
        }
    }
}

impl Default for State {
    /// A fresh game.
    fn default() -> (r: Self)
        ensures
            r.wf(),
            r.spec_player() == Player::X,
            r.last_action is None,
            r.last_local_move is None,
            r.result == UTTTResult::InPlay,
    {
        State::new()
    }
}

} // verus!
