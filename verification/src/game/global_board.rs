//! The meta-board: which of the nine local boards are decided, and the
//! overall outcome.
//!
//! A decided local board leaves the playable set exactly once and never
//! re-enters.  A won board sets the winner's bit in that player's
//! owned-boards mask, so the catalog of three-in-a-row lines detects a
//! meta-level win; a drawn board is recorded as decided but owned by
//! neither player, and never helps complete a line.  When every board is
//! decided without a meta line, the game goes to whoever won more boards;
//! equal counts draw the game.

use vstd::prelude::*;
use vstd::seq_lib::*;
use crate::game::masks::{is_cell_mask, spec_cell_mask, cell_mask, spec_win_masks, wins_line,
    win_masks_for_move, lemma_cells_disjoint, lemma_other_cell_empty, lemma_meta_or,
    lemma_and_with_zero, lemma_mark_closed};
use crate::game::player::Player;
use crate::game::game_state::UTTTResult;
use crate::seq_util::lemma_swap_remove_set;

verus! {

/// Meta-grid marks per player, won-board counts, and the boards still in
/// play.
pub struct GlobalBoard {
    x: u16,
    o: u16,
    closed: u16,
    x_won: u16,
    o_won: u16,
    playable_boards: Vec<usize>,
}

/// The count-based tie-break once every board is decided without a meta
/// line: more boards won wins; equal counts draw.
pub open spec fn spec_count_result(x_won: u16, o_won: u16) -> UTTTResult {
    if x_won > o_won {
        UTTTResult::Won(Player::X)
    } else if x_won < o_won {
        UTTTResult::Won(Player::O)
    } else {
        UTTTResult::Drawn
    }
}

/// The exact effect of `GlobalBoard::set`: how the owned-board masks,
/// the decided-board record, the counts and the playable set of `post`
/// relate to `pre` after local board `board` reports `state`, and which
/// overall outcome `r` is reported.  Only boards a player has won can
/// complete that player's meta line; a drawn board completes none.
pub open spec fn spec_global_set(
    pre: GlobalBoard,
    board: usize,
    state: UTTTResult,
    post: GlobalBoard,
    r: UTTTResult,
) -> bool {
    let bit = spec_cell_mask(board);
    match state {
        UTTTResult::InPlay => {
            &&& post.x_mask() == pre.x_mask()
            &&& post.o_mask() == pre.o_mask()
            &&& post.closed_mask() == pre.closed_mask()
            &&& post.x_count() == pre.x_count()
            &&& post.o_count() == pre.o_count()
            &&& post.playable() == pre.playable()
            &&& r == UTTTResult::InPlay
        },
        UTTTResult::Drawn => {
            &&& post.x_mask() == pre.x_mask()
            &&& post.o_mask() == pre.o_mask()
            &&& post.closed_mask() == (pre.closed_mask() | bit)
            &&& post.x_count() == pre.x_count()
            &&& post.o_count() == pre.o_count()
            &&& post.playable().to_set() == pre.playable().to_set().remove(board)
            &&& post.playable().len() == pre.playable().len() - 1
            &&& r == if post.playable().len() == 0 {
                spec_count_result(post.x_count(), post.o_count())
            } else {
                UTTTResult::InPlay
            }
        },
        UTTTResult::Won(p) => {
            &&& post.x_mask() == if p == Player::X {
                (pre.x_mask() | bit) as u16
            } else {
                pre.x_mask()
            }
            &&& post.o_mask() == if p == Player::O {
                (pre.o_mask() | bit) as u16
            } else {
                pre.o_mask()
            }
            &&& post.closed_mask() == (pre.closed_mask() | bit)
            &&& post.x_count() == if p == Player::X {
                (pre.x_count() + 1) as u16
            } else {
                pre.x_count()
            }
            &&& post.o_count() == if p == Player::O {
                (pre.o_count() + 1) as u16
            } else {
                pre.o_count()
            }
            &&& post.playable().to_set() == pre.playable().to_set().remove(board)
            &&& post.playable().len() == pre.playable().len() - 1
            &&& ({
                let owned = if p == Player::X {
                    post.x_mask()
                } else {
                    post.o_mask()
                };
                r == if wins_line(owned, bit) {
                    UTTTResult::Won(p)
                } else if post.playable().len() == 0 {
                    spec_count_result(post.x_count(), post.o_count())
                } else {
                    UTTTResult::InPlay
                }
            })
        },
    }
}

/// A local board leaves the playable set at most once and never
/// re-enters: a board absent before a meta-board transition is absent
/// after it, and a decided board is removed by the very transition that
/// decides it.
pub proof fn lemma_decided_board_stays_decided(
    pre: GlobalBoard,
    board: usize,
    state: UTTTResult,
    post: GlobalBoard,
    r: UTTTResult,
    b: usize,
)
    requires
        spec_global_set(pre, board, state, post, r),
        !pre.playable().contains(b),
    ensures
        !post.playable().contains(b),
        state != UTTTResult::InPlay ==> !post.playable().contains(board),
{
    match state {
        UTTTResult::InPlay => {
        },
        _ => {
            assert(post.playable().to_set() == pre.playable().to_set().remove(board));
            if post.playable().contains(b) {
                assert(post.playable().to_set().contains(b));
            }
            if post.playable().contains(board) {
                assert(post.playable().to_set().contains(board));
            }
        },
    }
}

/// The game is won outright when the winner's meta-grid marks complete a
/// three-in-a-row of boards through the board just decided.
pub proof fn lemma_meta_line_wins(
    pre: GlobalBoard,
    board: usize,
    p: Player,
    post: GlobalBoard,
    r: UTTTResult,
)
    requires
        spec_global_set(pre, board, UTTTResult::Won(p), post, r),
        wins_line(
            if p == Player::X {
                post.x_mask()
            } else {
                post.o_mask()
            },
            spec_cell_mask(board),
        ),
    ensures
        r == UTTTResult::Won(p),
{
}

/// When the last board closes without a meta line, the game goes to
/// whoever won more boards, and equal counts draw it.
pub proof fn lemma_exhaustion_tiebreak(
    pre: GlobalBoard,
    board: usize,
    state: UTTTResult,
    post: GlobalBoard,
    r: UTTTResult,
)
    requires
        spec_global_set(pre, board, state, post, r),
        state != UTTTResult::InPlay,
        post.playable().len() == 0,
        match state {
            UTTTResult::Won(p) => !wins_line(
                if p == Player::X {
                    post.x_mask()
                } else {
                    post.o_mask()
                },
                spec_cell_mask(board),
            ),
            _ => true,
        },
    ensures
        r == spec_count_result(post.x_count(), post.o_count()),
        post.x_count() == post.o_count() ==> r == UTTTResult::Drawn,
        post.x_count() > post.o_count() ==> r == UTTTResult::Won(Player::X),
        post.x_count() < post.o_count() ==> r == UTTTResult::Won(Player::O),
{
}

/// Finds the position of a board index known to be in the list.
fn position_of_board(row: &Vec<usize>, board: usize) -> (r: usize)
    requires
        row@.contains(board),
    ensures
        r < row@.len(),
        row@[r as int] == board,
{
    let mut i: usize = 0;
    while i < row.len()
        invariant
            i <= row@.len(),
            row@.contains(board),
            forall|j: int| 0 <= j < i ==> row@[j] != board,
        decreases row@.len() - i,
    {
        if row[i] == board {
            return i;
        }
        i += 1;
    }
    proof {
        let j = choose|j: int| 0 <= j < row@.len() && row@[j] == board;
        assert(false);
    }
    0
}

impl GlobalBoard {
    /// The boards X has won outright, as a 9-bit owned mask.
    pub closed spec fn x_mask(self) -> u16 {
        self.x
    }

    /// The boards O has won outright, as a 9-bit owned mask.
    pub closed spec fn o_mask(self) -> u16 {
        self.o
    }

    /// Every decided board — won by either player or drawn.
    pub closed spec fn closed_mask(self) -> u16 {
        self.closed
    }

    /// How many boards X has won outright.
    pub closed spec fn x_count(self) -> u16 {
        self.x_won
    }

    /// How many boards O has won outright.
    pub closed spec fn o_count(self) -> u16 {
        self.o_won
    }

    /// The boards still in play.
    pub closed spec fn playable(self) -> Seq<usize> {
        self.playable_boards@
    }

    /// Well-formedness: marks stay within the 9-bit field, the playable
    /// set lists each undecided board exactly once, and the counts leave
    /// room for the boards still open.
    pub open spec fn wf(self) -> bool {
        &&& self.x_mask() < 512
        &&& self.o_mask() < 512
        &&& self.closed_mask() < 512
        &&& self.playable().no_duplicates()
        &&& forall|i: int| 0 <= i < self.playable().len() ==> #[trigger] self.playable()[i] < 9
        &&& forall|b: usize|
            b < 9 ==> (#[trigger] self.playable().contains(b) <==> self.closed_mask()
                & spec_cell_mask(b) == 0)
        &&& self.x_count() + self.o_count() + self.playable().len() <= 9
    }

    /// A fresh meta-board: nothing marked, nothing won, all nine boards in
    /// play.
    pub fn new() -> (r: GlobalBoard)
        ensures
            r.wf(),
            r.x_mask() == 0,
            r.o_mask() == 0,
            r.closed_mask() == 0,
            r.x_count() == 0,
            r.o_count() == 0,
            r.playable() == seq![0usize, 1, 2, 3, 4, 5, 6, 7, 8],
    {
        let r = GlobalBoard {
            x: 0,
            o: 0,
            closed: 0,
            x_won: 0,
            o_won: 0,
            playable_boards: vec![0usize, 1, 2, 3, 4, 5, 6, 7, 8],
        };
        proof {
            assert(r.playable() =~= seq![0usize, 1, 2, 3, 4, 5, 6, 7, 8]);
            assert forall|b: usize| b < 9 implies (#[trigger] r.playable().contains(b)
                <==> r.closed_mask() & spec_cell_mask(b) == 0) by {
                assert(r.playable()[b as int] == b);
                lemma_and_with_zero(spec_cell_mask(b));
            }
        }
        r
    }

    /// The boards still in play, as a list without duplicates.
    pub fn playable_list(&self) -> (r: &Vec<usize>)
        ensures
            r@ == self.playable(),
    {
        &self.playable_boards
    }

    /// Whether a board is still in play.
    pub fn in_play(&self, board: usize) -> (r: bool)
        ensures
            r == self.playable().contains(board),
    {
        let mut i: usize = 0;
        while i < self.playable_boards.len()
            invariant
                i <= self.playable().len(),
                forall|j: int| 0 <= j < i ==> self.playable()[j] != board,
            decreases self.playable().len() - i,
        {
            if self.playable_boards[i] == board {
                return true;
            }
            i += 1;
        }
        false
    }

    /// The count comparison once no board is left, or still in play.
    fn tally(&self) -> (r: UTTTResult)
        ensures
            r == if self.playable().len() == 0 {
                spec_count_result(self.x_count(), self.o_count())
            } else {
                UTTTResult::InPlay
            },
    {
        if self.playable_boards.is_empty() {
            if self.x_won > self.o_won {
                UTTTResult::Won(Player::X)
            } else if self.x_won < self.o_won {
                UTTTResult::Won(Player::O)
            } else {
                UTTTResult::Drawn
            }
        } else {
            UTTTResult::InPlay
        }
    }

    /// Removes a board from the playable set exactly once.
    fn retire(&mut self, board: usize)
        requires
            old(self).wf(),
            old(self).playable().contains(board),
        ensures
            final(self).playable().to_set() == old(self).playable().to_set().remove(board),
            final(self).playable().len() == old(self).playable().len() - 1,
            final(self).playable().no_duplicates(),
            forall|i: int|
                0 <= i < final(self).playable().len() ==> #[trigger] final(self).playable()[i] < 9,
            final(self).x_mask() == old(self).x_mask(),
            final(self).o_mask() == old(self).o_mask(),
            final(self).closed_mask() == old(self).closed_mask(),
            final(self).x_count() == old(self).x_count(),
            final(self).o_count() == old(self).o_count(),
    {
        let ghost old_p = self.playable_boards@;
        let pos = position_of_board(&self.playable_boards, board);
        self.playable_boards.swap_remove(pos);
        proof {
            lemma_swap_remove_set(old_p, pos as int);
            assert forall|i: int| 0 <= i < self.playable().len() implies #[trigger] self.playable()[i]
                < 9 by {
                assert(self.playable().to_set().contains(self.playable()[i]));
                assert(old_p.contains(self.playable()[i]));
            }
        }
    }

    /// Records the outcome of one local board and reports the game's
    /// overall outcome.  A decided board leaves the playable set; a won
    /// board raises the winner's count and marks the winner's bit in the
    /// winner's owned mask, while a drawn board is only recorded as
    /// decided.  The game is won outright on a three-in-a-row of boards
    /// the winner owns, and decided by won-board counts when the last
    /// board closes without one.
    #[verifier::loop_isolation(false)]
    pub fn set(&mut self, board: usize, state: UTTTResult) -> (r: UTTTResult)
        requires
            old(self).wf(),
            board < 9,
            state != UTTTResult::InPlay ==> old(self).playable().contains(board),
        ensures
            final(self).wf(),
            final(self).playable().to_set() <= old(self).playable().to_set(),
            spec_global_set(*old(self), board, state, *final(self), r),
    {
        let ghost old_x = self.x;
        let ghost old_o = self.o;
        let ghost old_closed = self.closed;
        let ghost old_p = self.playable_boards@;
        let bit = cell_mask(board);
        proof {
            lemma_meta_or(old_x, old_o, bit);
            lemma_mark_closed(old_closed, bit);
        }
        match state {
            UTTTResult::InPlay => UTTTResult::InPlay,
            UTTTResult::Drawn => {
                self.retire(board);
                self.closed = self.closed | bit;
                proof {
                    self.lemma_wf_after_mark(*old(self), board);
                }
                self.tally()
            },
            UTTTResult::Won(p) => {
                self.retire(board);
                self.closed = self.closed | bit;
                let owned: u16 = match p {
                    Player::X => {
                        self.x_won = self.x_won + 1;
                        self.x = self.x | bit;
                        self.x
                    },
                    Player::O => {
                        self.o_won = self.o_won + 1;
                        self.o = self.o | bit;
                        self.o
                    },
                };
                proof {
                    self.lemma_wf_after_mark(*old(self), board);
                }
                let masks = win_masks_for_move(bit);
                let mut i: usize = 0;
                while i < masks.len()
                    invariant
                        masks@ == spec_win_masks(bit),
                        forall|j: int| 0 <= j < i ==> owned & masks@[j] != masks@[j],
                    decreases masks@.len() - i,
                {
                    let m = masks[i];
                    if owned & m == m {
                        proof {
                            assert(owned & spec_win_masks(bit)[i as int] == spec_win_masks(
                                bit,
                            )[i as int]);
                            assert(wins_line(owned, bit));
                        }
                        return match p {
                            Player::X => UTTTResult::Won(Player::X),
                            Player::O => UTTTResult::Won(Player::O),
                        };
                    }
                    i += 1;
                }
                proof {
                    assert(!wins_line(owned, bit));
                }
                self.tally()
            },
        }
    }

    /// After a decided board is retired and recorded, the meta-board is
    /// still well formed.
    proof fn lemma_wf_after_mark(self, prev: GlobalBoard, board: usize)
        requires
            prev.wf(),
            board < 9,
            prev.playable().contains(board),
            self.playable().to_set() == prev.playable().to_set().remove(board),
            self.playable().len() == prev.playable().len() - 1,
            self.playable().no_duplicates(),
            forall|i: int| 0 <= i < self.playable().len() ==> #[trigger] self.playable()[i] < 9,
            self.closed_mask() == (prev.closed_mask() | spec_cell_mask(board)),
            self.x_mask() < 512,
            self.o_mask() < 512,
            self.x_count() + self.o_count() <= prev.x_count() + prev.o_count() + 1,
        ensures
            self.wf(),
    {
        let bit = spec_cell_mask(board);
        let c = prev.closed_mask();
        lemma_mark_closed(c, bit);
        assert forall|b: usize| b < 9 implies (#[trigger] self.playable().contains(b)
            <==> self.closed_mask() & spec_cell_mask(b) == 0) by {
            if b == board {
                assert((c | bit) & bit == bit);
                assert(bit != 0);
                assert(!self.playable().to_set().contains(b));
            } else {
                lemma_cells_disjoint(spec_cell_mask(b), bit);
                lemma_other_cell_empty(c, bit, spec_cell_mask(b));
                assert(prev.playable().contains(b) <==> c & spec_cell_mask(b) == 0);
                assert(self.playable().contains(b) <==> self.playable().to_set().contains(b));
                assert(self.playable().to_set().contains(b) <==> prev.playable().contains(b));
            }
        }
    }
}

impl Default for GlobalBoard {
    /// A fresh meta-board.
    fn default() -> (r: Self)
        ensures
            r.wf(),
            r.x_mask() == 0,
            r.o_mask() == 0,
            r.closed_mask() == 0,
            r.x_count() == 0,
            r.o_count() == 0,
            r.playable() == seq![0usize, 1, 2, 3, 4, 5, 6, 7, 8],
    {
        GlobalBoard::new()
    }
}

impl Clone for GlobalBoard {
    /// A copy with the same marks, counts, and playable boards.
    fn clone(&self) -> (r: Self)
        ensures
            r.x_mask() == self.x_mask(),
            r.o_mask() == self.o_mask(),
            r.closed_mask() == self.closed_mask(),
            r.x_count() == self.x_count(),
            r.o_count() == self.o_count(),
            r.playable() == self.playable(),
    {
        GlobalBoard {
            x: self.x,
            o: self.o,
            closed: self.closed,
            x_won: self.x_won,
            o_won: self.o_won,
            playable_boards: crate::seq_util::clone_vec_copy(&self.playable_boards),
        }
    }
}

} // verus!
