//! The nine local 3x3 boards.
//!
//! Each board keeps one occupancy mask per player and the list of its
//! still-empty cells; the two masks never share a bit, and the empty-cell
//! list holds exactly the cells missing from both masks.

use vstd::prelude::*;
use vstd::seq_lib::*;
use crate::game::masks::{BOARD_MASK, is_cell_mask, spec_win_masks, wins_line, win_masks_for_move,
    spec_all_cells, all_cells, lemma_cells_disjoint, lemma_occupy_keeps_wf, lemma_other_cell_empty,
    lemma_all_cells_valid, lemma_or_comm};
use crate::game::player::Player;
use crate::game::game_state::UTTTResult;
use crate::seq_util::lemma_swap_remove_set;

verus! {

/// One occupancy mask per player and the empty cells, for each of the nine
/// local boards.
pub struct LocalBoards {
    boards_x: Vec<u16>,
    boards_o: Vec<u16>,
    legal_moves: Vec<Vec<u16>>,
}

/// Well-formedness of a single local board: disjoint 9-bit occupancies,
/// and an empty-cell list holding exactly the unoccupied cells, each once.
pub open spec fn board_wf(x: u16, o: u16, legal: Seq<u16>) -> bool {
    &&& x & o == 0
    &&& x < 512
    &&& o < 512
    &&& legal.no_duplicates()
    &&& forall|m: u16| #[trigger] legal.contains(m) ==> is_cell_mask(m) && (x | o) & m == 0
    &&& forall|m: u16| #[trigger] is_cell_mask(m) && (x | o) & m == 0 ==> legal.contains(m)
}

/// The outcome of a local board just after `player` occupied `cell`:
/// `x` and `o` are the occupancies with the move already applied.
pub open spec fn spec_local_result(x: u16, o: u16, cell: u16, player: Player) -> UTTTResult {
    let occ = if player == Player::X {
        x
    } else {
        o
    };
    if wins_line(occ, cell) {
        UTTTResult::Won(player)
    } else if (x | o) == BOARD_MASK {
        UTTTResult::Drawn
    } else {
        UTTTResult::InPlay
    }
}

/// The exact effect of `LocalBoards::set`: how the occupancies and the
/// empty-cell lists of `post` relate to `pre` after `player` occupies
/// `local` on board `g`, and which outcome `r` is reported.
pub open spec fn spec_local_set(
    pre: LocalBoards,
    g: int,
    local: u16,
    player: Player,
    post: LocalBoards,
    r: UTTTResult,
) -> bool {
    let nx = if player == Player::X {
        (pre.xs()[g] | local) as u16
    } else {
        pre.xs()[g]
    };
    let no = if player == Player::O {
        (pre.os()[g] | local) as u16
    } else {
        pre.os()[g]
    };
    &&& post.xs() == pre.xs().update(g, nx)
    &&& post.os() == pre.os().update(g, no)
    &&& post.legal().len() == 9
    &&& forall|h: int| 0 <= h < 9 && h != g ==> post.legal()[h] == pre.legal()[h]
    &&& post.legal()[g].to_set() == pre.legal()[g].to_set().remove(local)
    &&& post.legal()[g].len() == pre.legal()[g].len() - 1
    &&& r == spec_local_result(nx, no, local, player)
}

/// A move that completes a line through its own cell wins its board at
/// once, before the board fills.
pub proof fn lemma_completed_line_wins(x: u16, o: u16, cell: u16, player: Player)
    requires
        wins_line(
            if player == Player::X {
                x
            } else {
                o
            },
            cell,
        ),
    ensures
        spec_local_result(x, o, cell, player) == UTTTResult::Won(player),
{
}

/// A board whose nine cells are all occupied with no line through the
/// last move for the mover is drawn.
pub proof fn lemma_full_board_draws(x: u16, o: u16, cell: u16, player: Player)
    requires
        !wins_line(
            if player == Player::X {
                x
            } else {
                o
            },
            cell,
        ),
        (x | o) == BOARD_MASK,
    ensures
        spec_local_result(x, o, cell, player) == UTTTResult::Drawn,
{
}

/// Finds the position of a cell known to be in the list.
fn position_of(row: &Vec<u16>, local: u16) -> (r: usize)
    requires
        row@.contains(local),
    ensures
        r < row@.len(),
        row@[r as int] == local,
{
    let mut i: usize = 0;
    while i < row.len()
        invariant
            i <= row@.len(),
            row@.contains(local),
            forall|j: int| 0 <= j < i ==> row@[j] != local,
        decreases row@.len() - i,
    {
        if row[i] == local {
            return i;
        }
        i += 1;
    }
    proof {
        let j = choose|j: int| 0 <= j < row@.len() && row@[j] == local;
        assert(false);
    }
    0
}

impl LocalBoards {
    /// The occupancy mask of X per board.
    pub closed spec fn xs(self) -> Seq<u16> {
        self.boards_x@
    }

    /// The occupancy mask of O per board.
    pub closed spec fn os(self) -> Seq<u16> {
        self.boards_o@
    }

    /// The empty cells per board.
    pub closed spec fn legal(self) -> Seq<Seq<u16>> {
        self.legal_moves@.map_values(|v: Vec<u16>| v@)
    }

    /// Well-formedness of all nine boards.
    pub open spec fn wf(self) -> bool {
        &&& self.xs().len() == 9
        &&& self.os().len() == 9
        &&& self.legal().len() == 9
        &&& forall|g: int|
            0 <= g < 9 ==> board_wf(self.xs()[g], self.os()[g], #[trigger] self.legal()[g])
    }

    /// The still-empty cells of one board.
    pub fn local_moves(&self, global: usize) -> (r: &Vec<u16>)
        requires
            self.wf(),
            global < 9,
        ensures
            r@ == self.legal()[global as int],
    {
        &self.legal_moves[global]
    }

    /// Occupies a currently empty cell of one board for `player`, removes
    /// it from that board's empty-cell list exactly once, and reports the
    /// board's outcome: a win through the played cell, a draw when the
    /// board fills without one, or still in play.
    #[verifier::loop_isolation(false)]
    pub fn set(&mut self, global: usize, local: u16, player: Player) -> (r: UTTTResult)
        requires
            old(self).wf(),
            global < 9,
            is_cell_mask(local),
            (old(self).xs()[global as int] | old(self).os()[global as int]) & local == 0,
        ensures
            final(self).wf(),
            spec_local_set(*old(self), global as int, local, player, *final(self), r),
    {
        let ghost g = global as int;
        let ghost old_xs = self.boards_x@;
        let ghost old_os = self.boards_o@;
        let ghost old_rows = self.legal();

        // remove the played cell from the board's empty-cell list
        let mut row = self.legal_moves.remove(global);
        let ghost old_row = row@;
        proof {
            assert(old_rows[g] == old_row);
            assert(board_wf(old_xs[g], old_os[g], old_row));
            assert(old_row.contains(local));
        }
        let pos = position_of(&row, local);
        row.swap_remove(pos);
        proof {
            lemma_swap_remove_set(old_row, pos as int);
        }
        self.legal_moves.insert(global, row);
        proof {
            assert(self.legal() =~= old_rows.update(g, row@));
        }

        // occupy the cell and test only the lines through it
        let occ: u16 = match player {
            Player::O => {
                let b = self.boards_o[global] | local;
                self.boards_o[global] = b;
                b
            },
            Player::X => {
                let b = self.boards_x[global] | local;
                self.boards_x[global] = b;
                b
            },
        };
        proof {
            lemma_occupy_keeps_wf(old_xs[g], old_os[g], local);
            lemma_or_comm(old_xs[g], old_os[g]);
            if player == Player::X {
                assert(self.boards_x@ =~= old_xs.update(g, occ));
                assert(self.boards_o@ =~= old_os.update(g, old_os[g]));
            } else {
                assert(self.boards_o@ =~= old_os.update(g, occ));
                assert(self.boards_x@ =~= old_xs.update(g, old_xs[g]));
            }
            assert((self.xs()[g] | self.os()[g]) == ((old_xs[g] | old_os[g]) | local)) by {
                lemma_or_comm(self.xs()[g], self.os()[g]);
            }
            assert(self.wf()) by {
                let nx = self.xs()[g];
                let no = self.os()[g];
                assert forall|m: u16| #[trigger] self.legal()[g].contains(m) implies is_cell_mask(m)
                    && (nx | no) & m == 0 by {
                    assert(old_row.contains(m));
                    assert(m != local);
                    lemma_cells_disjoint(m, local);
                    lemma_other_cell_empty((old_xs[g] | old_os[g]) as u16, local, m);
                }
                assert forall|m: u16| #[trigger] is_cell_mask(m) && (nx | no) & m == 0 implies self
                    .legal()[g].contains(m) by {
                    if m == local {
                        assert(((old_xs[g] | old_os[g]) | local) & local == local);
                        assert(false);
                    } else {
                        lemma_cells_disjoint(m, local);
                        lemma_other_cell_empty((old_xs[g] | old_os[g]) as u16, local, m);
                        assert((nx | no) == ((old_xs[g] | old_os[g]) | local));
                        assert((old_xs[g] | old_os[g]) & m == 0);
                        assert(old_row.contains(m));
                        assert(self.legal()[g].to_set() == old_row.to_set().remove(local));
                        assert(self.legal()[g].to_set().contains(m));
                        assert(self.legal()[g].contains(m));
                    }
                }
                assert forall|h: int| 0 <= h < 9 implies board_wf(
                    self.xs()[h],
                    self.os()[h],
                    self.legal()[h],
                ) by {
                    if h != g {
                        assert(board_wf(old_xs[h], old_os[h], old_rows[h]));
                    }
                }
            }
        }
        let masks = win_masks_for_move(local);
        let mut i: usize = 0;
        while i < masks.len()
            invariant
                masks@ == spec_win_masks(local),
                forall|j: int| 0 <= j < i ==> occ & masks@[j] != masks@[j],
            decreases masks@.len() - i,
        {
            let m = masks[i];
            if occ & m == m {
                proof {
                    assert(occ & spec_win_masks(local)[i as int] == spec_win_masks(local)[i as int]);
                    assert(wins_line(occ, local));
                }
                return UTTTResult::Won(player);
            }
            i += 1;
        }
        proof {
            assert(!wins_line(occ, local));
            lemma_or_comm(self.boards_o@[g], self.boards_x@[g]);
        }
        if (self.boards_o[global] | self.boards_x[global]) == BOARD_MASK {
            UTTTResult::Drawn
        } else {
            UTTTResult::InPlay
        }
    }
}

impl Default for LocalBoards {
    /// Nine empty boards, each with all nine cells still open.
    fn default() -> (r: Self)
        ensures
            r.wf(),
            r.xs() == Seq::<u16>::new(9, |i: int| 0u16),
            r.os() == Seq::<u16>::new(9, |i: int| 0u16),
            forall|g: int| 0 <= g < 9 ==> r.legal()[g] == spec_all_cells(),
            r.legal().len() == 9,
    {
        let boards_x: Vec<u16> = vec![0u16; 9];
        let boards_o: Vec<u16> = vec![0u16; 9];
        let mut legal_moves: Vec<Vec<u16>> = Vec::new();
        let mut i: usize = 0;
        while i < 9
            invariant
                i <= 9,
                legal_moves@.len() == i,
                forall|j: int| 0 <= j < i ==> #[trigger] legal_moves@[j]@ == spec_all_cells(),
            decreases 9 - i,
        {
            legal_moves.push(all_cells());
            i += 1;
        }
        let r = LocalBoards { boards_x, boards_o, legal_moves };
        proof {
            assert(r.xs() =~= Seq::<u16>::new(9, |i: int| 0u16));
            assert(r.os() =~= Seq::<u16>::new(9, |i: int| 0u16));
            lemma_all_cells_valid();
            assert(forall|g: int| 0 <= g < 9 ==> #[trigger] r.legal()[g] == spec_all_cells());
            assert forall|g: int| 0 <= g < 9 implies board_wf(
                r.xs()[g],
                r.os()[g],
                #[trigger] r.legal()[g],
            ) by {
                assert(0u16 & 0u16 == 0 && 0u16 | 0u16 == 0) by (bit_vector);
                assert forall|m: u16| #[trigger] r.legal()[g].contains(m) implies is_cell_mask(m)
                    && (0u16 | 0u16) & m == 0 by {
                    assert(0u16 & m == 0) by (bit_vector);
                }
                assert forall|m: u16| #[trigger] is_cell_mask(m) && (0u16 | 0u16) & m
                    == 0 implies r.legal()[g].contains(m) by {
                    assert(spec_all_cells().contains(m));
                }
            }
        }
        r
    }
}

impl Clone for LocalBoards {
    /// A copy with the same occupancies and the same empty-cell lists.
    fn clone(&self) -> (r: Self)
        ensures
            r.xs() == self.xs(),
            r.os() == self.os(),
            r.legal() == self.legal(),
    {
        let boards_x = clone_u16_vec(&self.boards_x);
        let boards_o = clone_u16_vec(&self.boards_o);
        let mut legal_moves: Vec<Vec<u16>> = Vec::new();
        let mut i: usize = 0;
        while i < self.legal_moves.len()
            invariant
                i <= self.legal_moves@.len(),
                legal_moves@.len() == i,
                forall|j: int| 0 <= j < i ==> #[trigger] legal_moves@[j]@ == self.legal_moves@[j]@,
            decreases self.legal_moves@.len() - i,
        {
            legal_moves.push(clone_u16_vec(&self.legal_moves[i]));
            i += 1;
        }
        let r = LocalBoards { boards_x, boards_o, legal_moves };
        proof {
            assert(r.legal() =~= self.legal());
        }
        r
    }
}

/// Copies a vector of masks entry by entry.
fn clone_u16_vec(v: &Vec<u16>) -> (r: Vec<u16>)
    ensures
        r@ == v@,
{
    let mut r: Vec<u16> = Vec::new();
    let mut i: usize = 0;
    while i < v.len()
        invariant
            i <= v@.len(),
            r@ == v@.subrange(0, i as int),
        decreases v@.len() - i,
    {
        r.push(v[i]);
        proof {
            assert(r@ =~= v@.subrange(0, i + 1));
        }
        i += 1;
    }
    proof {
        assert(r@ =~= v@);
    }
    r
}

} // verus!
