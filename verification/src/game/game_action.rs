//! A move, packed into one small integer.
//!
//! An action names a board of the nine (0 to 8) and a cell of that board as
//! a single-bit mask; the pair is packed as `board * 512 + cell` for cheap
//! equality.

use vstd::prelude::*;
use crate::game::masks::{is_cell_mask, spec_local_to_global, local_to_global, spec_cell_mask,
    cell_mask};
use crate::mcts::traits::GameAction;

verus! {

/// A move: a board index and a cell mask of that board, packed together.
#[derive(Clone, Copy, PartialEq, Eq, Structural, Debug)]
pub struct Action {
    bits: u16,
}

impl GameAction for Action {

}

impl Action {
    /// The board this action plays in.
    pub closed spec fn spec_global(self) -> usize {
        (self.bits / 512) as usize
    }

    /// The cell mask this action occupies within its board.
    pub closed spec fn spec_local(self) -> u16 {
        self.bits % 512
    }

    /// A well-formed action: board index below nine, cell a single bit.
    pub open spec fn wf(self) -> bool {
        self.spec_global() < 9 && is_cell_mask(self.spec_local())
    }

    /// The packed action for a board index and a cell mask.
    pub closed spec fn spec_from_coords(global: usize, local: u16) -> Action {
        Action { bits: (global * 512 + local) as u16 }
    }

    /// The packed action unpacks to its board and cell again.
    pub proof fn lemma_spec_from_coords(global: usize, local: u16)
        requires
            global < 9,
            is_cell_mask(local),
        ensures
            Action::spec_from_coords(global, local).spec_global() == global,
            Action::spec_from_coords(global, local).spec_local() == local,
            Action::spec_from_coords(global, local).wf(),
    {
        let a = Action::spec_from_coords(global, local);
        assert(local < 512);
        assert(a.bits == global * 512 + local);
        assert(a.bits / 512 == global && a.bits % 512 == local) by (nonlinear_arith)
            requires
                a.bits == global * 512 + local,
                global < 9,
                local < 512,
        ;
    }

    /// Packs a board index and a cell mask into an action.
    pub fn from_coords(global: usize, local: u16) -> (r: Action)
        requires
            global < 9,
            is_cell_mask(local),
        ensures
            r.spec_global() == global,
            r.spec_local() == local,
            r.wf(),
    {
        let r = Action { bits: (global as u16) * 512 + local };
        proof {
            assert(local < 512);
            assert(r.bits == global * 512 + local);
            assert(r.bits / 512 == global && r.bits % 512 == local) by (nonlinear_arith)
                requires
                    r.bits == global * 512 + local,
                    global < 9,
                    local < 512,
            ;
        }
        r
    }

    /// The board this action plays in.
    pub fn global(self) -> (r: usize)
        ensures
            r == self.spec_global(),
    {
        (self.bits / 512) as usize
    }

    /// The cell mask this action occupies within its board.
    pub fn local(self) -> (r: u16)
        ensures
            r == self.spec_local(),
    {
        self.bits % 512
    }

    /// The absolute row of this action on the full 9x9 grid.
    pub open spec fn spec_row(self) -> usize {
        (self.spec_global() / 3 * 3 + spec_local_to_global(self.spec_local()) / 3) as usize
    }

    /// The absolute column of this action on the full 9x9 grid.
    pub open spec fn spec_col(self) -> usize {
        (self.spec_global() % 3 * 3 + spec_local_to_global(self.spec_local()) % 3) as usize
    }

    /// The absolute row and column of this action, as the turn protocol
    /// prints them.
    pub fn row_col(&self) -> (rc: (usize, usize))
        requires
            self.wf(),
        ensures
            rc.0 == self.spec_row(),
            rc.1 == self.spec_col(),
            rc.0 < 9,
            rc.1 < 9,
    {
        let cell = local_to_global(self.local());
        let row = self.global() / 3 * 3 + cell / 3;
        let col = self.global() % 3 * 3 + cell % 3;
        (row, col)
    }
}

/// Reads an action back from the absolute coordinates of the turn protocol.
pub fn action_from_row_col(row: usize, col: usize) -> (r: Action)
    requires
        row < 9,
        col < 9,
    ensures
        r.wf(),
        r.spec_global() == col / 3 + row / 3 * 3,
        r.spec_local() == spec_cell_mask((col % 3 + row % 3 * 3) as usize),
        r.spec_row() == row,
        r.spec_col() == col,
{
    let global = col / 3 + row / 3 * 3;
    let cell = col % 3 + row % 3 * 3;
    let r = Action::from_coords(global, cell_mask(cell));
    proof {
        assert(r.spec_row() == row && r.spec_col() == col);
    }
    r
}

/// Two well-formed actions with the same board and cell are the same
/// action: the packing loses nothing.
pub proof fn lemma_action_injective(a: Action, b: Action)
    requires
        a.wf(),
        b.wf(),
        a.spec_global() == b.spec_global(),
        a.spec_local() == b.spec_local(),
    ensures
        a == b,
{
}

} // verus!
