//! Cell masks and the three-in-a-row catalog.
//!
//! A 3x3 board is a 9-bit field; a cell is a single set bit.  The catalog
//! maps a cell to the lines that pass through it, so a win check after a
//! move only tests the two to four lines the move can complete.

use vstd::prelude::*;

verus! {

/// All nine cells of a board set at once.
pub const BOARD_MASK: u16 = 0b111_111_111;

/// A valid cell mask: exactly one bit set within the 9-bit field.
pub open spec fn is_cell_mask(m: u16) -> bool {
    ||| m == 0b000_000_001
    ||| m == 0b000_000_010
    ||| m == 0b000_000_100
    ||| m == 0b000_001_000
    ||| m == 0b000_010_000
    ||| m == 0b000_100_000
    ||| m == 0b001_000_000
    ||| m == 0b010_000_000
    ||| m == 0b100_000_000
}

/// The three-in-a-row lines through a given cell, or empty for a non-cell.
pub open spec fn spec_win_masks(local: u16) -> Seq<u16> {
    if local == 0b000_000_001 {
        seq![0b000_000_111u16, 0b001_001_001u16, 0b100_010_001u16]
    } else if local == 0b000_000_010 {
        seq![0b000_000_111u16, 0b010_010_010u16]
    } else if local == 0b000_000_100 {
        seq![0b000_000_111u16, 0b100_100_100u16, 0b001_010_100u16]
    } else if local == 0b000_001_000 {
        seq![0b000_111_000u16, 0b001_001_001u16]
    } else if local == 0b000_010_000 {
        seq![0b000_111_000u16, 0b010_010_010u16, 0b001_010_100u16, 0b100_010_001u16]
    } else if local == 0b000_100_000 {
        seq![0b000_111_000u16, 0b100_100_100u16]
    } else if local == 0b001_000_000 {
        seq![0b111_000_000u16, 0b001_001_001u16, 0b001_010_100u16]
    } else if local == 0b010_000_000 {
        seq![0b111_000_000u16, 0b010_010_010u16]
    } else if local == 0b100_000_000 {
        seq![0b111_000_000u16, 0b100_100_100u16, 0b100_010_001u16]
    } else {
        Seq::empty()
    }
}

/// An occupancy completes a line through `cell` when it covers one of the
/// catalog masks for that cell.
pub open spec fn wins_line(occ: u16, cell: u16) -> bool {
    exists|i: int|
        0 <= i < spec_win_masks(cell).len() && occ & #[trigger] spec_win_masks(cell)[i]
            == spec_win_masks(cell)[i]
}

/// The lines through `local`, as the catalog lists them.
pub fn win_masks_for_move(local: u16) -> (r: Vec<u16>)
    ensures
        r@ == spec_win_masks(local),
{
    let r: Vec<u16> = if local == 0b000_000_001 {
        vec![0b000_000_111u16, 0b001_001_001u16, 0b100_010_001u16]
    } else if local == 0b000_000_010 {
        vec![0b000_000_111u16, 0b010_010_010u16]
    } else if local == 0b000_000_100 {
        vec![0b000_000_111u16, 0b100_100_100u16, 0b001_010_100u16]
    } else if local == 0b000_001_000 {
        vec![0b000_111_000u16, 0b001_001_001u16]
    } else if local == 0b000_010_000 {
        vec![0b000_111_000u16, 0b010_010_010u16, 0b001_010_100u16, 0b100_010_001u16]
    } else if local == 0b000_100_000 {
        vec![0b000_111_000u16, 0b100_100_100u16]
    } else if local == 0b001_000_000 {
        vec![0b111_000_000u16, 0b001_001_001u16, 0b001_010_100u16]
    } else if local == 0b010_000_000 {
        vec![0b111_000_000u16, 0b010_010_010u16]
    } else if local == 0b100_000_000 {
        vec![0b111_000_000u16, 0b100_100_100u16, 0b100_010_001u16]
    } else {
        Vec::new()
    };
    proof {
        assert(r@ =~= spec_win_masks(local));
    }
    r
}

/// The board index a cell mask stands for, or 16 for a non-cell.
pub open spec fn spec_local_to_global(local: u16) -> usize {
    if local == 0b000_000_001 {
        0
    } else if local == 0b000_000_010 {
        1
    } else if local == 0b000_000_100 {
        2
    } else if local == 0b000_001_000 {
        3
    } else if local == 0b000_010_000 {
        4
    } else if local == 0b000_100_000 {
        5
    } else if local == 0b001_000_000 {
        6
    } else if local == 0b010_000_000 {
        7
    } else if local == 0b100_000_000 {
        8
    } else {
        16
    }
}

/// Translates a cell mask of the local grid into the index of the board a
/// move into that cell forces next.
pub fn local_to_global(local: u16) -> (r: usize)
    ensures
        r == spec_local_to_global(local),
{
    if local == 0b000_000_001 {
        0
    } else if local == 0b000_000_010 {
        1
    } else if local == 0b000_000_100 {
        2
    } else if local == 0b000_001_000 {
        3
    } else if local == 0b000_010_000 {
        4
    } else if local == 0b000_100_000 {
        5
    } else if local == 0b001_000_000 {
        6
    } else if local == 0b010_000_000 {
        7
    } else if local == 0b100_000_000 {
        8
    } else {
        16
    }
}

/// The mask of cell `i`, counting cells row by row.
pub open spec fn spec_cell_mask(i: usize) -> u16 {
    if i == 0 {
        0b000_000_001
    } else if i == 1 {
        0b000_000_010
    } else if i == 2 {
        0b000_000_100
    } else if i == 3 {
        0b000_001_000
    } else if i == 4 {
        0b000_010_000
    } else if i == 5 {
        0b000_100_000
    } else if i == 6 {
        0b001_000_000
    } else if i == 7 {
        0b010_000_000
    } else {
        0b100_000_000
    }
}

/// The mask of cell `i` of a board.
pub fn cell_mask(i: usize) -> (r: u16)
    requires
        i < 9,
    ensures
        r == spec_cell_mask(i),
        is_cell_mask(r),
        spec_local_to_global(r) == i,
{
    if i == 0 {
        0b000_000_001
    } else if i == 1 {
        0b000_000_010
    } else if i == 2 {
        0b000_000_100
    } else if i == 3 {
        0b000_001_000
    } else if i == 4 {
        0b000_010_000
    } else if i == 5 {
        0b000_100_000
    } else if i == 6 {
        0b001_000_000
    } else if i == 7 {
        0b010_000_000
    } else {
        0b100_000_000
    }
}

/// The nine cell masks of a board, in cell order.
pub open spec fn spec_all_cells() -> Seq<u16> {
    seq![
        0b000_000_001u16,
        0b000_000_010u16,
        0b000_000_100u16,
        0b000_001_000u16,
        0b000_010_000u16,
        0b000_100_000u16,
        0b001_000_000u16,
        0b010_000_000u16,
        0b100_000_000u16,
    ]
}

/// The nine cell masks of a fresh board, in cell order.
pub fn all_cells() -> (r: Vec<u16>)
    ensures
        r@ == spec_all_cells(),
{
    let r: Vec<u16> = vec![
        0b000_000_001u16,
        0b000_000_010u16,
        0b000_000_100u16,
        0b000_001_000u16,
        0b000_010_000u16,
        0b000_100_000u16,
        0b001_000_000u16,
        0b010_000_000u16,
        0b100_000_000u16,
    ];
    proof {
        assert(r@ =~= spec_all_cells());
    }
    r
}

/// Distinct cells occupy distinct bits.
pub(crate) proof fn lemma_cells_disjoint(m: u16, l: u16)
    by (bit_vector)
    requires
        is_cell_mask(m),
        is_cell_mask(l),
        m != l,
    ensures
        m & l == 0,
{
}

/// Occupying one more cell keeps the two occupancies disjoint and within
/// the 9-bit field.
pub(crate) proof fn lemma_occupy_keeps_wf(x: u16, o: u16, l: u16)
    by (bit_vector)
    requires
        x & o == 0,
        x < 512,
        o < 512,
        is_cell_mask(l),
        (x | o) & l == 0,
    ensures
        (x | l) & o == 0,
        x & (o | l) == 0,
        (x | l) < 512,
        (o | l) < 512,
        ((x | l) | o) == (x | o) | l,
        (x | (o | l)) == (x | o) | l,
        ((x | o) | l) & l == l,
        l != 0,
{
}

/// A cell other than the one just occupied stays empty exactly when it was
/// empty before.
pub(crate) proof fn lemma_other_cell_empty(u: u16, l: u16, m: u16)
    by (bit_vector)
    requires
        is_cell_mask(l),
        is_cell_mask(m),
        m != l,
    ensures
        ((u | l) & m == 0) == (u & m == 0),
{
}

/// A board that is not yet full has an empty cell.
pub(crate) proof fn lemma_nonfull_has_empty(u: u16)
    requires
        u < 512,
        u != 0b111_111_111,
    ensures
        exists|m: u16| is_cell_mask(m) && u & m == 0,
{
    if u & 0b000_000_001 == 0 {
        assert(is_cell_mask(0b000_000_001u16) && u & 0b000_000_001u16 == 0);
    } else if u & 0b000_000_010 == 0 {
        assert(is_cell_mask(0b000_000_010u16) && u & 0b000_000_010u16 == 0);
    } else if u & 0b000_000_100 == 0 {
        assert(is_cell_mask(0b000_000_100u16) && u & 0b000_000_100u16 == 0);
    } else if u & 0b000_001_000 == 0 {
        assert(is_cell_mask(0b000_001_000u16) && u & 0b000_001_000u16 == 0);
    } else if u & 0b000_010_000 == 0 {
        assert(is_cell_mask(0b000_010_000u16) && u & 0b000_010_000u16 == 0);
    } else if u & 0b000_100_000 == 0 {
        assert(is_cell_mask(0b000_100_000u16) && u & 0b000_100_000u16 == 0);
    } else if u & 0b001_000_000 == 0 {
        assert(is_cell_mask(0b001_000_000u16) && u & 0b001_000_000u16 == 0);
    } else if u & 0b010_000_000 == 0 {
        assert(is_cell_mask(0b010_000_000u16) && u & 0b010_000_000u16 == 0);
    } else if u & 0b100_000_000 == 0 {
        assert(is_cell_mask(0b100_000_000u16) && u & 0b100_000_000u16 == 0);
    } else {
        assert(u == 0b111_111_111) by (bit_vector)
            requires
                u < 512,
                u & 0b000_000_001 != 0,
                u & 0b000_000_010 != 0,
                u & 0b000_000_100 != 0,
                u & 0b000_001_000 != 0,
                u & 0b000_010_000 != 0,
                u & 0b000_100_000 != 0,
                u & 0b001_000_000 != 0,
                u & 0b010_000_000 != 0,
                u & 0b100_000_000 != 0,
        ;
    }
}

/// Marking one more board on the meta grid keeps both marks within the
/// 9-bit field, whichever sides carry the new bit.
pub(crate) proof fn lemma_meta_or(x: u16, o: u16, l: u16)
    by (bit_vector)
    requires
        x < 512,
        o < 512,
        is_cell_mask(l),
    ensures
        (x | l) < 512,
        (o | l) < 512,
        ((x | l) | o) == (x | o) | l,
        (x | (o | l)) == (x | o) | l,
        ((x | l) | (o | l)) == (x | o) | l,
        ((x | o) | l) & l == l,
        l != 0,
{
}

/// Nothing is marked on an empty grid.
pub(crate) proof fn lemma_and_with_zero(m: u16)
    by (bit_vector)
    ensures
        0u16 & m == 0,
        (0u16 | 0u16) & m == 0,
        0u16 | 0u16 == 0u16,
{
}

/// The union of two 9-bit fields stays within the 9-bit field.
pub(crate) proof fn lemma_or_bound(x: u16, o: u16)
    by (bit_vector)
    requires
        x < 512,
        o < 512,
    ensures
        (x | o) < 512,
{
}

/// Marking one more decided board keeps the record within the 9-bit
/// field and sets exactly that board's bit.
pub(crate) proof fn lemma_mark_closed(c: u16, l: u16)
    by (bit_vector)
    requires
        c < 512,
        is_cell_mask(l),
    ensures
        (c | l) < 512,
        (c | l) & l == l,
        l != 0,
{
}

/// Union of occupancies does not depend on the order of its sides.
pub(crate) proof fn lemma_or_comm(a: u16, b: u16)
    by (bit_vector)
    ensures
        (a | b) == (b | a),
{
}

/// Every entry of the catalog keeps a line within the 9-bit field.
pub proof fn lemma_all_cells_valid()
    ensures
        forall|i: int| 0 <= i < 9 ==> is_cell_mask(#[trigger] spec_all_cells()[i]),
        spec_all_cells().no_duplicates(),
        forall|m: u16| is_cell_mask(m) ==> spec_all_cells().contains(m),
{
    assert forall|m: u16| is_cell_mask(m) implies spec_all_cells().contains(m) by {
        if m == 0b000_000_001 {
            assert(spec_all_cells()[0] == m);
        } else if m == 0b000_000_010 {
            assert(spec_all_cells()[1] == m);
        } else if m == 0b000_000_100 {
            assert(spec_all_cells()[2] == m);
        } else if m == 0b000_001_000 {
            assert(spec_all_cells()[3] == m);
        } else if m == 0b000_010_000 {
            assert(spec_all_cells()[4] == m);
        } else if m == 0b000_100_000 {
            assert(spec_all_cells()[5] == m);
        } else if m == 0b001_000_000 {
            assert(spec_all_cells()[6] == m);
        } else if m == 0b010_000_000 {
            assert(spec_all_cells()[7] == m);
        } else {
            assert(spec_all_cells()[8] == m);
        }
    }
}

} // verus!
