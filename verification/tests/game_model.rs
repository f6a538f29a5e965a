use uttt::game::masks::{win_masks_for_move, local_to_global, cell_mask, all_cells, BOARD_MASK};
use uttt::game::player::Player;
use uttt::game::game_action::{Action, action_from_row_col};
use uttt::game::local_board::LocalBoards;
use uttt::game::global_board::GlobalBoard;
use uttt::game::game_state::{State, UTTTResult};

fn locals_of(actions: &[Action], global: usize) -> Vec<u16> {
    let mut out: Vec<u16> = Vec::new();
    for a in actions {
        if a.global() == global {
            out.push(a.local());
        }
    }
    out.sort();
    out
}

#[test]
fn win_mask_catalog_per_cell() {
    // corner: row, column and one diagonal
    assert_eq!(
        win_masks_for_move(0b000_000_001),
        vec![0b000_000_111u16, 0b001_001_001, 0b100_010_001]
    );
    // edge: row and column only
    assert_eq!(win_masks_for_move(0b000_000_010), vec![0b000_000_111u16, 0b010_010_010]);
    // center: row, column and both diagonals
    assert_eq!(
        win_masks_for_move(0b000_010_000),
        vec![0b000_111_000u16, 0b010_010_010, 0b001_010_100, 0b100_010_001]
    );
    // a non-cell value has no lines
    assert_eq!(win_masks_for_move(0b000_000_011), Vec::<u16>::new());
}

#[test]
fn cell_mask_and_board_index_round_trip() {
    for i in 0..9usize {
        let m = cell_mask(i);
        assert_eq!(local_to_global(m), i);
        assert_eq!(m.count_ones(), 1);
    }
    assert_eq!(local_to_global(0), 16);
    assert_eq!(local_to_global(0b11), 16);
    let cells = all_cells();
    assert_eq!(cells.len(), 9);
    for (i, &m) in cells.iter().enumerate() {
        assert_eq!(m, cell_mask(i));
    }
}

#[test]
fn action_packs_and_unpacks() {
    for g in 0..9usize {
        for c in 0..9usize {
            let a = Action::from_coords(g, cell_mask(c));
            assert_eq!(a.global(), g);
            assert_eq!(a.local(), cell_mask(c));
        }
    }
}

#[test]
fn action_coordinates_round_trip() {
    // board 4 cell 4 is the center of the full grid
    let center = Action::from_coords(4, cell_mask(4));
    assert_eq!(center.row_col(), (4, 4));
    // board 0 cell 0 is the top-left corner
    assert_eq!(Action::from_coords(0, cell_mask(0)).row_col(), (0, 0));
    // board 8 cell 8 is the bottom-right corner
    assert_eq!(Action::from_coords(8, cell_mask(8)).row_col(), (8, 8));
    for row in 0..9usize {
        for col in 0..9usize {
            let a = action_from_row_col(row, col);
            assert_eq!(a.row_col(), (row, col));
        }
    }
}

#[test]
fn local_board_win_before_full() {
    // X takes the top row of board 3: the win is reported on the third
    // cell, long before the board fills
    let mut boards = LocalBoards::default();
    assert_eq!(boards.set(3, cell_mask(0), Player::X), UTTTResult::InPlay);
    assert_eq!(boards.set(3, cell_mask(4), Player::O), UTTTResult::InPlay);
    assert_eq!(boards.set(3, cell_mask(1), Player::X), UTTTResult::InPlay);
    assert_eq!(boards.set(3, cell_mask(5), Player::O), UTTTResult::InPlay);
    assert_eq!(boards.set(3, cell_mask(2), Player::X), UTTTResult::Won(Player::X));
}

#[test]
fn local_board_draws_when_full_without_line() {
    // X on cells 0 1 5 6 7 and O on cells 2 3 4 8 leave no line for
    // either player; the draw is reported exactly on the ninth cell
    let mut boards = LocalBoards::default();
    let x_cells = [0usize, 1, 5, 6, 7];
    let o_cells = [2usize, 3, 4, 8];
    for k in 0..4 {
        assert_eq!(boards.set(7, cell_mask(x_cells[k]), Player::X), UTTTResult::InPlay);
        assert_eq!(boards.set(7, cell_mask(o_cells[k]), Player::O), UTTTResult::InPlay);
    }
    assert_eq!(boards.set(7, cell_mask(x_cells[4]), Player::X), UTTTResult::Drawn);
}

#[test]
fn local_board_tracks_empty_cells() {
    let mut boards = LocalBoards::default();
    assert_eq!(boards.local_moves(2).len(), 9);
    boards.set(2, cell_mask(4), Player::X);
    let left = boards.local_moves(2);
    assert_eq!(left.len(), 8);
    assert!(!left.contains(&cell_mask(4)));
    // the other boards are untouched
    assert_eq!(boards.local_moves(1).len(), 9);
}

#[test]
fn global_board_meta_line_wins_game() {
    // X wins boards 0 and 1, then board 2: the meta top row decides the
    // game outright, well before the other boards close
    let mut meta = GlobalBoard::new();
    assert!(meta.in_play(0) && meta.in_play(8));
    assert_eq!(meta.set(0, UTTTResult::Won(Player::X)), UTTTResult::InPlay);
    assert_eq!(meta.set(1, UTTTResult::Won(Player::X)), UTTTResult::InPlay);
    assert_eq!(meta.set(2, UTTTResult::Won(Player::X)), UTTTResult::Won(Player::X));
    assert!(!meta.in_play(0));
    assert!(meta.in_play(3));
}

#[test]
fn global_board_majority_tiebreak() {
    // X wins four boards, O three, two are drawn, no meta line: the
    // majority takes the game on exhaustion
    let mut meta = GlobalBoard::new();
    assert_eq!(meta.set(0, UTTTResult::Won(Player::X)), UTTTResult::InPlay);
    assert_eq!(meta.set(1, UTTTResult::Won(Player::X)), UTTTResult::InPlay);
    assert_eq!(meta.set(2, UTTTResult::Won(Player::O)), UTTTResult::InPlay);
    assert_eq!(meta.set(3, UTTTResult::Won(Player::O)), UTTTResult::InPlay);
    assert_eq!(meta.set(4, UTTTResult::Won(Player::O)), UTTTResult::InPlay);
    assert_eq!(meta.set(5, UTTTResult::Won(Player::X)), UTTTResult::InPlay);
    assert_eq!(meta.set(6, UTTTResult::Won(Player::X)), UTTTResult::InPlay);
    assert_eq!(meta.set(7, UTTTResult::Drawn), UTTTResult::InPlay);
    assert_eq!(meta.set(8, UTTTResult::Drawn), UTTTResult::Won(Player::X));
}

#[test]
fn global_board_equal_counts_draw() {
    // three wins each and three draws: exhaustion with equal counts
    let mut meta = GlobalBoard::new();
    assert_eq!(meta.set(0, UTTTResult::Won(Player::X)), UTTTResult::InPlay);
    assert_eq!(meta.set(1, UTTTResult::Won(Player::X)), UTTTResult::InPlay);
    assert_eq!(meta.set(2, UTTTResult::Won(Player::O)), UTTTResult::InPlay);
    assert_eq!(meta.set(3, UTTTResult::Won(Player::O)), UTTTResult::InPlay);
    assert_eq!(meta.set(4, UTTTResult::Won(Player::O)), UTTTResult::InPlay);
    assert_eq!(meta.set(5, UTTTResult::Won(Player::X)), UTTTResult::InPlay);
    assert_eq!(meta.set(6, UTTTResult::Drawn), UTTTResult::InPlay);
    assert_eq!(meta.set(7, UTTTResult::Drawn), UTTTResult::InPlay);
    assert_eq!(meta.set(8, UTTTResult::Drawn), UTTTResult::Drawn);
}

#[test]
fn drawn_board_completes_no_meta_line() {
    // X wins boards 0 and 2; board 1 between them is drawn.  The top
    // meta row is fully decided, but X owns only two of its boards, so
    // the game is not won and play continues
    let mut meta = GlobalBoard::new();
    assert_eq!(meta.set(0, UTTTResult::Won(Player::X)), UTTTResult::InPlay);
    assert_eq!(meta.set(1, UTTTResult::Drawn), UTTTResult::InPlay);
    assert_eq!(meta.set(2, UTTTResult::Won(Player::X)), UTTTResult::InPlay);
    // the same holds when the drawn board closes the line last
    let mut other = GlobalBoard::new();
    assert_eq!(other.set(3, UTTTResult::Won(Player::O)), UTTTResult::InPlay);
    assert_eq!(other.set(5, UTTTResult::Won(Player::O)), UTTTResult::InPlay);
    assert_eq!(other.set(4, UTTTResult::Drawn), UTTTResult::InPlay);
}

#[test]
fn decided_board_never_returns() {
    let mut meta = GlobalBoard::new();
    meta.set(5, UTTTResult::Won(Player::O));
    assert!(!meta.in_play(5));
    // later transitions on other boards never bring it back
    meta.set(1, UTTTResult::Drawn);
    meta.set(2, UTTTResult::Won(Player::X));
    assert!(!meta.in_play(5));
    assert!(!meta.in_play(1));
}

#[test]
fn new_game_offers_all_eighty_one_cells() {
    let state = State::new();
    assert_eq!(state.current_player(), Player::X);
    assert_eq!(state.next_player(), Player::O);
    assert!(state.last_action().is_none());
    assert_eq!(state.outcome(), UTTTResult::InPlay);
    assert!(state.playable());
    let acts = state.possible_actions();
    assert_eq!(acts.len(), 81);
}

#[test]
fn center_opening_forces_center_board() {
    // the center of the center board: afterwards the legal moves are
    // exactly the eight cells of board 4 still empty
    let mut state = State::new();
    let center = Action::from_coords(4, cell_mask(4));
    state.apply_action(&center);
    assert_eq!(state.current_player(), Player::O);
    assert_eq!(state.last_action(), Some(center));
    let acts = state.possible_actions();
    assert_eq!(acts.len(), 8);
    for a in &acts {
        assert_eq!(a.global(), 4);
        assert_ne!(a.local(), cell_mask(4));
    }
}

#[test]
fn closed_board_releases_forced_rule() {
    // X wins board 4 by the column through its center; a later move into
    // a cell naming the closed board 4 frees the mover to play anywhere
    let mut state = State::new();
    state.apply_action(&Action::from_coords(4, cell_mask(4))); // X
    state.apply_action(&Action::from_coords(0, cell_mask(0))); // O
    state.apply_action(&Action::from_coords(4, cell_mask(1))); // X
    state.apply_action(&Action::from_coords(0, cell_mask(3))); // O
    state.apply_action(&Action::from_coords(4, cell_mask(7))); // X completes 1-4-7
    assert!(!state.global_states.in_play(4));
    assert_eq!(state.outcome(), UTTTResult::InPlay);
    // the winning cell was 7, so board 7 (still open) is forced
    let forced = state.possible_actions();
    for a in &forced {
        assert_eq!(a.global(), 7);
    }
    assert_eq!(forced.len(), 9);
    // O plays the center cell of board 7: that names board 4, which is
    // closed, so every playable board's empty cells are legal
    state.apply_action(&Action::from_coords(7, cell_mask(4))); // O
    let open = state.possible_actions();
    // board 0 has seven cells left, board 7 eight, board 4 none,
    // the remaining six boards nine each
    assert_eq!(open.len(), 7 + 8 + 6 * 9);
    for a in &open {
        assert_ne!(a.global(), 4);
    }
    assert_eq!(locals_of(&open, 0).len(), 7);
    assert_eq!(locals_of(&open, 7).len(), 8);
    assert_eq!(locals_of(&open, 1).len(), 9);
}

#[test]
fn all_boards_drawn_draws_the_game() {
    // drive every local board to a draw: the first mover of each board
    // takes cells 0 1 5 6 7 and the second takes 2 3 4 8 — no line
    // anywhere, no board won, equal (zero) counts, a drawn game
    let order = [0usize, 2, 1, 3, 5, 4, 6, 8, 7];
    let mut state = State::new();
    for g in 0..9usize {
        for &c in &order {
            assert_eq!(state.outcome(), UTTTResult::InPlay);
            let a = Action::from_coords(g, cell_mask(c));
            state.apply_action(&a);
        }
        assert!(!state.global_states.in_play(g));
    }
    assert_eq!(state.outcome(), UTTTResult::Drawn);
    assert!(!state.playable());
}

#[test]
fn perform_action_copy_leaves_source_untouched() {
    let state = State::new();
    let a = Action::from_coords(2, cell_mask(6));
    let next = state.perform_action_copy(&a);
    assert_eq!(state.possible_actions().len(), 81);
    assert_eq!(next.last_action(), Some(a));
    assert_eq!(next.current_player(), Player::O);
    // the copy was forced into board 6
    for b in next.possible_actions() {
        assert_eq!(b.global(), 6);
    }
}

#[test]
fn player_other_flips() {
    assert_eq!(Player::X.other(), Player::O);
    assert_eq!(Player::O.other(), Player::X);
    assert_eq!(Player::X.other().other(), Player::X);
}

#[test]
fn reward_halves_per_viewpoint() {
    assert_eq!(Player::X.reward_halves(&UTTTResult::Won(Player::X)), 2);
    assert_eq!(Player::X.reward_halves(&UTTTResult::Won(Player::O)), 0);
    assert_eq!(Player::O.reward_halves(&UTTTResult::Won(Player::O)), 2);
    assert_eq!(Player::X.reward_halves(&UTTTResult::Drawn), 1);
    assert_eq!(Player::O.reward_halves(&UTTTResult::Drawn), 1);
    assert_eq!(Player::X.reward_halves(&UTTTResult::InPlay), 0);
}

#[test]
fn board_mask_covers_nine_cells() {
    assert_eq!(BOARD_MASK, 0x1FF);
    let mut all: u16 = 0;
    for i in 0..9usize {
        all |= cell_mask(i);
    }
    assert_eq!(all, BOARD_MASK);
}
