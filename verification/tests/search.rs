use uttt::game::masks::cell_mask;
use uttt::game::player::Player;
use uttt::game::game_action::Action;
use uttt::game::game_state::{State, UTTTResult};
use uttt::mcts::tree::MctsTree;
use uttt::mcts::traits::GameEnd;
use uttt::mcts::node::uct_score;
use uttt::rng::Rng;
use uttt::clock::instant_now;

fn opened_game() -> State {
    let mut state = State::new();
    state.apply_action(&Action::from_coords(4, cell_mask(4)));
    state
}

#[test]
fn tree_starts_with_one_node() {
    let tree = MctsTree::new(State::new());
    assert_eq!(tree.nodes.len(), 1);
    assert_eq!(tree.root, 0);
    assert_eq!(tree.nodes[0].visits, 1);
    assert_eq!(tree.nodes[0].wins, 0);
}

#[test]
fn select_expands_one_child_per_call() {
    let mut tree = MctsTree::new(opened_game());
    let first = tree.select(10);
    assert_eq!(tree.nodes.len(), 2);
    assert_eq!(first, 1);
    assert_eq!(tree.nodes[1].parent, Some(0));
    let second = tree.select(10);
    assert_eq!(tree.nodes.len(), 3);
    assert_eq!(second, 2);
    // the opened game has eight replies; each selection consumed one
    let third = tree.select(10);
    assert_eq!(third, 3);
    assert!(tree.nodes[1].state.last_action().is_some());
}

#[test]
fn search_iterations_visit_the_root_each_time() {
    let mut rng = Rng::with_seed(0x5eed);
    let mut tree = MctsTree::new(opened_game());
    for _ in 0..50 {
        tree.search_iteration(&mut rng, 10);
    }
    // the root starts at one visit and every iteration propagates to it
    assert_eq!(tree.nodes[tree.root].visits, 51);
    assert!(tree.nodes[tree.root].wins <= 2 * tree.nodes[tree.root].visits);
    assert_eq!(tree.root, 0);
}

#[test]
fn backpropagation_raises_the_winning_rate() {
    let mut tree = MctsTree::new(opened_game());
    let child = tree.select(10);
    // the opened game has O to move at the child, so X moved into it
    let mover = tree.nodes[child].state.current_player().other();
    let win_for_mover = UTTTResult::Won(mover);
    let mut last_rate_num: u128 = 0;
    let mut last_rate_den: u128 = 1;
    for _ in 0..20 {
        tree.backpropagate(child, &win_for_mover);
        let w = tree.nodes[child].wins as u128;
        let v = tree.nodes[child].visits as u128;
        // the estimate climbs monotonically with identical winning rollouts
        assert!(w * last_rate_den >= last_rate_num * v);
        last_rate_num = w;
        last_rate_den = v;
    }
    // after many wins the estimate approaches certainty: w == 2 * (v - 1)
    assert_eq!(tree.nodes[child].wins, 40);
    assert_eq!(tree.nodes[child].visits, 21);
}

#[test]
fn backpropagation_reaches_every_ancestor() {
    let mut tree = MctsTree::new(opened_game());
    let child = tree.select(10);
    let root_visits = tree.nodes[tree.root].visits;
    let child_visits = tree.nodes[child].visits;
    tree.backpropagate(child, &UTTTResult::Drawn);
    assert_eq!(tree.nodes[tree.root].visits, root_visits + 1);
    assert_eq!(tree.nodes[child].visits, child_visits + 1);
    // a draw is worth one half-point to every perspective
    assert_eq!(tree.nodes[child].wins, 1);
    assert_eq!(tree.nodes[tree.root].wins, 1);
}

#[test]
fn best_child_picks_highest_win_rate() {
    let mut tree = MctsTree::new(opened_game());
    let a = tree.select(10);
    let b = tree.select(10);
    let c = tree.select(10);
    // plant statistics: b has the best rate
    tree.nodes[a].wins = 2;
    tree.nodes[a].visits = 4;
    tree.nodes[b].wins = 6;
    tree.nodes[b].visits = 4;
    tree.nodes[c].wins = 1;
    tree.nodes[c].visits = 4;
    assert_eq!(tree.best_child(), b);
}

#[test]
fn best_child_breaks_ties_toward_the_later_child() {
    let mut tree = MctsTree::new(opened_game());
    let _a = tree.select(10);
    let b = tree.select(10);
    // both children keep their initial identical statistics: the tie
    // goes to the child compared last
    assert_eq!(tree.best_child(), b);
}

#[test]
fn move_down_records_the_action_taken() {
    let mut tree = MctsTree::new(opened_game());
    // no child exists yet: move_down force-expands the root first
    let reply = Action::from_coords(4, cell_mask(0));
    tree.move_down(reply);
    let root_state = &tree.nodes[tree.root].state;
    assert_eq!(root_state.last_action(), Some(reply));
    assert_eq!(root_state.current_player(), Player::X);
}

#[test]
fn move_down_keeps_the_subtree_statistics() {
    let mut rng = Rng::with_seed(77);
    let mut tree = MctsTree::new(opened_game());
    for _ in 0..100 {
        tree.search_iteration(&mut rng, 10);
    }
    let chosen = tree.best_child();
    let kept_visits = tree.nodes[chosen].visits;
    let kept_wins = tree.nodes[chosen].wins;
    let action = tree.nodes[chosen].state.last_action().unwrap();
    tree.move_down(action);
    assert_eq!(tree.root, chosen);
    assert_eq!(tree.nodes[tree.root].visits, kept_visits);
    assert_eq!(tree.nodes[tree.root].wins, kept_wins);
}

#[test]
fn promote_reroots_at_a_child() {
    let mut tree = MctsTree::new(opened_game());
    let child = tree.select(10);
    tree.promote(child);
    assert_eq!(tree.root, child);
}

#[test]
fn expand_tree_respects_its_budget_and_root() {
    let mut rng = Rng::with_seed(12345);
    let mut tree = MctsTree::new(opened_game());
    let begin = instant_now();
    tree.expand_tree(&begin, 20_000_000, &mut rng, 10);
    assert_eq!(tree.root, 0);
    assert!(tree.nodes[0].visits > 1);
    assert!(tree.nodes.len() > 1);
}

#[test]
fn rollout_reaches_a_decision() {
    let mut rng = Rng::with_seed(9);
    for seed in 0..5u64 {
        rng.seed(seed);
        let state = opened_game();
        let result = state.simulate_game(&mut rng);
        assert_ne!(result, UTTTResult::InPlay);
    }
}

#[test]
fn uct_score_on_plain_statistics() {
    // one half-point over one visit with no exploration term: the rate
    // alone, at sixteen fractional bits
    assert_eq!(uct_score(1, 1, 0), 32768);
    assert_eq!(uct_score(2, 1, 0), 65536);
    assert_eq!(uct_score(0, 5, 0), 0);
    // a certain loser with exploration beats a certain loser without
    assert!(uct_score(0, 1, 45426) > uct_score(0, 1, 0));
    // more visits shrink the exploration bonus
    assert!(uct_score(0, 1, 45426) > uct_score(0, 4, 45426));
}

#[test]
fn game_end_opposite_flips_viewpoint() {
    assert_eq!(GameEnd::Win.opposite(), GameEnd::Loss);
    assert_eq!(GameEnd::Loss.opposite(), GameEnd::Win);
    assert_eq!(GameEnd::Draw.opposite(), GameEnd::Draw);
}

#[test]
fn search_prefers_an_immediate_win() {
    // X already owns boards 0 and 1; winning board 2 wins the game.
    // in board 2, X holds cells 0 and 1: the reply taking cell 2 of
    // board 2 ends the game at once, and the search should find it.
    let mut state = State::new();
    // X takes boards 0 and 1 outright while O plays into board 8
    for g in 0..2usize {
        state.apply_action(&Action::from_coords(g, cell_mask(0))); // X
        state.apply_action(&Action::from_coords(8, cell_mask(g * 3))); // O
        state.apply_action(&Action::from_coords(g, cell_mask(1))); // X
        state.apply_action(&Action::from_coords(8, cell_mask(g * 3 + 1))); // O
        state.apply_action(&Action::from_coords(g, cell_mask(2))); // X wins board g
        state.apply_action(&Action::from_coords(7, cell_mask(g))); // O
    }
    // X builds two in a row on board 2
    state.apply_action(&Action::from_coords(2, cell_mask(0))); // X
    state.apply_action(&Action::from_coords(7, cell_mask(4))); // O
    state.apply_action(&Action::from_coords(2, cell_mask(1))); // X
    // O moves somewhere that leaves every board open to X
    state.apply_action(&Action::from_coords(6, cell_mask(2))); // O, forces board 2
    assert_eq!(state.current_player(), Player::X);
    assert_eq!(state.outcome(), UTTTResult::InPlay);

    let mut rng = Rng::with_seed(0xabcd);
    let mut tree = MctsTree::new(state);
    for _ in 0..400 {
        tree.search_iteration(&mut rng, 10);
    }
    let chosen = tree.best_child();
    let action = tree.nodes[chosen].state.last_action().unwrap();
    assert_eq!(action.global(), 2);
    assert_eq!(action.local(), cell_mask(2));
    assert_eq!(tree.nodes[chosen].state.outcome(), UTTTResult::Won(Player::X));
}
