//! The game model: bit masks, players, actions, the nine local boards,
//! the meta-board, and the composed game state.

pub mod masks;
pub mod player;
pub mod game_action;
pub mod local_board;
pub mod global_board;
pub mod game_state;
