//! Postflop poker solver core: card encoding, hand indexing, range
//! expansion, betting state machine and the infoset tables, each with
//! its contract checked by Verus.

pub mod deck;
pub mod hand_indexer;
pub mod actions;
pub mod state;
pub mod infoset;
pub mod range_parse;
pub mod text;
pub mod hand_range;
pub mod python_api;
pub mod kk_turn;
pub mod tree;
pub mod nodes;
pub mod constants;
pub mod deal;

