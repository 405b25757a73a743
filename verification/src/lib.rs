//! A cribbage engine: the card model, hand scoring, scoring of the play
//! (counting) phase, and the strategies that pick the crib discard and the
//! next card to play.
//!
//! Every function carries a contract over mathematical models of its
//! arguments, and every contract is machine-checked.

pub mod cards;
mod chance;
pub mod combinator;
pub mod counting;
pub mod crib_values;
pub mod cribbage_errors;
pub mod flush_value;
pub mod game;
pub mod legal_play;
pub mod rank_pattern;
pub mod score_parts;
pub mod score_total;
pub mod scoring;
pub mod select_cards;
pub mod sorting;
pub mod subsumption;
pub mod suit_symmetry;
