//! A pattern search for the game of Go.
//!
//! The crate has two halves. One reads game records, tells their players apart and gathers the
//! games into one collection; the other searches such a collection for the games in which a given
//! pattern of stones occurs, in any rotation, mirrored or with the colours exchanged.

pub mod answer_laws;
pub mod answers;
pub mod baduk;
pub mod board;
pub mod board_laws;
pub mod cache;
pub mod fit_laws;
pub mod games;
pub mod matching;
pub mod name_laws;
pub mod names;
pub mod next_moves;
pub mod packing;
pub mod packing_laws;
pub mod players;
pub mod reading_laws;
pub mod record_laws;
pub mod search_laws;
pub mod sgf;
pub mod sorting;
pub mod stones;
pub mod sums;
pub mod symmetry_laws;
pub mod text;
pub mod text_laws;
pub mod wasm_search;
