//! Crossword grid analysis and synthesis.
//!
//! The crate finds the word slots ("runs") of a rectangular board of open and
//! blocked cells, indexes them by their first cell, and synthesises symmetric
//! layouts of blocked cells by randomised search. The functions are verified
//! against the specification functions that accompany them, with one
//! exception: the three calls into the random number crates, in the private
//! module `rng`, are small wrappers whose contracts are taken on trust.

pub mod answers;
pub mod board;
pub mod cell;
pub mod generate;
pub mod index;
pub mod matrix;
mod rng;
pub mod runs;
pub mod score;
pub mod selection;

pub use answers::{AnswerMap, Answers, Head, SlotDirection, Word};
pub use matrix::{BoolMatrix, Cell, Grid, Layout, TriBoolMatrix, DEFAULT_HEIGHT, DEFAULT_WIDTH};
pub use runs::{find_runs, Run};
pub use selection::{click_cell, corners_at, get_slot, next_word, Corners, Slot};
