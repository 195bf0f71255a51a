//! The solving engine of a five-letter word-guessing puzzle: the feedback coloring of a
//! guess and its integer code, the filter that keeps the words consistent with the feedback
//! so far, a one-pass top-k selector, and the solver that runs a round.
pub mod prelude;
pub mod color;
pub mod guess;
pub mod solver;
pub mod data;
pub mod top_k;
pub mod option_iter;
pub mod protocol;
