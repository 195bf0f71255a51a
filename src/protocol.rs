//! The messages a solver running apart from the interface takes and the guesses it reports.
use vstd::prelude::*;
use crate::prelude::Word;
use crate::color::Coloring;
use crate::guess::Guess;
use crate::prelude::WORD_SIZE;

verus! {

/// A guess as it travels between the interface and the solver.
#[derive(Clone, Debug, PartialEq, Eq)]
pub struct GuessDto {
    /// The guessed word.
    pub guess: Word,
    /// The coloring it got.
    pub colorings: [Coloring; WORD_SIZE],
}

impl From<Guess> for GuessDto {
    fn from(other: Guess) -> (r: GuessDto) {
        GuessDto { guess: other.word, colorings: other.coloring.0 }
    }
}

impl vstd::std_specs::convert::FromSpecImpl<Guess> for GuessDto {
    open spec fn obeys_from_spec() -> bool {
        true
    }

    open spec fn from_spec(other: Guess) -> GuessDto {
        GuessDto { guess: other.word, colorings: other.coloring.0 }
    }
}

/// A request to the solver.
#[derive(Clone, Debug)]
pub enum SolverReq {
    /// Start over and send recommendations.
    Init,
    /// Start over.
    Reset,
    /// Record a guess.
    MakeGuess(GuessDto),
    /// Send recommendations for the current state.
    MakeRecommendations,
}

} // verus!
