//! A solver for Wordle-style word-deduction games.
//!
//! Accumulated feedback is held as a [`Constraint`]. The vocabulary is
//! narrowed to the candidates, the words that the constraint allows, and the
//! next guess is the word of the vocabulary that splits the candidates best.
//!
//! The modules `model`, `row` and `ranking` say in mathematical terms what
//! the functions compute; `laws` and `progress` state what holds of them
//! for all inputs.

pub mod constraint;
pub mod feedback;
pub mod laws;
pub mod letters;
pub mod model;
pub mod progress;
pub mod ranking;
pub mod row;
pub mod solver;
pub mod vocabulary;
pub mod word;

pub use constraint::{CharacterConstraint, Constraint, RowError};
pub use feedback::wordle_guess;
pub use solver::{
    filter_words, score_guess_count_eliminations, SolveError, WordleSolver, GUESS_LIMIT,
};
pub use vocabulary::{read_words, VocabularyError};
pub use word::{char_frequency, Word};
