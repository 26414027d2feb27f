//! A solver for word-guessing games: it keeps the feedback given on earlier
//! guesses, narrows a dictionary of fixed-width words against it, and proposes
//! the candidate that ranks highest.

pub mod cell;
pub mod engine;
pub mod filters;
pub mod frequency;
pub mod laws;
pub mod ranking;
pub mod session;
pub mod word;
pub mod words;

pub use cell::Cell;
pub use engine::Wordler;
pub use filters::Filters;
pub use frequency::{distinct_letters, english_words, letter_counts, LetterCounts};
pub use ranking::{best_index, Entry};
pub use word::{mutate_cells, Word};
