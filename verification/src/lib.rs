//! A Wordle constraint engine with machine-checked contracts.
//!
//! Given a list of five-letter words and the guesses made so far, the engine
//! keeps the words that are still possible and helps to choose the next
//! guess. Every function states what it returns over a mathematical model,
//! and Verus proves the statement.
//!
//! - [`pattern`]: the model of feedback and its base-3 pattern number.
//! - [`feedback`]: computing feedback, as symbols and as a pattern number.
//! - [`filter`]: the green, yellow and black rules that prune a word list.
//! - [`state`]: a solving session that records guesses.
//! - [`score`]: the histogram of patterns that a guess earns over the candidates.
//! - [`solver`]: the strategies, the pool of guesses to score and the order that picks one.
//! - [`rank`] and [`analyzer`]: rankings of opening words.
//! - [`input`] and [`words`]: the textual forms of a guess and of a word list.
//! - [`text`], [`types`]: characters, strings and the values passed around.
//!
//! The entropy of a histogram is a logarithm and so no integer arithmetic:
//! callers compute it and hand it to [`solver`] and [`analyzer`] as the bit
//! pattern of a double. Everything else of a [`solver::Score`] is computed
//! and proved here.

pub mod analyzer;
pub mod feedback;
pub mod filter;
pub mod input;
pub mod pattern;
pub mod rank;
pub mod score;
pub mod solver;
pub mod state;
pub mod text;
pub mod types;
pub mod words;
