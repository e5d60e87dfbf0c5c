//! The values that the engine passes around: a recorded guess and the three
//! feedback symbols.

use vstd::prelude::*;

verus! {

/// One completed attempt: the word that was tried and the feedback it
/// earned, one symbol `G`, `Y` or `B` per letter.
#[derive(Debug, PartialEq, Clone)]
pub struct Guess {
    pub word: String,
    pub feedback: Vec<char>,
}

impl Guess {
    /// The word has five characters and the feedback five symbols.
    pub open spec fn wf(&self) -> bool {
        &&& self.word@.len() == 5
        &&& self.feedback@.len() == 5
    }

    /// Pairs a word with its feedback.
    pub fn new(word: String, feedback: Vec<char>) -> (guess: Guess)
        ensures
            guess.word == word,
            guess.feedback == feedback,
    {
        Guess { word, feedback }
    }
}

/// The classification of one letter of a guess.
pub enum FeedbackType {
    Green,
    Yellow,
    Black,
}

impl FeedbackType {
    /// The letter that stands for this symbol in a feedback.
    pub open spec fn symbol(&self) -> char {
        match self {
            FeedbackType::Green => 'G',
            FeedbackType::Yellow => 'Y',
            FeedbackType::Black => 'B',
        }
    }

    /// Reads a feedback letter. Like the filters, it takes every letter
    /// other than `G` and `Y` for black.
    pub fn of(c: char) -> (kind: FeedbackType)
        ensures
            c == 'G' <==> kind is Green,
            c == 'Y' <==> kind is Yellow,
    {
        if c == 'G' {
            FeedbackType::Green
        } else if c == 'Y' {
            FeedbackType::Yellow
        } else {
            FeedbackType::Black
        }
    }

    /// The letter that stands for this symbol.
    pub fn to_char(&self) -> (c: char)
        ensures
            c == self.symbol(),
    {
        match self {
            FeedbackType::Green => 'G',
            FeedbackType::Yellow => 'Y',
            FeedbackType::Black => 'B',
        }
    }
}

} // verus!
