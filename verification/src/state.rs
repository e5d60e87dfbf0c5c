//! The state of one solving session: the words still possible, the guesses
//! recorded so far and the letters not yet ruled out.

use crate::filter::{
    all_five, black_rule, consistent, filter_words, shown_present, shows_present,
};
use crate::text::chars_of;
use crate::types::Guess;
use vstd::prelude::*;

verus! {

/// Letters of `A`..`Z` in strictly rising order.
pub open spec fn sorted_letters(v: Seq<char>) -> bool {
    &&& forall|i: int| 0 <= i < v.len() ==> 'A' <= #[trigger] v[i] && v[i] <= 'Z'
    &&& forall|i: int, j: int| 0 <= i < j < v.len() ==> v[i] < v[j]
}

/// The guess rules letter `c` out: some copy of it is black and none is
/// green or yellow.
pub open spec fn ruled_out(word: Seq<char>, fb: Seq<char>, c: char) -> bool {
    &&& exists|i: int| 0 <= i < 5 && #[trigger] fb[i] == 'B' && word[i] == c
    &&& !shown_present(word, fb, c)
}

/// Every guess of the history has five letters and five symbols.
pub open spec fn all_recorded(attempts: Seq<Guess>) -> bool {
    forall|i: int| 0 <= i < attempts.len() ==> (#[trigger] attempts[i]).wf()
}

/// One solving session. It only grows: a guess, once recorded, stays.
pub struct GameState {
    /// The words consistent with every recorded guess, in the order of the
    /// list the session was started with.
    pub candidates: Vec<String>,
    /// The recorded guesses, oldest first.
    pub attempts: Vec<Guess>,
    /// The number of recorded guesses.
    pub attempt_count: usize,
    /// The letters that no recorded guess has ruled out, in alphabetical order.
    pub available_letters: Vec<char>,
}

impl GameState {
    /// The counter is the length of the history, every recorded guess is
    /// well formed, and the letters are sorted letters of the alphabet.
    pub open spec fn wf(&self) -> bool {
        &&& self.attempt_count == self.attempts@.len()
        &&& all_recorded(self.attempts@)
        &&& sorted_letters(self.available_letters@)
    }

    /// A fresh session over `candidates`: no guess recorded, every letter
    /// of `A`..`Z` available.
    pub fn new(candidates: Vec<String>) -> (state: GameState)
        ensures
            state.wf(),
            state.candidates == candidates,
            state.attempts@.len() == 0,
            state.attempt_count == 0,
            state.available_letters@ == Seq::new(26, |i: int| (65 + i) as char),
    {
        let mut letters: Vec<char> = Vec::new();
        let mut b: u8 = 65;
        while b <= 90
            invariant
                65 <= b <= 91,
                letters@ == Seq::new((b - 65) as nat, |i: int| (65 + i) as char),
            decreases 91 - b,
        {
            letters.push(b as char);
            b += 1;
            assert(letters@ =~= Seq::new((b - 65) as nat, |i: int| (65 + i) as char));
        }
        GameState { candidates, attempts: Vec::new(), attempt_count: 0, available_letters: letters }
    }

    /// Records `guess`: appends it to the history, keeps the candidates
    /// that are consistent with it, and drops the letters it rules out.
    pub fn add_attempt(&mut self, guess: Guess)
        requires
            old(self).wf(),
            guess.wf(),
            all_five(old(self).candidates@),
        ensures
            final(self).wf(),
            final(self).attempts@ == old(self).attempts@.push(guess),
            final(self).attempt_count == old(self).attempt_count + 1,
            final(self).candidates@ == old(self).candidates@.filter(
                |w: String| consistent(w@, guess.word@, guess.feedback@),
            ),
            all_five(final(self).candidates@),
            forall|c: char|
                final(self).available_letters@.contains(c) <==> old(
                    self,
                ).available_letters@.contains(c) && !ruled_out(guess.word@, guess.feedback@, c),
    {
        let word = chars_of(guess.word.as_str());
        let mut letters: Vec<char> = Vec::new();
        let mut i: usize = 0;
        while i < self.available_letters.len()
            invariant
                *self == *old(self),
                self.wf(),
                guess.wf(),
                word@ == guess.word@,
                i <= self.available_letters@.len(),
                sorted_letters(letters@),
                forall|k: int|
                    0 <= k < letters@.len() ==> exists|m: int|
                        0 <= m < i && self.available_letters@[m] == #[trigger] letters@[k],
                forall|k: int|
                    0 <= k < letters@.len() ==> !ruled_out(
                        guess.word@,
                        guess.feedback@,
                        #[trigger] letters@[k],
                    ),
                forall|m: int|
                    0 <= m < i && !ruled_out(
                        guess.word@,
                        guess.feedback@,
                        #[trigger] self.available_letters@[m],
                    ) ==> letters@.contains(self.available_letters@[m]),
            decreases self.available_letters@.len() - i,
        {
            let c = self.available_letters[i];
            if !rules_out(&word, &guess.feedback, c) {
                proof {
                    assert forall|k: int| 0 <= k < letters@.len() implies letters@[k] < c by {
                        let m = choose|m: int|
                            0 <= m < i && self.available_letters@[m] == letters@[k];
                    }
                }
                let ghost before = letters@;
                letters.push(c);
                proof {
                    assert(letters@[before.len() as int] == c);
                    assert forall|m: int|
                        0 <= m < i + 1 && !ruled_out(
                            guess.word@,
                            guess.feedback@,
                            #[trigger] self.available_letters@[m],
                        ) implies letters@.contains(self.available_letters@[m]) by {
                        if m < i {
                            let k = choose|k: int|
                                0 <= k < before.len() && before[k] == self.available_letters@[m];
                            assert(letters@[k] == self.available_letters@[m]);
                        }
                    }
                }
            }
            i += 1;
        }
        self.available_letters = letters;
        filter_words(&mut self.candidates, &guess);
        self.attempts.push(guess);
        self.attempt_count = self.attempts.len();
    }

    /// The letters that no recorded guess has ruled out, in alphabetical order.
    pub fn get_available_letters_sorted(&self) -> (letters: Vec<char>)
        requires
            self.wf(),
        ensures
            letters@ == self.available_letters@,
            sorted_letters(letters@),
    {
        self.available_letters.clone()
    }
}

/// Whether the guess rules letter `c` out.
fn rules_out(word: &Vec<char>, fb: &Vec<char>, c: char) -> (r: bool)
    requires
        word@.len() == 5,
        fb@.len() == 5,
    ensures
        r == ruled_out(word@, fb@, c),
{
    let mut black = false;
    let mut i: usize = 0;
    while i < 5
        invariant
            i <= 5,
            word@.len() == 5,
            fb@.len() == 5,
            black == exists|k: int| 0 <= k < i && #[trigger] fb@[k] == 'B' && word@[k] == c,
        decreases 5 - i,
    {
        if fb[i] == 'B' && word[i] == c {
            black = true;
        }
        i += 1;
    }
    black && !shows_present(word, fb, c)
}

/// A word that meets the black rule of a guess holds no letter that the
/// guess rules out. So the candidates that a recorded guess leaves are
/// spelt with letters that it leaves available.
pub proof fn lemma_ruled_out_is_absent(cand: Seq<char>, word: Seq<char>, fb: Seq<char>, c: char)
    requires
        black_rule(cand, word, fb),
        ruled_out(word, fb, c),
    ensures
        !cand.contains(c),
{
    let i = choose|i: int| 0 <= i < 5 && #[trigger] fb[i] == 'B' && word[i] == c;
    assert(fb[i] == 'B' && !shown_present(word, fb, word[i]));
}

/// The number of guesses after which a session ends.
pub const MAX_ATTEMPTS: usize = 6;

/// What a guess does to a session.
#[derive(Clone, Copy, Debug, PartialEq, Eq)]
pub enum Outcome {
    /// The feedback is all green: the guess is the solution.
    Solved,
    /// No candidate is consistent with the guesses recorded.
    Exhausted,
    /// The guess was the last one allowed. `suggest` says whether two or
    /// more candidates are left, so that a suggestion makes sense.
    Last { suggest: bool },
    /// The session goes on. `suggest` says whether two or more candidates
    /// are left, so that a suggestion makes sense.
    Next { suggest: bool },
}

/// Every symbol of the feedback is green.
pub open spec fn all_green(fb: Seq<char>) -> bool {
    forall|i: int| 0 <= i < fb.len() ==> #[trigger] fb[i] == 'G'
}

/// What follows for a session that holds `candidates` after `attempts`
/// guesses, the last of them not all green.
pub open spec fn outcome_of(candidates: int, attempts: int) -> Outcome {
    if candidates == 0 {
        Outcome::Exhausted
    } else if attempts >= MAX_ATTEMPTS {
        Outcome::Last { suggest: candidates >= 2 }
    } else {
        Outcome::Next { suggest: candidates >= 2 }
    }
}

/// Takes one guess into a session and says how the session goes on. A
/// guess whose feedback is all green solves the session and is not
/// recorded. Any other guess is recorded as by `add_attempt`; then the
/// session is exhausted if no candidate is left, at its end after the
/// sixth recorded guess, and open otherwise.
pub fn record_guess(state: &mut GameState, guess: Guess) -> (outcome: Outcome)
    requires
        old(state).wf(),
        guess.wf(),
        all_five(old(state).candidates@),
    ensures
        all_green(guess.feedback@) ==> outcome == Outcome::Solved && *final(state) == *old(state),
        !all_green(guess.feedback@) ==> {
            &&& final(state).wf()
            &&& final(state).attempts@ == old(state).attempts@.push(guess)
            &&& final(state).attempt_count == old(state).attempt_count + 1
            &&& final(state).candidates@ == old(state).candidates@.filter(
                |w: String| consistent(w@, guess.word@, guess.feedback@),
            )
            &&& all_five(final(state).candidates@)
            &&& forall|c: char|
                final(state).available_letters@.contains(c) <==> old(
                    state,
                ).available_letters@.contains(c) && !ruled_out(guess.word@, guess.feedback@, c)
            &&& outcome == outcome_of(
                final(state).candidates@.len() as int,
                final(state).attempt_count as int,
            )
        },
{
    let mut green = true;
    let mut i: usize = 0;
    while i < guess.feedback.len()
        invariant
            i <= guess.feedback@.len(),
            green == forall|k: int| 0 <= k < i ==> #[trigger] guess.feedback@[k] == 'G',
        decreases guess.feedback@.len() - i,
    {
        if guess.feedback[i] != 'G' {
            green = false;
        }
        i += 1;
    }
    if green {
        return Outcome::Solved;
    }
    state.add_attempt(guess);
    let left = state.candidates.len();
    if left == 0 {
        Outcome::Exhausted
    } else if state.attempt_count >= MAX_ATTEMPTS {
        Outcome::Last { suggest: left >= 2 }
    } else {
        Outcome::Next { suggest: left >= 2 }
    }
}

} // verus!
