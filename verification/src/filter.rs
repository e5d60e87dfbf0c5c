//! The constraint filter: which words are still possible after a guess.

use crate::feedback::{lemma_misplaced_first, lemma_spare_positive};
use crate::pattern::{feedback_spec, misplaced_in_guess, spare_in_solution};
use crate::text::chars_of;
use crate::types::Guess;
use vstd::prelude::*;

verus! {

/// Green rule: where the guess was marked green, the candidate has the same letter.
pub open spec fn green_rule(cand: Seq<char>, word: Seq<char>, fb: Seq<char>) -> bool {
    forall|i: int| 0 <= i < 5 && #[trigger] fb[i] == 'G' ==> cand[i] == word[i]
}

/// Yellow rule: where the guess was marked yellow, the candidate holds that
/// letter, but elsewhere.
pub open spec fn yellow_rule(cand: Seq<char>, word: Seq<char>, fb: Seq<char>) -> bool {
    forall|i: int|
        0 <= i < 5 && #[trigger] fb[i] == 'Y' ==> cand.contains(word[i]) && cand[i] != word[i]
}

/// The guess shows letter `c` as present: some copy of it is green or yellow.
pub open spec fn shown_present(word: Seq<char>, fb: Seq<char>, c: char) -> bool {
    exists|j: int| 0 <= j < 5 && (#[trigger] fb[j] == 'G' || fb[j] == 'Y') && word[j] == c
}

/// Black rule: a letter marked black, with no green or yellow copy in the
/// same guess, is absent from the candidate. A black copy beside a green or
/// yellow one excludes nothing.
pub open spec fn black_rule(cand: Seq<char>, word: Seq<char>, fb: Seq<char>) -> bool {
    forall|i: int|
        0 <= i < 5 && #[trigger] fb[i] == 'B' && !shown_present(word, fb, word[i])
            ==> !cand.contains(word[i])
}

/// The candidate agrees with everything the guess has shown.
pub open spec fn consistent(cand: Seq<char>, word: Seq<char>, fb: Seq<char>) -> bool {
    &&& green_rule(cand, word, fb)
    &&& yellow_rule(cand, word, fb)
    &&& black_rule(cand, word, fb)
}

/// Every word of the list has five characters.
pub open spec fn all_five(words: Seq<String>) -> bool {
    forall|i: int| 0 <= i < words.len() ==> (#[trigger] words[i])@.len() == 5
}

/// Whether `v` holds the character `c`.
fn holds(v: &Vec<char>, c: char) -> (r: bool)
    ensures
        r == v@.contains(c),
{
    let mut i: usize = 0;
    while i < v.len()
        invariant
            i <= v@.len(),
            forall|k: int| 0 <= k < i ==> v@[k] != c,
        decreases v@.len() - i,
    {
        if v[i] == c {
            return true;
        }
        i += 1;
    }
    false
}

fn meets_green(cand: &Vec<char>, word: &Vec<char>, fb: &Vec<char>) -> (r: bool)
    requires
        cand@.len() == 5,
        word@.len() == 5,
        fb@.len() == 5,
    ensures
        r == green_rule(cand@, word@, fb@),
{
    let mut i: usize = 0;
    while i < 5
        invariant
            i <= 5,
            cand@.len() == 5,
            word@.len() == 5,
            fb@.len() == 5,
            forall|k: int| 0 <= k < i && #[trigger] fb@[k] == 'G' ==> cand@[k] == word@[k],
        decreases 5 - i,
    {
        if fb[i] == 'G' && cand[i] != word[i] {
            return false;
        }
        i += 1;
    }
    true
}

fn meets_yellow(cand: &Vec<char>, word: &Vec<char>, fb: &Vec<char>) -> (r: bool)
    requires
        cand@.len() == 5,
        word@.len() == 5,
        fb@.len() == 5,
    ensures
        r == yellow_rule(cand@, word@, fb@),
{
    let mut i: usize = 0;
    while i < 5
        invariant
            i <= 5,
            cand@.len() == 5,
            word@.len() == 5,
            fb@.len() == 5,
            forall|k: int|
                0 <= k < i && #[trigger] fb@[k] == 'Y' ==> cand@.contains(word@[k]) && cand@[k]
                    != word@[k],
        decreases 5 - i,
    {
        if fb[i] == 'Y' && !(holds(cand, word[i]) && cand[i] != word[i]) {
            return false;
        }
        i += 1;
    }
    true
}

/// Whether the guess marks some copy of `c` green or yellow.
pub(crate) fn shows_present(word: &Vec<char>, fb: &Vec<char>, c: char) -> (r: bool)
    requires
        word@.len() == 5,
        fb@.len() == 5,
    ensures
        r == shown_present(word@, fb@, c),
{
    let mut j: usize = 0;
    while j < 5
        invariant
            j <= 5,
            word@.len() == 5,
            fb@.len() == 5,
            forall|k: int|
                0 <= k < j ==> !((#[trigger] fb@[k] == 'G' || fb@[k] == 'Y') && word@[k] == c),
        decreases 5 - j,
    {
        if (fb[j] == 'G' || fb[j] == 'Y') && word[j] == c {
            return true;
        }
        j += 1;
    }
    false
}

fn meets_black(cand: &Vec<char>, word: &Vec<char>, fb: &Vec<char>) -> (r: bool)
    requires
        cand@.len() == 5,
        word@.len() == 5,
        fb@.len() == 5,
    ensures
        r == black_rule(cand@, word@, fb@),
{
    let mut i: usize = 0;
    while i < 5
        invariant
            i <= 5,
            cand@.len() == 5,
            word@.len() == 5,
            fb@.len() == 5,
            forall|k: int|
                0 <= k < i && #[trigger] fb@[k] == 'B' && !shown_present(word@, fb@, word@[k])
                    ==> !cand@.contains(word@[k]),
        decreases 5 - i,
    {
        if fb[i] == 'B' && !shows_present(word, fb, word[i]) && holds(cand, word[i]) {
            return false;
        }
        i += 1;
    }
    true
}

/// One of the three rules of the filter.
enum Rule {
    Green,
    Yellow,
    Black,
}

impl Rule {
    /// Whether candidate `cand` meets this rule of the guess `word` with feedback `fb`.
    spec fn holds(&self, cand: Seq<char>, word: Seq<char>, fb: Seq<char>) -> bool {
        match self {
            Rule::Green => green_rule(cand, word, fb),
            Rule::Yellow => yellow_rule(cand, word, fb),
            Rule::Black => black_rule(cand, word, fb),
        }
    }
}

/// Keeps the words that meet `rule` of `guess`, in their order.
fn keep(words: &mut Vec<String>, guess: &Guess, rule: Rule)
    requires
        guess.wf(),
        all_five(old(words)@),
    ensures
        final(words)@ == old(words)@.filter(
            |w: String| rule.holds(w@, guess.word@, guess.feedback@),
        ),
        all_five(final(words)@),
{
    let word = chars_of(guess.word.as_str());
    let ghost pred = |w: String| rule.holds(w@, guess.word@, guess.feedback@);
    let mut kept: Vec<String> = Vec::new();
    let mut i: usize = 0;
    while i < words.len()
        invariant
            i <= words@.len(),
            *words == *old(words),
            all_five(words@),
            all_five(kept@),
            word@ == guess.word@,
            guess.wf(),
            pred == |w: String| rule.holds(w@, guess.word@, guess.feedback@),
            kept@ == words@.take(i as int).filter(pred),
        decreases words@.len() - i,
    {
        let cand = chars_of(words[i].as_str());
        proof {
            reveal(Seq::filter);
            assert(words@.take(i + 1).drop_last() == words@.take(i as int));
        }
        let ok = match rule {
            Rule::Green => meets_green(&cand, &word, &guess.feedback),
            Rule::Yellow => meets_yellow(&cand, &word, &guess.feedback),
            Rule::Black => meets_black(&cand, &word, &guess.feedback),
        };
        if ok {
            kept.push(words[i].clone());
        }
        i += 1;
    }
    assert(words@.take(words@.len() as int) == words@);
    *words = kept;
}

/// Keeps the words that meet the green rule of `guess`, in their order.
pub fn filter_by_green(words: &mut Vec<String>, guess: &Guess)
    requires
        guess.wf(),
        all_five(old(words)@),
    ensures
        final(words)@ == old(words)@.filter(
            |w: String| green_rule(w@, guess.word@, guess.feedback@),
        ),
        all_five(final(words)@),
{
    keep(words, guess, Rule::Green);
    assert((|w: String| Rule::Green.holds(w@, guess.word@, guess.feedback@)) =~= (|w: String|
        green_rule(w@, guess.word@, guess.feedback@)));
}

/// Keeps the words that meet the yellow rule of `guess`, in their order.
pub fn filter_by_yellow(words: &mut Vec<String>, guess: &Guess)
    requires
        guess.wf(),
        all_five(old(words)@),
    ensures
        final(words)@ == old(words)@.filter(
            |w: String| yellow_rule(w@, guess.word@, guess.feedback@),
        ),
        all_five(final(words)@),
{
    keep(words, guess, Rule::Yellow);
    assert((|w: String| Rule::Yellow.holds(w@, guess.word@, guess.feedback@)) =~= (|w: String|
        yellow_rule(w@, guess.word@, guess.feedback@)));
}

/// Keeps the words that meet the black rule of `guess`, in their order.
pub fn filter_by_black(words: &mut Vec<String>, guess: &Guess)
    requires
        guess.wf(),
        all_five(old(words)@),
    ensures
        final(words)@ == old(words)@.filter(
            |w: String| black_rule(w@, guess.word@, guess.feedback@),
        ),
        all_five(final(words)@),
{
    keep(words, guess, Rule::Black);
    assert((|w: String| Rule::Black.holds(w@, guess.word@, guess.feedback@)) =~= (|w: String|
        black_rule(w@, guess.word@, guess.feedback@)));
}

/// Filtering by `p` and then by `q` keeps what meets both.
pub proof fn lemma_filter_twice<A>(s: Seq<A>, p: spec_fn(A) -> bool, q: spec_fn(A) -> bool)
    ensures
        s.filter(p).filter(q) == s.filter(|a: A| p(a) && q(a)),
    decreases s.len(),
{
    reveal(Seq::filter);
    if s.len() > 0 {
        lemma_filter_twice(s.drop_last(), p, q);
        if p(s.last()) {
            assert(s.drop_last().filter(p).push(s.last()).drop_last() == s.drop_last().filter(p));
        }
    }
}

/// Keeps the words that are consistent with `guess` under all three rules,
/// in their order.
pub fn filter_words(words: &mut Vec<String>, guess: &Guess)
    requires
        guess.wf(),
        all_five(old(words)@),
    ensures
        final(words)@ == old(words)@.filter(
            |w: String| consistent(w@, guess.word@, guess.feedback@),
        ),
        all_five(final(words)@),
{
    filter_by_green(words, guess);
    filter_by_yellow(words, guess);
    filter_by_black(words, guess);
    proof {
        let green = |w: String| green_rule(w@, guess.word@, guess.feedback@);
        let yellow = |w: String| yellow_rule(w@, guess.word@, guess.feedback@);
        let black = |w: String| black_rule(w@, guess.word@, guess.feedback@);
        let both = |w: String| green(w) && yellow(w);
        let all = |w: String| both(w) && black(w);
        lemma_filter_twice(old(words)@, green, yellow);
        lemma_filter_twice(old(words)@, both, black);
        assert(all =~= (|w: String| consistent(w@, guess.word@, guess.feedback@)));
    }
}

/// `a` can be had from `b` by leaving elements out, the order of the rest kept.
pub open spec fn is_subsequence<A>(a: Seq<A>, b: Seq<A>) -> bool
    decreases b.len(),
{
    if a.len() == 0 {
        true
    } else if b.len() == 0 {
        false
    } else {
        ||| (a.last() == b.last() && is_subsequence(a.drop_last(), b.drop_last()))
        ||| is_subsequence(a, b.drop_last())
    }
}

/// Filtering never adds a word and never reorders: what it keeps is a
/// subsequence of the list it was given.
pub proof fn lemma_filter_is_subsequence<A>(s: Seq<A>, p: spec_fn(A) -> bool)
    ensures
        is_subsequence(s.filter(p), s),
        s.filter(p).len() <= s.len(),
    decreases s.len(),
{
    reveal(Seq::filter);
    if s.len() > 0 {
        lemma_filter_is_subsequence(s.drop_last(), p);
        if p(s.last()) {
            assert(s.filter(p).drop_last() == s.drop_last().filter(p));
        }
    }
}

/// Filtering is idempotent: a second pass with the same rule changes nothing.
pub proof fn lemma_filter_idempotent<A>(s: Seq<A>, p: spec_fn(A) -> bool)
    ensures
        s.filter(p).filter(p) == s.filter(p),
{
    lemma_filter_twice(s, p, p);
    assert((|a: A| p(a) && p(a)) =~= p);
}

/// The filter applied to a candidate list is a subsequence of that list, and
/// applying the same guess again changes nothing.
pub proof fn lemma_filter_words_monotone(words: Seq<String>, word: Seq<char>, fb: Seq<char>)
    ensures
        ({
            let kept = words.filter(|w: String| consistent(w@, word, fb));
            &&& is_subsequence(kept, words)
            &&& kept.filter(|w: String| consistent(w@, word, fb)) == kept
        }),
{
    let p = |w: String| consistent(w@, word, fb);
    lemma_filter_is_subsequence(words, p);
    lemma_filter_idempotent(words, p);
}

/// A list without repeated words has none after filtering.
pub proof fn lemma_filter_keeps_distinct<A>(s: Seq<A>, p: spec_fn(A) -> bool)
    requires
        s.no_duplicates(),
    ensures
        s.filter(p).no_duplicates(),
    decreases s.len(),
{
    reveal(Seq::filter);
    if s.len() > 0 {
        let front = s.drop_last();
        lemma_filter_keeps_distinct(front, p);
        if p(s.last()) {
            let kept = front.filter(p);
            assert forall|i: int| 0 <= i < kept.len() implies kept[i] != s.last() by {
                assert(kept.contains(kept[i]));
                front.lemma_filter_contains_rev(p, kept[i]);
                let k = choose|k: int| 0 <= k < front.len() && front[k] == kept[i];
                assert(s[k] == kept[i] && k != s.len() - 1);
            }
        }
    }
}

/// The solution is consistent with the feedback that any guess earns against it.
pub proof fn lemma_solution_is_consistent(guess: Seq<char>, solution: Seq<char>)
    requires
        guess.len() == 5,
        solution.len() == 5,
    ensures
        consistent(solution, guess, feedback_spec(guess, solution)),
{
    let fb = feedback_spec(guess, solution);
    assert forall|i: int| 0 <= i < 5 && #[trigger] fb[i] == 'Y' implies solution.contains(guess[i])
        && solution[i] != guess[i] by {
        let c = guess[i];
        lemma_spare_positive(guess, solution, c, 5);
        crate::feedback::lemma_counts_nonnegative(guess, solution, c, i);
        let k = choose|k: int| 0 <= k < 5 && solution[k] == c && guess[k] != solution[k];
        assert(solution[k] == c);
    }
    assert forall|i: int|
        0 <= i < 5 && #[trigger] fb[i] == 'B' && !shown_present(guess, fb, guess[i])
            implies !solution.contains(guess[i]) by {
        let c = guess[i];
        if solution.contains(c) {
            let k = choose|k: int| 0 <= k < solution.len() && solution[k] == c;
            if guess[k] == solution[k] {
                assert(fb[k] == 'G' && guess[k] == c);
            } else {
                lemma_spare_positive(guess, solution, c, 5);
                assert(misplaced_in_guess(guess, solution, c, i) >= spare_in_solution(
                    guess,
                    solution,
                    c,
                    5,
                ));
                lemma_misplaced_first(guess, solution, c, i);
                let j = choose|j: int|
                    0 <= j < i && guess[j] == c && guess[j] != solution[j] && misplaced_in_guess(
                        guess,
                        solution,
                        c,
                        j,
                    ) == 0;
                assert(fb[j] == 'Y' && guess[j] == c);
            }
            assert(false);
        }
    }
}

/// Filtering by the guess and the feedback it earned against the solution
/// never removes the solution.
pub proof fn lemma_filter_keeps_solution(words: Seq<String>, guess: Seq<char>, solution: String)
    requires
        guess.len() == 5,
        solution@.len() == 5,
        words.contains(solution),
    ensures
        words.filter(
            |w: String| consistent(w@, guess, feedback_spec(guess, solution@)),
        ).contains(solution),
{
    lemma_solution_is_consistent(guess, solution@);
    let p = |w: String| consistent(w@, guess, feedback_spec(guess, solution@));
    assert(p(solution));
    words.lemma_filter_contains_rev(p, solution);
}

} // verus!
