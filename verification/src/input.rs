//! The textual form of a guess: a word and its feedback, as two tokens.

use crate::text::{
    ascii_only, chars_of, is_space, lemma_upper_all, space, string_of, upper_all, upper_case,
};
use crate::types::Guess;
use vstd::prelude::*;
use vstd::utf8::is_ascii_chars;

verus! {

/// The tokens closed so far and the token still open, after `n`
/// characters. White space closes a token and is part of none.
pub open spec fn scan_tokens(s: Seq<char>, n: int) -> (Seq<Seq<char>>, Seq<char>)
    decreases n,
{
    if n <= 0 {
        (Seq::empty(), Seq::empty())
    } else {
        let (closed, open) = scan_tokens(s, n - 1);
        if is_space(s[n - 1]) {
            if open.len() > 0 {
                (closed.push(open), Seq::empty())
            } else {
                (closed, open)
            }
        } else {
            (closed, open.push(s[n - 1]))
        }
    }
}

/// The tokens of a text: its longest runs of characters that are no white space.
pub open spec fn tokens_of(s: Seq<char>) -> Seq<Seq<char>> {
    let (closed, open) = scan_tokens(s, s.len() as int);
    if open.len() > 0 {
        closed.push(open)
    } else {
        closed
    }
}

/// Five symbols, each `G`, `Y` or `B`.
pub open spec fn is_marks(f: Seq<char>) -> bool {
    &&& f.len() == 5
    &&& forall|i: int| 0 <= i < 5 ==> #[trigger] f[i] == 'G' || f[i] == 'Y' || f[i] == 'B'
}

/// What is wrong with an input, if anything: the message to report.
pub open spec fn input_error(input: Seq<char>) -> Option<Seq<char>> {
    let tokens = tokens_of(input);
    if tokens.len() != 2 {
        Some("Input must be WORD FEEDBACK"@)
    } else if tokens[0].len() != 5 || !is_ascii_chars(tokens[0]) {
        Some("Word must be 5 letters"@)
    } else if !is_marks(upper_all(tokens[1])) {
        Some("Feedback must be 5 characters of G, Y, or B"@)
    } else {
        None
    }
}

/// The tokens of `input`.
pub fn split_tokens(input: &str) -> (tokens: Vec<Vec<char>>)
    ensures
        tokens@.len() == tokens_of(input@).len(),
        forall|k: int| 0 <= k < tokens@.len() ==> (#[trigger] tokens@[k])@ == tokens_of(input@)[k],
{
    let chars = chars_of(input);
    let mut tokens: Vec<Vec<char>> = Vec::new();
    let mut open: Vec<char> = Vec::new();
    let ghost mut closed: Seq<Seq<char>> = Seq::empty();
    let mut i: usize = 0;
    while i < chars.len()
        invariant
            i <= chars@.len(),
            scan_tokens(chars@, i as int) == (closed, open@),
            tokens@.len() == closed.len(),
            forall|k: int| 0 <= k < tokens@.len() ==> (#[trigger] tokens@[k])@ == closed[k],
        decreases chars@.len() - i,
    {
        let c = chars[i];
        if space(c) {
            if open.len() > 0 {
                proof {
                    closed = closed.push(open@);
                }
                tokens.push(open);
                open = Vec::new();
            }
        } else {
            open.push(c);
        }
        i += 1;
    }
    if open.len() > 0 {
        tokens.push(open);
    }
    tokens
}

/// Reads a guess from the form `WORD FEEDBACK`: two tokens, a word of five
/// ASCII characters and five feedback symbols, in either case. The guess
/// holds both in upper case. Any other input is refused with a message.
pub fn parse_input(input: &str) -> (r: Result<Guess, String>)
    ensures
        match r {
            Ok(guess) => {
                &&& input_error(input@) is None
                &&& guess.wf()
                &&& guess.word@ == upper_all(tokens_of(input@)[0])
                &&& is_ascii_chars(guess.word@)
                &&& guess.feedback@ == upper_all(tokens_of(input@)[1])
                &&& is_marks(guess.feedback@)
            },
            Err(message) => input_error(input@) == Some(message@),
        },
{
    let tokens = split_tokens(input);
    if tokens.len() != 2 {
        return Err("Input must be WORD FEEDBACK".to_owned());
    }
    let word = upper_case(&tokens[0]);
    let feedback = upper_case(&tokens[1]);
    proof {
        lemma_upper_all(tokens@[0]@);
    }
    if word.len() != 5 || !ascii_only(&word) {
        return Err("Word must be 5 letters".to_owned());
    }
    if !marks(&feedback) {
        return Err("Feedback must be 5 characters of G, Y, or B".to_owned());
    }
    Ok(Guess::new(string_of(&word, 0, 5), feedback))
}

/// Whether `f` is five feedback symbols.
fn marks(f: &Vec<char>) -> (r: bool)
    ensures
        r == is_marks(f@),
{
    if f.len() != 5 {
        return false;
    }
    let mut i: usize = 0;
    while i < 5
        invariant
            i <= 5,
            f@.len() == 5,
            forall|k: int| 0 <= k < i ==> #[trigger] f@[k] == 'G' || f@[k] == 'Y' || f@[k] == 'B',
        decreases 5 - i,
    {
        if !(f[i] == 'G' || f[i] == 'Y' || f[i] == 'B') {
            return false;
        }
        i += 1;
    }
    true
}

/// Position `i` lies in one of the runs, each given by its first position
/// and the position after its last.
pub open spec fn in_runs(runs: Seq<(int, int)>, i: int) -> bool {
    exists|k: int| 0 <= k < runs.len() && (#[trigger] runs[k]).0 <= i < runs[k].1
}

/// `runs` are the longest runs without white space among the first `upto`
/// characters of `s`, in order: none is empty, each ends before the next
/// begins with at least one position between them, and a position lies in
/// a run exactly when its character is no white space.
pub open spec fn is_runs(s: Seq<char>, upto: int, runs: Seq<(int, int)>) -> bool {
    &&& forall|k: int| 0 <= k < runs.len() ==> 0 <= (#[trigger] runs[k]).0 < runs[k].1 <= upto
    &&& forall|k: int, l: int|
        0 <= k < l < runs.len() ==> (#[trigger] runs[k]).1 < (#[trigger] runs[l]).0
    &&& forall|i: int| 0 <= i < upto ==> (#[trigger] in_runs(runs, i) <==> !is_space(s[i]))
}

/// What the scan holds after `n` characters: the closed tokens are the
/// longest runs before the open token, and the open token is the run that
/// ends at `n`.
proof fn lemma_scan_tokens(s: Seq<char>, n: int) -> (runs: Seq<(int, int)>)
    requires
        0 <= n <= s.len(),
    ensures
        ({
            let (closed, open) = scan_tokens(s, n);
            let m = n - open.len();
            &&& 0 <= m
            &&& open == s.subrange(m, n)
            &&& forall|i: int| m <= i < n ==> !is_space(#[trigger] s[i])
            &&& m > 0 ==> is_space(s[m - 1])
            &&& is_runs(s, m, runs)
            &&& runs.len() == closed.len()
            &&& forall|k: int|
                0 <= k < runs.len() ==> #[trigger] closed[k] == s.subrange(runs[k].0, runs[k].1)
        }),
    decreases n,
{
    if n == 0 {
        let runs = Seq::<(int, int)>::empty();
        assert(scan_tokens(s, 0).1 =~= s.subrange(0, 0));
        runs
    } else {
        let before = lemma_scan_tokens(s, n - 1);
        let (closed0, open0) = scan_tokens(s, n - 1);
        let m0 = n - 1 - open0.len();
        assert forall|k: int| 0 <= k < before.len() implies (#[trigger] before[k]).1 < m0 by {
            if before[k].1 == m0 {
                assert(in_runs(before, m0 - 1));
            }
        }
        if is_space(s[n - 1]) {
            if open0.len() > 0 {
                let runs = before.push((m0, n - 1));
                assert forall|i: int| 0 <= i < n implies (#[trigger] in_runs(runs, i) <==> !is_space(
                    s[i],
                )) by {
                    if in_runs(runs, i) {
                        let k = choose|k: int|
                            0 <= k < runs.len() && (#[trigger] runs[k]).0 <= i < runs[k].1;
                        if k < before.len() {
                            assert(before[k] == runs[k]);
                            assert(in_runs(before, i));
                        }
                    }
                    if !is_space(s[i]) {
                        if i < m0 {
                            assert(in_runs(before, i));
                            let k = choose|k: int|
                                0 <= k < before.len() && (#[trigger] before[k]).0 <= i
                                    < before[k].1;
                            assert(runs[k] == before[k]);
                        } else {
                            assert(runs[before.len() as int] == (m0, n - 1));
                        }
                    }
                }
                assert forall|k: int, l: int| 0 <= k < l < runs.len() implies (
                #[trigger] runs[k]).1 < (#[trigger] runs[l]).0 by {
                    assert(runs[k] == before[k]);
                    if l < before.len() {
                        assert(runs[l] == before[l]);
                    }
                }
                assert(scan_tokens(s, n).1 =~= s.subrange(n, n));
                runs
            } else {
                assert forall|i: int| 0 <= i < n implies (#[trigger] in_runs(before, i)
                    <==> !is_space(s[i])) by {
                    if in_runs(before, i) {
                        let k = choose|k: int|
                            0 <= k < before.len() && (#[trigger] before[k]).0 <= i < before[k].1;
                    }
                }
                assert(scan_tokens(s, n).1 =~= s.subrange(n, n));
                before
            }
        } else {
            assert(open0.push(s[n - 1]) =~= s.subrange(m0, n));
            before
        }
    }
}

/// The tokens of a text are its longest runs of characters that are no
/// white space, in the order of the text.
pub proof fn lemma_tokens_are_runs(s: Seq<char>) -> (runs: Seq<(int, int)>)
    ensures
        is_runs(s, s.len() as int, runs),
        tokens_of(s).len() == runs.len(),
        forall|k: int|
            0 <= k < runs.len() ==> #[trigger] tokens_of(s)[k] == s.subrange(
                runs[k].0,
                runs[k].1,
            ),
{
    let n = s.len() as int;
    let before = lemma_scan_tokens(s, n);
    let (closed, open) = scan_tokens(s, n);
    let m = n - open.len();
    if open.len() == 0 {
        before
    } else {
        assert forall|k: int| 0 <= k < before.len() implies (#[trigger] before[k]).1 < m by {
            if before[k].1 == m {
                assert(in_runs(before, m - 1));
            }
        }
        let runs = before.push((m, n));
        assert forall|i: int| 0 <= i < n implies (#[trigger] in_runs(runs, i) <==> !is_space(
            s[i],
        )) by {
            if in_runs(runs, i) {
                let k = choose|k: int|
                    0 <= k < runs.len() && (#[trigger] runs[k]).0 <= i < runs[k].1;
                if k < before.len() {
                    assert(before[k] == runs[k]);
                    assert(in_runs(before, i));
                }
            }
            if !is_space(s[i]) {
                if i < m {
                    assert(in_runs(before, i));
                    let k = choose|k: int|
                        0 <= k < before.len() && (#[trigger] before[k]).0 <= i < before[k].1;
                    assert(runs[k] == before[k]);
                } else {
                    assert(runs[before.len() as int] == (m, n));
                }
            }
        }
        assert forall|k: int, l: int| 0 <= k < l < runs.len() implies (#[trigger] runs[k]).1 < (
        #[trigger] runs[l]).0 by {
            assert(runs[k] == before[k]);
            if l < before.len() {
                assert(runs[l] == before[l]);
            }
        }
        assert forall|k: int| 0 <= k < runs.len() implies #[trigger] tokens_of(s)[k]
            == s.subrange(runs[k].0, runs[k].1) by {
            if k < before.len() {
                assert(runs[k] == before[k]);
                assert(tokens_of(s)[k] == closed[k]);
            }
        }
        runs
    }
}

} // verus!
