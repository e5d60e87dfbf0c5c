//! Computing feedback: the symbol form, with one flag per solution letter,
//! and the pattern number, with one counter per letter of the alphabet.

use crate::pattern::{
    encode_spec, feedback_spec, is_feedback, is_word, misplaced_in_guess, spare_in_solution,
    symbol_at, trit_of,
};
use crate::text::chars_of;
use vstd::prelude::*;
use vstd::string::is_ascii_spec_bytes;

verus! {

/// Number of positions below `n` whose solution letter is `c`, is not matched
/// in place by the guess, and is flagged in `used`.
spec fn taken(used: Seq<bool>, g: Seq<char>, s: Seq<char>, c: char, n: int) -> int
    decreases n,
{
    if n <= 0 {
        0
    } else {
        taken(used, g, s, c, n - 1) + if used[n - 1] && s[n - 1] == c && g[n - 1] != s[n - 1] {
            1int
        } else {
            0int
        }
    }
}

/// The counts never go below zero.
pub proof fn lemma_counts_nonnegative(g: Seq<char>, s: Seq<char>, c: char, n: int)
    ensures
        0 <= spare_in_solution(g, s, c, n),
        0 <= misplaced_in_guess(g, s, c, n),
    decreases n,
{
    if n > 0 {
        lemma_counts_nonnegative(g, s, c, n - 1);
    }
}

/// A spare copy at a position below `n` makes the count positive, and a
/// positive count has such a position.
pub proof fn lemma_spare_positive(g: Seq<char>, s: Seq<char>, c: char, n: int)
    ensures
        spare_in_solution(g, s, c, n) > 0 <==> exists|k: int|
            0 <= k < n && s[k] == c && g[k] != s[k],
    decreases n,
{
    lemma_counts_nonnegative(g, s, c, n - 1);
    if n > 0 {
        lemma_spare_positive(g, s, c, n - 1);
        if spare_in_solution(g, s, c, n) > 0 {
            if s[n - 1] == c && g[n - 1] != s[n - 1] {
                assert(0 <= n - 1 < n && s[n - 1] == c && g[n - 1] != s[n - 1]);
            } else {
                let k = choose|k: int| 0 <= k < n - 1 && s[k] == c && g[k] != s[k];
                assert(0 <= k < n && s[k] == c && g[k] != s[k]);
            }
        }
    }
}

/// A misplaced copy at a position below `n` makes the count positive, and a
/// positive count has a first such position, before which the count is zero.
pub proof fn lemma_misplaced_first(g: Seq<char>, s: Seq<char>, c: char, n: int)
    ensures
        misplaced_in_guess(g, s, c, n) > 0 <==> exists|k: int|
            0 <= k < n && g[k] == c && g[k] != s[k],
        misplaced_in_guess(g, s, c, n) > 0 ==> exists|k: int|
            0 <= k < n && g[k] == c && g[k] != s[k] && misplaced_in_guess(g, s, c, k) == 0,
    decreases n,
{
    lemma_counts_nonnegative(g, s, c, n - 1);
    if n > 0 {
        lemma_misplaced_first(g, s, c, n - 1);
        if misplaced_in_guess(g, s, c, n - 1) > 0 {
            let k = choose|k: int|
                0 <= k < n - 1 && g[k] == c && g[k] != s[k] && misplaced_in_guess(g, s, c, k) == 0;
            assert(0 <= k < n && g[k] == c && g[k] != s[k] && misplaced_in_guess(g, s, c, k) == 0);
        } else if g[n - 1] == c && g[n - 1] != s[n - 1] {
            assert(0 <= n - 1 < n && g[n - 1] == c && g[n - 1] != s[n - 1] && misplaced_in_guess(
                g,
                s,
                c,
                n - 1,
            ) == 0);
        }
    }
}

/// At most the spare copies are taken, and all of them are exactly when
/// every spare copy is flagged.
proof fn lemma_taken_bound(used: Seq<bool>, g: Seq<char>, s: Seq<char>, c: char, n: int)
    ensures
        0 <= taken(used, g, s, c, n) <= spare_in_solution(g, s, c, n),
        taken(used, g, s, c, n) == spare_in_solution(g, s, c, n) <==> (forall|k: int|
            0 <= k < n && s[k] == c && g[k] != s[k] ==> used[k]),
    decreases n,
{
    if n > 0 {
        lemma_taken_bound(used, g, s, c, n - 1);
        if taken(used, g, s, c, n) == spare_in_solution(g, s, c, n) {
            assert forall|k: int| 0 <= k < n && s[k] == c && g[k] != s[k] implies used[k] by {
                if k < n - 1 {
                }
            }
        }
    }
}

/// Flagging one more position takes one more copy of its letter, if it is a
/// spare one, and changes nothing for the other letters.
proof fn lemma_taken_flag(used: Seq<bool>, g: Seq<char>, s: Seq<char>, c: char, n: int, j: int)
    requires
        0 <= j < used.len(),
        n <= used.len(),
        !used[j],
    ensures
        taken(used.update(j, true), g, s, c, n) == taken(used, g, s, c, n) + if j < n && s[j] == c
            && g[j] != s[j] {
            1int
        } else {
            0int
        },
    decreases n,
{
    if n > 0 {
        lemma_taken_flag(used, g, s, c, n - 1, j);
    }
}

/// With nothing flagged but positions matched in place, nothing is taken.
proof fn lemma_taken_none(used: Seq<bool>, g: Seq<char>, s: Seq<char>, c: char, n: int)
    requires
        forall|k: int| 0 <= k < n && used[k] ==> g[k] == s[k],
    ensures
        taken(used, g, s, c, n) == 0,
    decreases n,
{
    if n > 0 {
        lemma_taken_none(used, g, s, c, n - 1);
    }
}

/// The feedback that `guess` earns against `solution`, as five symbols
/// `G`, `Y`, `B`.
pub fn calculate_feedback(guess: &str, solution: &str) -> (feedback: Vec<char>)
    requires
        guess@.len() == 5,
        solution@.len() == 5,
    ensures
        feedback@ == feedback_spec(guess@, solution@),
        is_feedback(feedback@),
{
    let g = chars_of(guess);
    let s = chars_of(solution);
    let mut feedback: Vec<char> = Vec::new();
    let mut used: Vec<bool> = Vec::new();
    let mut i: usize = 0;
    while i < 5
        invariant
            i <= 5,
            g@.len() == 5,
            s@.len() == 5,
            feedback@.len() == i,
            used@.len() == i,
            forall|k: int| 0 <= k < i ==> #[trigger] used@[k] == (g@[k] == s@[k]),
            forall|k: int| 0 <= k < i ==> #[trigger] feedback@[k] == (if g@[k] == s@[k] {
                'G'
            } else {
                'B'
            }),
        decreases 5 - i,
    {
        if g[i] == s[i] {
            feedback.push('G');
            used.push(true);
        } else {
            feedback.push('B');
            used.push(false);
        }
        i += 1;
    }
    proof {
        assert forall|c: char| #[trigger] taken(used@, g@, s@, c, 5) == 0 by {
            lemma_taken_none(used@, g@, s@, c, 5);
        }
        assert forall|c: char| 0 <= #[trigger] spare_in_solution(g@, s@, c, 5) by {
            lemma_counts_nonnegative(g@, s@, c, 5);
        }
    }
    let mut i: usize = 0;
    while i < 5
        invariant
            i <= 5,
            g@.len() == 5,
            s@.len() == 5,
            feedback@.len() == 5,
            used@.len() == 5,
            forall|k: int| 0 <= k < 5 && g@[k] == s@[k] ==> #[trigger] used@[k],
            forall|k: int| 0 <= k < i ==> #[trigger] feedback@[k] == symbol_at(g@, s@, k),
            forall|k: int|
                i <= k < 5 ==> #[trigger] feedback@[k] == (if g@[k] == s@[k] {
                    'G'
                } else {
                    'B'
                }),
            forall|c: char| #[trigger]
                taken(used@, g@, s@, c, 5) == (if misplaced_in_guess(g@, s@, c, i as int)
                    < spare_in_solution(g@, s@, c, 5) {
                    misplaced_in_guess(g@, s@, c, i as int)
                } else {
                    spare_in_solution(g@, s@, c, 5)
                }),
        decreases 5 - i,
    {
        if feedback[i] == 'B' {
            let ghost before = used@;
            let ghost marks = feedback@;
            let mut j: usize = 0;
            let mut found = false;
            while j < 5 && !found
                invariant
                    j <= 5,
                    i < 5,
                    g@.len() == 5,
                    s@.len() == 5,
                    used@.len() == 5,
                    feedback@.len() == 5,
                    g@[i as int] != s@[i as int],
                    !found ==> used@ == before,
                    !found ==> feedback@[i as int] == 'B',
                    !found ==> forall|k: int|
                        0 <= k < j ==> #[trigger] used@[k] || s@[k] != g@[i as int],
                    found ==> 0 < j && !before[j - 1] && s@[j - 1] == g@[i as int] && used@
                        == before.update(j - 1, true) && feedback@[i as int] == 'Y',
                    forall|k: int|
                        0 <= k < 5 && k != i ==> #[trigger] feedback@[k] == marks[k],
                decreases 5 - j + if found { 0int } else { 1int },
            {
                if !used[j] && g[i] == s[j] {
                    feedback.set(i, 'Y');
                    used.set(j, true);
                    found = true;
                }
                j += 1;
            }
            proof {
                let c0 = g@[i as int];
                assert forall|c: char| #[trigger]
                    taken(used@, g@, s@, c, 5) == (if misplaced_in_guess(g@, s@, c, i + 1)
                        < spare_in_solution(g@, s@, c, 5) {
                        misplaced_in_guess(g@, s@, c, i + 1)
                    } else {
                        spare_in_solution(g@, s@, c, 5)
                    }) by {
                    lemma_taken_bound(before, g@, s@, c, 5);
                    if found {
                        lemma_taken_flag(before, g@, s@, c, 5, j - 1);
                    }
                }
                lemma_taken_bound(before, g@, s@, c0, 5);
                assert(feedback@[i as int] == symbol_at(g@, s@, i as int));
            }
        } else {
            proof {
                assert forall|c: char|
                    misplaced_in_guess(g@, s@, c, i + 1) == misplaced_in_guess(
                        g@,
                        s@,
                        c,
                        i as int,
                    ) by {}
            }
        }
        i += 1;
    }
    assert(feedback@ =~= feedback_spec(guess@, solution@));
    feedback
}

/// The counter that belongs to letter `c` of `A`..`Z`.
pub open spec fn slot(c: char) -> int {
    c as int - 65
}

/// What is left of the spare copies of `c` once the misplaced copies below
/// position `i` of the guess have each claimed one.
spec fn left_over(g: Seq<char>, s: Seq<char>, c: char, i: int) -> int {
    if misplaced_in_guess(g, s, c, i) < spare_in_solution(g, s, c, 5) {
        spare_in_solution(g, s, c, 5) - misplaced_in_guess(g, s, c, i)
    } else {
        0
    }
}

/// The pattern number of the feedback that `guess` earns against `solution`.
pub fn feedback_id(guess: &str, solution: &str) -> (pid: usize)
    requires
        is_word(guess@),
        is_word(solution@),
    ensures
        pid == encode_spec(feedback_spec(guess@, solution@)),
        pid < 243,
{
    broadcast use is_ascii_spec_bytes;

    let g = guess.as_bytes();
    let s = solution.as_bytes();
    assert(guess.is_ascii() && solution.is_ascii());
    let ghost gs = guess@;
    let ghost ss = solution@;
    let mut trits: [u8; 5] = [0u8;5];
    let mut counts: [u8; 26] = [0u8;26];
    let mut i: usize = 0;
    while i < 5
        invariant
            i <= 5,
            is_word(gs),
            is_word(ss),
            g@.len() == 5,
            s@.len() == 5,
            forall|k: int| 0 <= k < 5 ==> #[trigger] g@[k] == gs[k] as u8,
            forall|k: int| 0 <= k < 5 ==> #[trigger] s@[k] == ss[k] as u8,
            forall|k: int|
                0 <= k < 5 ==> #[trigger] trits@[k] == (if k < i && gs[k] == ss[k] {
                    2u8
                } else {
                    0u8
                }),
            forall|c: char|
                'A' <= c && c <= 'Z' ==> counts@[slot(c)] == #[trigger] spare_in_solution(
                    gs,
                    ss,
                    c,
                    i as int,
                ),
            forall|c: char| #[trigger] spare_in_solution(gs, ss, c, i as int) <= i,
        decreases 5 - i,
    {
        if g[i] == s[i] {
            trits[i] = 2;
        } else {
            let idx: usize = (s[i] - 65) as usize;
            assert(idx == slot(ss[i as int]));
            assert(counts@[idx as int] == spare_in_solution(gs, ss, ss[i as int], i as int));
            counts[idx] = counts[idx] + 1;
        }
        proof {
            assert forall|c: char| 'A' <= c && c <= 'Z' implies counts@[slot(c)]
                == #[trigger] spare_in_solution(gs, ss, c, i + 1) by {
                assert(counts@[slot(c)] == spare_in_solution(gs, ss, c, i as int) || c
                    == ss[i as int]);
            }
            assert forall|c: char| #[trigger] spare_in_solution(gs, ss, c, i + 1) <= i + 1 by {
                assert(spare_in_solution(gs, ss, c, i as int) <= i);
            }
        }
        i += 1;
    }
    let mut i: usize = 0;
    while i < 5
        invariant
            i <= 5,
            is_word(gs),
            is_word(ss),
            g@.len() == 5,
            s@.len() == 5,
            forall|k: int| 0 <= k < 5 ==> #[trigger] g@[k] == gs[k] as u8,
            forall|k: int|
                0 <= k < i ==> #[trigger] trits@[k] == trit_of(symbol_at(gs, ss, k)),
            forall|k: int|
                i <= k < 5 ==> #[trigger] trits@[k] == (if gs[k] == ss[k] {
                    2u8
                } else {
                    0u8
                }),
            forall|c: char|
                'A' <= c && c <= 'Z' ==> counts@[slot(c)] == #[trigger] left_over(
                    gs,
                    ss,
                    c,
                    i as int,
                ),
        decreases 5 - i,
    {
        if trits[i] == 0 {
            let idx: usize = (g[i] - 65) as usize;
            assert(idx == slot(gs[i as int]));
            assert(counts@[idx as int] == left_over(gs, ss, gs[i as int], i as int));
            if counts[idx] > 0 {
                trits[i] = 1;
                counts[idx] = counts[idx] - 1;
            }
        }
        proof {
            assert forall|c: char| 'A' <= c && c <= 'Z' implies counts@[slot(c)]
                == #[trigger] left_over(gs, ss, c, i + 1) by {
                assert(counts@[slot(c)] == left_over(gs, ss, c, i as int) || c == gs[i as int]);
            }
        }
        i += 1;
    }
    let mut pid: usize = 0;
    let mut i: usize = 0;
    while i < 5
        invariant
            i <= 5,
            forall|k: int| 0 <= k < 5 ==> #[trigger] trits@[k] <= 2,
            pid == prefix_value(trits@, i as int),
            pid < 243,
        decreases 5 - i,
    {
        assert(pid <= 80) by {
            reveal_with_fuel(prefix_value, 6);
        }
        pid = pid * 3 + trits[i] as usize;
        i += 1;
        assert(pid < 243) by {
            reveal_with_fuel(prefix_value, 6);
        }
    }
    proof {
        reveal_with_fuel(prefix_value, 6);
        let f = feedback_spec(gs, ss);
        assert(trits@[0] == trit_of(f[0]) && trits@[1] == trit_of(f[1]) && trits@[2] == trit_of(
            f[2],
        ) && trits@[3] == trit_of(f[3]) && trits@[4] == trit_of(f[4]));
    }
    pid
}

/// The number that the first `n` digits spell in base 3, most significant first.
spec fn prefix_value(trits: Seq<u8>, n: int) -> int
    decreases n,
{
    if n <= 0 {
        0
    } else {
        3 * prefix_value(trits, n - 1) + trits[n - 1] as int
    }
}

/// A word guessed against itself earns five greens, the pattern 242.
pub proof fn lemma_feedback_of_itself(w: Seq<char>)
    requires
        w.len() == 5,
    ensures
        feedback_spec(w, w) == seq!['G', 'G', 'G', 'G', 'G'],
        encode_spec(feedback_spec(w, w)) == 242,
{
    assert(feedback_spec(w, w) =~= seq!['G', 'G', 'G', 'G', 'G']);
}

/// Five greens are earned only by the solution itself.
pub proof fn lemma_all_green_is_solution(g: Seq<char>, s: Seq<char>)
    requires
        g.len() == 5,
        s.len() == 5,
    ensures
        encode_spec(feedback_spec(g, s)) == 242 <==> g == s,
{
    let f = feedback_spec(g, s);
    crate::pattern::lemma_encode_range(f);
    if g == s {
        lemma_feedback_of_itself(g);
    }
    if encode_spec(f) == 242 {
        assert forall|i: int| 0 <= i < 5 implies g[i] == s[i] by {
            assert(f[i] == 'G');
        }
        assert(g =~= s);
    }
}

/// Number of positions below `n` at which guess and solution both hold `c`.
pub open spec fn matched(g: Seq<char>, s: Seq<char>, c: char, n: int) -> int
    decreases n,
{
    if n <= 0 {
        0
    } else {
        matched(g, s, c, n - 1) + if g[n - 1] == c && s[n - 1] == c {
            1int
        } else {
            0int
        }
    }
}

/// Number of positions below `n` at which the guess holds `c` and is marked
/// green or yellow.
pub open spec fn marked(g: Seq<char>, s: Seq<char>, c: char, n: int) -> int
    decreases n,
{
    if n <= 0 {
        0
    } else {
        marked(g, s, c, n - 1) + if g[n - 1] == c && symbol_at(g, s, n - 1) != 'B' {
            1int
        } else {
            0int
        }
    }
}

/// Number of positions below `n` at which the solution holds `c`.
pub open spec fn occurrences(s: Seq<char>, c: char, n: int) -> int
    decreases n,
{
    if n <= 0 {
        0
    } else {
        occurrences(s, c, n - 1) + if s[n - 1] == c {
            1int
        } else {
            0int
        }
    }
}

/// The marks of a letter below `n` are its matches and, of its misplaced
/// copies, as many as the solution has spare ones.
proof fn lemma_marked(g: Seq<char>, s: Seq<char>, c: char, n: int)
    requires
        0 <= n <= 5,
    ensures
        marked(g, s, c, n) == matched(g, s, c, n) + if misplaced_in_guess(g, s, c, n)
            < spare_in_solution(g, s, c, 5) {
            misplaced_in_guess(g, s, c, n)
        } else {
            spare_in_solution(g, s, c, 5)
        },
        occurrences(s, c, n) == matched(g, s, c, n) + spare_in_solution(g, s, c, n),
    decreases n,
{
    lemma_counts_nonnegative(g, s, c, 5);
    if n > 0 {
        lemma_marked(g, s, c, n - 1);
        lemma_counts_nonnegative(g, s, c, n - 1);
    }
}

/// No letter of the guess gets more green and yellow marks than the
/// solution has copies of it.
pub proof fn lemma_marks_within_copies(g: Seq<char>, s: Seq<char>, c: char)
    requires
        g.len() == 5,
        s.len() == 5,
    ensures
        marked(g, s, c, 5) <= occurrences(s, c, 5),
{
    lemma_marked(g, s, c, 5);
    lemma_counts_nonnegative(g, s, c, 5);
}

} // verus!
