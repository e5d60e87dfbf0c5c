//! The pattern codec: what feedback a guess earns against a solution, and the
//! base-3 number that stands for one feedback of five symbols.

use crate::text::chars_of;
use vstd::prelude::*;

verus! {

/// Number of distinct feedbacks of five symbols.
pub const NUM_PATTERNS: usize = 243;

/// The pattern of five greens: the guess is the solution.
pub const PID_ALL_GREEN: usize = 242;

/// A word of the engine: five letters, each in `A`..`Z`.
pub open spec fn is_word(w: Seq<char>) -> bool {
    &&& w.len() == 5
    &&& forall|i: int| 0 <= i < 5 ==> 'A' <= #[trigger] w[i] && w[i] <= 'Z'
}

/// One of the three feedback symbols.
pub open spec fn is_symbol(c: char) -> bool {
    c == 'B' || c == 'Y' || c == 'G'
}

/// A feedback: five symbols, one per letter of the guess.
pub open spec fn is_feedback(f: Seq<char>) -> bool {
    &&& f.len() == 5
    &&& forall|i: int| 0 <= i < 5 ==> is_symbol(#[trigger] f[i])
}

/// The base-3 digit of a symbol: black 0, yellow 1, green 2.
pub open spec fn trit_of(c: char) -> int {
    if c == 'G' {
        2
    } else if c == 'Y' {
        1
    } else {
        0
    }
}

/// The symbol of a base-3 digit.
pub open spec fn symbol_of(t: int) -> char {
    if t == 2 {
        'G'
    } else if t == 1 {
        'Y'
    } else {
        'B'
    }
}

/// The number whose base-3 digits, most significant first, are the symbols of `f`.
pub open spec fn encode_spec(f: Seq<char>) -> int {
    81 * trit_of(f[0]) + 27 * trit_of(f[1]) + 9 * trit_of(f[2]) + 3 * trit_of(f[3]) + trit_of(
        f[4],
    )
}

/// The digit of `pid` at position `i`, counted from the most significant of five.
pub open spec fn trit_at(pid: int, i: int) -> int {
    if i == 0 {
        (pid / 81) % 3
    } else if i == 1 {
        (pid / 27) % 3
    } else if i == 2 {
        (pid / 9) % 3
    } else if i == 3 {
        (pid / 3) % 3
    } else {
        pid % 3
    }
}

/// The feedback that `pid` stands for.
pub open spec fn decode_spec(pid: int) -> Seq<char> {
    Seq::new(5, |i: int| symbol_of(trit_at(pid, i)))
}

/// Number of positions below `n` at which the solution holds `c` and the
/// guess does not hold the same letter: the copies of `c` left for yellows.
pub open spec fn spare_in_solution(g: Seq<char>, s: Seq<char>, c: char, n: int) -> int
    decreases n,
{
    if n <= 0 {
        0
    } else {
        spare_in_solution(g, s, c, n - 1) + if s[n - 1] == c && g[n - 1] != s[n - 1] {
            1int
        } else {
            0int
        }
    }
}

/// Number of positions below `n` at which the guess holds `c` and the
/// solution does not hold the same letter: the copies of `c` that ask for a yellow.
pub open spec fn misplaced_in_guess(g: Seq<char>, s: Seq<char>, c: char, n: int) -> int
    decreases n,
{
    if n <= 0 {
        0
    } else {
        misplaced_in_guess(g, s, c, n - 1) + if g[n - 1] == c && g[n - 1] != s[n - 1] {
            1int
        } else {
            0int
        }
    }
}

/// The symbol at position `i`: green where the letters agree; otherwise
/// yellow while the solution still has a spare copy of the letter for this
/// occurrence, counting occurrences from the left; otherwise black.
pub open spec fn symbol_at(g: Seq<char>, s: Seq<char>, i: int) -> char {
    if g[i] == s[i] {
        'G'
    } else if misplaced_in_guess(g, s, g[i], i) < spare_in_solution(g, s, g[i], 5) {
        'Y'
    } else {
        'B'
    }
}

/// The feedback of guess `g` against solution `s`.
pub open spec fn feedback_spec(g: Seq<char>, s: Seq<char>) -> Seq<char> {
    Seq::new(5, |i: int| symbol_at(g, s, i))
}

/// Every pattern number is below 243, and five greens are 242.
pub proof fn lemma_encode_range(f: Seq<char>)
    ensures
        0 <= encode_spec(f) <= 242,
        encode_spec(f) == 242 <==> (forall|i: int| 0 <= i < 5 ==> f[i] == 'G'),
{
    if encode_spec(f) == 242 {
        assert(trit_of(f[0]) == 2 && trit_of(f[1]) == 2 && trit_of(f[2]) == 2 && trit_of(f[3])
            == 2 && trit_of(f[4]) == 2);
    }
}

/// Decoding the number of a feedback gives the feedback back.
pub proof fn lemma_decode_encode(f: Seq<char>)
    requires
        is_feedback(f),
    ensures
        decode_spec(encode_spec(f)) == f,
{
    let p = encode_spec(f);
    assert(is_symbol(f[0]) && is_symbol(f[1]) && is_symbol(f[2]) && is_symbol(f[3]) && is_symbol(
        f[4],
    ));
    assert forall|i: int| 0 <= i < 5 implies symbol_of(trit_at(p, i)) == f[i] by {
        assert(trit_at(p, i) == trit_of(f[i]));
    }
    assert(decode_spec(p) =~= f);
}

/// Encoding the feedback of a pattern number gives the number back.
pub proof fn lemma_encode_decode(pid: int)
    requires
        0 <= pid < 243,
    ensures
        is_feedback(decode_spec(pid)),
        encode_spec(decode_spec(pid)) == pid,
{
    let f = decode_spec(pid);
    assert forall|i: int| 0 <= i < 5 implies trit_of(#[trigger] f[i]) == trit_at(pid, i) by {}
    assert(trit_of(f[0]) == trit_at(pid, 0));
    assert(trit_of(f[1]) == trit_at(pid, 1));
    assert(trit_of(f[2]) == trit_at(pid, 2));
    assert(trit_of(f[3]) == trit_at(pid, 3));
    assert(trit_of(f[4]) == trit_at(pid, 4));
}

/// The base-3 digit of one symbol.
fn trit_for(c: char) -> (t: usize)
    ensures
        t == trit_of(c),
{
    if c == 'G' {
        2
    } else if c == 'Y' {
        1
    } else {
        0
    }
}

/// The pattern number of a feedback.
pub fn encode(feedback: &Vec<char>) -> (pid: usize)
    requires
        feedback@.len() == 5,
    ensures
        pid == encode_spec(feedback@),
        pid < 243,
{
    81 * trit_for(feedback[0]) + 27 * trit_for(feedback[1]) + 9 * trit_for(feedback[2]) + 3
        * trit_for(feedback[3]) + trit_for(feedback[4])
}

/// The feedback of a pattern number. A number of 243 or more is read as its
/// last five base-3 digits.
pub fn decode(pid: usize) -> (feedback: Vec<char>)
    ensures
        feedback@ == decode_spec(pid as int),
        is_feedback(feedback@),
{
    let mut feedback: Vec<char> = Vec::new();
    let t0: usize = (pid / 81) % 3;
    let t1: usize = (pid / 27) % 3;
    let t2: usize = (pid / 9) % 3;
    let t3: usize = (pid / 3) % 3;
    let t4: usize = pid % 3;
    feedback.push(symbol_for(t0));
    feedback.push(symbol_for(t1));
    feedback.push(symbol_for(t2));
    feedback.push(symbol_for(t3));
    feedback.push(symbol_for(t4));
    assert(feedback@ =~= decode_spec(pid as int));
    feedback
}

/// The symbol of one base-3 digit.
fn symbol_for(t: usize) -> (c: char)
    ensures
        c == symbol_of(t as int),
        is_symbol(c),
{
    if t == 2 {
        'G'
    } else if t == 1 {
        'Y'
    } else {
        'B'
    }
}

/// The square that shows a base-3 digit: white for black, yellow, green.
pub open spec fn glyph_of(t: int) -> char {
    if t == 2 {
        '\u{1F7E9}'
    } else if t == 1 {
        '\u{1F7E8}'
    } else {
        '\u{2B1C}'
    }
}

/// The picture of a pattern: five coloured squares, the first position first.
pub open spec fn picture_of(pid: int) -> Seq<char> {
    Seq::new(5, |i: int| glyph_of(trit_at(pid, i)))
}

/// The square that shows one base-3 digit.
fn glyph_for(t: usize) -> (c: char)
    ensures
        c == glyph_of(t as int),
{
    if t == 2 {
        '\u{1F7E9}'
    } else if t == 1 {
        '\u{1F7E8}'
    } else {
        '\u{2B1C}'
    }
}

/// The picture of a pattern number, as a string of five coloured squares.
/// A number of 243 or more is read as its last five base-3 digits.
pub fn pattern_to_string(pid: usize) -> (picture: String)
    ensures
        picture@ == picture_of(pid as int),
{
    let mut picture = String::new();
    picture.push(glyph_for((pid / 81) % 3));
    picture.push(glyph_for((pid / 27) % 3));
    picture.push(glyph_for((pid / 9) % 3));
    picture.push(glyph_for((pid / 3) % 3));
    picture.push(glyph_for(pid % 3));
    assert(picture@ =~= picture_of(pid as int));
    picture
}

/// Whether `w` is a word of the engine: five letters of `A`..`Z`.
pub fn valid_word(w: &str) -> (r: bool)
    ensures
        r == is_word(w@),
{
    let chars = chars_of(w);
    if chars.len() != 5 {
        return false;
    }
    let mut i: usize = 0;
    while i < 5
        invariant
            i <= 5,
            chars@ == w@,
            chars@.len() == 5,
            forall|k: int| 0 <= k < i ==> 'A' <= #[trigger] chars@[k] && chars@[k] <= 'Z',
        decreases 5 - i,
    {
        if !('A' <= chars[i] && chars[i] <= 'Z') {
            return false;
        }
        i += 1;
    }
    true
}

} // verus!
