//! Conversions between strings and character sequences, and the ASCII
//! normalisation that every word and feedback string goes through.

use vstd::prelude::*;
use vstd::utf8::is_ascii_chars;

verus! {

/// `String::push` appends exactly one character.
pub assume_specification[ String::push ](s: &mut String, c: char)
    ensures
        final(s)@ == old(s)@.push(c),
;

/// The characters of `s`, in order.
pub fn chars_of(s: &str) -> (v: Vec<char>)
    ensures
        v@ == s@,
{
    let mut v: Vec<char> = Vec::new();
    for c in it: s.chars()
        invariant
            it.seq() == s@,
            v@ == s@.take(it.index() as int),
    {
        v.push(c);
    }
    assert(s@.take(s@.len() as int) == s@);
    v
}

/// The string made of the characters `v[from..to]`.
pub fn string_of(v: &Vec<char>, from: usize, to: usize) -> (s: String)
    requires
        from <= to <= v@.len(),
    ensures
        s@ == v@.subrange(from as int, to as int),
{
    let mut s = String::new();
    let mut i: usize = from;
    while i < to
        invariant
            from <= i <= to <= v@.len(),
            s@ == v@.subrange(from as int, i as int),
        decreases to - i,
    {
        s.push(v[i]);
        i += 1;
        assert(v@.subrange(from as int, i as int) == v@.subrange(from as int, i - 1).push(v@[i - 1]));
    }
    s
}

/// ASCII upper-casing of one character: `a`..`z` map to `A`..`Z`, every
/// other character is left as it is.
pub open spec fn upper(c: char) -> char {
    if 'a' <= c && c <= 'z' {
        ((c as u8) - 32) as char
    } else {
        c
    }
}

/// Upper-cases one character.
pub fn to_upper(c: char) -> (r: char)
    ensures
        r == upper(c),
{
    if 'a' <= c && c <= 'z' {
        ((c as u8) - 32) as char
    } else {
        c
    }
}

/// Whether two strings read the same.
pub fn same_text(a: &str, b: &str) -> (r: bool)
    ensures
        r == (a@ == b@),
{
    let x = chars_of(a);
    let y = chars_of(b);
    if x.len() != y.len() {
        return false;
    }
    let mut i: usize = 0;
    while i < x.len()
        invariant
            i <= x@.len(),
            x@ == a@,
            y@ == b@,
            x@.len() == y@.len(),
            forall|k: int| 0 <= k < i ==> x@[k] == y@[k],
        decreases x@.len() - i,
    {
        if x[i] != y[i] {
            return false;
        }
        i += 1;
    }
    assert(x@ =~= y@);
    true
}

/// White space: the characters that separate tokens and that trimming removes.
pub open spec fn is_space(c: char) -> bool {
    ||| ('\u{9}' <= c && c <= '\u{D}')
    ||| c == ' '
    ||| c == '\u{85}'
    ||| c == '\u{A0}'
    ||| c == '\u{1680}'
    ||| ('\u{2000}' <= c && c <= '\u{200A}')
    ||| c == '\u{2028}'
    ||| c == '\u{2029}'
    ||| c == '\u{202F}'
    ||| c == '\u{205F}'
    ||| c == '\u{3000}'
}

/// Whether `c` is white space.
pub fn space(c: char) -> (r: bool)
    ensures
        r == is_space(c),
{
    ('\u{9}' <= c && c <= '\u{D}') || c == ' ' || c == '\u{85}' || c == '\u{A0}' || c
        == '\u{1680}' || ('\u{2000}' <= c && c <= '\u{200A}') || c == '\u{2028}' || c
        == '\u{2029}' || c == '\u{202F}' || c == '\u{205F}' || c == '\u{3000}'
}

/// The number of white-space characters that `s` begins with.
pub open spec fn leading_spaces(s: Seq<char>) -> nat
    decreases s.len(),
{
    if s.len() > 0 && is_space(s[0]) {
        1 + leading_spaces(s.drop_first())
    } else {
        0
    }
}

/// The number of white-space characters that `s` ends with.
pub open spec fn trailing_spaces(s: Seq<char>) -> nat
    decreases s.len(),
{
    if s.len() > 0 && is_space(s.last()) {
        1 + trailing_spaces(s.drop_last())
    } else {
        0
    }
}

/// `s` without the white space at its two ends.
pub open spec fn trimmed(s: Seq<char>) -> Seq<char> {
    if leading_spaces(s) == s.len() {
        Seq::empty()
    } else {
        s.subrange(leading_spaces(s) as int, s.len() - trailing_spaces(s))
    }
}

/// `s` with each character in upper case.
pub open spec fn upper_all(s: Seq<char>) -> Seq<char> {
    s.map_values(|c: char| upper(c))
}

/// The characters of `token`, each in upper case.
pub fn upper_case(token: &Vec<char>) -> (upper: Vec<char>)
    ensures
        upper@ == upper_all(token@),
{
    let mut upper: Vec<char> = Vec::new();
    let mut i: usize = 0;
    while i < token.len()
        invariant
            i <= token@.len(),
            upper@ == upper_all(token@.take(i as int)),
        decreases token@.len() - i,
    {
        upper.push(to_upper(token[i]));
        i += 1;
        assert(upper@ =~= upper_all(token@.take(i as int)));
    }
    assert(token@.take(token@.len() as int) == token@);
    upper
}

/// The leading white space of `s` is the longest prefix made of white space.
proof fn lemma_leading(s: Seq<char>, n: int)
    requires
        0 <= n <= s.len(),
        forall|k: int| 0 <= k < n ==> is_space(s[k]),
        n == s.len() || !is_space(s[n]),
    ensures
        leading_spaces(s) == n,
    decreases n,
{
    if n > 0 {
        let rest = s.drop_first();
        assert forall|k: int| 0 <= k < n - 1 implies is_space(rest[k]) by {
            assert(rest[k] == s[k + 1]);
        }
        lemma_leading(rest, n - 1);
    }
}

/// The trailing white space of `s` is the longest suffix made of white space.
proof fn lemma_trailing(s: Seq<char>, n: int)
    requires
        0 <= n <= s.len(),
        forall|k: int| s.len() - n <= k < s.len() ==> is_space(s[k]),
        n == s.len() || !is_space(s[s.len() - n - 1]),
    ensures
        trailing_spaces(s) == n,
    decreases n,
{
    if n > 0 {
        let rest = s.drop_last();
        assert forall|k: int| rest.len() - (n - 1) <= k < rest.len() implies is_space(rest[k]) by {
            assert(rest[k] == s[k]);
        }
        lemma_trailing(rest, n - 1);
    }
}

/// Trims `line` and puts it in upper case.
pub fn normalize(line: &Vec<char>) -> (word: Vec<char>)
    ensures
        word@ == upper_all(trimmed(line@)),
{
    let n = line.len();
    let mut from: usize = 0;
    while from < n && space(line[from])
        invariant
            n == line@.len(),
            from <= n,
            forall|k: int| 0 <= k < from ==> is_space(line@[k]),
        decreases n - from,
    {
        from += 1;
    }
    proof {
        lemma_leading(line@, from as int);
    }
    let mut word: Vec<char> = Vec::new();
    if from == n {
        assert(word@ =~= upper_all(trimmed(line@)));
        return word;
    }
    let mut to: usize = n;
    while to > from && space(line[to - 1])
        invariant
            n == line@.len(),
            from <= to <= n,
            from < n,
            !is_space(line@[from as int]),
            forall|k: int| to <= k < n ==> is_space(line@[k]),
        decreases to,
    {
        to -= 1;
    }
    proof {
        lemma_trailing(line@, n - to);
    }
    let mut i: usize = from;
    while i < to
        invariant
            from <= i <= to <= n,
            n == line@.len(),
            word@ == upper_all(line@.subrange(from as int, i as int)),
        decreases to - i,
    {
        word.push(to_upper(line[i]));
        i += 1;
        assert(word@ =~= upper_all(line@.subrange(from as int, i as int)));
    }
    word
}

/// Whether every character of `v` is ASCII.
pub fn ascii_only(v: &Vec<char>) -> (r: bool)
    ensures
        r == is_ascii_chars(v@),
{
    let mut i: usize = 0;
    while i < v.len()
        invariant
            i <= v@.len(),
            forall|k: int| 0 <= k < i ==> '\0' <= #[trigger] v@[k] <= '\u{7f}',
        decreases v@.len() - i,
    {
        if !('\0' <= v[i] && v[i] <= '\u{7f}') {
            return false;
        }
        i += 1;
    }
    true
}

/// Upper-casing keeps the length, keeps ASCII text ASCII, and leaves no
/// letter of `a`..`z`.
pub proof fn lemma_upper_all(s: Seq<char>)
    ensures
        upper_all(s).len() == s.len(),
        is_ascii_chars(upper_all(s)) <==> is_ascii_chars(s),
        forall|i: int|
            0 <= i < s.len() ==> !('a' <= #[trigger] upper_all(s)[i] && upper_all(s)[i] <= 'z'),
{
    if is_ascii_chars(s) {
        assert forall|i: int| 0 <= i < s.len() implies '\0' <= #[trigger] upper_all(s)[i]
            <= '\u{7f}' by {
            assert('\0' <= s[i] <= '\u{7f}');
        }
    }
    if is_ascii_chars(upper_all(s)) {
        assert forall|i: int| 0 <= i < s.len() implies '\0' <= #[trigger] s[i] <= '\u{7f}' by {
            assert('\0' <= upper_all(s)[i] <= '\u{7f}');
        }
    }
}

} // verus!
