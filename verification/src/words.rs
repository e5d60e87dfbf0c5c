//! Reading a word list: one word per line, put in upper case, and only
//! the lines of five ASCII characters kept.

use crate::filter::all_five;
use crate::text::{
    ascii_only, chars_of, lemma_upper_all, normalize, string_of, trimmed, upper_all, upper_case,
};
use std::io::Read;
use vstd::prelude::*;
use vstd::utf8::is_ascii_chars;

verus! {

/// Why no word list could be had.
#[derive(Clone, Copy, Debug, PartialEq, Eq)]
pub enum LoadError {
    /// The text holds no line of five ASCII characters.
    NoWords,
    /// The bytes are no gzip member that unpacks to text.
    BadArchive,
}

/// What the strings of a list read.
pub open spec fn views(words: Seq<String>) -> Seq<Seq<char>> {
    words.map_values(|w: String| w@)
}

/// The lines closed so far and the line still open, after `n` characters.
/// A line feed closes a line; a carriage return just before it is no part
/// of the line.
pub open spec fn scan_lines(s: Seq<char>, n: int) -> (Seq<Seq<char>>, Seq<char>)
    decreases n,
{
    if n <= 0 {
        (Seq::empty(), Seq::empty())
    } else {
        let (closed, open) = scan_lines(s, n - 1);
        if s[n - 1] == '\n' {
            if open.len() > 0 && open.last() == '\r' {
                (closed.push(open.drop_last()), Seq::empty())
            } else {
                (closed.push(open), Seq::empty())
            }
        } else {
            (closed, open.push(s[n - 1]))
        }
    }
}

/// The lines of a text. The last line need not end in a line feed.
pub open spec fn lines_of(s: Seq<char>) -> Seq<Seq<char>> {
    let (closed, open) = scan_lines(s, s.len() as int);
    if open.len() > 0 {
        closed.push(open)
    } else {
        closed
    }
}

/// The entry that a line stands for: the line in upper case, trimmed first
/// where `trim` is set.
pub open spec fn entry_of(line: Seq<char>, trim: bool) -> Seq<char> {
    if trim {
        upper_all(trimmed(line))
    } else {
        upper_all(line)
    }
}

/// An entry that is kept: five characters, all of them ASCII. Of such an
/// entry the characters are the bytes, and its upper case is the same in
/// every alphabet.
pub open spec fn is_kept(w: Seq<char>) -> bool {
    w.len() == 5 && is_ascii_chars(w)
}

/// The entries that are kept among those of `lines`, in their order.
pub open spec fn entries(lines: Seq<Seq<char>>, trim: bool) -> Seq<Seq<char>> {
    lines.map_values(|line: Seq<char>| entry_of(line, trim)).filter(|w: Seq<char>| is_kept(w))
}

/// The word list that a text holds.
pub open spec fn word_list(text: Seq<char>, trim: bool) -> Seq<Seq<char>> {
    entries(lines_of(text), trim)
}

/// One more line adds its entry, if that is kept.
proof fn lemma_entries_push(lines: Seq<Seq<char>>, line: Seq<char>, trim: bool)
    ensures
        entries(lines.push(line), trim) == if is_kept(entry_of(line, trim)) {
            entries(lines, trim).push(entry_of(line, trim))
        } else {
            entries(lines, trim)
        },
{
    reveal(Seq::filter);
    let f = |line: Seq<char>| entry_of(line, trim);
    assert(lines.push(line).map_values(f) =~= lines.map_values(f).push(entry_of(line, trim)));
    assert(lines.map_values(f).push(entry_of(line, trim)).drop_last() == lines.map_values(f));
}

/// Adds the entry of `line` to `out` if it is kept.
fn keep_line(out: &mut Vec<String>, line: &Vec<char>, trim: bool)
    ensures
        views(final(out)@) == if is_kept(entry_of(line@, trim)) {
            views(old(out)@).push(entry_of(line@, trim))
        } else {
            views(old(out)@)
        },
{
    let word = if trim {
        normalize(line)
    } else {
        upper_case(line)
    };
    if word.len() == 5 && ascii_only(&word) {
        let s = string_of(&word, 0, 5);
        assert(word@.subrange(0, 5) == word@);
        out.push(s);
        assert(views(out@) =~= views(old(out)@).push(word@));
    }
}

/// Every word of a word list has five ASCII characters, none of them a
/// letter of `a`..`z`.
pub proof fn lemma_word_list_entries(text: Seq<char>, trim: bool)
    ensures
        forall|k: int|
            0 <= k < word_list(text, trim).len() ==> {
                let w = #[trigger] word_list(text, trim)[k];
                &&& is_kept(w)
                &&& forall|i: int| 0 <= i < 5 ==> !('a' <= #[trigger] w[i] && w[i] <= 'z')
            },
{
    let all = lines_of(text).map_values(|line: Seq<char>| entry_of(line, trim));
    let kept = |w: Seq<char>| is_kept(w);
    assert forall|k: int| 0 <= k < word_list(text, trim).len() implies {
        let w = #[trigger] word_list(text, trim)[k];
        &&& is_kept(w)
        &&& forall|i: int| 0 <= i < 5 ==> !('a' <= #[trigger] w[i] && w[i] <= 'z')
    } by {
        let w = word_list(text, trim)[k];
        all.lemma_filter_pred(kept, k);
        assert(all.filter(kept).contains(w));
        all.lemma_filter_contains_rev(kept, w);
        let j = choose|j: int| 0 <= j < all.len() && all[j] == w;
        let line = lines_of(text)[j];
        if trim {
            lemma_upper_all(trimmed(line));
        } else {
            lemma_upper_all(line);
        }
    }
}

/// The words that `text` lists, one per line: each line in upper case,
/// trimmed first where `trim` is set, and kept if it then has five
/// characters, all of them ASCII.
pub fn read_word_list(text: &str, trim: bool) -> (words: Vec<String>)
    ensures
        views(words@) == word_list(text@, trim),
        all_five(words@),
{
    let chars = chars_of(text);
    let mut words: Vec<String> = Vec::new();
    let mut open: Vec<char> = Vec::new();
    let ghost mut closed: Seq<Seq<char>> = Seq::empty();
    let mut i: usize = 0;
    proof {
        reveal(Seq::filter);
        assert(views(words@) =~= entries(closed, trim));
    }
    while i < chars.len()
        invariant
            i <= chars@.len(),
            scan_lines(chars@, i as int) == (closed, open@),
            views(words@) == entries(closed, trim),
        decreases chars@.len() - i,
    {
        let c = chars[i];
        if c == '\n' {
            if open.len() > 0 && open[open.len() - 1] == '\r' {
                open.pop();
            }
            keep_line(&mut words, &open, trim);
            proof {
                lemma_entries_push(closed, open@, trim);
                closed = closed.push(open@);
            }
            open = Vec::new();
        } else {
            open.push(c);
        }
        i += 1;
    }
    if open.len() > 0 {
        keep_line(&mut words, &open, trim);
        proof {
            lemma_entries_push(closed, open@, trim);
        }
    }
    proof {
        lemma_word_list_entries(text@, trim);
        assert forall|k: int| 0 <= k < words@.len() implies (#[trigger] words@[k])@.len() == 5 by {
            assert(views(words@)[k] == words@[k]@);
        }
    }
    words
}

/// The error type of `std::io`, carried through and never looked into.
#[verifier::external_type_specification]
#[verifier::external_body]
pub struct ExIoError(std::io::Error);

/// The text that a gzip member unpacks to, if the bytes are one and its
/// content is UTF-8: what `flate2::read::GzDecoder` reads from them.
pub uninterp spec fn gunzip_spec(data: Seq<u8>) -> Option<Seq<char>>;

/// Unpacks one gzip member with `flate2::read::GzDecoder`, read to its end
/// by `read_to_string`. The decoder works on the bytes alone, so the same
/// bytes always give the same outcome: the text, or an error where the
/// header, the compressed stream or the checksum is bad or the content is
/// no UTF-8. Nothing more is claimed of it.
#[verifier::external_body]
fn gunzip(data: &[u8]) -> (r: Result<String, std::io::Error>)
    ensures
        match r {
            Ok(text) => gunzip_spec(data@) == Some(text@),
            Err(_) => gunzip_spec(data@) is None,
        },
{
    let mut decoder = flate2::read::GzDecoder::new(data);
    let mut text = String::new();
    decoder.read_to_string(&mut text)?;
    Ok(text)
}

/// The words of a list with at least one word: `text` read with trimming,
/// or `NoWords` where that gives nothing.
pub fn load_words(text: &str) -> (r: Result<Vec<String>, LoadError>)
    ensures
        match r {
            Ok(words) => views(words@) == word_list(text@, true) && words@.len() > 0
                && all_five(words@),
            Err(e) => e == LoadError::NoWords && word_list(text@, true).len() == 0,
        },
{
    let words = read_word_list(text, true);
    if words.len() == 0 {
        Err(LoadError::NoWords)
    } else {
        Ok(words)
    }
}

/// The words of an unpacked list: `text` read with trimming. Unlike
/// `load_words` it accepts a list without words.
pub fn words_of_archive(unpacked: Result<String, std::io::Error>) -> (r: Result<
    Vec<String>,
    LoadError,
>)
    ensures
        match unpacked {
            Ok(text) => r is Ok && views(r->Ok_0@) == word_list(text@, true) && all_five(
                r->Ok_0@,
            ),
            Err(_) => r == Err::<Vec<String>, LoadError>(LoadError::BadArchive),
        },
{
    match unpacked {
        Ok(text) => Ok(read_word_list(text.as_str(), true)),
        Err(_) => Err(LoadError::BadArchive),
    }
}

/// The words of a gzip-compressed list: `BadArchive` where the bytes do
/// not unpack to text, else the words of that text.
pub fn load_words_compressed(data: &[u8]) -> (r: Result<Vec<String>, LoadError>)
    ensures
        match gunzip_spec(data@) {
            Some(text) => r is Ok && views(r->Ok_0@) == word_list(text, true) && all_five(
                r->Ok_0@,
            ),
            None => r == Err::<Vec<String>, LoadError>(LoadError::BadArchive),
        },
{
    words_of_archive(gunzip(data))
}

/// `p` without the carriage return at its end, if it has one.
pub open spec fn chomp(p: Seq<char>) -> Seq<char> {
    if p.len() > 0 && p.last() == '\r' {
        p.drop_last()
    } else {
        p
    }
}

/// `feeds` are the positions of the line feeds among the first `upto`
/// characters of `s`, in order.
pub open spec fn is_feeds(s: Seq<char>, upto: int, feeds: Seq<int>) -> bool {
    &&& forall|k: int| 0 <= k < feeds.len() ==> 0 <= #[trigger] feeds[k] < upto && s[feeds[k]] == '\n'
    &&& forall|k: int, l: int| 0 <= k < l < feeds.len() ==> #[trigger] feeds[k] < #[trigger] feeds[l]
    &&& forall|i: int| 0 <= i < upto && #[trigger] s[i] == '\n' ==> feeds.contains(i)
}

/// The position at which the piece before line feed `k` begins: the start
/// of the text, or the position after the line feed before.
pub open spec fn piece_start(feeds: Seq<int>, k: int) -> int {
    if k <= 0 {
        0
    } else {
        feeds[k - 1] + 1
    }
}

/// What the scan holds after `n` characters: one closed line for each line
/// feed, and the open line that begins after the last of them.
proof fn lemma_scan_lines(s: Seq<char>, n: int) -> (feeds: Seq<int>)
    requires
        0 <= n <= s.len(),
    ensures
        ({
            let (closed, open) = scan_lines(s, n);
            let m = piece_start(feeds, feeds.len() as int);
            &&& is_feeds(s, n, feeds)
            &&& feeds.len() == closed.len()
            &&& 0 <= m <= n
            &&& open == s.subrange(m, n)
            &&& forall|k: int|
                0 <= k < feeds.len() ==> #[trigger] closed[k] == chomp(
                    s.subrange(piece_start(feeds, k), feeds[k]),
                )
        }),
    decreases n,
{
    if n == 0 {
        assert(scan_lines(s, 0).1 =~= s.subrange(0, 0));
        Seq::<int>::empty()
    } else {
        let before = lemma_scan_lines(s, n - 1);
        let (closed0, open0) = scan_lines(s, n - 1);
        let m0 = piece_start(before, before.len() as int);
        if s[n - 1] == '\n' {
            let feeds = before.push(n - 1);
            let (closed, open) = scan_lines(s, n);
            assert(open =~= s.subrange(n, n));
            assert(closed == closed0.push(chomp(open0)));
            assert forall|i: int| 0 <= i < n && #[trigger] s[i] == '\n' implies feeds.contains(
                i,
            ) by {
                if i < n - 1 {
                    assert(before.contains(i));
                    let k = choose|k: int| 0 <= k < before.len() && before[k] == i;
                    assert(feeds[k] == i);
                } else {
                    assert(feeds[before.len() as int] == i);
                }
            }
            assert forall|k: int| 0 <= k < feeds.len() implies #[trigger] closed[k] == chomp(
                s.subrange(piece_start(feeds, k), feeds[k]),
            ) by {
                if k < before.len() {
                    assert(feeds[k] == before[k]);
                    assert(piece_start(feeds, k) == piece_start(before, k));
                    assert(closed[k] == closed0[k]);
                } else {
                    assert(piece_start(feeds, k) == m0);
                }
            }
            feeds
        } else {
            assert(open0.push(s[n - 1]) =~= s.subrange(m0, n));
            assert forall|i: int| 0 <= i < n && #[trigger] s[i] == '\n' implies before.contains(
                i,
            ) by {}
            before
        }
    }
}

/// The lines of a text are the pieces between its line feeds, each without
/// a carriage return at its end, and after them what follows the last line
/// feed, if anything does.
pub proof fn lemma_lines_are_pieces(s: Seq<char>) -> (feeds: Seq<int>)
    ensures
        is_feeds(s, s.len() as int, feeds),
        ({
            let rest = s.subrange(piece_start(feeds, feeds.len() as int), s.len() as int);
            &&& lines_of(s).len() == feeds.len() + if rest.len() > 0 {
                1int
            } else {
                0int
            }
            &&& forall|k: int|
                0 <= k < feeds.len() ==> #[trigger] lines_of(s)[k] == chomp(
                    s.subrange(piece_start(feeds, k), feeds[k]),
                )
            &&& rest.len() > 0 ==> lines_of(s).last() == rest
        }),
{
    let feeds = lemma_scan_lines(s, s.len() as int);
    let (closed, open) = scan_lines(s, s.len() as int);
    assert forall|k: int| 0 <= k < feeds.len() implies #[trigger] lines_of(s)[k] == chomp(
        s.subrange(piece_start(feeds, k), feeds[k]),
    ) by {
        assert(lines_of(s)[k] == closed[k]);
    }
    feeds
}

} // verus!
