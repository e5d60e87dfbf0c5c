//! Offline analysis: which words open best, and how one word spreads the
//! word list over the patterns.

use crate::feedback::slot;
use crate::filter::all_five;
use crate::pattern::is_word;
use crate::rank::{is_ranking, key_above, occurs, precedes, rank, RankKey};
use crate::score::{all_words, score_guess, total, Tally};
use crate::solver::{better, histogram_spec, score_spec, Score};
use crate::text::{ascii_only, chars_of, string_of, upper_all, upper_case};
use crate::words::{load_words, views, word_list, LoadError};
use vstd::prelude::*;
use vstd::utf8::is_ascii_chars;

verus! {

/// Analyses a word list for the words that open best.
pub struct StartingWordAnalyzer {
    words: Vec<String>,
}

/// The key that ranks an opener: entropy first, then the smaller sum of
/// squares, then the greater number of wins.
pub open spec fn starter_key(score: Score) -> RankKey {
    RankKey {
        first: score.entropy_bits as u128,
        second: (u128::MAX - score.sum_squares) as u128,
        third: score.wins as u128,
    }
}

/// The scores of the words of a list as openers, each over the whole
/// list, given their entropies.
pub open spec fn opener_scores(words: Seq<String>, entropy_bits: Seq<u64>) -> Seq<Score> {
    Seq::new(words.len(), |i: int| score_spec(words[i]@, words, entropy_bits[i]))
}

/// The keys of a list of scores.
pub open spec fn starter_keys(scores: Seq<Score>) -> Seq<RankKey> {
    scores.map_values(|s: Score| starter_key(s))
}

/// The key of an opener ranks above another exactly when the one opener
/// beats the other in the order of the selector, both taken as candidates.
pub proof fn lemma_starter_key(a: Score, b: Score)
    ensures
        key_above(starter_key(a), starter_key(b)) <==> better(a, true, b, true),
{
}

/// The key that ranks a pattern: the number of words that earn it.
pub open spec fn count_keys(hist: Seq<usize>) -> Seq<RankKey> {
    hist.map_values(|c: usize| RankKey { first: c as u128, second: 0, third: 0 })
}

/// `dist` lists the patterns that occur, each with its count, the most
/// frequent first and, among equally frequent ones, the smaller number first.
pub open spec fn is_distribution(hist: Seq<usize>, dist: Seq<(usize, usize)>) -> bool {
    &&& forall|i: int|
        0 <= i < dist.len() ==> (#[trigger] dist[i]).0 < hist.len() && dist[i].1
            == hist[dist[i].0 as int] && dist[i].1 > 0
    &&& forall|i: int, j: int|
        0 <= i < j < dist.len() ==> (#[trigger] dist[i]).1 > (#[trigger] dist[j]).1 || (dist[i].1
            == dist[j].1 && dist[i].0 < dist[j].0)
    &&& forall|k: int|
        0 <= k < hist.len() && #[trigger] hist[k] > 0 ==> exists|i: int|
            0 <= i < dist.len() && (#[trigger] dist[i]).0 == k
}

/// The patterns that occur in `hist`, each with its count, most frequent first.
pub fn pattern_distribution(hist: &Vec<usize>) -> (dist: Vec<(usize, usize)>)
    ensures
        is_distribution(hist@, dist@),
{
    let n = hist.len();
    let mut keys: Vec<RankKey> = Vec::new();
    let mut k: usize = 0;
    while k < n
        invariant
            n == hist@.len(),
            k <= n,
            keys@ == count_keys(hist@.take(k as int)),
        decreases n - k,
    {
        keys.push(RankKey { first: hist[k] as u128, second: 0, third: 0 });
        k += 1;
        assert(keys@ =~= count_keys(hist@.take(k as int)));
    }
    assert(hist@.take(n as int) == hist@);
    let order = rank(&keys, n);
    let mut dist: Vec<(usize, usize)> = Vec::new();
    let mut i: usize = 0;
    while i < n && hist[order[i]] > 0
        invariant
            n == hist@.len(),
            i <= n,
            keys@ == count_keys(hist@),
            is_ranking(keys@, n as int, order@),
            dist@.len() == i,
            forall|j: int|
                0 <= j < i ==> (#[trigger] dist@[j]).0 == order@[j] && dist@[j].1
                    == hist@[order@[j] as int] && dist@[j].1 > 0,
        decreases n - i,
    {
        dist.push((order[i], hist[order[i]]));
        i += 1;
    }
    proof {
        assert forall|a: int, b: int| 0 <= a < b < dist@.len() implies (#[trigger] dist@[a]).1 > (
        #[trigger] dist@[b]).1 || (dist@[a].1 == dist@[b].1 && dist@[a].0 < dist@[b].0) by {
            assert(precedes(keys@, order@[a] as int, order@[b] as int));
        }
        assert forall|k: int| 0 <= k < n && #[trigger] hist@[k] > 0 implies exists|j: int|
            0 <= j < dist@.len() && (#[trigger] dist@[j]).0 == k by {
            assert(occurs(order@, k));
            let j = choose|j: int| 0 <= j < order@.len() && order@[j] == k;
            if j > i {
                assert(precedes(keys@, order@[i as int] as int, order@[j] as int));
            }
            assert(dist@[j].0 == k);
        }
    }
    dist
}

impl StartingWordAnalyzer {
    /// The words under analysis.
    pub closed spec fn listed(&self) -> Seq<String> {
        self.words@
    }

    /// An analyzer of the word list that `text` holds, one word per line.
    /// A text without words is refused.
    pub fn new(text: &str) -> (r: Result<Self, LoadError>)
        ensures
            match r {
                Ok(analyzer) => views(analyzer.listed()) == word_list(text@, true)
                    && analyzer.listed().len() > 0 && all_five(analyzer.listed()),
                Err(e) => e == LoadError::NoWords && word_list(text@, true).len() == 0,
            },
    {
        match load_words(text) {
            Ok(words) => Ok(StartingWordAnalyzer { words }),
            Err(e) => Err(e),
        }
    }

    /// An analyzer of `words`.
    pub fn from_words(words: Vec<String>) -> (analyzer: Self)
        ensures
            analyzer.listed() == words@,
    {
        StartingWordAnalyzer { words }
    }

    /// The words under analysis.
    pub fn words(&self) -> (words: &Vec<String>)
        ensures
            words@ == self.listed(),
    {
        &self.words
    }

    /// Scores `guess` as an opener: against every word of the list.
    pub fn score_as_opener(&self, guess: &str) -> (tally: Tally)
        requires
            is_word(guess@),
            all_words(self.listed()),
        ensures
            tally.describes(guess@, self.listed()),
    {
        score_guess(guess, &self.words)
    }

    /// The positions in the list of the `top_n` best openers, best first,
    /// each word scored against the whole list, where `entropy_bits` holds
    /// for each word the entropy of its histogram, which the caller
    /// computes. Openers that score alike stay in the order of the list.
    pub fn find_best_starters(&self, entropy_bits: &Vec<u64>, top_n: usize) -> (best: Vec<usize>)
        requires
            all_words(self.listed()),
            entropy_bits@.len() == self.listed().len(),
        ensures
            is_ranking(
                starter_keys(opener_scores(self.listed(), entropy_bits@)),
                top_n as int,
                best@,
            ),
    {
        let n = self.words.len();
        let ghost scores = opener_scores(self.words@, entropy_bits@);
        let mut keys: Vec<RankKey> = Vec::new();
        let mut k: usize = 0;
        while k < n
            invariant
                n == self.words@.len(),
                n == entropy_bits@.len(),
                k <= n,
                all_words(self.words@),
                scores == opener_scores(self.words@, entropy_bits@),
                keys@ == starter_keys(scores).take(k as int),
            decreases n - k,
        {
            let tally = self.score_as_opener(self.words[k].as_str());
            assert(tally.histogram@ =~= histogram_spec(self.words@[k as int]@, self.words@));
            let s = Score::of_tally(&tally, entropy_bits[k]);
            assert(s == scores[k as int]);
            keys.push(
                RankKey {
                    first: s.entropy_bits as u128,
                    second: u128::MAX - s.sum_squares,
                    third: s.wins as u128,
                },
            );
            k += 1;
            assert(keys@ =~= starter_keys(scores).take(k as int));
        }
        assert(starter_keys(scores).take(n as int) == starter_keys(scores));
        rank(&keys, top_n)
    }

    /// The tally of `word`, put in upper case, as an opener, and the
    /// patterns it earns with their counts, most frequent first. Nothing
    /// for a word that has not five characters, or one that is not ASCII.
    pub fn analyze_word(&self, word: &str) -> (r: Option<(Tally, Vec<(usize, usize)>)>)
        requires
            all_words(self.listed()),
            word@.len() == 5 && is_ascii_chars(word@) ==> is_word(upper_all(word@)),
        ensures
            match r {
                Some((tally, dist)) => {
                    &&& word@.len() == 5
                    &&& is_ascii_chars(word@)
                    &&& tally.describes(upper_all(word@), self.listed())
                    &&& is_distribution(tally.histogram@, dist@)
                },
                None => word@.len() != 5 || !is_ascii_chars(word@),
            },
    {
        let chars = chars_of(word);
        if chars.len() != 5 || !ascii_only(&chars) {
            return None;
        }
        let upper = upper_case(&chars);
        let guess = string_of(&upper, 0, 5);
        assert(upper@.subrange(0, 5) == upper@);
        let tally = self.score_as_opener(guess.as_str());
        let dist = pattern_distribution(&tally.histogram);
        Some((tally, dist))
    }
}

/// The letter at position `n` occurs at one of the first `upto` positions.
pub open spec fn seen_before(w: Seq<char>, n: int, upto: int) -> bool {
    exists|j: int| 0 <= j < upto && #[trigger] w[j] == w[n]
}

/// Number of positions below `n` whose letter has not occurred before.
pub open spec fn first_occurrences(w: Seq<char>, n: int) -> int
    decreases n,
{
    if n <= 0 {
        0
    } else {
        first_occurrences(w, n - 1) + if seen_before(w, n - 1, n - 1) {
            0int
        } else {
            1int
        }
    }
}

/// The number of distinct letters of a word.
pub open spec fn distinct_letters(w: Seq<char>) -> int {
    first_occurrences(w, w.len() as int)
}

/// The number of words that hold letter `c` at position `i`.
pub open spec fn letter_count(words: Seq<String>, c: char, i: int) -> nat {
    words.filter(|v: String| v@[i] == c).len()
}

/// For each of the first `n` positions of `w`, the number of words that
/// hold the same letter there, summed up.
pub open spec fn shared_letters(words: Seq<String>, w: Seq<char>, n: int) -> int
    decreases n,
{
    if n <= 0 {
        0
    } else {
        shared_letters(words, w, n - 1) + letter_count(words, w[n - 1], n - 1)
    }
}

/// The key that ranks a word by diversity: the number of its distinct
/// letters, then the number of letters it shares in place with the list.
pub open spec fn diversity_key(words: Seq<String>, w: Seq<char>) -> RankKey {
    RankKey {
        first: distinct_letters(w) as u128,
        second: shared_letters(words, w, 5) as u128,
        third: 0,
    }
}

/// The diversity keys of the words of a list, each taken against the whole list.
pub open spec fn diversity_keys(words: Seq<String>) -> Seq<RankKey> {
    Seq::new(words.len(), |t: int| diversity_key(words, words[t]@))
}

/// The place in the table of letter `c` at position `i`.
pub open spec fn cell(c: char, i: int) -> int {
    5 * slot(c) + i
}

/// `table` counts, for each letter of `A`..`Z` and each of the five
/// positions, the words that hold the letter there.
pub open spec fn is_letter_table(table: Seq<usize>, words: Seq<String>) -> bool {
    &&& table.len() == 130
    &&& forall|c: char, i: int|
        'A' <= c && c <= 'Z' && 0 <= i < 5 ==> table[cell(c, i)] == #[trigger] letter_count(
            words,
            c,
            i,
        )
}

/// The number of distinct letters of `w`.
pub fn count_distinct(w: &Vec<char>) -> (count: usize)
    ensures
        count == distinct_letters(w@),
{
    let mut count: usize = 0;
    let mut n: usize = 0;
    while n < w.len()
        invariant
            n <= w@.len(),
            count == first_occurrences(w@, n as int),
            count <= n,
        decreases w@.len() - n,
    {
        let mut seen = false;
        let mut j: usize = 0;
        while j < n
            invariant
                j <= n < w@.len(),
                seen == seen_before(w@, n as int, j as int),
            decreases n - j,
        {
            if w[j] == w[n] {
                seen = true;
            }
            j += 1;
        }
        if !seen {
            count += 1;
        }
        n += 1;
    }
    count
}

impl StartingWordAnalyzer {
    /// Counts, for each letter and position, the words that hold the
    /// letter at that position.
    pub fn calculate_letter_frequencies(&self) -> (table: Vec<usize>)
        requires
            all_words(self.listed()),
        ensures
            is_letter_table(table@, self.listed()),
    {
        let mut table: Vec<usize> = Vec::new();
        let mut k: usize = 0;
        while k < 130
            invariant
                k <= 130,
                table@.len() == k,
                forall|j: int| 0 <= j < k ==> table@[j] == 0,
            decreases 130 - k,
        {
            table.push(0);
            k += 1;
        }
        let mut t: usize = 0;
        proof {
            reveal(Seq::filter);
            assert(self.words@.take(0) =~= Seq::<String>::empty());
        }
        while t < self.words.len()
            invariant
                t <= self.words@.len(),
                all_words(self.words@),
                is_letter_table(table@, self.words@.take(t as int)),
            decreases self.words@.len() - t,
        {
            let w = chars_of(self.words[t].as_str());
            let ghost done = self.words@.take(t as int);
            let ghost next = self.words@.take(t + 1);
            proof {
                reveal(Seq::filter);
                assert(next.drop_last() == done);
                assert(next.last() == self.words@[t as int]);
                assert(is_word(w@));
                assert forall|c: char, i: int| #[trigger] letter_count(done, c, i) <= t by {
                    done.lemma_filter_len(|v: String| v@[i] == c);
                }
            }
            let mut i: usize = 0;
            while i < 5
                invariant
                    i <= 5,
                    is_word(w@),
                    t < usize::MAX,
                    table@.len() == 130,
                    forall|c: char, p: int| #[trigger] letter_count(done, c, p) <= t,
                    forall|c: char, p: int|
                        'A' <= c && c <= 'Z' && 0 <= p < 5 ==> table@[cell(c, p)]
                            == #[trigger] letter_count(done, c, p) + if p < i && w@[p] == c {
                            1int
                        } else {
                            0int
                        },
                decreases 5 - i,
            {
                let at: usize = 5 * ((w[i] as u8 - 65) as usize) + i;
                assert(at == cell(w@[i as int], i as int));
                assert(table@[at as int] == letter_count(done, w@[i as int], i as int));
                let ghost before = table@;
                table.set(at, table[at] + 1);
                proof {
                    assert forall|c: char, p: int|
                        'A' <= c && c <= 'Z' && 0 <= p < 5 implies table@[cell(c, p)]
                        == #[trigger] letter_count(done, c, p) + if p < i + 1 && w@[p] == c {
                        1int
                    } else {
                        0int
                    } by {
                        assert(before[cell(c, p)] == letter_count(done, c, p) + if p < i && w@[p]
                            == c {
                            1int
                        } else {
                            0int
                        });
                        if cell(c, p) == at {
                            assert(c == w@[i as int] && p == i);
                        }
                    }
                }
                i += 1;
            }
            proof {
                assert forall|c: char, p: int|
                    'A' <= c && c <= 'Z' && 0 <= p < 5 implies table@[cell(c, p)]
                    == #[trigger] letter_count(next, c, p) by {
                    reveal(Seq::filter);
                    assert(next.drop_last() == done);
                    assert(next.last()@ == w@);
                    assert(table@[cell(c, p)] == letter_count(done, c, p) + if w@[p] == c {
                        1int
                    } else {
                        0int
                    });
                }
            }
            t += 1;
        }
        assert(self.words@.take(self.words@.len() as int) == self.words@);
        table
    }

    /// The positions in the list of the `top_n` most diverse words, most
    /// diverse first: those with the most distinct letters and, among
    /// these, those that share the most letters in place with the list.
    pub fn find_diverse_starters(&self, top_n: usize) -> (best: Vec<usize>)
        requires
            all_words(self.listed()),
        ensures
            is_ranking(diversity_keys(self.listed()), top_n as int, best@),
    {
        let table = self.calculate_letter_frequencies();
        let n = self.words.len();
        let mut keys: Vec<RankKey> = Vec::new();
        let mut t: usize = 0;
        while t < n
            invariant
                n == self.words@.len(),
                t <= n,
                all_words(self.words@),
                is_letter_table(table@, self.words@),
                keys@ == diversity_keys(self.words@).take(t as int),
            decreases n - t,
        {
            let w = chars_of(self.words[t].as_str());
            assert(is_word(w@));
            let distinct = count_distinct(&w);
            let mut shared: u128 = 0;
            let mut i: usize = 0;
            while i < 5
                invariant
                    i <= 5,
                    is_word(w@),
                    is_letter_table(table@, self.words@),
                    shared == shared_letters(self.words@, w@, i as int),
                    shared <= i * usize::MAX,
                decreases 5 - i,
            {
                let at: usize = 5 * ((w[i] as u8 - 65) as usize) + i;
                assert(at == cell(w@[i as int], i as int));
                assert(table@[at as int] == letter_count(self.words@, w@[i as int], i as int));
                shared = shared + table[at] as u128;
                i += 1;
            }
            keys.push(RankKey { first: distinct as u128, second: shared, third: 0 });
            t += 1;
            assert(keys@ =~= diversity_keys(self.words@).take(t as int));
        }
        assert(diversity_keys(self.words@).take(n as int) == diversity_keys(self.words@));
        rank(&keys, top_n)
    }
}

/// The counts of a distribution, summed up.
pub open spec fn sum_counts(dist: Seq<(usize, usize)>) -> int
    decreases dist.len(),
{
    if dist.len() == 0 {
        0
    } else {
        sum_counts(dist.drop_last()) + dist.last().1
    }
}

/// Leaving one entry out lowers the sum by its count.
proof fn lemma_sum_counts_remove(dist: Seq<(usize, usize)>, i: int)
    requires
        0 <= i < dist.len(),
    ensures
        sum_counts(dist) == sum_counts(dist.remove(i)) + dist[i].1,
    decreases dist.len(),
{
    if i == dist.len() - 1 {
        assert(dist.remove(i) =~= dist.drop_last());
    } else {
        lemma_sum_counts_remove(dist.drop_last(), i);
        assert(dist.remove(i).drop_last() =~= dist.drop_last().remove(i));
        assert(dist.remove(i).last() == dist.last());
    }
}

/// The counts of a distribution add up to the counts of its histogram: to
/// the size of the list, where the histogram is that of a list.
pub proof fn lemma_distribution_total(hist: Seq<usize>, dist: Seq<(usize, usize)>)
    requires
        is_distribution(hist, dist),
    ensures
        sum_counts(dist) == total(hist),
    decreases hist.len(),
{
    if hist.len() == 0 {
        if dist.len() > 0 {
            assert(dist[0].0 < hist.len());
        }
    } else {
        let n = hist.len() - 1;
        let front = hist.drop_last();
        if hist[n] > 0 {
            let i = choose|i: int| 0 <= i < dist.len() && (#[trigger] dist[i]).0 == n;
            let rest = dist.remove(i);
            assert forall|j: int| 0 <= j < rest.len() implies (#[trigger] rest[j]).0 < front.len()
                && rest[j].1 == front[rest[j].0 as int] && rest[j].1 > 0 by {
                let o = if j < i {
                    j
                } else {
                    j + 1
                };
                assert(rest[j] == dist[o]);
                assert(dist[o].0 < hist.len());
                if o < i {
                    assert(dist[o].1 > dist[i].1 || (dist[o].1 == dist[i].1 && dist[o].0
                        < dist[i].0));
                } else {
                    assert(dist[i].1 > dist[o].1 || (dist[i].1 == dist[o].1 && dist[i].0
                        < dist[o].0));
                }
            }
            assert forall|j: int, l: int| 0 <= j < l < rest.len() implies (#[trigger] rest[j]).1 > (
            #[trigger] rest[l]).1 || (rest[j].1 == rest[l].1 && rest[j].0 < rest[l].0) by {
                let oj = if j < i {
                    j
                } else {
                    j + 1
                };
                let ol = if l < i {
                    l
                } else {
                    l + 1
                };
                assert(rest[j] == dist[oj] && rest[l] == dist[ol]);
            }
            assert forall|k: int| 0 <= k < front.len() && #[trigger] front[k] > 0 implies exists|
                j: int,
            |
                0 <= j < rest.len() && (#[trigger] rest[j]).0 == k by {
                assert(hist[k] > 0);
                let o = choose|o: int| 0 <= o < dist.len() && (#[trigger] dist[o]).0 == k;
                let j = if o < i {
                    o
                } else {
                    o - 1
                };
                assert(rest[j] == dist[o]);
            }
            lemma_distribution_total(front, rest);
            lemma_sum_counts_remove(dist, i);
        } else {
            assert forall|j: int| 0 <= j < dist.len() implies (#[trigger] dist[j]).0 < front.len()
                && dist[j].1 == front[dist[j].0 as int] && dist[j].1 > 0 by {
                assert(dist[j].0 < hist.len());
            }
            assert forall|k: int| 0 <= k < front.len() && #[trigger] front[k] > 0 implies exists|
                j: int,
            |
                0 <= j < dist.len() && (#[trigger] dist[j]).0 == k by {
                assert(hist[k] > 0);
            }
            lemma_distribution_total(front, dist);
        }
    }
}

} // verus!
