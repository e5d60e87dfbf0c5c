//! The scoring pass: how the candidates spread over the 243 patterns that a
//! guess can earn, and what that spread says of the guess.

use crate::feedback::feedback_id;
use crate::pattern::{
    encode_spec, feedback_spec, is_word, lemma_encode_range, valid_word, NUM_PATTERNS,
    PID_ALL_GREEN,
};
use vstd::prelude::*;

verus! {

/// Every word of the list is a word of the engine.
pub open spec fn all_words(words: Seq<String>) -> bool {
    forall|i: int| 0 <= i < words.len() ==> is_word((#[trigger] words[i])@)
}

/// The pattern number that `guess` earns against `solution`.
pub open spec fn pattern_of(guess: Seq<char>, solution: Seq<char>) -> int {
    encode_spec(feedback_spec(guess, solution))
}

/// The candidates against which `guess` earns pattern `k`: what would be
/// left if `k` were the answer to the guess.
pub open spec fn bucket(guess: Seq<char>, candidates: Seq<String>, k: int) -> Seq<String> {
    candidates.filter(|s: String| pattern_of(guess, s@) == k)
}

/// The sum of the counts.
pub open spec fn total(hist: Seq<usize>) -> int
    decreases hist.len(),
{
    if hist.len() == 0 {
        0
    } else {
        total(hist.drop_last()) + hist.last()
    }
}

/// The sum of the squares of the counts.
pub open spec fn sum_squares(hist: Seq<usize>) -> int
    decreases hist.len(),
{
    if hist.len() == 0 {
        0
    } else {
        sum_squares(hist.drop_last()) + hist.last() * hist.last()
    }
}

/// `hist` is the histogram of `guess` over `candidates`: one count per
/// pattern, the size of that pattern's bucket.
pub open spec fn is_histogram(hist: Seq<usize>, guess: Seq<char>, candidates: Seq<String>) -> bool {
    &&& hist.len() == 243
    &&& forall|k: int| 0 <= k < 243 ==> #[trigger] hist[k] == bucket(guess, candidates, k).len()
}

/// Raising one count by one raises the sum by one.
proof fn lemma_total_bump(hist: Seq<usize>, k: int)
    requires
        0 <= k < hist.len(),
        hist[k] < usize::MAX,
    ensures
        total(hist.update(k, (hist[k] + 1) as usize)) == total(hist) + 1,
    decreases hist.len(),
{
    let next = hist.update(k, (hist[k] + 1) as usize);
    if k == hist.len() - 1 {
        assert(next.drop_last() == hist.drop_last());
    } else {
        lemma_total_bump(hist.drop_last(), k);
        assert(next.drop_last() == hist.drop_last().update(k, (hist[k] + 1) as usize));
    }
}

/// A list of zeros sums to zero.
proof fn lemma_total_zero(hist: Seq<usize>)
    requires
        forall|k: int| 0 <= k < hist.len() ==> hist[k] == 0,
    ensures
        total(hist) == 0,
    decreases hist.len(),
{
    if hist.len() > 0 {
        lemma_total_zero(hist.drop_last());
    }
}

/// Counts, for each of the 243 patterns, the candidates against which
/// `guess` earns it.
pub fn pattern_histogram(guess: &str, candidates: &Vec<String>) -> (hist: Vec<usize>)
    requires
        is_word(guess@),
        all_words(candidates@),
    ensures
        is_histogram(hist@, guess@, candidates@),
        total(hist@) == candidates@.len(),
{
    let mut hist: Vec<usize> = Vec::new();
    let mut k: usize = 0;
    while k < NUM_PATTERNS
        invariant
            k <= NUM_PATTERNS,
            hist@.len() == k,
            forall|j: int| 0 <= j < k ==> hist@[j] == 0,
        decreases NUM_PATTERNS - k,
    {
        hist.push(0);
        k += 1;
    }
    proof {
        reveal(Seq::filter);
        lemma_total_zero(hist@);
        assert(candidates@.take(0) =~= Seq::<String>::empty());
    }
    let mut i: usize = 0;
    while i < candidates.len()
        invariant
            i <= candidates@.len(),
            is_word(guess@),
            all_words(candidates@),
            is_histogram(hist@, guess@, candidates@.take(i as int)),
            total(hist@) == i,
        decreases candidates@.len() - i,
    {
        let pid = feedback_id(guess, candidates[i].as_str());
        let ghost before = hist@;
        proof {
            reveal(Seq::filter);
            assert(candidates@.take(i + 1).drop_last() == candidates@.take(i as int));
            bucket(guess@, candidates@.take(i as int), pid as int).lemma_filter_len(
                |s: String| true,
            );
            candidates@.take(i as int).lemma_filter_len(
                |s: String| pattern_of(guess@, s@) == pid as int,
            );
            lemma_total_bump(before, pid as int);
        }
        let count = hist[pid];
        hist.set(pid, count + 1);
        i += 1;
    }
    assert(candidates@.take(candidates@.len() as int) == candidates@);
    hist
}

/// What one histogram pass tells of a guess.
pub struct Tally {
    /// The number of candidates per pattern.
    pub histogram: Vec<usize>,
    /// The number of candidates.
    pub total: usize,
    /// The sum of the squared counts. Divided by `total` it is the expected
    /// number of candidates left after the guess.
    pub sum_squares: u128,
    /// The count of the all-green pattern. Divided by `total` it is the
    /// probability that the guess is the solution.
    pub wins: usize,
}

impl Tally {
    /// The tally is that of `guess` over `candidates`.
    pub open spec fn describes(&self, guess: Seq<char>, candidates: Seq<String>) -> bool {
        &&& is_histogram(self.histogram@, guess, candidates)
        &&& self.total == candidates.len()
        &&& self.sum_squares == sum_squares(self.histogram@)
        &&& self.wins == bucket(guess, candidates, 242).len()
    }
}

/// The squares of counts sum to at most the square of their sum.
proof fn lemma_squares_bound(hist: Seq<usize>)
    ensures
        0 <= total(hist),
        0 <= sum_squares(hist) <= total(hist) * total(hist),
    decreases hist.len(),
{
    if hist.len() > 0 {
        lemma_squares_bound(hist.drop_last());
        let a = total(hist.drop_last());
        let b = hist.last() as int;
        let q = sum_squares(hist.drop_last());
        assert(q + b * b <= (a + b) * (a + b)) by (nonlinear_arith)
            requires
                0 <= a,
                0 <= b,
                0 <= q <= a * a,
        ;
        assert(0 <= b * b) by (nonlinear_arith);
    }
}

/// The sums over a prefix are at most the sums over the whole.
proof fn lemma_prefix_sums(hist: Seq<usize>, n: int)
    requires
        0 <= n <= hist.len(),
    ensures
        total(hist.take(n)) <= total(hist),
        sum_squares(hist.take(n)) <= sum_squares(hist),
    decreases hist.len() - n,
{
    if n < hist.len() {
        lemma_prefix_sums(hist, n + 1);
        assert(hist.take(n + 1).drop_last() == hist.take(n));
        assert(0 <= hist[n] * hist[n]) by (nonlinear_arith);
    } else {
        assert(hist.take(n) == hist);
    }
}

/// Scores `guess` against the candidates in one histogram pass.
pub fn score_guess(guess: &str, candidates: &Vec<String>) -> (tally: Tally)
    requires
        is_word(guess@),
        all_words(candidates@),
    ensures
        tally.describes(guess@, candidates@),
{
    let histogram = pattern_histogram(guess, candidates);
    let size = candidates.len();
    let mut sum: u128 = 0;
    let mut k: usize = 0;
    proof {
        assert(histogram@.take(0) =~= Seq::<usize>::empty());
    }
    while k < NUM_PATTERNS
        invariant
            k <= NUM_PATTERNS,
            histogram@.len() == NUM_PATTERNS,
            total(histogram@) <= usize::MAX,
            sum == sum_squares(histogram@.take(k as int)),
        decreases NUM_PATTERNS - k,
    {
        let c: u128 = histogram[k] as u128;
        proof {
            assert(histogram@.take(k + 1).drop_last() == histogram@.take(k as int));
            lemma_prefix_sums(histogram@, k + 1);
            lemma_squares_bound(histogram@);
            let n = total(histogram@);
            assert(n * n <= usize::MAX * usize::MAX) by (nonlinear_arith)
                requires
                    0 <= n <= usize::MAX,
            ;
            assert(usize::MAX * usize::MAX < u128::MAX) by (nonlinear_arith)
                requires
                    usize::MAX <= 0xffff_ffff_ffff_ffff,
                    u128::MAX == 0xffff_ffff_ffff_ffff_ffff_ffff_ffff_ffff,
            ;
            assert(0 <= sum_squares(histogram@.take(k as int))) by {
                lemma_squares_bound(histogram@.take(k as int));
            }
            assert(c * c >= 0) by (nonlinear_arith)
                requires
                    c >= 0,
            ;
        }
        sum = sum + c * c;
        k += 1;
    }
    assert(histogram@.take(243) == histogram@);
    let wins = histogram[PID_ALL_GREEN];
    Tally { histogram, total: size, sum_squares: sum, wins }
}

/// Each candidate falls into exactly one bucket. So, for a list that is
/// not empty, one bucket holds every candidate exactly when the guess earns
/// the same pattern against each of them: the case in which the guess tells
/// nothing.
pub proof fn lemma_one_bucket(guess: Seq<char>, candidates: Seq<String>, k: int)
    ensures
        bucket(guess, candidates, k).len() <= candidates.len(),
        bucket(guess, candidates, k).len() == candidates.len() <==> (forall|i: int|
            0 <= i < candidates.len() ==> pattern_of(guess, (#[trigger] candidates[i])@) == k),
    decreases candidates.len(),
{
    reveal(Seq::filter);
    let p = |s: String| pattern_of(guess, s@) == k;
    candidates.lemma_filter_len(p);
    if candidates.len() > 0 {
        let front = candidates.drop_last();
        lemma_one_bucket(guess, front, k);
        front.lemma_filter_len(p);
        if bucket(guess, candidates, k).len() == candidates.len() {
            assert forall|i: int| 0 <= i < candidates.len() implies pattern_of(
                guess,
                (#[trigger] candidates[i])@,
            ) == k by {
                if i < candidates.len() - 1 {
                    assert(front[i] == candidates[i]);
                }
            }
        }
        if forall|i: int|
            0 <= i < candidates.len() ==> pattern_of(guess, (#[trigger] candidates[i])@) == k {
            assert forall|i: int| 0 <= i < front.len() implies pattern_of(
                guess,
                (#[trigger] front[i])@,
            ) == k by {
                assert(front[i] == candidates[i]);
            }
            assert(p(candidates.last()));
        }
    }
}

/// Every candidate earns one of the 243 patterns, and the all-green bucket
/// holds the copies of the guess itself.
pub proof fn lemma_pattern_range(guess: Seq<char>, solution: Seq<char>)
    requires
        guess.len() == 5,
        solution.len() == 5,
    ensures
        0 <= pattern_of(guess, solution) <= 242,
        pattern_of(guess, solution) == 242 <==> guess == solution,
{
    lemma_encode_range(feedback_spec(guess, solution));
    crate::feedback::lemma_all_green_is_solution(guess, solution);
}

/// Whether every word of the list is a word of the engine.
pub fn valid_words(words: &[String]) -> (r: bool)
    ensures
        r == all_words(words@),
{
    let mut i: usize = 0;
    while i < words.len()
        invariant
            i <= words@.len(),
            forall|k: int| 0 <= k < i ==> is_word((#[trigger] words@[k])@),
        decreases words@.len() - i,
    {
        if !valid_word(words[i].as_str()) {
            return false;
        }
        i += 1;
    }
    true
}

/// Each count is at most its square, so the counts sum to at most the sum
/// of their squares.
proof fn lemma_total_below_squares(hist: Seq<usize>)
    ensures
        total(hist) <= sum_squares(hist),
    decreases hist.len(),
{
    if hist.len() > 0 {
        lemma_total_below_squares(hist.drop_last());
        let c = hist.last() as int;
        assert(c <= c * c) by (nonlinear_arith)
            requires
                0 <= c,
        ;
    }
}

/// The numbers of a tally keep their sense: the wins are at most the
/// candidates, and the sum of squares lies between the number of candidates
/// and its square. So the chance of an immediate win lies between 0 and 1,
/// and the expected remainder, over a list that is not empty, between 1 and
/// the size of the list.
pub proof fn lemma_tally_bounds(tally: Tally, guess: Seq<char>, candidates: Seq<String>)
    requires
        tally.describes(guess, candidates),
    ensures
        tally.wins <= tally.total,
        tally.total <= tally.sum_squares <= tally.total * tally.total,
        total(tally.histogram@) == tally.total,
{
    lemma_histogram_total(tally.histogram@, guess, candidates);
    lemma_squares_bound(tally.histogram@);
    lemma_total_below_squares(tally.histogram@);
    lemma_one_bucket(guess, candidates, 242);
}

/// The counts of the first `n` patterns sum to the number of candidates
/// that earn one of them.
proof fn lemma_partial_total(hist: Seq<usize>, guess: Seq<char>, candidates: Seq<String>, n: int)
    requires
        is_histogram(hist, guess, candidates),
        0 <= n <= 243,
    ensures
        total(hist.take(n)) == candidates.filter(
            |s: String| 0 <= pattern_of(guess, s@) < n,
        ).len(),
    decreases candidates.len(),
{
    reveal(Seq::filter);
    let below = |s: String| 0 <= pattern_of(guess, s@) < n;
    if candidates.len() == 0 {
        assert forall|k: int| 0 <= k < n implies hist.take(n)[k] == 0 by {
            assert(hist[k] == bucket(guess, candidates, k).len());
        }
        lemma_total_zero(hist.take(n));
    } else {
        let front = candidates.drop_last();
        let last = candidates.last();
        let p = pattern_of(guess, last@);
        let less = Seq::new(
            243,
            |k: int| if k == p {
                (hist[k] - 1) as usize
            } else {
                hist[k]
            },
        );
        assert forall|k: int| 0 <= k < 243 implies #[trigger] less[k] == bucket(
            guess,
            front,
            k,
        ).len() by {
            assert(hist[k] == bucket(guess, candidates, k).len());
        }
        lemma_partial_total(less, guess, front, n);
        if 0 <= p < n {
            assert(hist[p] == bucket(guess, candidates, p).len());
            assert(less.take(n).update(p, (less.take(n)[p] + 1) as usize) =~= hist.take(n));
            lemma_total_bump(less.take(n), p);
        } else {
            assert(less.take(n) =~= hist.take(n));
        }
    }
}

/// A filter that every element passes keeps the whole list.
proof fn lemma_filter_keeps_all<A>(s: Seq<A>, p: spec_fn(A) -> bool)
    requires
        forall|i: int| 0 <= i < s.len() ==> p(#[trigger] s[i]),
    ensures
        s.filter(p) == s,
    decreases s.len(),
{
    reveal(Seq::filter);
    if s.len() > 0 {
        let front = s.drop_last();
        assert forall|i: int| 0 <= i < front.len() implies p(#[trigger] front[i]) by {
            assert(front[i] == s[i]);
        }
        lemma_filter_keeps_all(front, p);
        assert(p(s.last()));
        assert(front.push(s.last()) == s);
    }
}

/// The counts of a histogram sum to the number of candidates: each
/// candidate earns exactly one pattern.
proof fn lemma_histogram_total(hist: Seq<usize>, guess: Seq<char>, candidates: Seq<String>)
    requires
        is_histogram(hist, guess, candidates),
    ensures
        total(hist) == candidates.len(),
{
    let any = |s: String| 0 <= pattern_of(guess, s@) < 243;
    lemma_partial_total(hist, guess, candidates, 243);
    assert(hist.take(243) == hist);
    assert forall|i: int| 0 <= i < candidates.len() implies any(#[trigger] candidates[i]) by {
        lemma_encode_range(feedback_spec(guess, candidates[i]@));
    }
    lemma_filter_keeps_all(candidates, any);
}

/// Leaving one element out lowers the number that pass `p` by one if that
/// element passes, and not at all if it does not.
proof fn lemma_filter_len_remove<A>(s: Seq<A>, j: int, p: spec_fn(A) -> bool)
    requires
        0 <= j < s.len(),
    ensures
        s.filter(p).len() == s.remove(j).filter(p).len() + if p(s[j]) {
            1int
        } else {
            0int
        },
{
    let head = s.take(j);
    let one = seq![s[j]];
    let tail = s.skip(j + 1);
    assert(s =~= head + (one + tail));
    assert(s.remove(j) =~= head + tail);
    Seq::filter_distributes_over_add(head, one + tail, p);
    Seq::filter_distributes_over_add(one, tail, p);
    Seq::filter_distributes_over_add(head, tail, p);
    assert(one.filter(p).len() == if p(s[j]) {
        1int
    } else {
        0int
    }) by {
        reveal_with_fuel(Seq::filter, 2);
        assert(one.drop_last() =~= Seq::<A>::empty());
    }
}

/// Two lists that hold the same elements, in whatever order, have equally
/// many that pass `p`.
pub proof fn lemma_filter_len_of_permutation<A>(a: Seq<A>, b: Seq<A>, p: spec_fn(A) -> bool)
    requires
        a.to_multiset() == b.to_multiset(),
    ensures
        a.filter(p).len() == b.filter(p).len(),
    decreases a.len(),
{
    broadcast use {
        vstd::seq_lib::to_multiset_len,
        vstd::seq_lib::to_multiset_contains,
        vstd::seq_lib::to_multiset_remove,
        vstd::seq_lib::to_multiset_build,
    };

    reveal(Seq::filter);
    assert(a.len() == a.to_multiset().len());
    assert(b.len() == b.to_multiset().len());
    if a.len() > 0 {
        let x = a.last();
        let front = a.drop_last();
        assert(a =~= front.push(x));
        assert(a.to_multiset() =~= front.to_multiset().insert(x));
        assert(b.to_multiset().count(x) > 0);
        assert(b.contains(x));
        let j = choose|j: int| 0 <= j < b.len() && b[j] == x;
        assert(b.remove(j).to_multiset() =~= b.to_multiset().remove(x));
        assert(front.to_multiset() =~= b.remove(j).to_multiset());
        lemma_filter_len_of_permutation(front, b.remove(j), p);
        lemma_filter_len_remove(b, j, p);
    }
}

/// The order of the candidates does not matter to a tally: two tallies of
/// one guess over lists that hold the same words are the same in every number.
pub proof fn lemma_tally_of_permutation(
    one: Tally,
    other: Tally,
    guess: Seq<char>,
    a: Seq<String>,
    b: Seq<String>,
)
    requires
        one.describes(guess, a),
        other.describes(guess, b),
        a.to_multiset() == b.to_multiset(),
    ensures
        one.histogram@ == other.histogram@,
        one.total == other.total,
        one.sum_squares == other.sum_squares,
        one.wins == other.wins,
{
    broadcast use vstd::seq_lib::to_multiset_len;

    assert(a.len() == a.to_multiset().len());
    assert(b.len() == b.to_multiset().len());
    assert forall|k: int| 0 <= k < 243 implies one.histogram@[k] == other.histogram@[k] by {
        lemma_filter_len_of_permutation(a, b, |s: String| pattern_of(guess, s@) == k);
    }
    assert(one.histogram@ =~= other.histogram@);
    lemma_filter_len_of_permutation(a, b, |s: String| pattern_of(guess, s@) == 242);
}

} // verus!
