//! Guess selection: the fixed opener and the forced moves, the pool of
//! guesses worth scoring, and the order that picks the best of them.

use crate::pattern::is_word;
use crate::score::{bucket, score_guess, sum_squares, Tally};
use crate::text::same_text;
use crate::state::GameState;
use vstd::prelude::*;

verus! {

/// Above this many candidates the set counts as large.
pub const LARGE_SET: usize = 500;

/// Above this many candidates the set counts as medium.
pub const MEDIUM_SET: usize = 100;

/// Above this many candidates the set counts as small; at or below, as tiny.
pub const SMALL_SET: usize = 20;

/// Probes tried beside a large candidate set.
pub const LARGE_SET_PROBES: usize = 200;

/// Probes tried beside a medium candidate set.
pub const MEDIUM_SET_PROBES: usize = 300;

/// Probes tried beside a small candidate set.
pub const SMALL_SET_PROBES: usize = 400;

/// Probes tried beside a tiny candidate set.
pub const TINY_SET_PROBES: usize = 600;

/// A guess to be scored.
pub struct Probe {
    /// The word to try.
    pub word: String,
    /// Whether the word is one of the current candidates.
    pub is_candidate: bool,
}

/// How many words outside the candidate set are worth scoring beside
/// `n` candidates: the more candidates, the fewer probes.
pub open spec fn budget_spec(n: int) -> int {
    if n > LARGE_SET {
        LARGE_SET_PROBES as int
    } else if n > MEDIUM_SET {
        MEDIUM_SET_PROBES as int
    } else if n > SMALL_SET {
        SMALL_SET_PROBES as int
    } else {
        TINY_SET_PROBES as int
    }
}

/// The number of probes aimed at: the budget, or the number of words that
/// the universe has beyond the candidates where that is less.
pub open spec fn target_spec(n_candidates: int, n_universe: int) -> int {
    let beyond = if n_universe > n_candidates {
        n_universe - n_candidates
    } else {
        0
    };
    if budget_spec(n_candidates) < beyond {
        budget_spec(n_candidates)
    } else {
        beyond
    }
}

/// The stride that spreads `target` probes evenly over `n` words: `n / target`, rounded up.
pub open spec fn step_spec(n: int, target: int) -> int {
    if n % target == 0 {
        n / target
    } else {
        n / target + 1
    }
}

/// The number of words at positions `0`, `step`, `2 * step`, ... below `n`.
pub open spec fn strided_len(n: int, step: int) -> int {
    if n % step == 0 {
        n / step
    } else {
        n / step + 1
    }
}

/// The words of `universe` at positions `0`, `step`, `2 * step`, ...
pub open spec fn strided(universe: Seq<String>, step: int) -> Seq<String> {
    Seq::new(strided_len(universe.len() as int, step) as nat, |k: int| universe[k * step])
}

/// Some word of the list reads `w`.
pub open spec fn holds_word(words: Seq<String>, w: Seq<char>) -> bool {
    exists|j: int| 0 <= j < words.len() && (#[trigger] words[j])@ == w
}

/// The probes: the strided words of the universe that are no candidates,
/// in their order, cut off at the target.
pub open spec fn probes_spec(candidates: Seq<String>, universe: Seq<String>) -> Seq<String> {
    let target = target_spec(candidates.len() as int, universe.len() as int);
    if target <= 0 {
        Seq::empty()
    } else {
        let fresh = strided(universe, step_spec(universe.len() as int, target)).filter(
            |w: String| !holds_word(candidates, w@),
        );
        if fresh.len() <= target {
            fresh
        } else {
            fresh.take(target)
        }
    }
}

/// `pool` holds every candidate, in order and marked as one, and after
/// them the probes, marked as none.
pub open spec fn is_pool(pool: Seq<Probe>, candidates: Seq<String>, universe: Seq<String>) -> bool {
    let probes = probes_spec(candidates, universe);
    &&& pool.len() == candidates.len() + probes.len()
    &&& forall|i: int|
        0 <= i < candidates.len() ==> (#[trigger] pool[i]).word == candidates[i]
            && pool[i].is_candidate
    &&& forall|i: int|
        0 <= i < probes.len() ==> (#[trigger] pool[candidates.len() + i]).word == probes[i]
            && !pool[candidates.len() + i].is_candidate
}

/// The pool of guesses to score: every candidate, marked as one, and after
/// them the probes, marked as none.
pub open spec fn pool_spec(candidates: Seq<String>, universe: Seq<String>) -> Seq<Probe> {
    candidates.map_values(|w: String| Probe { word: w, is_candidate: true }) + probes_spec(
        candidates,
        universe,
    ).map_values(|w: String| Probe { word: w, is_candidate: false })
}

/// Every word of the pool reads like a word of one of the two lists.
pub open spec fn from_lists(pool: Seq<Probe>, candidates: Seq<String>, universe: Seq<String>) -> bool {
    forall|i: int|
        0 <= i < pool.len() ==> holds_word(candidates, (#[trigger] pool[i]).word@) || holds_word(
            universe,
            pool[i].word@,
        )
}

/// There is one pool only.
pub proof fn lemma_pool_is_fixed(pool: Seq<Probe>, candidates: Seq<String>, universe: Seq<String>)
    requires
        is_pool(pool, candidates, universe),
    ensures
        pool == pool_spec(candidates, universe),
{
    let probes = probes_spec(candidates, universe);
    let expected = pool_spec(candidates, universe);
    assert(expected.len() == pool.len());
    assert forall|i: int| 0 <= i < pool.len() implies pool[i] == expected[i] by {
        if i >= candidates.len() {
            let j = i - candidates.len();
            assert(pool[candidates.len() + j].word == probes[j]);
        }
    }
    assert(pool =~= expected);
}

/// The probe budget beside `n` candidates.
pub fn probe_budget(n: usize) -> (budget: usize)
    ensures
        budget == budget_spec(n as int),
{
    if n > LARGE_SET {
        LARGE_SET_PROBES
    } else if n > MEDIUM_SET {
        MEDIUM_SET_PROBES
    } else if n > SMALL_SET {
        SMALL_SET_PROBES
    } else {
        TINY_SET_PROBES
    }
}

/// Whether some word of `words` reads like `w`.
pub fn contains_word(words: &Vec<String>, w: &String) -> (r: bool)
    ensures
        r == holds_word(words@, w@),
{
    let mut j: usize = 0;
    while j < words.len()
        invariant
            j <= words@.len(),
            forall|k: int| 0 <= k < j ==> (#[trigger] words@[k])@ != w@,
        decreases words@.len() - j,
    {
        if words[j] == *w {
            return true;
        }
        j += 1;
    }
    false
}

/// Position `k * step` lies below `n` exactly for the first `strided_len` values of `k`.
proof fn lemma_stride(n: int, step: int, k: int)
    requires
        n > 0,
        step > 0,
        k >= 0,
    ensures
        k * step < n <==> k < strided_len(n, step),
{
    let q = n / step;
    let r = n % step;
    assert(n == q * step + r && 0 <= r < step) by (nonlinear_arith)
        requires
            q == n / step,
            r == n % step,
            step > 0,
    ;
    if k < q {
        assert(k * step < n) by (nonlinear_arith)
            requires
                k + 1 <= q,
                n == q * step + r,
                0 <= r,
                step > 0,
        ;
    } else if k == q {
        assert(k * step == q * step);
    } else {
        assert(k * step >= n) by (nonlinear_arith)
            requires
                k >= q + 1,
                n == q * step + r,
                r < step,
                step > 0,
        ;
    }
}

/// The strategy that scores guesses by the entropy of the feedback they
/// would earn, and plays the one that tells most.
pub struct EntropyMaximizer;

impl EntropyMaximizer {
    /// The guesses to score: every candidate, then the probes drawn from
    /// `all_words`.
    pub fn guess_pool(&self, state: &GameState, all_words: &[String]) -> (pool: Vec<Probe>)
        ensures
            is_pool(pool@, state.candidates@, all_words@),
            pool@ == pool_spec(state.candidates@, all_words@),
            from_lists(pool@, state.candidates@, all_words@),
    {
        let candidates = &state.candidates;
        let mut pool: Vec<Probe> = Vec::new();
        let mut i: usize = 0;
        while i < candidates.len()
            invariant
                i <= candidates@.len(),
                pool@.len() == i,
                forall|j: int|
                    0 <= j < i ==> (#[trigger] pool@[j]).word == candidates@[j]
                        && pool@[j].is_candidate,
            decreases candidates@.len() - i,
        {
            pool.push(Probe { word: candidates[i].clone(), is_candidate: true });
            i += 1;
        }
        assert(from_lists(pool@, candidates@, all_words@));
        let n = all_words.len();
        let beyond = if n > candidates.len() {
            n - candidates.len()
        } else {
            0
        };
        let budget = probe_budget(candidates.len());
        let target = if budget < beyond {
            budget
        } else {
            beyond
        };
        if target > 0 {
            let step = if n % target == 0 {
                n / target
            } else {
                assert(n / target < n) by (nonlinear_arith)
                    requires
                        n % target != 0,
                        n >= target > 0,
                ;
                n / target + 1
            };
            assert(step == step_spec(n as int, target as int));
            assert(step >= 1) by (nonlinear_arith)
                requires
                    n >= target > 0,
                    step >= n / target,
            ;
            let ghost fresh_rule = |w: String| !holds_word(candidates@, w@);
            let ghost row = strided(all_words@, step as int);
            let ghost mut k: int = 0;
            let mut at: usize = 0;
            let mut more = true;
            let mut examined: usize = 0;
            proof {
                reveal(Seq::filter);
                lemma_stride(n as int, step as int, 0);
                assert(row.take(0) =~= Seq::<String>::empty());
            }
            while more && examined < target
                invariant
                    n == all_words@.len(),
                    n > 0,
                    step >= 1,
                    row == strided(all_words@, step as int),
                    fresh_rule == |w: String| !holds_word(candidates@, w@),
                    0 <= k <= row.len(),
                    more ==> at < n && at == k * step && k < row.len(),
                    !more ==> k == row.len(),
                    examined == row.take(k).filter(fresh_rule).len(),
                    examined <= target,
                    pool@.len() == candidates@.len() + examined,
                    from_lists(pool@, candidates@, all_words@),
                    forall|j: int|
                        0 <= j < candidates@.len() ==> (#[trigger] pool@[j]).word == candidates@[j]
                            && pool@[j].is_candidate,
                    forall|j: int|
                        0 <= j < examined ==> (#[trigger] pool@[candidates@.len() + j]).word
                            == row.take(k).filter(fresh_rule)[j] && !pool@[candidates@.len()
                            + j].is_candidate,
                decreases row.len() - k,
            {
                proof {
                    reveal(Seq::filter);
                    assert(row.take(k + 1).drop_last() == row.take(k));
                    assert(row.take(k + 1).last() == all_words@[at as int]);
                }
                if !contains_word(candidates, &all_words[at]) {
                    pool.push(Probe { word: all_words[at].clone(), is_candidate: false });
                    examined += 1;
                }
                proof {
                    lemma_stride(n as int, step as int, k + 1);
                    assert((k + 1) * step == k * step + step) by (nonlinear_arith);
                    k = k + 1;
                }
                if n - at <= step {
                    more = false;
                } else {
                    at += step;
                }
            }
            proof {
                let fresh = row.filter(fresh_rule);
                let head = row.take(k).filter(fresh_rule);
                assert(row == row.take(k) + row.skip(k));
                Seq::filter_distributes_over_add(row.take(k), row.skip(k), fresh_rule);
                if !more {
                    assert(row.take(k) == row);
                } else {
                    assert(fresh.take(target as int) =~= head);
                }
                assert(probes_spec(candidates@, all_words@) == head);
            }
        }
        proof {
            lemma_pool_is_fixed(pool@, candidates@, all_words@);
        }
        pool
    }
}

/// The opening guess of the entropy strategy.
pub open spec fn entropy_opener() -> Seq<char> {
    "SALET"@
}

/// How well a guess splits the candidates. All scores that are compared
/// with one another are taken over the same candidate set.
#[derive(Clone, Copy, Debug)]
pub struct Score {
    /// The entropy of the feedback, in bits, as the bit pattern of the
    /// double that holds it. An entropy is never negative, and among such
    /// doubles the greater number has the greater bit pattern.
    pub entropy_bits: u64,
    /// The sum of the squared bucket sizes: the expected number of
    /// candidates left, times the number of candidates.
    pub sum_squares: u128,
    /// The size of the all-green bucket: the probability of an immediate
    /// win, times the number of candidates.
    pub wins: usize,
}

impl Score {
    /// The score of the guess that `tally` describes, with the entropy of
    /// its histogram as computed by the caller.
    pub fn of_tally(tally: &Tally, entropy_bits: u64) -> (score: Score)
        ensures
            score.entropy_bits == entropy_bits,
            score.sum_squares == tally.sum_squares,
            score.wins == tally.wins,
    {
        Score { entropy_bits, sum_squares: tally.sum_squares, wins: tally.wins }
    }
}

/// The order of the selector: higher entropy wins; then a candidate wins
/// over a word that is none; then the smaller expected remainder; then the
/// higher chance of an immediate win.
pub open spec fn better(a: Score, a_is_candidate: bool, b: Score, b_is_candidate: bool) -> bool {
    ||| a.entropy_bits > b.entropy_bits
    ||| (a.entropy_bits == b.entropy_bits && a_is_candidate && !b_is_candidate)
    ||| (a.entropy_bits == b.entropy_bits && a_is_candidate == b_is_candidate && a.sum_squares
        < b.sum_squares)
    ||| (a.entropy_bits == b.entropy_bits && a_is_candidate == b_is_candidate && a.sum_squares
        == b.sum_squares && a.wins > b.wins)
}

/// Whether the first guess beats the second in the order of the selector.
pub fn better_guess(a: &Score, a_is_candidate: bool, b: &Score, b_is_candidate: bool) -> (r: bool)
    ensures
        r == better(*a, a_is_candidate, *b, b_is_candidate),
{
    a.entropy_bits > b.entropy_bits || (a.entropy_bits == b.entropy_bits && a_is_candidate
        && !b_is_candidate) || (a.entropy_bits == b.entropy_bits && a_is_candidate
        == b_is_candidate && a.sum_squares < b.sum_squares) || (a.entropy_bits == b.entropy_bits
        && a_is_candidate == b_is_candidate && a.sum_squares == b.sum_squares && a.wins > b.wins)
}

/// Entry `best` of the pool is beaten by none, and beats every entry before it.
pub open spec fn is_best(pool: Seq<Probe>, scores: Seq<Score>, best: int) -> bool {
    &&& 0 <= best < pool.len()
    &&& forall|j: int|
        0 <= j < pool.len() ==> !better(
            #[trigger] scores[j],
            pool[j].is_candidate,
            scores[best],
            pool[best].is_candidate,
        )
    &&& forall|j: int|
        0 <= j < best ==> better(
            scores[best],
            pool[best].is_candidate,
            #[trigger] scores[j],
            pool[j].is_candidate,
        )
}

/// At most one entry is the best of a pool.
pub proof fn lemma_best_is_unique(pool: Seq<Probe>, scores: Seq<Score>, a: int, b: int)
    requires
        pool.len() == scores.len(),
        is_best(pool, scores, a),
        is_best(pool, scores, b),
    ensures
        a == b,
{
    if a < b {
        assert(better(scores[b], pool[b].is_candidate, scores[a], pool[a].is_candidate));
    } else if b < a {
        assert(better(scores[a], pool[a].is_candidate, scores[b], pool[b].is_candidate));
    }
}

impl EntropyMaximizer {
    /// The guess that needs no scoring, if there is one: the opener before
    /// the first attempt, and the first candidate when at most two are left.
    pub fn forced_guess(&self, state: &GameState) -> (forced: Option<String>)
        requires
            state.attempt_count == 0 || state.candidates@.len() > 0,
        ensures
            state.attempt_count == 0 ==> forced is Some && forced->0@ == entropy_opener(),
            state.attempt_count > 0 && state.candidates@.len() <= 2 ==> forced == Some(
                state.candidates@[0],
            ),
            state.attempt_count > 0 && state.candidates@.len() > 2 ==> forced is None,
    {
        if state.attempt_count == 0 {
            return Some("SALET".to_owned());
        }
        if state.candidates.len() == 1 {
            return Some(state.candidates[0].clone());
        }
        if state.candidates.len() <= 2 {
            return Some(state.candidates[0].clone());
        }
        None
    }

    /// The position in the pool of the guess to play, given the score of
    /// each entry: the first of those that no other entry beats.
    pub fn select_best(&self, pool: &Vec<Probe>, scores: &Vec<Score>) -> (best: usize)
        requires
            pool@.len() == scores@.len(),
            pool@.len() > 0,
        ensures
            is_best(pool@, scores@, best as int),
    {
        let mut best: usize = 0;
        let mut i: usize = 1;
        while i < pool.len()
            invariant
                pool@.len() == scores@.len(),
                1 <= i <= pool@.len(),
                best < i,
                forall|j: int|
                    0 <= j < i ==> !better(
                        #[trigger] scores@[j],
                        pool@[j].is_candidate,
                        scores@[best as int],
                        pool@[best as int].is_candidate,
                    ),
                forall|j: int|
                    0 <= j < best ==> better(
                        scores@[best as int],
                        pool@[best as int].is_candidate,
                        #[trigger] scores@[j],
                        pool@[j].is_candidate,
                    ),
            decreases pool@.len() - i,
        {
            if better_guess(&scores[i], pool[i].is_candidate, &scores[best], pool[best].is_candidate) {
                best = i;
            }
            i += 1;
        }
        best
    }
}

/// The histogram of `guess` over `candidates`.
pub open spec fn histogram_spec(guess: Seq<char>, candidates: Seq<String>) -> Seq<usize> {
    Seq::new(243, |k: int| bucket(guess, candidates, k).len() as usize)
}

/// The score of `guess` over `candidates`, given the entropy of its histogram.
pub open spec fn score_spec(guess: Seq<char>, candidates: Seq<String>, entropy_bits: u64) -> Score {
    Score {
        entropy_bits,
        sum_squares: sum_squares(histogram_spec(guess, candidates)) as u128,
        wins: bucket(guess, candidates, 242).len() as usize,
    }
}

/// The scores of the entries of a pool over `candidates`, given their entropies.
pub open spec fn scores_spec(
    pool: Seq<Probe>,
    candidates: Seq<String>,
    entropy_bits: Seq<u64>,
) -> Seq<Score> {
    Seq::new(pool.len(), |i: int| score_spec(pool[i].word@, candidates, entropy_bits[i]))
}

/// The session needs scoring: a guess is recorded and more than two
/// candidates are left.
pub open spec fn needs_scoring(state: GameState) -> bool {
    state.attempt_count > 0 && state.candidates@.len() > 2
}

impl EntropyMaximizer {
    /// The next guess. Before the first attempt it is the opener, whatever
    /// the lists hold; with one or two candidates left it is the first of
    /// them. Otherwise it is the best entry of the pool, each entry scored
    /// over the candidates, where `entropy_bits` holds for each entry of the
    /// pool the entropy of its histogram, which the caller computes.
    pub fn suggest_guess(
        &self,
        state: &GameState,
        all_words: &[String],
        entropy_bits: &Vec<u64>,
    ) -> (word: String)
        requires
            state.attempt_count == 0 || state.candidates@.len() > 0,
            needs_scoring(*state) ==> {
                &&& crate::score::all_words(state.candidates@)
                &&& crate::score::all_words(all_words@)
                &&& entropy_bits@.len() == pool_spec(state.candidates@, all_words@).len()
            },
        ensures
            state.attempt_count == 0 ==> word@ == entropy_opener(),
            state.attempt_count > 0 && state.candidates@.len() <= 2 ==> word
                == state.candidates@[0],
            needs_scoring(*state) ==> {
                let pool = pool_spec(state.candidates@, all_words@);
                let scores = scores_spec(pool, state.candidates@, entropy_bits@);
                exists|best: int| is_best(pool, scores, best) && word == pool[best].word
            },
    {
        match self.forced_guess(state) {
            Some(word) => {
                return word;
            },
            None => {},
        }
        let pool = self.guess_pool(state, all_words);
        let mut scores: Vec<Score> = Vec::new();
        let mut i: usize = 0;
        while i < pool.len()
            invariant
                i <= pool@.len(),
                pool@ == pool_spec(state.candidates@, all_words@),
                from_lists(pool@, state.candidates@, all_words@),
                crate::score::all_words(state.candidates@),
                crate::score::all_words(all_words@),
                entropy_bits@.len() == pool@.len(),
                scores@ == scores_spec(pool@, state.candidates@, entropy_bits@).take(i as int),
            decreases pool@.len() - i,
        {
            proof {
                let w = pool@[i as int].word@;
                if holds_word(state.candidates@, w) {
                    let j = choose|j: int|
                        0 <= j < state.candidates@.len() && (#[trigger] state.candidates@[j])@
                            == w;
                    assert(is_word(state.candidates@[j]@));
                } else {
                    let j = choose|j: int|
                        0 <= j < all_words@.len() && (#[trigger] all_words@[j])@ == w;
                    assert(is_word(all_words@[j]@));
                }
            }
            let tally = score_guess(pool[i].word.as_str(), &state.candidates);
            assert(tally.histogram@ =~= histogram_spec(pool@[i as int].word@, state.candidates@));
            scores.push(Score::of_tally(&tally, entropy_bits[i]));
            i += 1;
            assert(scores@ =~= scores_spec(pool@, state.candidates@, entropy_bits@).take(i as int));
        }
        assert(scores@ == scores_spec(pool@, state.candidates@, entropy_bits@)) by {
            let all = scores_spec(pool@, state.candidates@, entropy_bits@);
            assert(all.take(all.len() as int) == all);
        }
        let best = self.select_best(&pool, &scores);
        pool[best].word.clone()
    }
}

/// The choice of the simple strategy.
pub open spec fn simple_choice(attempt_count: int, candidates: Seq<String>) -> Seq<char> {
    if attempt_count == 0 {
        "CRANE"@
    } else if candidates.len() == 0 {
        "SLATE"@
    } else if candidates.len() <= SMALL_SET {
        candidates[0]@
    } else if attempt_count == 1 {
        "SLATE"@
    } else if attempt_count == 2 {
        "MOIST"@
    } else {
        candidates[0]@
    }
}

/// Anything that can propose the next guess from the state of a session
/// and the full word list.
pub trait SolverStrategy {
    /// The word to try next.
    fn suggest_guess(&self, state: &GameState, all_words: &[String]) -> String;
}

/// The strategy that plays fixed openers and then the first candidate.
pub struct SimpleSolver;

/// The strategy that is to rank candidates by letter frequency. Until it
/// does, it plays as the simple strategy.
pub struct FrequencyAnalyzer;

impl SolverStrategy for SimpleSolver {
    fn suggest_guess(&self, state: &GameState, all_words: &[String]) -> (word: String)
        ensures
            word@ == simple_choice(state.attempt_count as int, state.candidates@),
    {
        if state.attempt_count == 0 {
            return "CRANE".to_owned();
        }
        if state.candidates.len() == 1 {
            return state.candidates[0].clone();
        }
        if state.candidates.len() <= SMALL_SET {
            if state.candidates.len() > 0 {
                state.candidates[0].clone()
            } else {
                "SLATE".to_owned()
            }
        } else if state.attempt_count == 1 {
            "SLATE".to_owned()
        } else if state.attempt_count == 2 {
            "MOIST".to_owned()
        } else {
            state.candidates[0].clone()
        }
    }
}

impl SolverStrategy for FrequencyAnalyzer {
    fn suggest_guess(&self, state: &GameState, all_words: &[String]) -> (word: String)
        ensures
            word@ == simple_choice(state.attempt_count as int, state.candidates@),
    {
        SimpleSolver.suggest_guess(state, all_words)
    }
}

/// The strategies that can be asked for by name.
#[derive(Clone, Copy, Debug, PartialEq, Eq)]
pub enum SolverKind {
    Simple,
    Entropy,
    Frequency,
}

/// The strategy that `strategy` names: `simple`, `entropy` or `frequency`.
/// Any other name gives the simple strategy.
pub fn create_solver(strategy: &str) -> (kind: SolverKind)
    ensures
        kind == (if strategy@ == "entropy"@ {
            SolverKind::Entropy
        } else if strategy@ == "frequency"@ {
            SolverKind::Frequency
        } else {
            SolverKind::Simple
        }),
{
    if same_text(strategy, "entropy") {
        SolverKind::Entropy
    } else if same_text(strategy, "frequency") {
        SolverKind::Frequency
    } else {
        SolverKind::Simple
    }
}

} // verus!
