use wordle_engine::analyzer::{count_distinct, pattern_distribution, StartingWordAnalyzer};
use wordle_engine::rank::{above, rank, RankKey};
use wordle_engine::words::LoadError;

fn list(words: &[&str]) -> Vec<String> {
    words.iter().map(|w| w.to_string()).collect()
}

fn key(first: u128, second: u128, third: u128) -> RankKey {
    RankKey { first, second, third }
}

const SEVEN: [&str; 7] = ["CRANE", "BRAIN", "GRAIN", "TRAIN", "STAIN", "PLAIN", "CHAIN"];

#[test]
fn keys_rank_by_their_parts_in_turn() {
    assert!(above(&key(2, 0, 0), &key(1, 9, 9)));
    assert!(above(&key(1, 3, 0), &key(1, 2, 9)));
    assert!(above(&key(1, 2, 4), &key(1, 2, 3)));
    assert!(!above(&key(1, 2, 3), &key(1, 2, 3)));
    assert!(!above(&key(1, 2, 3), &key(1, 2, 4)));
    assert!(!above(&key(0, 9, 9), &key(1, 0, 0)));
}

#[test]
fn rank_puts_the_best_key_first() {
    let keys = vec![key(1, 0, 0), key(3, 0, 0), key(2, 0, 0), key(3, 1, 0)];
    assert_eq!(rank(&keys, 4), vec![3, 1, 2, 0]);
}

#[test]
fn rank_leaves_equal_keys_in_their_order() {
    let keys = vec![key(2, 0, 0), key(5, 0, 0), key(2, 0, 0), key(5, 0, 0), key(2, 0, 0)];
    assert_eq!(rank(&keys, 5), vec![1, 3, 0, 2, 4]);
}

#[test]
fn rank_cuts_off_at_the_number_asked_for() {
    let keys = vec![key(1, 0, 0), key(3, 0, 0), key(2, 0, 0), key(3, 1, 0)];
    assert_eq!(rank(&keys, 2), vec![3, 1]);
    assert_eq!(rank(&keys, 0), Vec::<usize>::new());
    assert_eq!(rank(&keys, 9), vec![3, 1, 2, 0]);
    assert_eq!(rank(&Vec::new(), 3), Vec::<usize>::new());
}

#[test]
fn an_analyzer_is_made_from_a_text() {
    let analyzer = StartingWordAnalyzer::new("crane\nbrain\nxy\n").ok().unwrap();
    assert_eq!(*analyzer.words(), list(&["CRANE", "BRAIN"]));
}

#[test]
fn an_analyzer_needs_words() {
    assert!(matches!(StartingWordAnalyzer::new("xy\n"), Err(LoadError::NoWords)));
    assert!(matches!(StartingWordAnalyzer::new(""), Err(LoadError::NoWords)));
}

#[test]
fn an_analyzer_is_made_from_words() {
    assert_eq!(*StartingWordAnalyzer::from_words(list(&SEVEN)).words(), list(&SEVEN));
}

#[test]
fn an_opener_is_scored_against_the_whole_list() {
    let analyzer = StartingWordAnalyzer::from_words(list(&SEVEN));
    let tally = analyzer.score_as_opener("CRANE");
    assert_eq!(tally.total, 7);
    assert_eq!(tally.sum_squares, 15);
    assert_eq!(tally.wins, 1);
    assert_eq!(tally.histogram[75], 3);
}

#[test]
fn the_best_starters_have_the_highest_entropy() {
    let analyzer = StartingWordAnalyzer::from_words(list(&["CRANE", "BRAIN", "GRAIN", "TRAIN"]));
    let bits = vec![10, 30, 20, 40];
    assert_eq!(analyzer.find_best_starters(&bits, 4), vec![3, 1, 2, 0]);
    assert_eq!(analyzer.find_best_starters(&bits, 2), vec![3, 1]);
    assert_eq!(analyzer.find_best_starters(&bits, 20), vec![3, 1, 2, 0]);
    assert_eq!(analyzer.find_best_starters(&bits, 0), Vec::<usize>::new());
}

#[test]
fn starters_of_equal_entropy_rank_by_the_remainder_they_leave() {
    let analyzer = StartingWordAnalyzer::from_words(list(&["CRANE", "BRAIN", "GRAIN", "TRAIN"]));
    assert_eq!(analyzer.score_as_opener("CRANE").sum_squares, 10);
    assert_eq!(analyzer.score_as_opener("BRAIN").sum_squares, 6);
    assert_eq!(analyzer.find_best_starters(&vec![9, 9, 9, 9], 4), vec![1, 2, 3, 0]);
    assert_eq!(analyzer.find_best_starters(&vec![9, 8, 9, 9], 4), vec![2, 3, 0, 1]);
}

#[test]
fn a_word_listed_twice_wins_twice_and_keeps_the_order_of_the_list() {
    let analyzer = StartingWordAnalyzer::from_words(list(&["AAAAA", "BBBBB", "CCCCC", "BBBBB"]));
    assert_eq!(analyzer.score_as_opener("AAAAA").sum_squares, 10);
    assert_eq!(analyzer.score_as_opener("BBBBB").sum_squares, 8);
    assert_eq!(analyzer.score_as_opener("BBBBB").wins, 2);
    assert_eq!(analyzer.find_best_starters(&vec![5, 5, 5, 5], 4), vec![1, 3, 0, 2]);
}

#[test]
fn the_distribution_lists_the_patterns_that_occur() {
    let analyzer = StartingWordAnalyzer::from_words(list(&SEVEN));
    let tally = analyzer.score_as_opener("CRANE");
    assert_eq!(pattern_distribution(&tally.histogram), vec![(75, 3), (21, 2), (183, 1), (242, 1)]);
}

#[test]
fn the_distribution_of_an_empty_histogram_is_empty() {
    assert!(pattern_distribution(&vec![0; 243]).is_empty());
    assert!(pattern_distribution(&Vec::new()).is_empty());
}

#[test]
fn a_word_is_analysed_in_upper_case() {
    let analyzer = StartingWordAnalyzer::from_words(list(&SEVEN));
    let (tally, dist) = analyzer.analyze_word("crane").unwrap();
    assert_eq!(tally.total, 7);
    assert_eq!(tally.sum_squares, 15);
    assert_eq!(tally.wins, 1);
    assert_eq!(dist, vec![(75, 3), (21, 2), (183, 1), (242, 1)]);
}

#[test]
fn a_word_outside_the_list_can_be_analysed() {
    let analyzer = StartingWordAnalyzer::from_words(list(&SEVEN));
    let (tally, dist) = analyzer.analyze_word("ZZZZZ").unwrap();
    assert_eq!(tally.wins, 0);
    assert_eq!(tally.sum_squares, 49);
    assert_eq!(dist, vec![(0, 7)]);
}

#[test]
fn a_word_of_another_length_is_not_analysed() {
    let analyzer = StartingWordAnalyzer::from_words(list(&SEVEN));
    assert!(analyzer.analyze_word("cran").is_none());
    assert!(analyzer.analyze_word("cranes").is_none());
    assert!(analyzer.analyze_word("").is_none());
}

#[test]
fn distinct_letters_are_counted_once() {
    let letters = |w: &str| w.chars().collect::<Vec<char>>();
    assert_eq!(count_distinct(&letters("LLAMA")), 3);
    assert_eq!(count_distinct(&letters("CRANE")), 5);
    assert_eq!(count_distinct(&letters("AAAAA")), 1);
    assert_eq!(count_distinct(&letters("")), 0);
}

#[test]
fn the_letter_table_counts_letters_by_position() {
    let analyzer = StartingWordAnalyzer::from_words(list(&["CRANE", "BRAIN", "GRAIN"]));
    let table = analyzer.calculate_letter_frequencies();
    let at = |c: char, i: usize| table[5 * (c as usize - 'A' as usize) + i];
    assert_eq!(table.len(), 130);
    assert_eq!(at('R', 1), 3);
    assert_eq!(at('A', 2), 3);
    assert_eq!(at('C', 0), 1);
    assert_eq!(at('N', 3), 1);
    assert_eq!(at('N', 4), 2);
    assert_eq!(at('I', 3), 2);
    assert_eq!(at('N', 0), 0);
    assert_eq!(table.iter().sum::<usize>(), 15);
}

#[test]
fn the_most_diverse_starters_come_first() {
    let analyzer = StartingWordAnalyzer::from_words(list(&["LLAMA", "CRANE", "BRAIN", "GRAIN"]));
    assert_eq!(analyzer.find_diverse_starters(4), vec![2, 3, 1, 0]);
    assert_eq!(analyzer.find_diverse_starters(1), vec![2]);
    assert_eq!(analyzer.find_diverse_starters(10), vec![2, 3, 1, 0]);
}

#[test]
fn a_word_with_a_letter_outside_ascii_is_not_analysed() {
    let analyzer = StartingWordAnalyzer::from_words(list(&SEVEN));
    assert!(analyzer.analyze_word("h\u{E9}llo").is_none());
    assert!(analyzer.analyze_word("\u{E9}abc").is_none());
}

#[test]
fn an_analyzer_passes_over_lines_outside_ascii() {
    let analyzer = StartingWordAnalyzer::new("h\u{E9}llo\ncrane\n").ok().unwrap();
    assert_eq!(*analyzer.words(), list(&["CRANE"]));
    assert!(matches!(StartingWordAnalyzer::new("h\u{E9}llo\n"), Err(LoadError::NoWords)));
}

#[test]
fn the_counts_of_a_distribution_add_up_to_the_list() {
    let analyzer = StartingWordAnalyzer::from_words(list(&SEVEN));
    for word in SEVEN.iter().chain(["SLATE", "ZZZZZ"].iter()) {
        let (tally, dist) = analyzer.analyze_word(word).unwrap();
        assert_eq!(dist.iter().map(|(_, count)| *count).sum::<usize>(), 7);
        assert_eq!(tally.total, 7);
    }
}
