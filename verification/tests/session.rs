use wordle_engine::feedback::calculate_feedback;
use wordle_engine::filter::{filter_by_black, filter_words};
use wordle_engine::state::{record_guess, GameState, Outcome};
use wordle_engine::types::Guess;

fn list(words: &[&str]) -> Vec<String> {
    words.iter().map(|w| w.to_string()).collect()
}

fn alphabet_without(gone: &str) -> Vec<char> {
    ('A'..='Z').filter(|c| !gone.contains(*c)).collect()
}

#[test]
fn filter_keeps_the_order_of_the_list() {
    let mut words = list(&["TRAIN", "CRANE", "BRAIN", "STAIN", "GRAIN"]);
    let guess = Guess::new("CRANE".to_string(), vec!['B', 'G', 'G', 'Y', 'B']);
    filter_words(&mut words, &guess);
    assert_eq!(words, list(&["TRAIN", "BRAIN", "GRAIN"]));
}

#[test]
fn filter_applied_twice_changes_nothing_more() {
    let mut words = list(&["CRANE", "BRAIN", "GRAIN", "TRAIN", "STAIN", "PLAIN", "CHAIN"]);
    let guess = Guess::new("STAIN".to_string(), vec!['B', 'B', 'G', 'G', 'G']);
    filter_words(&mut words, &guess);
    let once = words.clone();
    filter_words(&mut words, &guess);
    assert_eq!(words, once);
    assert_eq!(once, list(&["BRAIN", "GRAIN", "PLAIN", "CHAIN"]));
}

#[test]
fn filter_never_removes_the_solution() {
    let universe = list(&[
        "CRANE", "LLAMA", "LEVEL", "SPEED", "ABIDE", "EERIE", "MAMMA", "TRACE", "BABES", "ABBEY",
    ]);
    for solution in &universe {
        for guess in &universe {
            let feedback = calculate_feedback(guess, solution);
            let mut words = universe.clone();
            filter_words(&mut words, &Guess::new(guess.clone(), feedback));
            assert!(words.contains(solution));
        }
    }
}

#[test]
fn a_black_copy_beside_a_yellow_one_excludes_nothing() {
    let mut words = list(&["ABIDE", "ASIDE", "EMBED", "UNDID"]);
    let guess = Guess::new("SPEED".to_string(), vec!['B', 'B', 'Y', 'B', 'Y']);
    filter_words(&mut words, &guess);
    assert_eq!(words, list(&["ABIDE"]));
}

#[test]
fn the_black_rule_alone_ignores_letters_shown_elsewhere() {
    let mut words = list(&["ABIDE", "ASIDE", "EMBED", "UNDID"]);
    let guess = Guess::new("SPEED".to_string(), vec!['B', 'B', 'Y', 'B', 'Y']);
    filter_by_black(&mut words, &guess);
    assert_eq!(words, list(&["ABIDE", "EMBED", "UNDID"]));
}

#[test]
fn filter_ignores_marks_that_are_no_symbols() {
    let mut words = list(&["CRANE", "BRAIN"]);
    let guess = Guess::new("ZZZZZ".to_string(), vec!['x', '?', ' ', 'g', 'b']);
    filter_words(&mut words, &guess);
    assert_eq!(words, list(&["CRANE", "BRAIN"]));
}

#[test]
fn filter_of_an_empty_list_is_empty() {
    let mut words: Vec<String> = Vec::new();
    let guess = Guess::new("CRANE".to_string(), vec!['B', 'G', 'G', 'Y', 'B']);
    filter_words(&mut words, &guess);
    assert!(words.is_empty());
}

#[test]
fn a_new_session_has_every_letter_and_no_attempt() {
    let state = GameState::new(list(&["CRANE", "BRAIN"]));
    assert_eq!(state.candidates, list(&["CRANE", "BRAIN"]));
    assert_eq!(state.attempt_count, 0);
    assert!(state.attempts.is_empty());
    assert_eq!(state.get_available_letters_sorted(), alphabet_without(""));
    assert_eq!(state.get_available_letters_sorted().len(), 26);
}

#[test]
fn recording_a_guess_filters_the_candidates() {
    let mut state =
        GameState::new(list(&["CRANE", "BRAIN", "GRAIN", "TRAIN", "STAIN", "PLAIN", "CHAIN"]));
    let guess = Guess::new("CRANE".to_string(), vec!['B', 'G', 'G', 'Y', 'B']);
    state.add_attempt(guess.clone());
    assert_eq!(state.candidates, list(&["BRAIN", "GRAIN", "TRAIN"]));
    assert_eq!(state.attempt_count, 1);
    assert_eq!(state.attempts, vec![guess]);
    assert_eq!(state.get_available_letters_sorted(), alphabet_without("CE"));
}

#[test]
fn recording_keeps_a_letter_that_is_black_and_yellow_in_one_guess() {
    let mut state = GameState::new(list(&["ABIDE", "ASIDE"]));
    state.add_attempt(Guess::new("SPEED".to_string(), vec!['B', 'B', 'Y', 'B', 'Y']));
    assert_eq!(state.get_available_letters_sorted(), alphabet_without("SP"));
    assert_eq!(state.candidates, list(&["ABIDE"]));
}

#[test]
fn recording_twice_appends_and_shrinks() {
    let mut state =
        GameState::new(list(&["CRANE", "BRAIN", "GRAIN", "TRAIN", "STAIN", "PLAIN", "CHAIN"]));
    let first = Guess::new("CRANE".to_string(), vec!['B', 'G', 'G', 'Y', 'B']);
    let second = Guess::new("BRAIN".to_string(), vec!['B', 'G', 'G', 'G', 'G']);
    state.add_attempt(first.clone());
    state.add_attempt(second.clone());
    assert_eq!(state.attempt_count, 2);
    assert_eq!(state.attempts, vec![first, second]);
    assert_eq!(state.candidates, list(&["GRAIN", "TRAIN"]));
    assert_eq!(state.get_available_letters_sorted(), alphabet_without("BCE"));
}

#[test]
fn guesses_that_contradict_one_another_leave_no_candidate() {
    let mut state = GameState::new(list(&["CRANE", "BRAIN"]));
    state.add_attempt(Guess::new("CRANE".to_string(), vec!['B', 'B', 'B', 'B', 'B']));
    assert!(state.candidates.is_empty());
    assert_eq!(state.attempt_count, 1);
}

#[test]
fn the_candidates_left_are_spelt_with_available_letters() {
    let mut state =
        GameState::new(list(&["CRANE", "BRAIN", "GRAIN", "TRAIN", "STAIN", "PLAIN", "CHAIN"]));
    state.add_attempt(Guess::new("CRANE".to_string(), vec!['B', 'G', 'G', 'Y', 'B']));
    state.add_attempt(Guess::new("BRAIN".to_string(), vec!['B', 'G', 'G', 'G', 'G']));
    let letters = state.get_available_letters_sorted();
    assert!(!state.candidates.is_empty());
    for word in &state.candidates {
        assert!(word.chars().all(|c| letters.contains(&c)));
    }
}

const SEVEN: [&str; 7] = ["CRANE", "BRAIN", "GRAIN", "TRAIN", "STAIN", "PLAIN", "CHAIN"];

#[test]
fn an_all_green_guess_solves_and_is_not_recorded() {
    let mut state = GameState::new(list(&SEVEN));
    let outcome = record_guess(&mut state, Guess::new("BRAIN".to_string(), vec!['G'; 5]));
    assert_eq!(outcome, Outcome::Solved);
    assert_eq!(state.attempt_count, 0);
    assert!(state.attempts.is_empty());
    assert_eq!(state.candidates, list(&SEVEN));
    assert_eq!(state.get_available_letters_sorted().len(), 26);
}

#[test]
fn a_guess_that_leaves_several_candidates_asks_for_a_suggestion() {
    let mut state = GameState::new(list(&SEVEN));
    let guess = Guess::new("CRANE".to_string(), vec!['B', 'G', 'G', 'Y', 'B']);
    assert_eq!(record_guess(&mut state, guess.clone()), Outcome::Next { suggest: true });
    assert_eq!(state.candidates, list(&["BRAIN", "GRAIN", "TRAIN"]));
    assert_eq!(state.attempt_count, 1);
    assert_eq!(state.attempts, vec![guess]);
    assert_eq!(state.get_available_letters_sorted(), alphabet_without("CE"));
}

#[test]
fn a_guess_that_leaves_one_candidate_asks_for_none() {
    let mut state = GameState::new(list(&SEVEN));
    let guess = Guess::new("CRANE".to_string(), vec!['G', 'B', 'G', 'Y', 'B']);
    assert_eq!(record_guess(&mut state, guess), Outcome::Next { suggest: false });
    assert_eq!(state.candidates, list(&["CHAIN"]));
}

#[test]
fn a_guess_that_leaves_no_candidate_exhausts_the_session() {
    let mut state = GameState::new(list(&SEVEN));
    let guess = Guess::new("CRANE".to_string(), vec!['B', 'B', 'B', 'B', 'B']);
    assert_eq!(record_guess(&mut state, guess), Outcome::Exhausted);
    assert!(state.candidates.is_empty());
    assert_eq!(state.attempt_count, 1);
}

#[test]
fn the_sixth_recorded_guess_is_the_last() {
    let mut state = GameState::new(list(&SEVEN));
    let guess = Guess::new("ZZZZZ".to_string(), vec!['B'; 5]);
    for _ in 0..5 {
        assert_eq!(record_guess(&mut state, guess.clone()), Outcome::Next { suggest: true });
    }
    assert_eq!(record_guess(&mut state, guess.clone()), Outcome::Last { suggest: true });
    assert_eq!(state.attempt_count, 6);
    assert_eq!(state.candidates, list(&SEVEN));
}

#[test]
fn the_last_guess_may_leave_one_candidate_or_none() {
    let mut state = GameState::new(list(&SEVEN));
    let idle = Guess::new("ZZZZZ".to_string(), vec!['B'; 5]);
    for _ in 0..5 {
        record_guess(&mut state, idle.clone());
    }
    let mut other = GameState::new(list(&SEVEN));
    for _ in 0..5 {
        record_guess(&mut other, idle.clone());
    }
    let one = Guess::new("CRANE".to_string(), vec!['G', 'B', 'G', 'Y', 'B']);
    assert_eq!(record_guess(&mut state, one), Outcome::Last { suggest: false });
    let none = Guess::new("CRANE".to_string(), vec!['B'; 5]);
    assert_eq!(record_guess(&mut other, none), Outcome::Exhausted);
}

#[test]
fn a_solving_guess_after_the_sixth_is_still_a_solution() {
    let mut state = GameState::new(list(&SEVEN));
    let idle = Guess::new("ZZZZZ".to_string(), vec!['B'; 5]);
    for _ in 0..6 {
        record_guess(&mut state, idle.clone());
    }
    assert_eq!(record_guess(&mut state, Guess::new("BRAIN".to_string(), vec!['G'; 5])), Outcome::Solved);
    assert_eq!(state.attempt_count, 6);
}
