use flate2::write::GzEncoder;
use flate2::Compression;
use std::io::Write;
use wordle_engine::input::{parse_input, split_tokens};
use wordle_engine::text::{
    ascii_only, chars_of, normalize, same_text, space, string_of, to_upper, upper_case,
};
use wordle_engine::words::{
    load_words, load_words_compressed, read_word_list, words_of_archive, LoadError,
};

fn list(words: &[&str]) -> Vec<String> {
    words.iter().map(|w| w.to_string()).collect()
}

fn gzip(data: &[u8]) -> Vec<u8> {
    let mut encoder = GzEncoder::new(Vec::new(), Compression::default());
    encoder.write_all(data).unwrap();
    encoder.finish().unwrap()
}

fn chars(s: &str) -> Vec<char> {
    s.chars().collect()
}

#[test]
fn chars_of_and_string_of_convert_both_ways() {
    assert_eq!(chars_of("cr\u{E9}ne"), vec!['c', 'r', '\u{E9}', 'n', 'e']);
    assert_eq!(chars_of(""), Vec::<char>::new());
    assert_eq!(string_of(&chars("crane"), 0, 5), "crane");
    assert_eq!(string_of(&chars("crane"), 1, 3), "ra");
    assert_eq!(string_of(&chars("crane"), 2, 2), "");
}

#[test]
fn upper_casing_touches_ascii_letters_only() {
    assert_eq!(to_upper('a'), 'A');
    assert_eq!(to_upper('z'), 'Z');
    assert_eq!(to_upper('Q'), 'Q');
    assert_eq!(to_upper('1'), '1');
    assert_eq!(to_upper('`'), '`');
    assert_eq!(to_upper('{'), '{');
    assert_eq!(to_upper('\u{E9}'), '\u{E9}');
    assert_eq!(upper_case(&chars("cRaNe-9")), chars("CRANE-9"));
}

#[test]
fn space_knows_white_space() {
    for c in [' ', '\t', '\n', '\r', '\u{B}', '\u{C}', '\u{A0}', '\u{2003}', '\u{3000}'] {
        assert!(space(c));
        assert!(c.is_whitespace());
    }
    for c in ['a', '0', '_', '\u{200B}', '\u{8}', '\u{E}'] {
        assert!(!space(c));
        assert!(!c.is_whitespace());
    }
}

#[test]
fn space_agrees_with_the_standard_library_on_every_character() {
    for code in 0..=0x10FFFFu32 {
        if let Some(c) = char::from_u32(code) {
            assert_eq!(space(c), c.is_whitespace());
        }
    }
}

#[test]
fn normalize_trims_and_upper_cases() {
    assert_eq!(normalize(&chars("  crane \t")), chars("CRANE"));
    assert_eq!(normalize(&chars("crane")), chars("CRANE"));
    assert_eq!(normalize(&chars(" a b ")), chars("A B"));
    assert_eq!(normalize(&chars("   ")), chars(""));
    assert_eq!(normalize(&chars("")), chars(""));
    assert_eq!(normalize(&chars("\r")), chars(""));
}

#[test]
fn same_text_compares_strings() {
    assert!(same_text("entropy", "entropy"));
    assert!(same_text("", ""));
    assert!(!same_text("entropy", "entropx"));
    assert!(!same_text("entropy", "entrop"));
    assert!(!same_text("", "a"));
}

#[test]
fn read_word_list_keeps_lines_of_five_characters() {
    let text = "crane\n  slate \r\nab\nTOOLONG\n\nmoist";
    assert_eq!(read_word_list(text, true), list(&["CRANE", "SLATE", "MOIST"]));
}

#[test]
fn read_word_list_without_trimming_counts_the_white_space() {
    let text = "crane\r\n slate\nbrain \ngrain\nmoist\r";
    assert_eq!(read_word_list(text, false), list(&["CRANE", "GRAIN"]));
    assert_eq!(read_word_list(text, true), list(&["CRANE", "SLATE", "BRAIN", "GRAIN", "MOIST"]));
}

#[test]
fn read_word_list_keeps_words_that_are_no_letters() {
    assert_eq!(read_word_list("ab-cd\n12345\na b c\n", true), list(&["AB-CD", "12345", "A B C"]));
}

#[test]
fn read_word_list_of_an_empty_text_is_empty() {
    assert!(read_word_list("", true).is_empty());
    assert!(read_word_list("\n\n\r\n", true).is_empty());
}

#[test]
fn load_words_reads_the_list() {
    assert_eq!(load_words("crane\nslate\n"), Ok(list(&["CRANE", "SLATE"])));
}

#[test]
fn load_words_refuses_a_text_without_words() {
    assert_eq!(load_words(""), Err(LoadError::NoWords));
    assert_eq!(load_words("abc\nabcdef\n"), Err(LoadError::NoWords));
}

#[test]
fn load_words_compressed_unpacks_and_reads() {
    let packed = gzip(b"crane\n slate\r\nab\nmoist");
    assert_ne!(packed.as_slice(), &b"crane\n slate\r\nab\nmoist"[..]);
    assert_eq!(load_words_compressed(&packed), Ok(list(&["CRANE", "SLATE", "MOIST"])));
}

#[test]
fn load_words_compressed_accepts_a_list_without_words() {
    assert_eq!(load_words_compressed(&gzip(b"")), Ok(Vec::new()));
    assert_eq!(load_words_compressed(&gzip(b"abc\n")), Ok(Vec::new()));
}

#[test]
fn load_words_compressed_refuses_what_is_no_archive() {
    assert_eq!(load_words_compressed(b"crane\nslate\n"), Err(LoadError::BadArchive));
    assert_eq!(load_words_compressed(b""), Err(LoadError::BadArchive));
}

#[test]
fn load_words_compressed_refuses_a_damaged_archive() {
    let mut packed = gzip(b"crane\nslate\nmoist\n");
    let last = packed.len() - 5;
    packed[last] ^= 0xFF;
    assert_eq!(load_words_compressed(&packed), Err(LoadError::BadArchive));
    let whole = gzip(b"crane\nslate\nmoist\n");
    assert_eq!(load_words_compressed(&whole[..whole.len() - 4]), Err(LoadError::BadArchive));
}

#[test]
fn load_words_compressed_refuses_content_that_is_no_text() {
    assert_eq!(load_words_compressed(&gzip(&[0xFF, 0xFE, 0x0A])), Err(LoadError::BadArchive));
}

#[test]
fn split_tokens_cuts_at_white_space() {
    assert_eq!(split_tokens("CRANE GYYBB"), vec![chars("CRANE"), chars("GYYBB")]);
    assert_eq!(split_tokens("  a\t\tbc \n d  "), vec![chars("a"), chars("bc"), chars("d")]);
    assert_eq!(split_tokens(""), Vec::<Vec<char>>::new());
    assert_eq!(split_tokens(" \t "), Vec::<Vec<char>>::new());
}

#[test]
fn split_tokens_agrees_with_the_standard_library() {
    for text in ["CRANE GYYBB", " a  b ", "one", "", "\u{A0}x\u{3000}y\u{2003}", "a\r\nb\tc"] {
        let expected: Vec<Vec<char>> = text.split_whitespace().map(chars).collect();
        assert_eq!(split_tokens(text), expected);
    }
}

#[test]
fn parse_input_puts_both_tokens_in_upper_case() {
    let guess = parse_input("crane gYybB").unwrap();
    assert_eq!(guess.word, "CRANE");
    assert_eq!(guess.feedback, vec!['G', 'Y', 'Y', 'B', 'B']);
}

#[test]
fn parse_input_allows_white_space_around_the_tokens() {
    let guess = parse_input("  SLATE\t bgybg \n").unwrap();
    assert_eq!(guess.word, "SLATE");
    assert_eq!(guess.feedback, vec!['B', 'G', 'Y', 'B', 'G']);
}

#[test]
fn parse_input_wants_two_tokens() {
    let message = "Input must be WORD FEEDBACK".to_string();
    assert_eq!(parse_input(""), Err(message.clone()));
    assert_eq!(parse_input("CRANE"), Err(message.clone()));
    assert_eq!(parse_input("CRANE GYYBB GYYBB"), Err(message.clone()));
    assert_eq!(parse_input("CRA NE GYYBB"), Err(message));
}

#[test]
fn parse_input_wants_a_word_of_five() {
    let message = "Word must be 5 letters".to_string();
    assert_eq!(parse_input("CRAN GYYBB"), Err(message.clone()));
    assert_eq!(parse_input("CRANES GYYBB"), Err(message.clone()));
    assert_eq!(parse_input("CRAN GYBB"), Err(message));
}

#[test]
fn parse_input_wants_five_feedback_symbols() {
    let message = "Feedback must be 5 characters of G, Y, or B".to_string();
    assert_eq!(parse_input("CRANE GYBB"), Err(message.clone()));
    assert_eq!(parse_input("CRANE GYYBBB"), Err(message.clone()));
    assert_eq!(parse_input("CRANE GYxBx"), Err(message.clone()));
    assert_eq!(parse_input("CRANE 01201"), Err(message));
}

#[test]
fn words_of_archive_reads_what_was_unpacked() {
    assert_eq!(words_of_archive(Ok("crane\nab\n slate\n".to_string())), Ok(list(&["CRANE", "SLATE"])));
    assert_eq!(words_of_archive(Ok(String::new())), Ok(Vec::new()));
}

#[test]
fn words_of_archive_reports_a_bad_archive() {
    let failure = std::io::Error::new(std::io::ErrorKind::InvalidInput, "bad header");
    assert_eq!(words_of_archive(Err(failure)), Err(LoadError::BadArchive));
}

#[test]
fn ascii_only_refuses_any_other_character() {
    assert!(ascii_only(&chars("crane")));
    assert!(ascii_only(&chars("AB-1 \u{7f}")));
    assert!(ascii_only(&chars("")));
    assert!(!ascii_only(&chars("h\u{E9}llo")));
    assert!(!ascii_only(&chars("\u{80}")));
}

#[test]
fn read_word_list_drops_a_line_with_a_letter_outside_ascii() {
    assert_eq!(read_word_list("h\u{E9}llo\ncrane\n\u{E9}abc\nstra\u{DF}\n", true), list(&["CRANE"]));
    assert_eq!(read_word_list("h\u{E9}llo\ncrane\n", false), list(&["CRANE"]));
}

#[test]
fn read_word_list_gives_what_the_standard_library_gives_on_ascii_text() {
    let text = "crane\n  Slate \r\nab\nTOOLONG\n\nb-9 z\r\n\tmoist";
    let expected: Vec<String> = text
        .lines()
        .map(|word| word.trim().to_uppercase())
        .filter(|word| word.len() == 5)
        .collect();
    assert_eq!(read_word_list(text, true), expected);
    assert_eq!(expected, list(&["CRANE", "SLATE", "B-9 Z", "MOIST"]));
}

#[test]
fn load_words_refuses_a_text_whose_only_line_is_not_ascii() {
    assert_eq!(load_words("h\u{E9}llo"), Err(LoadError::NoWords));
    assert_eq!(load_words("h\u{E9}llo\n"), Err(LoadError::NoWords));
    assert_eq!(load_words_compressed(&gzip("h\u{E9}llo\n".as_bytes())), Ok(Vec::new()));
}

#[test]
fn every_word_read_has_five_bytes_and_no_lower_case_letter() {
    let words = read_word_list("crane\nh\u{E9}llo\n sLaTe\nab-cd\n\u{E9}\u{E9}\u{E9}\u{E9}\u{E9}\n", true);
    assert_eq!(words, list(&["CRANE", "SLATE", "AB-CD"]));
    for word in &words {
        assert_eq!(word.len(), 5);
        assert!(word.is_ascii());
        assert!(!word.chars().any(|c| c.is_lowercase()));
    }
}

#[test]
fn parse_input_refuses_a_word_with_a_letter_outside_ascii() {
    let message = "Word must be 5 letters".to_string();
    assert_eq!(parse_input("h\u{E9}llo GYYBB"), Err(message.clone()));
    assert_eq!(parse_input("\u{E9}abc GYYBB"), Err(message.clone()));
    assert_eq!(parse_input("stra\u{DF} gyybb"), Err(message));
}

#[test]
fn parse_input_refuses_feedback_outside_ascii() {
    let message = "Feedback must be 5 characters of G, Y, or B".to_string();
    assert_eq!(parse_input("CRANE GY\u{1E99}BB"), Err(message.clone()));
    assert_eq!(parse_input("CRANE \u{E9}YYBB"), Err(message));
}
