//! Searches in analysed texts, with the expected highlights.

use highlighting::document_highlighter::DocumentHighlighter;
use highlighting::error::HighlightError;
use highlighting::proximity::ProximityPart;
use highlighting::rows::{
    highlight_fuzzy, highlight_phrase, highlight_proximity, highlight_term, highlight_wildcard,
    HighlightRow,
};
use highlighting::token::{AnalyzedToken, TokenEntry};

/// Whether a separator at `i` joins what stands around it: a full stop or an apostrophe between
/// letters, a full stop or a comma between digits.
fn joins(chars: &[char], i: usize) -> bool {
    if i == 0 || i + 1 >= chars.len() {
        return false;
    }
    let (before, here, after) = (chars[i - 1], chars[i], chars[i + 1]);
    let letters = before.is_alphabetic() && after.is_alphabetic();
    let digits = before.is_numeric() && after.is_numeric();
    match here {
        '.' => letters || digits,
        '\'' => letters,
        ',' => digits,
        _ => false,
    }
}

/// Cuts an ASCII text into lower-case words, as a standard analyser does.
fn analyze(text: &str) -> Vec<AnalyzedToken> {
    let chars: Vec<char> = text.chars().collect();
    let mut tokens: Vec<AnalyzedToken> = Vec::new();
    let mut start: usize = 0;
    while start < chars.len() {
        if !chars[start].is_alphanumeric() {
            start += 1;
            continue;
        }
        let mut end: usize = start;
        while end < chars.len() && (chars[end].is_alphanumeric() || joins(&chars, end)) {
            end += 1;
        }
        tokens.push(AnalyzedToken {
            token: chars[start..end].iter().collect::<String>().to_lowercase(),
            type_: String::from("<ALPHANUM>"),
            position: tokens.len() as i32,
            start_offset: start as i64,
            end_offset: end as i64,
        });
        start = end;
    }
    tokens
}

fn indexed<'a>(text: &str) -> DocumentHighlighter<'a> {
    let mut highlighter = DocumentHighlighter::new();
    highlighter.analyze_document(analyze(text));
    highlighter
}

fn words(words: &[&str]) -> Vec<String> {
    words.iter().map(|word| word.to_string()).collect()
}

fn part(alternatives: &[&str], distance: u32, in_order: bool) -> Option<ProximityPart> {
    Some(ProximityPart { words: words(alternatives), distance, in_order })
}

fn entry(position: u32, start_offset: u64, end_offset: u64) -> TokenEntry {
    TokenEntry { type_: String::from("<ALPHANUM>"), position, start_offset, end_offset }
}

/// Compares a set of highlights, each of which must be there once.
fn assert_matches(matches: Option<Vec<(String, &TokenEntry)>>, expect: Vec<(&str, TokenEntry)>) {
    let matches = matches.expect("no matches found");
    assert_eq!(matches.len(), expect.len());
    for (term, entry) in expect {
        assert!(matches.contains(&(term.to_string(), &entry)));
    }
}

/// Compares rows in the order of their positions.
fn assert_rows(mut rows: Vec<HighlightRow>, expect: Vec<(&str, &str, i32, i64, i64)>) {
    rows.sort_by_key(|row| row.position);
    assert_eq!(rows.len(), expect.len());
    for (row, (type_, term, position, start_offset, end_offset)) in rows.iter().zip(expect) {
        assert_eq!(
            *row,
            HighlightRow {
                field_name: String::from("test_field"),
                term: term.to_string(),
                type_: type_.to_string(),
                position,
                start_offset,
                end_offset,
            }
        );
    }
}

#[test]
fn test_look_for_match_none() {
    let highlighter = indexed("this is a test");
    assert!(highlighter.look_for_match(&words(&["test"]), 1, true, vec![0]).is_none());
}

#[test]
fn test_look_for_match_in_order_one() {
    let highlighter = indexed("this is a test");
    let matches = highlighter.look_for_match(&words(&["is"]), 0, true, vec![0]);
    assert_matches(matches, vec![("is", entry(1, 5, 7))]);
}

#[test]
fn test_look_for_match_out_of_order_one() {
    let highlighter = indexed("this is a test");
    let matches = highlighter.look_for_match(&words(&["this"]), 0, false, vec![1]);
    assert_matches(matches, vec![("this", entry(0, 0, 4))]);
}

#[test]
fn test_look_for_match_in_order_two() {
    let highlighter = indexed("this is a test and this is also a test");
    let matches = highlighter.look_for_match(&words(&["is"]), 0, false, vec![0, 5]);
    assert_matches(matches, vec![("is", entry(1, 5, 7)), ("is", entry(6, 24, 26))]);
}

#[test]
fn test_look_for_match_out_of_order_two() {
    let highlighter = indexed("this is a test and this is also a test");
    let matches = highlighter.look_for_match(&words(&["this"]), 0, false, vec![1, 6]);
    assert_matches(matches, vec![("this", entry(0, 0, 4)), ("this", entry(5, 19, 23))]);
}

#[test]
fn test_look_for_match_in_order_two_different_dist() {
    let highlighter = indexed("this is a test and this is also a test");
    let matches = highlighter.look_for_match(&words(&["test"]), 3, true, vec![0, 5]);
    assert_matches(matches, vec![("test", entry(3, 10, 14)), ("test", entry(9, 34, 38))]);
}

#[test]
fn test_look_for_match_out_of_order_two_diff_dist() {
    let highlighter = indexed("this is a test and this is also a test");
    let matches = highlighter.look_for_match(&words(&["this"]), 3, false, vec![3, 9]);
    assert_matches(matches, vec![("this", entry(0, 0, 4)), ("this", entry(5, 19, 23))]);
}

#[test]
fn test_highlighter_term() {
    let rows = highlight_term(
        "test_field",
        analyze("it is a test and it is a good one"),
        "it",
    );
    assert_rows(
        rows,
        vec![
            ("<ALPHANUM>", "it", 0, 0, 2),
            ("<ALPHANUM>", "it", 5, 17, 19),
        ],
    );
}

#[test]
fn test_highlighter_phrase() {
    let rows = highlight_phrase(
        "test_field",
        analyze("it is a test and it is a good one"),
        "it is a",
        analyze("it is a"),
    );
    assert_rows(
        rows,
        vec![
            ("<ALPHANUM>", "it", 0, 0, 2),
            ("<ALPHANUM>", "is", 1, 3, 5),
            ("<ALPHANUM>", "a", 2, 6, 7),
            ("<ALPHANUM>", "it", 5, 17, 19),
            ("<ALPHANUM>", "is", 6, 20, 22),
            ("<ALPHANUM>", "a", 7, 23, 24),
        ],
    );
}

#[test]
fn test_highlighter_phrase_as_one_word() {
    let rows = highlight_phrase(
        "test_field",
        analyze("it is a test and it is a good one"),
        "it",
        analyze("it"),
    );
    assert_rows(
        rows,
        vec![
            ("<ALPHANUM>", "it", 0, 0, 2),
            ("<ALPHANUM>", "it", 5, 17, 19),
        ],
    );
}

#[test]
fn test_highlighter_phrase_with_phrase_not_in_text() {
    let rows = highlight_phrase(
        "test_field",
        analyze("it is a test and it is a good one"),
        "banana",
        analyze("banana"),
    );
    assert_rows(rows, vec![]);
}

#[test]
fn test_highlighter_wildcard_with_asterisk() {
    let rows = highlight_wildcard(
        "test_field",
        analyze("Mom landed a man on the moon"),
        "m*n",
    )
    .unwrap();
    assert_rows(
        rows,
        vec![
            ("<ALPHANUM>", "man", 3, 13, 16),
            ("<ALPHANUM>", "moon", 6, 24, 28),
        ],
    );
}

#[test]
fn test_highlighter_wildcard_with_question_mark() {
    let rows = highlight_wildcard(
        "test_field",
        analyze("Mom landed a man on the moon"),
        "m?n",
    )
    .unwrap();
    assert_rows(
        rows,
        vec![
            ("<ALPHANUM>", "man", 3, 13, 16),
        ],
    );
}

#[test]
fn test_highlighter_wildcard_with_no_match() {
    let rows = highlight_wildcard(
        "test_field",
        analyze("Mom landed a man on the moon"),
        "n*n",
    )
    .unwrap();
    assert_rows(rows, vec![]);
}

#[test]
fn test_highlighter_regex() {
    let rows = highlight_wildcard(
        "test_field",
        analyze("Mom landed a man on the moon"),
        "^m.*$",
    )
    .unwrap();
    assert_rows(
        rows,
        vec![
            ("<ALPHANUM>", "mom", 0, 0, 3),
            ("<ALPHANUM>", "man", 3, 13, 16),
            ("<ALPHANUM>", "moon", 6, 24, 28),
        ],
    );
}

#[test]
fn test_highlighter_fuzzy_correct_three_char_term() {
    let rows = highlight_fuzzy(
        "test_field",
        analyze("coal colt cot cheese beer co beer colter cat bolt c"),
        "cot",
        1,
    )
    .unwrap();
    assert_rows(
        rows,
        vec![
            ("<ALPHANUM>", "colt", 1, 5, 9),
            ("<ALPHANUM>", "cot", 2, 10, 13),
            ("<ALPHANUM>", "co", 5, 26, 28),
            ("<ALPHANUM>", "cat", 8, 41, 44),
        ],
    );
}

#[test]
fn test_highlighter_fuzzy_correct_two_char_string() {
    let rows = highlight_fuzzy(
        "test_field",
        analyze("coal colt cot cheese beer co beer colter cat bolt c"),
        "co",
        1,
    )
    .unwrap();
    assert_rows(
        rows,
        vec![
            ("<ALPHANUM>", "co", 5, 26, 28),
        ],
    );
}

#[test]
fn test_highlighter_fuzzy_6_char_string() {
    let rows = highlight_fuzzy(
        "test_field",
        analyze("coal colt cot cheese beer co beer colter cat bolt c cott cooler"),
        "colter",
        2,
    )
    .unwrap();
    assert_rows(
        rows,
        vec![
            ("<ALPHANUM>", "colt", 1, 5, 9),
            ("<ALPHANUM>", "colter", 7, 34, 40),
            ("<ALPHANUM>", "cooler", 12, 57, 63),
        ],
    );
}

#[test]
fn test_highlighter_fuzzy_with_prefix_number_longer_then_given_string() {
    let rows = highlight_fuzzy(
        "test_field",
        analyze("coal colt cot cheese beer co beer colter cat bolt"),
        "cot",
        4,
    )
    .unwrap();
    assert_rows(
        rows,
        vec![
            ("<ALPHANUM>", "cot", 2, 10, 13),
        ],
    );
}

#[test]
fn test_highlighter_fuzzy_with_prefix_number_longer_then_given_string_with_non_return() {
    let rows = highlight_fuzzy(
        "test_field",
        analyze("coal colt cot cheese beer co beer colter cat bolt"),
        "cet",
        4,
    )
    .unwrap();
    assert_rows(rows, vec![]);
}

#[test]
fn test_highlighter_fuzzy_with_negative_prefix() {
    let rows = highlight_fuzzy(
        "test_field",
        analyze("coal colt cot cheese beer co beer colter cat bolt"),
        "cet",
        -4,
    );
    assert_eq!(rows, Err(HighlightError::NegativePrefix));
}

#[test]
fn test_highlighter_proximity_two_term() {
    let rows = highlight_proximity(
        "test_field",
        analyze("this is a test that is longer and has a second this near test a second time and a third this that is not"),
        vec![
            part(&["this"], 2, false),
            part(&["test"], 0, false),
        ],
    );
    assert_rows(
        rows.unwrap(),
        vec![
            ("<ALPHANUM>", "this", 0, 0, 4),
            ("<ALPHANUM>", "test", 3, 10, 14),
            ("<ALPHANUM>", "this", 11, 47, 51),
            ("<ALPHANUM>", "test", 13, 57, 61),
        ],
    );
}

#[test]
fn test_highlighter_proximity_three_term() {
    let rows = highlight_proximity(
        "test_field",
        analyze("this is a test that is longer and has a second this near test a second time and a third this that is not"),
        vec![
            part(&["this"], 2, false),
            part(&["test"], 0, false),
            part(&["that"], 2, false),
        ],
    );
    assert_rows(
        rows.unwrap(),
        vec![
            ("<ALPHANUM>", "this", 0, 0, 4),
            ("<ALPHANUM>", "test", 3, 10, 14),
            ("<ALPHANUM>", "that", 4, 15, 19),
        ],
    );
}

#[test]
fn test_highlighter_proximity_one_term() {
    let rows = highlight_proximity(
        "test_field",
        analyze("this is a test that is longer and has a second this near test a second time and a third this that is not"),
        vec![
            part(&["this"], 2, false),
        ],
    );
    assert_rows(
        rows.unwrap(),
        vec![
            ("<ALPHANUM>", "this", 0, 0, 4),
            ("<ALPHANUM>", "this", 11, 47, 51),
            ("<ALPHANUM>", "this", 20, 88, 92),
        ],
    );
}

#[test]
fn test_highlighter_proximity_three_term_found_twice() {
    let rows = highlight_proximity(
        "test_field",
        analyze("this is a test that is longer and has a second this near test a second time and a third that is not this test that whatever "),
        vec![
            part(&["this"], 2, false),
            part(&["test"], 0, false),
            part(&["that"], 2, false),
        ],
    );
    assert_rows(
        rows.unwrap(),
        vec![
            ("<ALPHANUM>", "this", 0, 0, 4),
            ("<ALPHANUM>", "test", 3, 10, 14),
            ("<ALPHANUM>", "that", 4, 15, 19),
            ("<ALPHANUM>", "this", 23, 100, 104),
            ("<ALPHANUM>", "test", 24, 105, 109),
            ("<ALPHANUM>", "that", 25, 110, 114),
        ],
    );
}

#[test]
fn test_highlighter_proximity_simple_in_order_test() {
    let rows = highlight_proximity(
        "test_field",
        analyze("this is this"),
        vec![
            part(&["this"], 2, true),
            part(&["is"], 0, true),
        ],
    );
    assert_rows(
        rows.unwrap(),
        vec![
            ("<ALPHANUM>", "this", 0, 0, 4),
            ("<ALPHANUM>", "is", 1, 5, 7),
        ],
    );
}

#[test]
fn test_highlighter_proximity_simple_without_order_test() {
    let rows = highlight_proximity(
        "test_field",
        analyze("this is this"),
        vec![
            part(&["this"], 2, false),
            part(&["is"], 0, true),
        ],
    );
    assert_rows(
        rows.unwrap(),
        vec![
            ("<ALPHANUM>", "this", 0, 0, 4),
            ("<ALPHANUM>", "is", 1, 5, 7),
            ("<ALPHANUM>", "this", 2, 8, 12),
        ],
    );
}

#[test]
fn test_highlighter_proximity_four_with_inorder_and_not_inorder() {
    let rows = highlight_proximity(
        "test_field",
        analyze("now is the time for all good men to come to the aid of their country."),
        vec![
            part(&["for"], 2, true),
            part(&["men"], 2, true),
            part(&["to"], 12, false),
            part(&["now"], 2, false),
        ],
    );
    assert_rows(
        rows.unwrap(),
        vec![
            ("<ALPHANUM>", "now", 0, 0, 3),
            ("<ALPHANUM>", "for", 4, 16, 19),
            ("<ALPHANUM>", "men", 7, 29, 32),
            ("<ALPHANUM>", "to", 8, 33, 35),
            ("<ALPHANUM>", "to", 10, 41, 43),
        ],
    );
}

#[test]
fn test_highlighter_proximity_four_with_inorder_and_not_inorder_doubles_far_apart() {
    let rows = highlight_proximity(
        "test_field",
        analyze("now is the time of the year for all good men to rise up and come to the aid of their country."),
        vec![
            part(&["for"], 2, true),
            part(&["men"], 5, true),
            part(&["to"], 11, false),
            part(&["now"], 2, false),
        ],
    );
    assert_rows(
        rows.unwrap(),
        vec![
            ("<ALPHANUM>", "now", 0, 0, 3),
            ("<ALPHANUM>", "for", 7, 28, 31),
            ("<ALPHANUM>", "men", 10, 41, 44),
            ("<ALPHANUM>", "to", 11, 45, 47),
            ("<ALPHANUM>", "to", 16, 65, 67),
        ],
    );
}

#[test]
fn test_highlighter_proximity_long_test() {
    let rows = highlight_proximity(
        "test_field",
        analyze(&test_blurb()),
        vec![
            part(&["energy"], 3, false),
            part(&["enron"], 3, false),
            part(&["lay"], 3, false),
        ],
    );
    assert_rows(
        rows.unwrap(),
        vec![
            ("<ALPHANUM>", "energy", 223, 1597, 1603),
            ("<ALPHANUM>", "lay", 226, 1631, 1634),
            ("<ALPHANUM>", "enron", 227, 1648, 1653),
        ],
    );
}

#[test]
fn test_highlighter_proximity_array_two_then_one_in_order() {
    let rows = highlight_proximity(
        "test_field",
        analyze("This is a test"),
        vec![
            part(&["this", "is"], 2, true),
            part(&["test"], 5, true),
        ],
    );
    assert_rows(
        rows.unwrap(),
        vec![
            ("<ALPHANUM>", "this", 0, 0, 4),
            ("<ALPHANUM>", "is", 1, 5, 7),
            ("<ALPHANUM>", "test", 3, 10, 14),
        ],
    );
}

#[test]
fn test_highlighter_proximity_array_one_then_two_in_order() {
    let rows = highlight_proximity(
        "test_field",
        analyze("This is a test"),
        vec![
            part(&["this"], 2, true),
            part(&["test", "is"], 5, true),
        ],
    );
    assert_rows(
        rows.unwrap(),
        vec![
            ("<ALPHANUM>", "this", 0, 0, 4),
            ("<ALPHANUM>", "is", 1, 5, 7),
            ("<ALPHANUM>", "test", 3, 10, 14),
        ],
    );
}

#[test]
fn test_highlighter_proximity_array_two_then_one_without_order() {
    let rows = highlight_proximity(
        "test_field",
        analyze("This is a test"),
        vec![
            part(&["test", "is"], 2, false),
            part(&["this"], 5, true),
        ],
    );
    assert_rows(
        rows.unwrap(),
        vec![
            ("<ALPHANUM>", "this", 0, 0, 4),
            ("<ALPHANUM>", "is", 1, 5, 7),
            ("<ALPHANUM>", "test", 3, 10, 14),
        ],
    );
}

#[test]
fn test_highlighter_proximity_array_one_then_two_without_order() {
    let rows = highlight_proximity(
        "test_field",
        analyze("This is a test"),
        vec![
            part(&["test"], 2, false),
            part(&["this", "is"], 5, true),
        ],
    );
    assert_rows(
        rows.unwrap(),
        vec![
            ("<ALPHANUM>", "this", 0, 0, 4),
            ("<ALPHANUM>", "is", 1, 5, 7),
            ("<ALPHANUM>", "test", 3, 10, 14),
        ],
    );
}

#[test]
fn test_highlighter_proximity_array_two_then_two_in_order() {
    let rows = highlight_proximity(
        "test_field",
        analyze("This is a test that is a bit longer"),
        vec![
            part(&["this", "is"], 2, true),
            part(&["test", "longer"], 5, true),
        ],
    );
    assert_rows(
        rows.unwrap(),
        vec![
            ("<ALPHANUM>", "this", 0, 0, 4),
            ("<ALPHANUM>", "is", 1, 5, 7),
            ("<ALPHANUM>", "test", 3, 10, 14),
            ("<ALPHANUM>", "is", 5, 20, 22),
            ("<ALPHANUM>", "longer", 8, 29, 35),
        ],
    );
}

#[test]
fn test_highlighter_proximity_array_two_then_two_without_order() {
    let rows = highlight_proximity(
        "test_field",
        analyze("This is a test that is a bit longer"),
        vec![
            part(&["that", "longer"], 2, false),
            part(&["test", "is"], 5, true),
        ],
    );
    assert_rows(
        rows.unwrap(),
        vec![
            ("<ALPHANUM>", "is", 1, 5, 7),
            ("<ALPHANUM>", "test", 3, 10, 14),
            ("<ALPHANUM>", "that", 4, 15, 19),
            ("<ALPHANUM>", "is", 5, 20, 22),
            ("<ALPHANUM>", "longer", 8, 29, 35),
        ],
    );
}

#[test]
fn test_highlighter_proximity_array_three_then_three_in_order() {
    let rows = highlight_proximity(
        "test_field",
        analyze("This is a test that is a bit longer. I have also added another sentence to test."),
        vec![
            part(&["this", "longer", "sentence"], 2, true),
            part(&["test", "is", "to"], 5, true),
        ],
    );
    assert_rows(
        rows.unwrap(),
        vec![
            ("<ALPHANUM>", "this", 0, 0, 4),
            ("<ALPHANUM>", "is", 1, 5, 7),
            ("<ALPHANUM>", "test", 3, 10, 14),
            ("<ALPHANUM>", "sentence", 14, 63, 71),
            ("<ALPHANUM>", "to", 15, 72, 74),
            ("<ALPHANUM>", "test", 16, 75, 79),
        ],
    );
}

#[test]
fn test_highlighter_proximity_array_three_then_three_without_order() {
    let rows = highlight_proximity(
        "test_field",
        analyze("This is a test that is a bit longer. I have also added another sentence to test."),
        vec![
            part(&["this", "longer", "sentence"], 2, false),
            part(&["test", "is", "to"], 5, true),
        ],
    );
    assert_rows(
        rows.unwrap(),
        vec![
            ("<ALPHANUM>", "this", 0, 0, 4),
            ("<ALPHANUM>", "is", 1, 5, 7),
            ("<ALPHANUM>", "test", 3, 10, 14),
            ("<ALPHANUM>", "is", 5, 20, 22),
            ("<ALPHANUM>", "longer", 8, 29, 35),
            ("<ALPHANUM>", "sentence", 14, 63, 71),
            ("<ALPHANUM>", "to", 15, 72, 74),
            ("<ALPHANUM>", "test", 16, 75, 79),
        ],
    );
}

#[test]
fn test_highlighter_proximity_array_three_then_three() {
    let rows = highlight_proximity(
        "test_field",
        analyze("This is a test that is a bit longer. I have also added another sentence to test."),
        vec![
            part(&["this", "longer", "sentence"], 2, true),
            part(&["is", "have", "to"], 0, true),
            part(&["a", "test", "also"], 5, true),
        ],
    );
    assert_rows(
        rows.unwrap(),
        vec![
            ("<ALPHANUM>", "this", 0, 0, 4),
            ("<ALPHANUM>", "is", 1, 5, 7),
            ("<ALPHANUM>", "a", 2, 8, 9),
            ("<ALPHANUM>", "longer", 8, 29, 35),
            ("<ALPHANUM>", "have", 10, 39, 43),
            ("<ALPHANUM>", "also", 11, 44, 48),
            ("<ALPHANUM>", "sentence", 14, 63, 71),
            ("<ALPHANUM>", "to", 15, 72, 74),
            ("<ALPHANUM>", "test", 16, 75, 79),
        ],
    );
}

#[test]
fn test_highlighter_proximity_array_three_then_three_no_order() {
    let rows = highlight_proximity(
        "test_field",
        analyze("This is a test that is a bit longer. I have also added another sentence to test."),
        vec![
            part(&["this", "longer", "sentence"], 0, false),
            part(&["is", "have", "another"], 0, false),
            part(&["a", "test", "added"], 5, true),
        ],
    );
    assert_rows(
        rows.unwrap(),
        vec![
            ("<ALPHANUM>", "this", 0, 0, 4),
            ("<ALPHANUM>", "is", 1, 5, 7),
            ("<ALPHANUM>", "a", 2, 8, 9),
            ("<ALPHANUM>", "added", 12, 49, 54),
            ("<ALPHANUM>", "another", 13, 55, 62),
            ("<ALPHANUM>", "sentence", 14, 63, 71),
        ],
    );
}

#[test]
fn test_highlighter_proximity_array_two_then_three_no_order() {
    let rows = highlight_proximity(
        "test_field",
        analyze("Okay sure, I think this sentence is about fifteen words long Maybe less I dunno"),
        vec![
            part(&["okay", "sure"], 15, false),
            part(&["is", "fifteen", "words"], 15, false),
            part(&["dunno"], 5, true),
        ],
    );
    assert_rows(
        rows.unwrap(),
        vec![
            ("<ALPHANUM>", "okay", 0, 0, 4),
            ("<ALPHANUM>", "sure", 1, 5, 9),
            ("<ALPHANUM>", "is", 6, 33, 35),
            ("<ALPHANUM>", "fifteen", 8, 42, 49),
            ("<ALPHANUM>", "words", 9, 50, 55),
            ("<ALPHANUM>", "dunno", 14, 74, 79),
        ],
    );
}

fn test_blurb() -> String {
    let blurb = "Enron

        P.O.Box 1188
        Houston, TX 77251-1188

        Mark Palmer
        713-853-4738

        ENRON REPORTS RECURRING THIRD QUARTER EARNINGS OF $0.43 PER
        DILUTED SHARE; REPORTS NON-RECURRING CHARGES OF $1.01 BILLION
        AFTER-TAX; REAFFIRMS RECURRING EARNINGS ESTIMATES OF $1.80 FOR
        2001 AND $2.15 FOR 2002; AND EXPANDS FINANCIAL REPORTING

        FOR IMMEDIATE RELEASE:  Tuesday, Oct. 16, 2001

        HOUSTON - Enron Corp. (NYSE - ENE) announced today recurring earnings per
        diluted share of $0.43 for the third quarter of 2001, compared to $0.34 a year ago.  Total
        recurring net income increased to $393 million, versus $292 million a year ago.
            Our 26 percent increase in recurring earnings per diluted share shows the very strong
        results of our core wholesale and retail energy businesses and our natural gas pipelines,   said
        Kenneth L. Lay, Enron chairman and CEO.   The continued excellent prospects in these
        businesses and Enron 's leading market position make us very confident in our strong earnings
        outlook.
            Non-recurring charges totaling $1.01 billion after-tax, or $(1.11) loss per diluted share,
        were recognized for the third quarter of 2001.  The total net loss for the quarter, including non-
            recurring items, was $(618) million, or $(0.84) per diluted share.
            After a thorough review of our businesses, we have decided to take these charges to
        clear away issues that have clouded the performance and earnings potential of our core energy
        businesses,   said Lay.
            Enron also reaffirmed today it is on track to continue strong earnings growth and achieve
        its previously stated targets of recurring earnings per diluted share of  $0.45 for the fourth
        quarter 2001, $1.80 for 2001 and $2.15 for 2002.
        PERFORMANCE SUMMARY
        Enron has recently expanded the reporting of its financial results by both providing
        additional segments and expanding financial and operating information in the attached tables.
            Enron 's business segments are as follows:
        ?  Wholesale Services
        o Americas
        o Europe and Other Commodity Markets
            ?  Retail Services
            ?  Transportation and Distribution
        o Natural Gas Pipelines
        o Portland General
        o Global Assets
            ?  Broadband Services
            ?  Corporate and Other

        Wholesale Services:  Total income before interest, minority interests and taxes (IBIT)
        increased 28 percent to $754 million in the third quarter of 2001, compared to $589 million in
        the third quarter of last year.  Total wholesale physical volumes increased 65 percent to 88.2
        trillion British thermal units equivalent per day (Tbtue/d) in the recent quarter.
            Americas  - This segment consists of Enron 's gas and power market-making operations
        and merchant energy activities in North and South America.  IBIT from this segment grew 31
        percent to $701 million in the recent quarter from $536 million a year ago, driven by strong
        results from the North America natural gas and power businesses.  Natural gas volumes
        increased 6 percent to 26.7 Tbtu/d, and power volumes increased 77 percent to 290 million
        megawatt-hours (MWh).
            Europe and Other Commodity Markets - This segment includes Enron 's European gas
        and power operations and Enron 's other commodity businesses, such as metals, coal, crude and
        liquids, weather, forest products and steel.  For the third quarter of 2001, IBIT for the segment
        remained unchanged at $53 million as compared to last year.  Although physical volumes
        increased for each commodity in the segment, the low level of volatility in the gas and power
        markets caused profitability to remain flat.

            Retail Services:  Enron 's Retail Services product offerings include pricing and delivery
        of natural gas and power, as well as demand side management services to minimize energy costs
        for business consumers in North America and Europe.  In the third quarter of 2001, Retail
        Services generated IBIT of $71 million, compared to $27 million a year ago.  Retail Services
        continues to successfully penetrate markets with standard, scalable products to reduce
        consumers ' total energy costs.  Enron recently added new business with large consumers,
        including Wal-Mart, Northrop Grumman, the City of Chicago, Equity Office Properties and
        Wendy 's in the U.S. and Sainsbury and Guinness Brewery in the U.K.  To date in 2001, Enron
        has completed over 50 transactions with large consumers.  Enron is also successfully extending
        its retail energy products to small business customers, completing over 95,000 transactions in the
        first nine months of this year.
            Transportation and Distribution:  The Transportation and Distribution group includes
        Natural Gas Pipelines, Portland General and Global Assets.
            Natural Gas Pipelines - This segment provided $85 million of IBIT in the current
        quarter, up slightly from the same quarter last year.  Pipeline expansions are underway in high
        growth areas and include a 428 million cubic feet per day (MMcf/d) expansion by Florida Gas
        Transmission and a 150 MMcf/d expansion by Transwestern.
            Portland General - Portland General Electric, an electric utility in the northwestern U.S.,
        reported an IBIT loss of $(17) million compared to IBIT of $74 million in the same quarter a
        year ago.  Portland General entered into power contracts in prior periods to ensure adequate
        supply for the recent quarter at prices that were significantly higher than actual settled prices
        during the third quarter of 2001.  Although the rate mechanism in place anticipated and
        substantially mitigated the effect of the higher purchased power costs, only the amount in excess
        of a defined baseline was recoverable from ratepayers.  Increased power cost recovery was
        incorporated into Portland General 's new fifteen-month rate structure, which became effective
        October 1, 2001 and included an average 40 percent rate increase.
            Last week, Enron announced a definitive agreement to sell Portland General to Northwest
        Natural Gas for approximately $1.9 billion and the assumption of approximately $1.1 billion in
        Portland General debt.  The proposed transaction, which is subject to customary regulatory
        approvals, is expected to close by late 2002.

        Global Assets - The Global Assets segment includes assets not part of Enron 's wholesale
        or retail energy operations.  Major assets included in this segment are Elektro, an electric utility
        in Brazil; Dabhol, a power plant in India; TGS, a natural gas pipeline in Argentina; Azurix; and
        the Enron Wind operations.  For the third quarter of 2001, IBIT for the segment remained
        unchanged at $19 million as compared to last year.
            Broadband Services:  Enron makes markets for bandwidth, IP and storage products and
        bundles such products for comprehensive network management services.  IBIT losses were $(80)
        million in the current quarter compared to a $(20) million loss in the third quarter of last year.
            This quarter 's results include significantly lower investment-related income and lower operating
        costs.
            Corporate and Other:  Corporate and Other reported an IBIT loss of $(59) million for
        the quarter compared to $(106) million loss a year ago.  Corporate and Other represents the
        unallocated portion of expenses related to general corporate functions.

            NON-RECURRING ITEMS
        Enron 's results in the third quarter of 2001 include after-tax non-recurring charges of
        $1.01 billion, or $(1.11) per diluted share, consisting of:
        ?  $287 million related to asset impairments recorded by Azurix Corp.  These
        impairments primarily reflect Azurix 's planned disposition of its North American
        and certain South American service-related businesses;
        ?  $180 million associated with the restructuring of Broadband Services, including
        severance costs, loss on the sale of inventory and an impairment to reflect the
        reduced value of Enron 's content services business; and
            ?  $544 million related to losses associated with certain investments, principally
        Enron 's interest in The New Power Company, broadband and technology
        investments, and early termination during the third quarter of certain structured
        finance arrangements with a previously disclosed entity.


            OTHER INFORMATION
        A conference call with Enron management regarding third quarter results will be
        conducted live today at 10:00 a.m. EDT and may be accessed through the Investor Relations
        page at www.enron.com
            .
                Enron is one of the world 's leading energy, commodities and service companies.  The
        company makes markets in electricity and natural gas, delivers energy and other physical
        commodities, and provides financial and risk management services to customers around the
        world.  The stock is traded under the ticker symbol   ENE.
            ______________________________________________________________________________
        Please see attached tables for additional financial information.

            This press release includes forward-looking statements within the meaning of Section 27A of the Securities Act of 1933 and Section
        21E of the Securities Exchange Act of 1934.  The Private Securities Litigation Reform Act of 1995 provides a safe harbor for forward-looking
        statements made by Enron or on its behalf.  These forward-looking statements are not historical facts, but reflect Enron 's curr ent expectations,
        estimates and projections.  All statements contained in the press release which address future operating performance, events or developments that
        are expected to occur in the future (including statements relating to earnings expectations, sales of assets, or statements expressing general
        optimism about future operating results) are forward-looking statements.  Although Enron believes that its expectations are bas ed on reasonable
        assumptions, it can give no assurance that its goals will be achieved.  Important factors that could cause actual results to di ffer materially from
        those in the forward-looking statements herein include success in marketing natural gas and power to wholesale customers; the ability to
        penetrate new retail natural gas and electricity markets, including the energy outsource market, in the United States and Europe; the timing, extent
        and market effects of deregulation of energy markets in the United States and in foreign jurisdictions; development of Enron 's broadband
        network and customer demand for intermediation and content services; political developments in foreign countries; receipt of re gulatory
        approvals and satisfaction of customary closing conditions to the sale of Portland General; and conditions of the capital markets and equity
        markets during the periods covered by the forward-looking statements.";
    String::from(blurb)
}
