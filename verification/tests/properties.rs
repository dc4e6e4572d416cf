//! What holds of the searches as a whole, on examples, and their edge cases.

use highlighting::document_highlighter::DocumentHighlighter;
use highlighting::error::HighlightError;
use highlighting::pattern::wildcard_to_regex;
use highlighting::proximity::ProximityPart;
use highlighting::rows::{
    highlight_fuzzy, highlight_phrase, highlight_proximity, highlight_regex, highlight_term,
    highlight_wildcard, HighlightRow,
};
use highlighting::token::{AnalyzedToken, TokenEntry};

fn token(term: &str, position: i32) -> AnalyzedToken {
    AnalyzedToken {
        token: term.to_string(),
        type_: String::from("word"),
        position,
        start_offset: 10 * position as i64,
        end_offset: 10 * position as i64 + term.len() as i64,
    }
}

/// The words of a text, one position each.
fn tokens(text: &str) -> Vec<AnalyzedToken> {
    text.split(' ').enumerate().map(|(i, word)| token(word, i as i32)).collect()
}

fn indexed<'a>(text: &str) -> DocumentHighlighter<'a> {
    let mut highlighter = DocumentHighlighter::new();
    highlighter.analyze_document(tokens(text));
    highlighter
}

fn part(words: &[&str], distance: u32, in_order: bool) -> ProximityPart {
    let words = words.iter().map(|word| word.to_string()).collect();
    ProximityPart { words, distance, in_order }
}

/// Term and position of each highlight, in the order in which they were reported.
fn listed(highlights: Option<Vec<(String, &TokenEntry)>>) -> Vec<(String, u32)> {
    match highlights {
        Some(highlights) => {
            assert!(!highlights.is_empty());
            highlights.into_iter().map(|(term, entry)| (term, entry.position)).collect()
        }
        None => Vec::new(),
    }
}

/// Position and term of each highlight, sorted.
fn found(highlights: Option<Vec<(String, &TokenEntry)>>) -> Vec<(u32, String)> {
    let mut found: Vec<(u32, String)> =
        listed(highlights).into_iter().map(|(term, position)| (position, term)).collect();
    found.sort();
    found
}

fn at(expect: &[(u32, &str)]) -> Vec<(u32, String)> {
    expect.iter().map(|(position, term)| (*position, term.to_string())).collect()
}

fn terms_of(rows: &[HighlightRow]) -> Vec<&str> {
    rows.iter().map(|row| row.term.as_str()).collect()
}

#[test]
fn nothing_is_found_in_an_empty_document() {
    let highlighter = DocumentHighlighter::new();
    assert_eq!(highlighter.term_count(), 0);
    assert!(highlighter.highlight_token("it").is_none());
    assert!(highlighter.highlight_regex(".*").is_none());
    assert!(highlighter.highlight_wildcard("*").is_none());
    assert!(highlighter.highlight_fuzzy("it", 0).is_none());
    assert!(highlighter.highlight_phrase("it", tokens("it")).is_none());
    assert!(highlighter.highlight_proximity(vec![part(&["it"], 0, true)]).is_none());
    let clause = vec![part(&["it"], 2, false), part(&["is"], 0, true)];
    assert!(highlighter.highlight_proximity(clause).is_none());
    assert!(highlighter.highlight_flagged(&vec![]).is_none());
}

#[test]
fn analysing_in_steps_is_analysing_at_once() {
    let mut steps = DocumentHighlighter::new();
    steps.analyze_document(vec![token("a", 0), token("b", 1)]);
    steps.analyze_document(vec![token("a", 2), token("c", 3)]);
    let once = indexed("a b a c");
    for term in ["a", "b", "c", "d"] {
        assert_eq!(steps.highlight_token(term), once.highlight_token(term));
    }
    assert_eq!(listed(steps.highlight_regex(".")), listed(once.highlight_regex(".")));
}

#[test]
fn terms_are_listed_once_in_order_of_first_occurrence() {
    let highlighter = indexed("b a b c a");
    assert_eq!(highlighter.term_count(), 3);
    assert_eq!(highlighter.term(0), "b");
    assert_eq!(highlighter.term(1), "a");
    assert_eq!(highlighter.term(2), "c");
}

#[test]
fn rows_show_what_was_reported() {
    let odd = AnalyzedToken {
        token: String::from("odd"),
        type_: String::from("<NUM>"),
        position: -1,
        start_offset: -2,
        end_offset: i64::MIN,
    };
    let rows = highlight_term("f", vec![token("a", 0), odd], "odd");
    assert_eq!(
        rows,
        vec![HighlightRow {
            field_name: String::from("f"),
            term: String::from("odd"),
            type_: String::from("<NUM>"),
            position: -1,
            start_offset: -2,
            end_offset: i64::MIN,
        }]
    );
}

#[test]
fn numbers_are_stored_unsigned() {
    let mut highlighter = DocumentHighlighter::new();
    highlighter.analyze_document(vec![AnalyzedToken {
        token: String::from("odd"),
        type_: String::from("t"),
        position: -1,
        start_offset: -2,
        end_offset: 3,
    }]);
    let highlights = highlighter.highlight_token("odd").unwrap();
    let expect = TokenEntry {
        type_: String::from("t"),
        position: u32::MAX,
        start_offset: u64::MAX - 1,
        end_offset: 3,
    };
    assert_eq!(highlights, vec![(String::from("odd"), &expect)]);
    assert!(expect.same(highlights[0].1));
    assert!(!expect.same(&TokenEntry { position: 0, ..expect.clone() }));
}

#[test]
fn a_term_search_keeps_order_and_repetitions() {
    let document = vec![token("a", 4), token("b", 1), token("a", 0), token("a", 4)];
    let rows = highlight_term("f", document, "a");
    assert_eq!(rows.iter().map(|row| row.position).collect::<Vec<i32>>(), vec![4, 0, 4]);
    assert!(highlight_term("f", tokens("a b"), "c").is_empty());
}

#[test]
fn flags_select_terms() {
    let highlighter = indexed("b a b c a");
    let highlights = highlighter.highlight_flagged(&vec![true, false, true]);
    let expect = vec![("b".to_string(), 0), ("b".to_string(), 2), ("c".to_string(), 3)];
    assert_eq!(listed(highlights), expect);
    assert!(highlighter.highlight_flagged(&vec![false, false, false]).is_none());
}

#[test]
fn a_regular_expression_matches_anywhere_in_a_term() {
    let rows = highlight_regex("f", tokens("mom landed a man on the moon"), "o[mn]$").unwrap();
    assert_eq!(terms_of(&rows), vec!["mom", "on", "moon"]);
    let rows = highlight_regex("f", tokens("mom landed a man on the moon"), "an").unwrap();
    assert_eq!(terms_of(&rows), vec!["landed", "man"]);
}

#[test]
fn a_regular_expression_finds_all_or_no_occurrences_of_a_term() {
    let highlighter = indexed("ab c ab d ab");
    assert_eq!(found(highlighter.highlight_regex("^a")), at(&[(0, "ab"), (2, "ab"), (4, "ab")]));
    assert_eq!(highlighter.highlight_regex("^a"), highlighter.highlight_token("ab"));
}

#[test]
fn a_malformed_regular_expression_is_refused() {
    assert_eq!(highlight_regex("f", tokens("a b"), "a("), Err(HighlightError::InvalidRegex));
    assert_eq!(highlight_wildcard("f", tokens("a b"), "a("), Err(HighlightError::InvalidRegex));
    let highlighter = indexed("a b");
    assert_eq!(highlighter.try_highlight_regex("["), Err(HighlightError::InvalidRegex));
    assert_eq!(highlighter.try_highlight_wildcard("["), Err(HighlightError::InvalidRegex));
    assert_eq!(highlighter.try_highlight_regex("b"), Ok(highlighter.highlight_token("b")));
}

#[test]
fn wildcards_become_regular_expressions() {
    assert_eq!(wildcard_to_regex("m*n?"), "^m.*n.$");
    assert_eq!(wildcard_to_regex("plain"), "^plain$");
    assert_eq!(wildcard_to_regex(""), "^$");
    assert_eq!(wildcard_to_regex("\u{fc}?"), "^\u{fc}.$");
}

#[test]
fn a_wildcard_search_is_the_search_for_its_regular_expression() {
    let highlighter = indexed("man moon mean amen");
    assert_eq!(highlighter.highlight_wildcard("m?n"), highlighter.highlight_token("man"));
    assert_eq!(highlighter.highlight_wildcard("m*n"), highlighter.highlight_regex("^m.*n$"));
    assert_eq!(highlighter.highlight_wildcard("amen"), highlighter.highlight_token("amen"));
    assert_eq!(found(highlighter.highlight_wildcard("m*n")).len(), 3);
}

#[test]
fn a_wildcard_search_without_wildcards_is_the_search_for_the_word() {
    let words = ["man", "M4n", "\u{fc}ber", "a-b", "a&b", "a~b", "a#b", "a]b", "a}b", "a%b", "a/b"];
    let highlighter = indexed("man M4n \u{fc}ber a-b a&b a~b a#b a]b a}b a%b a/b mann aman axb man");
    for word in words {
        assert!(highlighter.highlight_token(word).is_some());
        assert_eq!(highlighter.highlight_wildcard(word), highlighter.highlight_token(word));
    }
    assert_eq!(highlighter.highlight_wildcard("ma"), None);
    assert_eq!(highlighter.highlight_wildcard(""), None);
    let mut spaced = DocumentHighlighter::new();
    spaced.analyze_document(vec![token("a b", 0), token("ab", 1), token("", 2)]);
    assert_eq!(spaced.highlight_wildcard("a b"), spaced.highlight_token("a b"));
    assert_eq!(spaced.highlight_wildcard(""), spaced.highlight_token(""));
}

#[test]
fn a_question_mark_stands_for_one_character_that_is_no_new_line() {
    let mut highlighter = DocumentHighlighter::new();
    let terms = ["mn", "man", "m\u{fc}n", "moon", "m\nn", "m\rn", "man\n"];
    highlighter.analyze_document(terms.iter().map(|term| token(term, 0)).collect());
    assert_eq!(
        found(highlighter.highlight_wildcard("m?n")),
        at(&[(0, "m\rn"), (0, "man"), (0, "m\u{fc}n")])
    );
    assert_eq!(found(highlighter.highlight_wildcard("m??n")), at(&[(0, "moon")]));
}

#[test]
fn a_star_stands_for_any_characters_but_new_lines() {
    let mut highlighter = DocumentHighlighter::new();
    let terms = ["mn", "man", "m\nn", "am", "m", "moo\n"];
    highlighter.analyze_document(terms.iter().map(|term| token(term, 0)).collect());
    assert_eq!(
        found(highlighter.highlight_wildcard("m*")),
        at(&[(0, "m"), (0, "man"), (0, "mn")])
    );
    assert_eq!(found(highlighter.highlight_wildcard("*m")), at(&[(0, "am"), (0, "m")]));
    assert_eq!(found(highlighter.highlight_wildcard("m*?")), at(&[(0, "man"), (0, "mn")]));
    assert_eq!(found(highlighter.highlight_wildcard("m?*")), at(&[(0, "man"), (0, "mn")]));
    assert_eq!(found(highlighter.highlight_wildcard("**")).len(), 4);
    assert_eq!(highlighter.highlight_regex("^m.*n$"), highlighter.highlight_wildcard("m*n"));
}

#[test]
fn the_length_of_the_key_bounds_the_edits() {
    let highlighter = indexed("ab abc abcd abcde abcdef abcdefg abcdefgh bc");
    assert_eq!(found(highlighter.highlight_fuzzy("ab", 0)), at(&[(0, "ab")]));
    assert_eq!(
        found(highlighter.highlight_fuzzy("abc", 0)),
        at(&[(0, "ab"), (1, "abc"), (2, "abcd"), (7, "bc")])
    );
    assert_eq!(
        found(highlighter.highlight_fuzzy("abcde", 0)),
        at(&[(2, "abcd"), (3, "abcde"), (4, "abcdef")])
    );
    assert_eq!(
        found(highlighter.highlight_fuzzy("abcdef", 0)),
        at(&[(2, "abcd"), (3, "abcde"), (4, "abcdef"), (5, "abcdefg"), (6, "abcdefgh")])
    );
}

#[test]
fn the_key_is_measured_in_bytes_and_edited_in_characters() {
    let highlighter = indexed("\u{fc} \u{fc}\u{fc} \u{fc}\u{e4} \u{e4}\u{e4}");
    assert_eq!(found(highlighter.highlight_fuzzy("\u{fc}", 0)), at(&[(0, "\u{fc}")]));
    assert_eq!(
        found(highlighter.highlight_fuzzy("\u{fc}\u{fc}", 2)),
        at(&[(0, "\u{fc}"), (1, "\u{fc}\u{fc}"), (2, "\u{fc}\u{e4}")])
    );
}

#[test]
fn a_fuzzy_search_finds_the_key_itself() {
    let highlighter = indexed("colt cot colt bolt");
    for prefix in 0..6 {
        let highlights = highlighter.highlight_fuzzy("colt", prefix).unwrap();
        let own: Vec<(String, &TokenEntry)> =
            highlights.into_iter().filter(|(term, _)| term == "colt").collect();
        assert_eq!(Some(own), highlighter.highlight_token("colt"));
    }
}

#[test]
fn a_short_key_is_searched_exactly() {
    let highlighter = indexed("a ab b");
    assert_eq!(highlighter.highlight_fuzzy("ab", 0), highlighter.highlight_token("ab"));
    assert_eq!(highlighter.highlight_fuzzy("ab", 1), highlighter.highlight_token("ab"));
    assert_eq!(highlighter.highlight_fuzzy("c", 0), None);
}

#[test]
fn a_longer_prefix_narrows_a_fuzzy_search() {
    let highlighter = indexed("colt bolt cold salt");
    assert_eq!(
        found(highlighter.highlight_fuzzy("colt", 0)),
        at(&[(0, "colt"), (1, "bolt"), (2, "cold")])
    );
    assert_eq!(found(highlighter.highlight_fuzzy("colt", 3)), at(&[(0, "colt"), (2, "cold")]));
    assert_eq!(found(highlighter.highlight_fuzzy("colt", 4)), at(&[(0, "colt")]));
    assert_eq!(found(highlighter.highlight_fuzzy("colt", 9)), at(&[(0, "colt")]));
}

#[test]
fn a_prefix_does_not_split_a_character() {
    let document = tokens("\u{fc}ber unter");
    assert_eq!(
        highlight_fuzzy("f", document.clone(), "\u{fc}ber", 1),
        Err(HighlightError::SplitCharacter)
    );
    let rows = highlight_fuzzy("f", document, "\u{fc}ber", 2).unwrap();
    assert_eq!(terms_of(&rows), vec!["\u{fc}ber"]);
}

#[test]
fn a_negative_prefix_is_refused() {
    assert_eq!(highlight_fuzzy("f", tokens("a"), "a", -1), Err(HighlightError::NegativePrefix));
    assert_eq!(
        highlight_fuzzy("f", tokens("a"), "a", i32::MIN),
        Err(HighlightError::NegativePrefix)
    );
}

#[test]
fn words_near_each_other_are_highlighted() {
    let highlighter = indexed(
        "drinking green beer is better than drinking yellow beer which wine is worse than \
         drinking yellow wine",
    );
    let clause = vec![part(&["drinking"], 1, true), part(&["yellow"], 0, true)];
    assert_eq!(
        found(highlighter.highlight_proximity(clause)),
        at(&[(6, "drinking"), (7, "yellow"), (14, "drinking"), (15, "yellow")])
    );
    let clause = vec![part(&["than"], 2, false), part(&["wine"], 0, false)];
    assert_eq!(
        found(highlighter.highlight_proximity(clause)),
        at(&[(10, "wine"), (13, "than"), (16, "wine")])
    );
    let clause =
        vec![part(&["than"], 2, true), part(&["wine", "beer", "cheese", "food"], 0, true)];
    assert_eq!(
        found(highlighter.highlight_proximity(clause)),
        at(&[(5, "than"), (8, "beer"), (13, "than"), (16, "wine")])
    );
}

#[test]
fn a_clause_of_one_part_finds_its_first_word() {
    let highlighter = indexed("a b a b");
    let clause = vec![part(&["a", "b"], 0, true)];
    assert_eq!(highlighter.highlight_proximity(clause), highlighter.highlight_token("a"));
    let clause = vec![part(&["c", "b"], 0, true)];
    assert_eq!(highlighter.highlight_proximity(clause), None);
}

#[test]
fn a_clause_without_parts_or_words_finds_nothing() {
    let highlighter = indexed("a b");
    assert_eq!(highlighter.highlight_proximity(vec![]), None);
    assert_eq!(highlighter.highlight_proximity(vec![part(&[], 0, true)]), None);
    let clause = vec![part(&[], 0, true), part(&["b"], 0, true)];
    assert_eq!(highlighter.highlight_proximity(clause), None);
    let clause = vec![part(&["a"], 0, true), part(&[], 0, true)];
    assert_eq!(highlighter.highlight_proximity(clause), None);
}

#[test]
fn every_word_that_a_chain_may_start_with_has_to_occur() {
    let highlighter = indexed("a b");
    let clause = vec![part(&["a"], 0, true), part(&["b", "missing"], 0, true)];
    assert_eq!(found(highlighter.highlight_proximity(clause)), at(&[(0, "a"), (1, "b")]));
    let clause = vec![part(&["a", "missing"], 0, true), part(&["b"], 0, true)];
    assert_eq!(highlighter.highlight_proximity(clause), None);
}

#[test]
fn a_chain_needs_every_part() {
    let highlighter = indexed("a b x a b c");
    let clause = vec![part(&["a"], 0, true), part(&["b"], 0, true), part(&["c"], 0, true)];
    assert_eq!(
        found(highlighter.highlight_proximity(clause)),
        at(&[(3, "a"), (4, "b"), (5, "c")])
    );
    let clause = vec![part(&["a"], 0, true), part(&["b"], 0, true), part(&["x"], 9, true)];
    assert_eq!(
        found(highlighter.highlight_proximity(clause)),
        at(&[(0, "a"), (1, "b"), (2, "x")])
    );
}

#[test]
fn a_token_of_several_chains_is_reported_once() {
    let highlighter = indexed("a a b");
    let clause = vec![part(&["a", "a"], 5, false), part(&["b", "b"], 0, true)];
    assert_eq!(
        found(highlighter.highlight_proximity(clause)),
        at(&[(0, "a"), (1, "a"), (2, "b")])
    );
    let words = vec![String::from("b"), String::from("b")];
    assert_eq!(found(highlighter.look_for_match(&words, 5, true, vec![0, 1, 1])), at(&[(2, "b")]));
}

#[test]
fn asking_less_finds_more() {
    let highlighter = indexed("b a x b a b");
    let strict = vec![part(&["a"], 0, true), part(&["b"], 0, true)];
    let wider = vec![part(&["a"], 1, true), part(&["b"], 0, true)];
    let unordered = vec![part(&["a"], 1, false), part(&["b"], 0, true)];
    let strict = found(highlighter.highlight_proximity(strict));
    let wider = found(highlighter.highlight_proximity(wider));
    let unordered = found(highlighter.highlight_proximity(unordered));
    assert_eq!(strict, at(&[(4, "a"), (5, "b")]));
    assert_eq!(wider, at(&[(1, "a"), (3, "b"), (4, "a"), (5, "b")]));
    assert_eq!(unordered, at(&[(0, "b"), (1, "a"), (3, "b"), (4, "a"), (5, "b")]));
}

#[test]
fn where_the_order_counts_chains_go_forward() {
    let highlighter = indexed("b a a b");
    let clause = vec![part(&["a"], 5, true), part(&["a", "b"], 0, true)];
    assert_eq!(
        found(highlighter.highlight_proximity(clause)),
        at(&[(1, "a"), (2, "a"), (3, "b")])
    );
}

#[test]
fn distances_count_the_positions_between() {
    let highlighter = indexed("a x x b");
    let words = vec![String::from("b")];
    assert!(highlighter.look_for_match(&words, 1, true, vec![0]).is_none());
    assert_eq!(found(highlighter.look_for_match(&words, 2, true, vec![0])), at(&[(3, "b")]));
    assert!(highlighter.look_for_match(&words, 2, true, vec![3]).is_none());
    assert_eq!(found(highlighter.look_for_match(&words, 0, false, vec![3])), at(&[(3, "b")]));
    assert!(highlighter.look_for_match(&words, 0, true, vec![]).is_none());
}

#[test]
fn a_distance_out_of_range_is_refused() {
    let document = tokens("a b");
    let clause = |distance: u32, in_order: bool| {
        vec![Some(part(&["a"], distance, in_order)), Some(part(&["b"], 0, true))]
    };
    let overflow = Err(HighlightError::DistanceOverflow);
    assert_eq!(highlight_proximity("f", document.clone(), clause(u32::MAX, true)), overflow);
    assert_eq!(
        highlight_proximity("f", document.clone(), clause(i32::MAX as u32, false)),
        overflow
    );
    let rows = highlight_proximity("f", document.clone(), clause(u32::MAX - 1, true)).unwrap();
    assert_eq!(rows.len(), 2);
    let rows = highlight_proximity("f", document.clone(), clause(i32::MAX as u32 - 1, false));
    assert_eq!(rows.unwrap().len(), 2);
    // Without order the distance is read as signed: this one as minus one.
    assert!(highlight_proximity("f", document, clause(u32::MAX, false)).unwrap().is_empty());
}

#[test]
fn positions_far_apart_are_refused_where_the_order_does_not_count() {
    let document = vec![token("a", i32::MAX), token("b", -1)];
    let clause = |in_order: bool| {
        vec![Some(part(&["a"], 0, in_order)), Some(part(&["b"], 0, true))]
    };
    assert_eq!(
        highlight_proximity("f", document.clone(), clause(false)),
        Err(HighlightError::DistanceOverflow)
    );
    assert!(highlight_proximity("f", document, clause(true)).unwrap().is_empty());
    let highlighter = indexed("a");
    let words = vec![String::from("a")];
    assert_eq!(
        highlighter.try_look_for_match(&words, 0, false, &vec![1 << 31]),
        Err(HighlightError::DistanceOverflow)
    );
}

#[test]
fn a_missing_part_is_refused() {
    let clause = vec![Some(part(&["a"], 0, true)), None];
    assert_eq!(
        highlight_proximity("f", tokens("a b"), clause),
        Err(HighlightError::MissingPart)
    );
}

#[test]
fn a_phrase_needs_all_its_words_in_a_row() {
    let highlighter = indexed("it is a test and is it a good one it is");
    assert_eq!(
        found(highlighter.highlight_phrase("it is", tokens("it is"))),
        at(&[(0, "it"), (1, "is"), (10, "it"), (11, "is")])
    );
    assert_eq!(
        found(highlighter.highlight_phrase("it is a", tokens("it is a"))),
        at(&[(0, "it"), (1, "is"), (2, "a")])
    );
    assert_eq!(highlighter.highlight_phrase("it a", tokens("it a x")), None);
}

#[test]
fn an_empty_phrase_finds_nothing() {
    assert!(highlight_phrase("f", tokens("a b"), "", tokens("a")).is_empty());
    assert!(highlight_phrase("f", tokens("a b"), "...", vec![]).is_empty());
    assert_eq!(highlight_phrase("f", tokens("a b"), "a", tokens("a")).len(), 1);
}
