//! What the answers and tables of the searches hold, in terms of what the analyser reported.

use crate::document::{
    gathered, lemma_occurrences_contain, lemma_push_contains, occurrences, selected, terms,
};
use crate::fuzzy::{edit_distance, fuzzy_found, fuzzy_selects, prefix_allowed};
use crate::laws::{
    law_selected_per_term, law_selected_tokens, law_term_rows, law_terms_distinct,
    lemma_selected_one, reported_row,
};
use crate::pattern::{
    regex_compiled, regex_compiles, regex_found, regex_is_match, regex_matches, wildcard_pattern,
    wildcard_piece, wildcard_pieces,
};
use crate::rows::{row_of, rows_of, table, HighlightRow, Row};
use crate::token::{analyzed, highlighted, reports, reports_set, AnalyzedToken, Token, TokenEntry};
use vstd::prelude::*;
use vstd::utf8::encode_utf8;

verus! {

/// An answer is `None` exactly if there is nothing to report; otherwise it holds the tokens in their
/// order, each with its own term, type, position and offsets.
pub proof fn law_answer_shows(result: Option<Vec<(String, &TokenEntry)>>, tokens: Seq<Token>)
    requires
        reports(result, tokens),
    ensures
        result is None <==> tokens.len() == 0,
        result matches Some(highlights) ==> highlights@.map_values(
            |highlight: (String, &TokenEntry)|
                (Token {
                    term: highlight.0@,
                    type_: highlight.1.type_@,
                    position: highlight.1.position,
                    start_offset: highlight.1.start_offset,
                    end_offset: highlight.1.end_offset,
                }),
        ) == tokens,
{
    if let Some(highlights) = result {
        assert(highlighted(highlights@) == tokens);
        assert forall|i: int| 0 <= i < tokens.len() implies #[trigger] tokens[i]
            == highlights@[i].1.at(highlights@[i].0@) by {
            assert(highlighted(highlights@)[i] == tokens[i]);
        }
    }
}

/// An answer without an order is `None` exactly if there is nothing to report; otherwise it holds
/// the tokens, each once, with its own term, type, position and offsets.
pub proof fn law_answer_shows_set(result: Option<Vec<(String, &TokenEntry)>>, tokens: Set<Token>)
    requires
        reports_set(result, tokens),
    ensures
        result is None <==> tokens == Set::<Token>::empty(),
        result matches Some(highlights) ==> {
            let shown = highlights@.map_values(
                |highlight: (String, &TokenEntry)|
                    (Token {
                        term: highlight.0@,
                        type_: highlight.1.type_@,
                        position: highlight.1.position,
                        start_offset: highlight.1.start_offset,
                        end_offset: highlight.1.end_offset,
                    }),
            );
            &&& shown.len() > 0
            &&& shown.no_duplicates()
            &&& forall|token: Token| #[trigger] shown.contains(token) <==> tokens.contains(token)
        },
{
    if let Some(highlights) = result {
        let shown = highlights@.map_values(
            |highlight: (String, &TokenEntry)|
                (Token {
                    term: highlight.0@,
                    type_: highlight.1.type_@,
                    position: highlight.1.position,
                    start_offset: highlight.1.start_offset,
                    end_offset: highlight.1.end_offset,
                }),
        );
        assert(shown =~= highlighted(highlights@));
        assert forall|token: Token| #[trigger] shown.contains(token) <==> tokens.contains(
            token,
        ) by {
            assert(highlighted(highlights@).to_set().contains(token) <==> tokens.contains(token));
        }
        assert(shown.contains(shown[0]));
    }
}

/// The document has one token for each that was reported, in the same order, with the same term and
/// type and with its numbers read as unsigned.
pub proof fn law_document_read(reported: Seq<AnalyzedToken>)
    ensures
        analyzed(reported).len() == reported.len(),
        forall|i: int|
            0 <= i < reported.len() ==> {
                &&& (#[trigger] analyzed(reported)[i]).term == reported[i].token@
                &&& analyzed(reported)[i].type_ == reported[i].type_@
                &&& analyzed(reported)[i].position == reported[i].position as u32
                &&& analyzed(reported)[i].start_offset == reported[i].start_offset as u64
                &&& analyzed(reported)[i].end_offset == reported[i].end_offset as u64
            },
{
}

/// A term search answers with the document's tokens that have the term, in the document's order.
pub proof fn law_term_found(document: Seq<Token>, term: Seq<char>)
    ensures
        occurrences(document, term) == document.filter(|token: Token| token.term == term),
{
}

/// What the rows show, when their table is that of some reported tokens.
proof fn lemma_shown(
    rows: Seq<HighlightRow>,
    field_name: Seq<char>,
    kept: Seq<AnalyzedToken>,
)
    requires
        table(rows) == kept.map_values(|token: AnalyzedToken| reported_row(field_name, token)),
    ensures
        rows.map_values(
            |row: HighlightRow|
                (
                    row.field_name@,
                    row.term@,
                    row.type_@,
                    row.position,
                    row.start_offset,
                    row.end_offset,
                ),
        ) == kept.map_values(
            |token: AnalyzedToken|
                (
                    field_name,
                    token.token@,
                    token.type_@,
                    token.position,
                    token.start_offset,
                    token.end_offset,
                ),
        ),
{
    assert(table(rows).len() == kept.len());
    assert forall|i: int| 0 <= i < rows.len() implies (#[trigger] rows[i])@ == reported_row(
        field_name,
        kept[i],
    ) by {
        assert(table(rows)[i] == reported_row(field_name, kept[i]));
    }
}

/// The table of a term search has one row for each reported token with the term, in the order in
/// which they were reported, and each row shows what was reported.
pub proof fn law_term_table(
    rows: Seq<HighlightRow>,
    field_name: Seq<char>,
    reported: Seq<AnalyzedToken>,
    term: Seq<char>,
)
    requires
        table(rows) == rows_of(field_name, occurrences(analyzed(reported), term)),
    ensures
        rows.map_values(
            |row: HighlightRow|
                (
                    row.field_name@,
                    row.term@,
                    row.type_@,
                    row.position,
                    row.start_offset,
                    row.end_offset,
                ),
        ) == reported.filter(|token: AnalyzedToken| token.token@ == term).map_values(
            |token: AnalyzedToken|
                (
                    field_name,
                    token.token@,
                    token.type_@,
                    token.position,
                    token.start_offset,
                    token.end_offset,
                ),
        ),
{
    law_term_rows(field_name, reported, term);
    lemma_shown(rows, field_name, reported.filter(|token: AnalyzedToken| token.token@ == term));
}

/// Mapping and then filtering is filtering by what comes out and then mapping.
proof fn lemma_map_filter<A, B>(
    s: Seq<A>,
    f: spec_fn(A) -> B,
    kept: spec_fn(B) -> bool,
    kept_before: spec_fn(A) -> bool,
)
    requires
        forall|a: A| #[trigger] kept_before(a) == kept(f(a)),
    ensures
        s.map_values(f).filter(kept) == s.filter(kept_before).map_values(f),
    decreases s.len(),
{
    reveal(Seq::filter);
    if s.len() == 0 {
        assert(s.map_values(f).filter(kept) =~= s.filter(kept_before).map_values(f));
    } else {
        let before = s.drop_last();
        lemma_map_filter(before, f, kept, kept_before);
        assert(s.map_values(f).drop_last() =~= before.map_values(f));
        assert(before.filter(kept_before).push(s.last()).map_values(f) =~= before.filter(
            kept_before,
        ).map_values(f).push(f(s.last())));
        assert(kept_before(s.last()) == kept(f(s.last())));
    }
}

/// What the table of a search by term shows of one term.
proof fn lemma_selected_table(
    rows: Seq<HighlightRow>,
    field_name: Seq<char>,
    reported: Seq<AnalyzedToken>,
    keep: spec_fn(Seq<char>) -> bool,
    term: Seq<char>,
)
    requires
        table(rows) == rows_of(field_name, selected(analyzed(reported), keep)),
    ensures
        rows.filter(|row: HighlightRow| row.term@ == term).map_values(
            |row: HighlightRow|
                (
                    row.field_name@,
                    row.term@,
                    row.type_@,
                    row.position,
                    row.start_offset,
                    row.end_offset,
                ),
        ) == if keep(term) {
            reported.filter(|token: AnalyzedToken| token.token@ == term).map_values(
                |token: AnalyzedToken|
                    (
                        field_name,
                        token.token@,
                        token.type_@,
                        token.position,
                        token.start_offset,
                        token.end_offset,
                    ),
            )
        } else {
            Seq::empty()
        },
{
    let document = analyzed(reported);
    let found = selected(document, keep);
    let with_term = |row: Row| row.term == term;
    let some = rows.filter(|row: HighlightRow| row.term@ == term);
    lemma_map_filter(
        rows,
        |row: HighlightRow| row@,
        with_term,
        |row: HighlightRow| row.term@ == term,
    );
    lemma_map_filter(
        found,
        |token: Token| row_of(field_name, token),
        with_term,
        |token: Token| token.term == term,
    );
    assert(table(some) == rows_of(field_name, occurrences(found, term)));
    law_selected_per_term(document, keep, term);
    if keep(term) {
        law_term_table(some, field_name, reported, term);
    } else {
        assert(table(some).len() == 0);
        assert(some =~= Seq::empty());
    }
}

/// Whatever the regular expression, a search for it finds exactly the document's tokens whose term
/// the compiled expression matches.
pub proof fn law_regex_found(document: Seq<Token>, pattern: Seq<char>, token: Token)
    requires
        regex_compiled(pattern) is Some,
    ensures
        regex_found(document, pattern).contains(token) <==> document.contains(token)
            && regex_is_match(regex_compiled(pattern)->0, token.term),
{
    law_selected_tokens(document, |term: Seq<char>| regex_matches(pattern, term), token);
}

/// The table of a search for a regular expression shows of each term all reported tokens, in the
/// order in which they were reported, if the compiled expression matches it, and none otherwise.
pub proof fn law_regex_table(
    rows: Seq<HighlightRow>,
    field_name: Seq<char>,
    reported: Seq<AnalyzedToken>,
    pattern: Seq<char>,
    term: Seq<char>,
)
    requires
        table(rows) == rows_of(field_name, regex_found(analyzed(reported), pattern)),
        regex_compiled(pattern) is Some,
    ensures
        rows.filter(|row: HighlightRow| row.term@ == term).map_values(
            |row: HighlightRow|
                (
                    row.field_name@,
                    row.term@,
                    row.type_@,
                    row.position,
                    row.start_offset,
                    row.end_offset,
                ),
        ) == if regex_is_match(regex_compiled(pattern)->0, term) {
            reported.filter(|token: AnalyzedToken| token.token@ == term).map_values(
                |token: AnalyzedToken|
                    (
                        field_name,
                        token.token@,
                        token.type_@,
                        token.position,
                        token.start_offset,
                        token.end_offset,
                    ),
            )
        } else {
            Seq::empty()
        },
{
    let keep = |t: Seq<char>| regex_matches(pattern, t);
    lemma_selected_table(rows, field_name, reported, keep, term);
}

/// A regular expression is refused exactly if it does not compile.
pub proof fn law_regex_refused(pattern: Seq<char>)
    ensures
        !regex_compiles(pattern) <==> regex_compiled(pattern) is None,
{
}

/// Whatever the wildcard pattern, what is searched for is the regular expression of its characters
/// between `^` and `$`, with `.` for each `?` and `.*` for each `*`.
pub proof fn law_wildcard_expression(wildcard: Seq<char>)
    ensures
        wildcard_pattern(wildcard) == seq!['^'] + wildcard.map_values(
            |c: char|
                if c == '?' {
                    seq!['.']
                } else if c == '*' {
                    seq!['.', '*']
                } else {
                    seq![c]
                },
        ).flatten() + seq!['$'],
{
    let pieces = wildcard.map_values(
        |c: char|
            if c == '?' {
                seq!['.']
            } else if c == '*' {
                seq!['.', '*']
            } else {
                seq![c]
            },
    );
    lemma_pieces_flat(wildcard, pieces);
}

proof fn lemma_pieces_flat(wildcard: Seq<char>, pieces: Seq<Seq<char>>)
    requires
        pieces.len() == wildcard.len(),
        forall|i: int|
            0 <= i < pieces.len() ==> #[trigger] pieces[i] == if wildcard[i] == '?' {
                seq!['.']
            } else if wildcard[i] == '*' {
                seq!['.', '*']
            } else {
                seq![wildcard[i]]
            },
    ensures
        wildcard_pieces(wildcard) == pieces.flatten(),
    decreases wildcard.len(),
{
    if wildcard.len() > 0 {
        let before = wildcard.drop_last();
        lemma_pieces_flat(before, pieces.drop_last());
        pieces.lemma_flatten_and_flatten_alt_are_equivalent();
        pieces.drop_last().lemma_flatten_and_flatten_alt_are_equivalent();
        assert(wildcard_piece(wildcard.last()) =~= pieces.last());
    }
}

/// The table of a wildcard search shows of each term all reported tokens, in the order in which they
/// were reported, if the expression of the wildcard pattern matches it, and none otherwise.
pub proof fn law_wildcard_table(
    rows: Seq<HighlightRow>,
    field_name: Seq<char>,
    reported: Seq<AnalyzedToken>,
    wildcard: Seq<char>,
    expression: Seq<char>,
    term: Seq<char>,
)
    requires
        table(rows) == rows_of(
            field_name,
            regex_found(analyzed(reported), wildcard_pattern(wildcard)),
        ),
        expression == seq!['^'] + wildcard.map_values(
            |c: char|
                if c == '?' {
                    seq!['.']
                } else if c == '*' {
                    seq!['.', '*']
                } else {
                    seq![c]
                },
        ).flatten() + seq!['$'],
        regex_compiled(expression) is Some,
    ensures
        rows.filter(|row: HighlightRow| row.term@ == term).map_values(
            |row: HighlightRow|
                (
                    row.field_name@,
                    row.term@,
                    row.type_@,
                    row.position,
                    row.start_offset,
                    row.end_offset,
                ),
        ) == if regex_is_match(regex_compiled(expression)->0, term) {
            reported.filter(|token: AnalyzedToken| token.token@ == term).map_values(
                |token: AnalyzedToken|
                    (
                        field_name,
                        token.token@,
                        token.type_@,
                        token.position,
                        token.start_offset,
                        token.end_offset,
                    ),
            )
        } else {
            Seq::empty()
        },
{
    law_wildcard_expression(wildcard);
    law_regex_table(rows, field_name, reported, expression, term);
}

/// A fuzzy search with a prefix that does not cover the key selects every term that agrees with the
/// key in each of the first bytes and is at most zero, one or two edits away, by the length of the
/// key.
proof fn lemma_fuzzy_selects(key: Seq<char>, prefix: int, term: Seq<char>)
    requires
        0 <= prefix < encode_utf8(key).len(),
    ensures
        fuzzy_selects(key, prefix, term) <==> {
            &&& prefix <= encode_utf8(term).len()
            &&& forall|i: int|
                0 <= i < prefix ==> #[trigger] encode_utf8(term)[i] == encode_utf8(key)[i]
            &&& encode_utf8(key).len() < 3 ==> edit_distance(term, key) as i32 == 0
            &&& 3 <= encode_utf8(key).len() < 6 ==> edit_distance(term, key) as i32 <= 1
            &&& 6 <= encode_utf8(key).len() ==> edit_distance(term, key) as i32 <= 2
        },
{
    let (bytes, other) = (encode_utf8(key), encode_utf8(term));
    let start = bytes.take(prefix);
    if start.is_prefix_of(other) {
        assert forall|i: int| 0 <= i < prefix implies #[trigger] other[i] == bytes[i] by {
            assert(start[i] == bytes[i]);
            assert(other.subrange(0, prefix)[i] == start[i]);
        }
    }
    if prefix <= other.len() && (forall|i: int| 0 <= i < prefix ==> #[trigger] other[i] == bytes[i]) {
        assert(start =~= other.subrange(0, prefix));
    }
}

/// A fuzzy search finds exactly the document's tokens with a term that agrees with the key in each of
/// the first `prefix` bytes and is near enough to it: no edit away from a key of up to two bytes, at
/// most one from a key of up to five, at most two from a longer one, counted as an `i32`. With a
/// prefix that covers the key it finds the key only.
pub proof fn law_fuzzy_found(document: Seq<Token>, key: Seq<char>, prefix: int, token: Token)
    requires
        0 <= prefix,
    ensures
        fuzzy_found(document, key, prefix).contains(token) <==> document.contains(token)
            && (if prefix >= encode_utf8(key).len() {
            token.term == key
        } else {
            &&& prefix <= encode_utf8(token.term).len()
            &&& forall|i: int|
                0 <= i < prefix ==> #[trigger] encode_utf8(token.term)[i] == encode_utf8(key)[i]
            &&& encode_utf8(key).len() < 3 ==> edit_distance(token.term, key) as i32 == 0
            &&& 3 <= encode_utf8(key).len() < 6 ==> edit_distance(token.term, key) as i32 <= 1
            &&& 6 <= encode_utf8(key).len() ==> edit_distance(token.term, key) as i32 <= 2
        }),
{
    if prefix >= encode_utf8(key).len() {
        lemma_occurrences_contain(document, key, token);
    } else {
        law_selected_tokens(document, |term: Seq<char>| fuzzy_selects(key, prefix, term), token);
        lemma_fuzzy_selects(key, prefix, token.term);
    }
}

/// The table of a fuzzy search shows of each term all reported tokens, in the order in which they
/// were reported, if it agrees with the key in the first bytes and is near enough to it, and none
/// otherwise.
pub proof fn law_fuzzy_table(
    rows: Seq<HighlightRow>,
    field_name: Seq<char>,
    reported: Seq<AnalyzedToken>,
    key: Seq<char>,
    prefix: int,
    term: Seq<char>,
)
    requires
        0 <= prefix,
        table(rows) == rows_of(field_name, fuzzy_found(analyzed(reported), key, prefix)),
    ensures
        rows.filter(|row: HighlightRow| row.term@ == term).map_values(
            |row: HighlightRow|
                (
                    row.field_name@,
                    row.term@,
                    row.type_@,
                    row.position,
                    row.start_offset,
                    row.end_offset,
                ),
        ) == if (if prefix >= encode_utf8(key).len() {
            term == key
        } else {
            &&& prefix <= encode_utf8(term).len()
            &&& forall|i: int|
                0 <= i < prefix ==> #[trigger] encode_utf8(term)[i] == encode_utf8(key)[i]
            &&& encode_utf8(key).len() < 3 ==> edit_distance(term, key) as i32 == 0
            &&& 3 <= encode_utf8(key).len() < 6 ==> edit_distance(term, key) as i32 <= 1
            &&& 6 <= encode_utf8(key).len() ==> edit_distance(term, key) as i32 <= 2
        }) {
            reported.filter(|token: AnalyzedToken| token.token@ == term).map_values(
                |token: AnalyzedToken|
                    (
                        field_name,
                        token.token@,
                        token.type_@,
                        token.position,
                        token.start_offset,
                        token.end_offset,
                    ),
            )
        } else {
            Seq::empty()
        },
{
    if prefix >= encode_utf8(key).len() {
        let keep = |t: Seq<char>| t == key;
        lemma_selected_one(analyzed(reported), keep, key);
        lemma_selected_table(rows, field_name, reported, keep, term);
    } else {
        let keep = |t: Seq<char>| fuzzy_selects(key, prefix, t);
        lemma_selected_table(rows, field_name, reported, keep, term);
        lemma_fuzzy_selects(key, prefix, term);
    }
}

/// A prefix that does not cover the key is refused exactly if it ends in front of a byte that
/// continues a character.
pub proof fn law_prefix_refused(key: Seq<char>, prefix: int)
    requires
        0 <= prefix,
    ensures
        !prefix_allowed(key, prefix) <==> prefix < encode_utf8(key).len() && 0x80 <= encode_utf8(
            key,
        )[prefix] < 0xC0,
{
    let bytes = encode_utf8(key);
    vstd::utf8::encode_utf8_valid_utf8(key);
    if prefix < bytes.len() {
        vstd::utf8::is_char_boundary_iff_not_is_continuation_byte(bytes, prefix);
        let byte = bytes[prefix];
        assert(vstd::utf8::is_continuation_byte(byte) <==> 0x80 <= byte < 0xC0);
    }
}

/// The terms are listed in the order in which they first occur: each that occurs and no other, and
/// of two terms the one that has a token in front of all tokens of the other.
pub proof fn law_terms_listed(document: Seq<Token>, term: Seq<char>, i: int, j: int)
    ensures
        terms(document).contains(term) <==> exists|token: Token| #[trigger]
            document.contains(token) && token.term == term,
        0 <= i < j < terms(document).len() ==> exists|a: int|
            0 <= a < document.len() && (#[trigger] document[a]).term == terms(document)[i]
                && forall|b: int|
                0 <= b < document.len() && (#[trigger] document[b]).term == terms(document)[j] ==> a
                    < b,
    decreases document.len(),
{
    if document.len() > 0 {
        let before = document.drop_last();
        let last = document.last();
        let listed = terms(before);
        law_terms_listed(before, term, i, j);
        lemma_push_contains(before, last);
        lemma_push_contains(listed, last.term);
        assert(document =~= before.push(last));
        if terms(document).contains(term) {
            if listed.contains(term) {
                let token = choose|token: Token| #[trigger]
                    before.contains(token) && token.term == term;
                assert(document.contains(token));
            } else {
                assert(document.contains(last));
            }
        }
        if exists|token: Token| #[trigger] document.contains(token) && token.term == term {
            let token = choose|token: Token| #[trigger]
                document.contains(token) && token.term == term;
            if token.term != last.term {
                assert(before.contains(token));
            }
        }
        if 0 <= i < j < terms(document).len() {
            if j < listed.len() {
                let a = choose|a: int|
                    0 <= a < before.len() && (#[trigger] before[a]).term == listed[i] && forall|
                        b: int,
                    |
                        0 <= b < before.len() && (#[trigger] before[b]).term == listed[j] ==> a < b;
                assert(document[a].term == terms(document)[i]);
                assert forall|b: int|
                    0 <= b < document.len() && (#[trigger] document[b]).term == terms(
                        document,
                    )[j] implies a < b by {
                    if b < before.len() {
                        assert(before[b] == document[b]);
                    }
                }
            } else {
                law_terms_listed(before, listed[i], i, j);
                assert(listed.contains(listed[i]));
                let token = choose|token: Token| #[trigger]
                    before.contains(token) && token.term == listed[i];
                let a = choose|a: int| 0 <= a < before.len() && before[a] == token;
                assert(document[a].term == terms(document)[i]);
                assert forall|b: int|
                    0 <= b < document.len() && (#[trigger] document[b]).term == terms(
                        document,
                    )[j] implies a < b by {
                    if b < before.len() {
                        law_terms_listed(before, last.term, i, j);
                        assert(before[b] == document[b]);
                        assert(before.contains(before[b]));
                    }
                }
            }
        }
    }
}

proof fn lemma_gathered_together(
    document: Seq<Token>,
    listed: Seq<Seq<char>>,
    flags: Seq<bool>,
    a: int,
    b: int,
    c: int,
)
    requires
        listed.no_duplicates(),
        flags.len() == listed.len(),
        0 <= a <= b <= c < gathered(document, listed, flags).len(),
    ensures
        listed.contains(gathered(document, listed, flags)[a].term),
        gathered(document, listed, flags)[a].term == gathered(document, listed, flags)[c].term
            ==> gathered(document, listed, flags)[a].term == gathered(document, listed, flags)[b].term,
    decreases listed.len(),
{
    let before = listed.drop_last();
    let last = listed.last();
    let all = gathered(document, listed, flags);
    let earlier = gathered(document, before, flags.drop_last());
    let new = occurrences(document, last);
    assert(listed =~= before.push(last));
    lemma_push_contains(before, last);
    assert(!before.contains(last));
    assert forall|i: int| earlier.len() <= i < all.len() implies (#[trigger] all[i]).term == last by {
        assert(new.contains(new[i - earlier.len()]));
        lemma_occurrences_contain(document, last, new[i - earlier.len()]);
    }
    if a < earlier.len() {
        if c < earlier.len() {
            lemma_gathered_together(document, before, flags.drop_last(), a, b, c);
        } else {
            lemma_gathered_together(document, before, flags.drop_last(), a, a, a);
        }
    }
}

/// A selection by flags has the tokens of one term side by side.
pub proof fn law_flagged_together(document: Seq<Token>, flags: Seq<bool>, a: int, b: int, c: int)
    requires
        flags.len() == terms(document).len(),
        0 <= a <= b <= c < gathered(document, terms(document), flags).len(),
        gathered(document, terms(document), flags)[a].term == gathered(
            document,
            terms(document),
            flags,
        )[c].term,
    ensures
        gathered(document, terms(document), flags)[b].term == gathered(
            document,
            terms(document),
            flags,
        )[a].term,
{
    law_terms_distinct(document);
    lemma_gathered_together(document, terms(document), flags, a, b, c);
}

/// A search for a regular expression, and so one for a wildcard pattern, reports the tokens of one
/// term side by side.
pub proof fn law_regex_together(document: Seq<Token>, pattern: Seq<char>, a: int, b: int, c: int)
    requires
        0 <= a <= b <= c < regex_found(document, pattern).len(),
        regex_found(document, pattern)[a].term == regex_found(document, pattern)[c].term,
    ensures
        regex_found(document, pattern)[b].term == regex_found(document, pattern)[a].term,
{
    let flags = terms(document).map_values(|term: Seq<char>| regex_matches(pattern, term));
    law_flagged_together(document, flags, a, b, c);
}

/// A fuzzy search reports the tokens of one term side by side.
pub proof fn law_fuzzy_together(
    document: Seq<Token>,
    key: Seq<char>,
    prefix: int,
    a: int,
    b: int,
    c: int,
)
    requires
        0 <= a <= b <= c < fuzzy_found(document, key, prefix).len(),
        fuzzy_found(document, key, prefix)[a].term == fuzzy_found(document, key, prefix)[c].term,
    ensures
        fuzzy_found(document, key, prefix)[b].term == fuzzy_found(document, key, prefix)[a].term,
{
    let found = fuzzy_found(document, key, prefix);
    if prefix >= encode_utf8(key).len() {
        assert(found.contains(found[a]) && found.contains(found[b]));
        lemma_occurrences_contain(document, key, found[a]);
        lemma_occurrences_contain(document, key, found[b]);
    } else {
        let flags = terms(document).map_values(|term: Seq<char>| fuzzy_selects(key, prefix, term));
        law_flagged_together(document, flags, a, b, c);
    }
}

/// Of each listed term, the flags select all tokens, in the document's order, if its own flag is set,
/// and none otherwise.
pub proof fn law_flagged(document: Seq<Token>, flags: Seq<bool>, i: int)
    requires
        flags.len() == terms(document).len(),
        0 <= i < flags.len(),
    ensures
        gathered(document, terms(document), flags).filter(
            |token: Token| token.term == terms(document)[i],
        ) == if flags[i] {
            document.filter(|token: Token| token.term == terms(document)[i])
        } else {
            Seq::empty()
        },
{
    let listed = terms(document);
    law_terms_distinct(document);
    let keep = |term: Seq<char>| flags[listed.index_of(term)];
    assert(flags =~= listed.map_values(keep)) by {
        assert forall|j: int| 0 <= j < listed.len() implies keep(#[trigger] listed[j]) == flags[j] by {
            assert(listed.contains(listed[j]));
            let k = listed.index_of(listed[j]);
            assert(0 <= k < listed.len() && listed[k] == listed[j]);
        }
    }
    law_selected_per_term(document, keep, listed[i]);
    assert(keep(listed[i]) == flags[i]) by {
        assert(listed.map_values(keep)[i] == flags[i]);
    }
}

} // verus!
