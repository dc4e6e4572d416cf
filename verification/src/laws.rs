//! What holds of the searches as a whole.

use crate::document::{
    gathered, lemma_occurrences_contain, lemma_occurrences_push, lemma_push_contains,
    lemma_terms_occur, occurrences, selected, terms,
};
use crate::fuzzy::{edit_distance, fuzzy_found, fuzzy_selects, is_close};
use crate::pattern::{
    is_plain, is_special, wildcard_found, wildcard_matches, wildcard_pattern, wildcard_piece,
    wildcard_pieces, wildcard_simple,
};
use crate::rows::{row_of, rows_of, Row};
use crate::token::{analyzed, AnalyzedToken, Token};
use vstd::prelude::*;
use vstd::utf8::encode_utf8;

verus! {

/// Analysing two texts one after the other is analysing the tokens of both at once.
pub proof fn law_analyze_in_steps(
    document: Seq<Token>,
    first: Seq<AnalyzedToken>,
    second: Seq<AnalyzedToken>,
)
    ensures
        document + analyzed(first) + analyzed(second) == document + analyzed(first + second),
{
    assert(document + analyzed(first) + analyzed(second) =~= document + analyzed(first + second));
}

/// The row that shows a token as the analyser reported it.
pub open spec fn reported_row(field_name: Seq<char>, token: AnalyzedToken) -> Row {
    Row {
        field_name,
        term: token.token@,
        type_: token.type_@,
        position: token.position,
        start_offset: token.start_offset,
        end_offset: token.end_offset,
    }
}

/// A row shows the numbers that the analyser reported, negative ones too.
pub proof fn law_row_shows_report(field_name: Seq<char>, token: AnalyzedToken)
    ensures
        row_of(field_name, token@) == reported_row(field_name, token),
{
    let p = token.position;
    assert((p as u32) as i32 == p) by (bit_vector);
    let o = token.start_offset;
    assert((o as u64) as i64 == o) by (bit_vector);
    let o = token.end_offset;
    assert((o as u64) as i64 == o) by (bit_vector);
}

/// The rows of a term search are the reported tokens with that term, in the order in which they
/// were reported.
pub proof fn law_term_rows(field_name: Seq<char>, reported: Seq<AnalyzedToken>, term: Seq<char>)
    ensures
        rows_of(field_name, occurrences(analyzed(reported), term)) == reported.filter(
            |token: AnalyzedToken| token.token@ == term,
        ).map_values(|token: AnalyzedToken| reported_row(field_name, token)),
    decreases reported.len(),
{
    reveal(Seq::filter);
    let with_term = |token: AnalyzedToken| token.token@ == term;
    let to_row = |token: AnalyzedToken| reported_row(field_name, token);
    if reported.len() == 0 {
        assert(rows_of(field_name, occurrences(analyzed(reported), term)) =~= reported.filter(
            with_term,
        ).map_values(to_row));
    } else {
        let before = reported.drop_last();
        let last = reported.last();
        law_term_rows(field_name, before, term);
        law_row_shows_report(field_name, last);
        assert(analyzed(reported) =~= analyzed(before).push(last@));
        lemma_occurrences_push(analyzed(before), last@, term);
        let found = occurrences(analyzed(before), term);
        let kept = before.filter(with_term);
        assert(rows_of(field_name, found.push(last@)) =~= rows_of(field_name, found).push(
            to_row(last),
        ));
        assert(kept.push(last).map_values(to_row) =~= kept.map_values(to_row).push(to_row(last)));
    }
}

/// No term is listed twice.
pub proof fn law_terms_distinct(document: Seq<Token>)
    ensures
        terms(document).no_duplicates(),
    decreases document.len(),
{
    if document.len() > 0 {
        law_terms_distinct(document.drop_last());
    }
}

/// Among the occurrences of one term are all of that term and none of another.
proof fn lemma_occurrences_nested(document: Seq<Token>, outer: Seq<char>, inner: Seq<char>)
    ensures
        occurrences(occurrences(document, outer), inner) == if outer == inner {
            occurrences(document, inner)
        } else {
            Seq::empty()
        },
    decreases document.len(),
{
    reveal(Seq::filter);
    if document.len() > 0 {
        let before = document.drop_last();
        let last = document.last();
        assert(before.push(last) =~= document);
        lemma_occurrences_nested(before, outer, inner);
        lemma_occurrences_push(before, last, outer);
        lemma_occurrences_push(before, last, inner);
        lemma_occurrences_push(occurrences(before, outer), last, inner);
    }
}

proof fn lemma_occurrences_add(a: Seq<Token>, b: Seq<Token>, term: Seq<char>)
    ensures
        occurrences(a + b, term) == occurrences(a, term) + occurrences(b, term),
{
    Seq::filter_distributes_over_add(a, b, |token: Token| token.term == term);
}

proof fn lemma_gathered_per_term(
    document: Seq<Token>,
    listed: Seq<Seq<char>>,
    keep: spec_fn(Seq<char>) -> bool,
    term: Seq<char>,
)
    requires
        listed.no_duplicates(),
    ensures
        occurrences(gathered(document, listed, listed.map_values(keep)), term) == if keep(term)
            && listed.contains(term) {
            occurrences(document, term)
        } else {
            Seq::empty()
        },
    decreases listed.len(),
{
    let flags = listed.map_values(keep);
    if listed.len() == 0 {
        reveal(Seq::filter);
    } else {
        let before = listed.drop_last();
        let last = listed.last();
        assert(flags.drop_last() =~= before.map_values(keep));
        lemma_gathered_per_term(document, before, keep, term);
        let earlier = gathered(document, before, flags.drop_last());
        lemma_occurrences_add(earlier, occurrences(document, last), term);
        lemma_occurrences_nested(document, last, term);
        assert(listed =~= before.push(last));
        lemma_push_contains(before, last);
        assert(!before.contains(last));
        assert(occurrences(earlier, term) + Seq::empty() =~= occurrences(earlier, term));
        assert(Seq::empty() + occurrences(document, term) =~= occurrences(document, term));
    }
}

/// A search by term (wildcard, regular expression or fuzzy) finds of each term either all
/// occurrences, in the document's order and as often as they are there, or none.
pub proof fn law_selected_per_term(
    document: Seq<Token>,
    keep: spec_fn(Seq<char>) -> bool,
    term: Seq<char>,
)
    ensures
        occurrences(selected(document, keep), term) == if keep(term) {
            occurrences(document, term)
        } else {
            Seq::empty()
        },
{
    law_terms_distinct(document);
    lemma_gathered_per_term(document, terms(document), keep, term);
    lemma_terms_occur(document, term);
    if !terms(document).contains(term) {
        assert(occurrences(document, term) =~= Seq::empty());
    }
}

/// A search by term finds exactly the document's tokens whose term it selects.
pub proof fn law_selected_tokens(
    document: Seq<Token>,
    keep: spec_fn(Seq<char>) -> bool,
    token: Token,
)
    ensures
        selected(document, keep).contains(token) <==> document.contains(token) && keep(token.term),
{
    law_selected_per_term(document, keep, token.term);
    lemma_occurrences_contain(selected(document, keep), token.term, token);
    lemma_occurrences_contain(document, token.term, token);
}

/// A search for a term, or by term, finds nothing in an empty document.
pub proof fn law_empty_document(term: Seq<char>, keep: spec_fn(Seq<char>) -> bool)
    ensures
        occurrences(Seq::empty(), term) == Seq::<Token>::empty(),
        selected(Seq::empty(), keep) == Seq::<Token>::empty(),
{
    reveal(Seq::filter);
}

/// The edit distance is the same in both directions.
pub proof fn law_distance_symmetric(a: Seq<char>, b: Seq<char>)
    ensures
        edit_distance(a, b) == edit_distance(b, a),
    decreases a.len() + b.len(),
{
    if a.len() > 0 && b.len() > 0 {
        law_distance_symmetric(a.drop_last(), b);
        law_distance_symmetric(a, b.drop_last());
        law_distance_symmetric(a.drop_last(), b.drop_last());
    }
}

/// The edit distance is at least the difference of the lengths, and at most the greater length.
pub proof fn law_distance_bounds(a: Seq<char>, b: Seq<char>)
    ensures
        a.len() <= b.len() + edit_distance(a, b),
        b.len() <= a.len() + edit_distance(a, b),
        edit_distance(a, b) <= a.len() || edit_distance(a, b) <= b.len(),
    decreases a.len() + b.len(),
{
    if a.len() > 0 && b.len() > 0 {
        law_distance_bounds(a.drop_last(), b);
        law_distance_bounds(a, b.drop_last());
        law_distance_bounds(a.drop_last(), b.drop_last());
    }
}

/// Only equal strings have the edit distance zero.
pub proof fn law_distance_zero(a: Seq<char>, b: Seq<char>)
    ensures
        edit_distance(a, b) == 0 <==> a == b,
    decreases a.len() + b.len(),
{
    if a.len() == 0 || b.len() == 0 {
        if edit_distance(a, b) == 0 {
            assert(a =~= b);
        }
    } else {
        law_distance_zero(a.drop_last(), b.drop_last());
        if edit_distance(a, b) == 0 {
            assert(a =~= a.drop_last().push(a.last()));
            assert(b =~= b.drop_last().push(b.last()));
        }
    }
}

/// Where the edit distance fits an `i32`, closeness is a bound on it: zero, one or two edits, by the
/// length of the key.
pub proof fn law_close_by_distance(term: Seq<char>, key: Seq<char>)
    requires
        edit_distance(term, key) <= i32::MAX,
    ensures
        is_close(term, key) <==> edit_distance(term, key) <= if encode_utf8(key).len() < 3 {
            0int
        } else if encode_utf8(key).len() < 6 {
            1
        } else {
            2
        },
{
}

/// A fuzzy search finds every occurrence of the key itself, in the document's order.
pub proof fn law_fuzzy_finds_key(document: Seq<Token>, key: Seq<char>, prefix: int)
    requires
        0 <= prefix,
    ensures
        occurrences(fuzzy_found(document, key, prefix), key) == occurrences(document, key),
{
    if prefix >= encode_utf8(key).len() {
        lemma_occurrences_nested(document, key, key);
    } else {
        law_distance_zero(key, key);
        law_selected_per_term(
            document,
            |term: Seq<char>| fuzzy_selects(key, prefix, term),
            key,
        );
    }
}

proof fn lemma_gathered_one(
    document: Seq<Token>,
    listed: Seq<Seq<char>>,
    keep: spec_fn(Seq<char>) -> bool,
    term: Seq<char>,
)
    requires
        listed.no_duplicates(),
        forall|i: int| 0 <= i < listed.len() ==> (keep(#[trigger] listed[i]) <==> listed[i] == term),
    ensures
        gathered(document, listed, listed.map_values(keep)) == if listed.contains(term) {
            occurrences(document, term)
        } else {
            Seq::empty()
        },
    decreases listed.len(),
{
    if listed.len() > 0 {
        let before = listed.drop_last();
        let last = listed.last();
        assert(listed.map_values(keep).drop_last() =~= before.map_values(keep));
        assert forall|i: int| 0 <= i < before.len() implies (keep(#[trigger] before[i])
            <==> before[i] == term) by {
            assert(before[i] == listed[i]);
        }
        lemma_gathered_one(document, before, keep, term);
        assert(listed =~= before.push(last));
        lemma_push_contains(before, last);
        assert(!before.contains(last));
        assert(Seq::empty() + occurrences(document, term) =~= occurrences(document, term));
    }
}

/// A search by term that selects one term finds the occurrences of that term.
pub(crate) proof fn lemma_selected_one(
    document: Seq<Token>,
    keep: spec_fn(Seq<char>) -> bool,
    term: Seq<char>,
)
    requires
        forall|i: int|
            0 <= i < terms(document).len() ==> (keep(#[trigger] terms(document)[i])
                <==> terms(document)[i] == term),
    ensures
        selected(document, keep) == occurrences(document, term),
{
    law_terms_distinct(document);
    lemma_gathered_one(document, terms(document), keep, term);
    lemma_terms_occur(document, term);
    if !terms(document).contains(term) {
        assert(occurrences(document, term) =~= Seq::empty());
    }
}

/// A fuzzy search for a key of at most two bytes finds the key only, as long as no other term is so
/// many edits away that their number becomes zero as an `i32`.
pub proof fn law_fuzzy_short_key(document: Seq<Token>, key: Seq<char>, prefix: int)
    requires
        0 <= prefix,
        encode_utf8(key).len() < 3,
        forall|i: int|
            0 <= i < document.len() && (#[trigger] document[i]).term != key ==> edit_distance(
                document[i].term,
                key,
            ) as i32 != 0,
    ensures
        fuzzy_found(document, key, prefix) == occurrences(document, key),
{
    if prefix < encode_utf8(key).len() {
        let keep = |term: Seq<char>| fuzzy_selects(key, prefix, term);
        let listed = terms(document);
        assert forall|i: int| 0 <= i < listed.len() implies (keep(#[trigger] listed[i])
            <==> listed[i] == key) by {
            let term = listed[i];
            lemma_terms_occur(document, term);
            assert(listed.contains(term));
            let token = occurrences(document, term)[0];
            assert(occurrences(document, term).contains(token));
            lemma_occurrences_contain(document, term, token);
            let place = choose|place: int| 0 <= place < document.len() && document[place] == token;
            assert(document[place].term == term);
            law_distance_zero(term, key);
        }
        lemma_selected_one(document, keep, key);
    }
}

/// A longer prefix only narrows a fuzzy search.
pub proof fn law_fuzzy_prefix_narrows(
    document: Seq<Token>,
    key: Seq<char>,
    shorter: int,
    longer: int,
    token: Token,
)
    requires
        0 <= shorter <= longer,
        fuzzy_found(document, key, longer).contains(token),
    ensures
        fuzzy_found(document, key, shorter).contains(token),
{
    let bytes = encode_utf8(key);
    if shorter < bytes.len() {
        law_selected_tokens(
            document,
            |term: Seq<char>| fuzzy_selects(key, shorter, term),
            token,
        );
        if longer < bytes.len() {
            law_selected_tokens(
                document,
                |term: Seq<char>| fuzzy_selects(key, longer, term),
                token,
            );
            let other = encode_utf8(token.term);
            assert(bytes.take(shorter) =~= bytes.take(longer).take(shorter));
            assert(other.take(shorter) =~= other.take(longer).take(shorter));
        } else {
            lemma_occurrences_contain(document, key, token);
            law_distance_zero(key, key);
        }
    }
}

/// The regular expression of a wildcard pattern is put together from those of its pieces.
pub proof fn law_wildcard_pieces(a: Seq<char>, b: Seq<char>)
    ensures
        wildcard_pieces(a + b) == wildcard_pieces(a) + wildcard_pieces(b),
    decreases b.len(),
{
    if b.len() == 0 {
        assert(a + b =~= a);
        assert(wildcard_pieces(a) + wildcard_pieces(b) =~= wildcard_pieces(a));
    } else {
        law_wildcard_pieces(a, b.drop_last());
        assert((a + b).drop_last() =~= a + b.drop_last());
        assert(wildcard_pieces(a + b) =~= wildcard_pieces(a) + wildcard_pieces(b));
    }
}

/// A wildcard pattern without wildcards stays as it is between the anchors.
pub proof fn law_wildcard_plain(wildcard: Seq<char>)
    requires
        !wildcard.contains('?'),
        !wildcard.contains('*'),
    ensures
        wildcard_pattern(wildcard) == seq!['^'] + wildcard + seq!['$'],
{
    lemma_pieces_plain(wildcard);
}

/// A wildcard pattern without `*` matches the texts of its length that have its characters, but for
/// any character that is no new line in the place of a `?`.
pub proof fn law_wildcard_without_star(wildcard: Seq<char>, text: Seq<char>)
    requires
        !wildcard.contains('*'),
    ensures
        wildcard_matches(wildcard, text) <==> {
            &&& wildcard.len() == text.len()
            &&& forall|i: int|
                0 <= i < wildcard.len() ==> if #[trigger] wildcard[i] == '?' {
                    text[i] != '\n'
                } else {
                    text[i] == wildcard[i]
                }
        },
    decreases wildcard.len(),
{
    if wildcard.len() > 0 {
        let before = wildcard.drop_last();
        let last = wildcard.last();
        assert(wildcard =~= before.push(last));
        lemma_push_contains(before, last);
        if text.len() > 0 {
            let shorter = text.drop_last();
            law_wildcard_without_star(before, shorter);
            if wildcard_matches(wildcard, text) {
                assert forall|i: int| 0 <= i < wildcard.len() implies if #[trigger] wildcard[i]
                    == '?' {
                    text[i] != '\n'
                } else {
                    text[i] == wildcard[i]
                } by {
                    if i < before.len() {
                        assert(before[i] == wildcard[i]);
                        assert(shorter[i] == text[i]);
                    }
                }
            } else if wildcard.len() == text.len() {
                if wildcard_matches(before, shorter) {
                    assert(wildcard[before.len() as int] == last);
                } else {
                    let i = choose|i: int|
                        0 <= i < before.len() && !(if #[trigger] before[i] == '?' {
                            shorter[i] != '\n'
                        } else {
                            shorter[i] == before[i]
                        });
                    assert(wildcard[i] == before[i]);
                }
            }
        }
    }
}

/// A wildcard search for a word without wildcards or other special characters is the search for the
/// word itself.
pub proof fn law_wildcard_exact(document: Seq<Token>, word: Seq<char>)
    requires
        is_plain(word),
    ensures
        wildcard_simple(word),
        wildcard_found(document, word) == occurrences(document, word),
{
    let keep = |term: Seq<char>| wildcard_matches(word, term);
    assert(!word.contains('*'));
    assert forall|term: Seq<char>| #[trigger] keep(term) <==> term == word by {
        law_wildcard_without_star(word, term);
        if keep(term) {
            assert forall|i: int| 0 <= i < word.len() implies term[i] == word[i] by {
                assert(!is_special(word[i]));
            }
            assert(term =~= word);
        } else if term == word {
            assert forall|i: int| 0 <= i < word.len() implies #[trigger] word[i] != '?' by {
                assert(!is_special(word[i]));
            }
        }
    }
    lemma_selected_one(document, keep, word);
}

/// A wildcard pattern that ends in `*` matches the texts of which it matches a beginning without the
/// star, with no new line behind it.
pub proof fn law_wildcard_star(wildcard: Seq<char>, text: Seq<char>)
    ensures
        wildcard_matches(wildcard.push('*'), text) <==> exists|n: int|
            0 <= n <= text.len() && #[trigger] wildcard_matches(wildcard, text.take(n))
                && !text.skip(n).contains('\n'),
    decreases text.len(),
{
    let starred = wildcard.push('*');
    assert(starred.drop_last() =~= wildcard);
    assert(text.take(text.len() as int) =~= text);
    assert(text.skip(text.len() as int) =~= Seq::empty());
    if wildcard_matches(wildcard, text) {
        assert(wildcard_matches(wildcard, text.take(text.len() as int)));
    }
    if text.len() > 0 {
        let shorter = text.drop_last();
        law_wildcard_star(wildcard, shorter);
        assert forall|n: int| 0 <= n <= shorter.len() implies #[trigger] shorter.take(n)
            == text.take(n) && (text.skip(n).contains('\n') <==> shorter.skip(n).contains('\n')
            || text.last() == '\n') by {
            assert(shorter.take(n) =~= text.take(n));
            assert(text.skip(n) =~= shorter.skip(n).push(text.last()));
            lemma_push_contains(shorter.skip(n), text.last());
        }
        if wildcard_matches(starred, text) && !wildcard_matches(wildcard, text) {
            let n = choose|n: int|
                0 <= n <= shorter.len() && #[trigger] wildcard_matches(wildcard, shorter.take(n))
                    && !shorter.skip(n).contains('\n');
            assert(wildcard_matches(wildcard, text.take(n)));
        }
        if exists|n: int|
            0 <= n <= text.len() && #[trigger] wildcard_matches(wildcard, text.take(n))
                && !text.skip(n).contains('\n') {
            let n = choose|n: int|
                0 <= n <= text.len() && #[trigger] wildcard_matches(wildcard, text.take(n))
                    && !text.skip(n).contains('\n');
            if n < text.len() {
                assert(wildcard_matches(wildcard, shorter.take(n)));
                assert(wildcard_matches(starred, shorter));
            }
        }
    } else {
        assert forall|n: int| 0 <= n <= text.len() implies #[trigger] text.take(n) == text by {
            assert(text.take(n) =~= text);
        }
    }
}

proof fn lemma_pieces_plain(wildcard: Seq<char>)
    requires
        !wildcard.contains('?'),
        !wildcard.contains('*'),
    ensures
        wildcard_pieces(wildcard) == wildcard,
    decreases wildcard.len(),
{
    if wildcard.len() > 0 {
        let before = wildcard.drop_last();
        assert(wildcard =~= before.push(wildcard.last()));
        lemma_push_contains(before, wildcard.last());
        lemma_pieces_plain(before);
        assert(wildcard_piece(wildcard.last()) == seq![wildcard.last()]);
        assert(wildcard_pieces(wildcard) =~= wildcard);
    }
}

} // verus!
