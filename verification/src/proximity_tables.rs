//! What the answers and tables of proximity and phrase searches hold, in terms of what the analyser
//! reported.

use crate::answer_laws::{law_answer_shows, law_answer_shows_set, law_term_table};
use crate::document::occurrences;
use crate::laws::law_row_shows_report;
use crate::proximity::{clause, spelled, ProximityPart};
use crate::proximity_laws::{
    in_phrase_at, law_phrase_consecutive, law_proximity_from_document, law_proximity_rows,
    occurs_at, phrase_at, phrase_tokens, proximity_found,
};
use crate::proximity_model::{
    all_measurable, chained, measurable, near, near_measurable, phrase_clause, phrase_reported,
    proximity_reported, reached, within, Part,
};
use crate::proximity_paths::law_proximity_paths;
use crate::rows::{
    all_given, given, lemma_row_of_injective, phrase_listed, proximity_listed, row_of, table,
    HighlightRow, Row,
};
use crate::token::{analyzed, reports_set, AnalyzedToken, Token, TokenEntry};
use vstd::prelude::*;

verus! {

/// A clause has its parts in their order, each with the words, the distance and the order given.
pub proof fn law_clause_read(phrase: Seq<ProximityPart>)
    ensures
        clause(phrase).len() == phrase.len(),
        forall|i: int|
            0 <= i < phrase.len() ==> {
                &&& (#[trigger] clause(phrase)[i]).words == phrase[i].words@.map_values(
                    |word: String| word@,
                )
                &&& clause(phrase)[i].distance == phrase[i].distance
                &&& clause(phrase)[i].in_order == phrase[i].in_order
            },
{
}

/// A clause is refused exactly if one of its parts is null; otherwise it has its parts in their
/// order, each with the words, the distance and the order given.
pub proof fn law_given_read(parts: Seq<Option<ProximityPart>>)
    ensures
        !all_given(parts) <==> exists|i: int| 0 <= i < parts.len() && #[trigger] parts[i] is None,
        given(parts).len() == parts.len(),
        forall|i: int|
            0 <= i < parts.len() && parts[i] is Some ==> {
                &&& (#[trigger] given(parts)[i]).words == parts[i]->0.words@.map_values(
                    |word: String| word@,
                )
                &&& given(parts)[i].distance == parts[i]->0.distance
                &&& given(parts)[i].in_order == parts[i]->0.in_order
            },
{
}

/// The occurrences of some words near some positions are the document's tokens with one of the words
/// as their term that are behind one of the positions, by at most the distance and one more, where
/// the order counts, and at most that far from one of them, in signed numbers, where it does not.
/// Each of them is reported once.
pub proof fn law_near_answer(
    result: Option<Vec<(String, &TokenEntry)>>,
    document: Seq<Token>,
    words: Seq<String>,
    distance: u32,
    in_order: bool,
    starts: Seq<u32>,
    token: Token,
)
    requires
        reports_set(result, near(document, spelled(words), distance, in_order, starts.to_set())),
    ensures
        ({
            let shown = match result {
                Some(highlights) => highlights@.map_values(
                    |highlight: (String, &TokenEntry)|
                        (Token {
                            term: highlight.0@,
                            type_: highlight.1.type_@,
                            position: highlight.1.position,
                            start_offset: highlight.1.start_offset,
                            end_offset: highlight.1.end_offset,
                        }),
                ),
                None => Seq::empty(),
            };
            &&& result is Some ==> shown.len() > 0
            &&& shown.no_duplicates()
            &&& shown.contains(token) <==> {
                &&& document.contains(token)
                &&& exists|w: int| 0 <= w < words.len() && (#[trigger] words[w])@ == token.term
                &&& exists|i: int|
                    0 <= i < starts.len() && {
                        let (p, q) = (#[trigger] starts[i], token.position);
                        if in_order {
                            p < q && q - p <= distance + 1
                        } else {
                            -(distance as i32 + 1) <= p as i32 - q as i32 <= distance as i32 + 1
                        }
                    }
            }
        }),
{
    let set = starts.to_set();
    let found = near(document, spelled(words), distance, in_order, set);
    law_answer_shows_set(result, found);
    if spelled(words).contains(token.term) {
        let w = choose|w: int| 0 <= w < spelled(words).len() && spelled(words)[w] == token.term;
        assert(words[w]@ == token.term);
    }
    if exists|w: int| 0 <= w < words.len() && (#[trigger] words[w])@ == token.term {
        let w = choose|w: int| 0 <= w < words.len() && (#[trigger] words[w])@ == token.term;
        assert(spelled(words)[w] == token.term);
    }
    if reached(set, token.position, distance, in_order) {
        let p = choose|p: u32| #[trigger]
            set.contains(p) && within(p, token.position, distance, in_order);
        let i = choose|i: int| 0 <= i < starts.len() && starts[i] == p;
        assert(starts[i] == p);
    }
    assert forall|i: int|
        0 <= i < starts.len() && within(
            #[trigger] starts[i],
            token.position,
            distance,
            in_order,
        ) implies reached(set, token.position, distance, in_order) by {
        assert(set.contains(starts[i]));
    }
    assert(found.contains(token) <==> document.contains(token) && spelled(words).contains(
        token.term,
    ) && reached(set, token.position, distance, in_order));
}

/// Looking for words near some positions is refused exactly if one of the distances cannot be
/// measured: with the greatest distance of all where the order counts and the word is behind, or with
/// a difference or a limit that no signed number holds where it does not.
pub proof fn law_near_refused(
    document: Seq<Token>,
    words: Seq<String>,
    distance: u32,
    in_order: bool,
    starts: Seq<u32>,
)
    ensures
        !near_measurable(document, spelled(words), distance, in_order, starts.to_set())
            <==> exists|i: int, w: int, token: Token|
            #![trigger starts[i], words[w], document.contains(token)]
            {
                let (p, q) = (starts[i], token.position);
                &&& 0 <= i < starts.len()
                &&& 0 <= w < words.len()
                &&& document.contains(token)
                &&& words[w]@ == token.term
                &&& if in_order {
                    p < q && distance == u32::MAX
                } else {
                    ||| p as i32 - q as i32 <= i32::MIN
                    ||| p as i32 - q as i32 > i32::MAX
                    ||| distance as i32 == i32::MAX
                }
            },
{
    let set = starts.to_set();
    let all = spelled(words);
    if !near_measurable(document, all, distance, in_order, set) {
        let token = choose|token: Token| #[trigger]
            document.contains(token) && all.contains(token.term) && !all_measurable(
                set,
                token.position,
                distance,
                in_order,
            );
        let p = choose|p: u32| #[trigger]
            set.contains(p) && !measurable(p, token.position, distance, in_order);
        let i = choose|i: int| 0 <= i < starts.len() && starts[i] == p;
        let w = choose|w: int| 0 <= w < all.len() && all[w] == token.term;
        assert(starts[i] == p && words[w]@ == token.term && document.contains(token));
    }
    assert forall|i: int| 0 <= i < starts.len() implies set.contains(#[trigger] starts[i]) by {}
    assert forall|w: int| 0 <= w < words.len() implies all.contains((#[trigger] words[w])@) by {
        assert(all[w] == words[w]@);
    }
}

/// A clause of two parts finds exactly the tokens that have a word of one part as their term and are
/// near enough to one with a word of the other, if every word of the first part occurs. No two tokens
/// further apart than the distance and one more position make each other found, and where the order
/// counts, none the one before it.
pub proof fn law_two_parts(document: Seq<Token>, clause: Seq<Part>, token: Token)
    requires
        clause.len() == 2,
    ensures
        proximity_found(document, clause).contains(token) <==> {
            &&& forall|word: Seq<char>| #[trigger]
                clause[0].words.contains(word) ==> exists|t: Token| #[trigger]
                    document.contains(t) && t.term == word
            &&& document.contains(token)
            &&& {
                ||| clause[0].words.contains(token.term) && exists|other: Token| #[trigger]
                    document.contains(other) && clause[1].words.contains(other.term) && {
                        let (p, q) = (token.position, other.position);
                        if clause[0].in_order {
                            p < q && q - p <= clause[0].distance + 1
                        } else {
                            -(clause[0].distance as i32 + 1) <= p as i32 - q as i32
                                <= clause[0].distance as i32 + 1
                        }
                    }
                ||| clause[1].words.contains(token.term) && exists|other: Token| #[trigger]
                    document.contains(other) && clause[0].words.contains(other.term) && {
                        let (p, q) = (other.position, token.position);
                        if clause[0].in_order {
                            p < q && q - p <= clause[0].distance + 1
                        } else {
                            -(clause[0].distance as i32 + 1) <= p as i32 - q as i32
                                <= clause[0].distance as i32 + 1
                        }
                    }
            }
        },
{
    law_proximity_paths(document, clause, token);
    let (a, b) = (clause[0], clause[1]);
    if proximity_found(document, clause).contains(token) {
        let (whole, path) = choose|whole: Seq<Token>, path: Seq<Token>|
                {
                    &&& #[trigger] whole.len() == clause.len()
                    &&& 1 <= #[trigger] path.len() <= clause.len()
                    &&& path[0] == whole[0]
                    &&& path.last() == token
                    &&& forall|i: int|
                        0 <= i < whole.len() ==> (#[trigger] clause[i]).words.contains(
                            whole[i].term,
                        ) && document.contains(whole[i])
                    &&& forall|i: int|
                        0 <= i < path.len() ==> (#[trigger] clause[i]).words.contains(path[i].term)
                            && document.contains(path[i])
                    &&& forall|i: int|
                        0 <= i < whole.len() - 1 ==> {
                            let (p, q) = (whole[i].position, whole[i + 1].position);
                            if (#[trigger] clause[i]).in_order {
                                p < q && q - p <= clause[i].distance + 1
                            } else {
                                -(clause[i].distance as i32 + 1) <= p as i32 - q as i32
                                    <= clause[i].distance as i32 + 1
                            }
                        }
                    &&& forall|i: int|
                        0 <= i < path.len() - 1 ==> {
                            let (p, q) = (path[i].position, path[i + 1].position);
                            if (#[trigger] clause[i]).in_order {
                                p < q && q - p <= clause[i].distance + 1
                            } else {
                                -(clause[i].distance as i32 + 1) <= p as i32 - q as i32
                                    <= clause[i].distance as i32 + 1
                            }
                        }
                };
        assert(a.words.contains(whole[0].term) && b.words.contains(whole[1].term));
        assert(a.words.contains(path[0].term));
        assert(within(whole[0].position, whole[1].position, a.distance, a.in_order));
        if path.len() == 1 {
            assert(document.contains(whole[1]));
        } else {
            assert(b.words.contains(path[1].term));
            assert(within(path[0].position, path[1].position, a.distance, a.in_order));
            assert(document.contains(path[0]));
        }
    }
    if document.contains(token) && a.words.contains(token.term) {
        assert forall|other: Token| #[trigger]
            document.contains(other) && b.words.contains(other.term) && within(
                token.position,
                other.position,
                a.distance,
                a.in_order,
            ) && (forall|word: Seq<char>| #[trigger]
                a.words.contains(word) ==> exists|t: Token| #[trigger]
                    document.contains(t) && t.term == word) implies proximity_found(
            document,
            clause,
        ).contains(token) by {
            let (whole, path) = (seq![token, other], seq![token]);
            assert(whole.len() == clause.len());
            assert(1 <= path.len() <= clause.len());
            assert(path.last() == token);
        }
    }
    if document.contains(token) && b.words.contains(token.term) {
        assert forall|other: Token| #[trigger]
            document.contains(other) && a.words.contains(other.term) && within(
                other.position,
                token.position,
                a.distance,
                a.in_order,
            ) && (forall|word: Seq<char>| #[trigger]
                a.words.contains(word) ==> exists|t: Token| #[trigger]
                    document.contains(t) && t.term == word) implies proximity_found(
            document,
            clause,
        ).contains(token) by {
            let whole = seq![other, token];
            assert(whole.len() == clause.len());
            assert(whole.last() == token);
        }
    }
}

/// In small numbers, a clause of two parts never links tokens that are further apart than the distance
/// and one more position: one that it finds without a word of the first part is at most that far from
/// one with such a word, and behind it where the order counts.
pub proof fn law_never_further(document: Seq<Token>, clause: Seq<Part>, token: Token)
    requires
        clause.len() == 2,
        clause[0].distance < i32::MAX,
        forall|t: Token| #[trigger] document.contains(t) ==> t.position <= i32::MAX,
        proximity_found(document, clause).contains(token),
        !clause[0].words.contains(token.term),
    ensures
        exists|other: Token|
            {
                &&& #[trigger] document.contains(other)
                &&& clause[0].words.contains(other.term)
                &&& token.position - other.position <= clause[0].distance + 1
                &&& other.position - token.position <= clause[0].distance + 1
                &&& clause[0].in_order ==> other.position < token.position
            },
{
    law_two_parts(document, clause, token);
}

/// What a proximity search answers. A clause without parts, or with no words in the first, finds
/// nothing. A clause of one part finds the tokens with its first word, in the document's order. A
/// longer one finds a set of tokens, and each of them is reported once.
pub proof fn law_proximity_shown(
    result: Option<Vec<(String, &TokenEntry)>>,
    document: Seq<Token>,
    clause: Seq<Part>,
    token: Token,
)
    requires
        proximity_reported(result, document, clause),
    ensures
        ({
            let shown = match result {
                Some(highlights) => highlights@.map_values(
                    |highlight: (String, &TokenEntry)|
                        (Token {
                            term: highlight.0@,
                            type_: highlight.1.type_@,
                            position: highlight.1.position,
                            start_offset: highlight.1.start_offset,
                            end_offset: highlight.1.end_offset,
                        }),
                ),
                None => Seq::empty(),
            };
            &&& result is Some ==> shown.len() > 0
            &&& clause.len() == 0 || clause[0].words.len() == 0 ==> result is None
            &&& clause.len() == 1 && clause[0].words.len() > 0 ==> shown == document.filter(
                |t: Token| t.term == clause[0].words[0],
            )
            &&& clause.len() >= 2 ==> shown.no_duplicates()
            &&& clause.len() >= 2 ==> (shown.contains(token) <==> proximity_found(
                document,
                clause,
            ).contains(token))
        }),
{
    if clause.len() == 0 || clause[0].words.len() == 0 {
    } else if clause.len() == 1 {
        law_answer_shows(result, occurrences(document, clause[0].words[0]));
    } else if result is Some {
        law_answer_shows_set(result, chained(document, clause, clause[0].words));
    }
}

/// A token belongs to an occurrence of a phrase if it belongs to a run of tokens that spell the
/// phrase.
proof fn lemma_phrase_run(document: Seq<Token>, phrase: Seq<Token>, token: Token)
    ensures
        phrase_tokens(document, phrase).contains(token) <==> exists|run: Seq<Token>|
            {
                &&& #[trigger] run.contains(token)
                &&& run.len() == phrase.len()
                &&& forall|i: int|
                    0 <= i < run.len() ==> {
                        &&& document.contains(#[trigger] run[i])
                        &&& run[i].term == phrase[i].term
                        &&& run[i].position == run[0].position + i
                    }
            },
{
    if phrase_tokens(document, phrase).contains(token) {
        let position = choose|position: int| #[trigger]
            phrase_at(document, phrase, 0, position) && in_phrase_at(phrase, 0, position, token);
        let k = choose|k: int|
            0 <= k < phrase.len() && (#[trigger] phrase[k]).term == token.term && token.position
                == position + k - 0;
        let run = Seq::new(
            phrase.len(),
            |i: int|
                if i == k {
                    token
                } else {
                    choose|t: Token| #[trigger]
                        document.contains(t) && t.term == phrase[i].term && t.position == position
                            + i
                },
        );
        assert forall|i: int| 0 <= i < run.len() implies document.contains(#[trigger] run[i])
            && run[i].term == phrase[i].term && run[i].position == position + i by {
            assert(occurs_at(document, phrase[i].term, position + i - 0));
        }
        assert(run[0].position == position);
        assert(run[k] == token);
        assert(run.contains(token));
    }
    if exists|run: Seq<Token>|
        {
            &&& #[trigger] run.contains(token)
            &&& run.len() == phrase.len()
            &&& forall|i: int|
                0 <= i < run.len() ==> {
                    &&& document.contains(#[trigger] run[i])
                    &&& run[i].term == phrase[i].term
                    &&& run[i].position == run[0].position + i
                }
        } {
        let run = choose|run: Seq<Token>|
            {
                &&& #[trigger] run.contains(token)
                &&& run.len() == phrase.len()
                &&& forall|i: int|
                    0 <= i < run.len() ==> {
                        &&& document.contains(#[trigger] run[i])
                        &&& run[i].term == phrase[i].term
                        &&& run[i].position == run[0].position + i
                    }
            };
        let k = choose|k: int| 0 <= k < run.len() && run[k] == token;
        let position = run[0].position as int;
        assert(phrase[k].term == token.term && run[k] == token);
        assert forall|i: int| 0 <= i < phrase.len() implies occurs_at(
            document,
            (#[trigger] phrase[i]).term,
            position + i - 0,
        ) by {
            assert(document.contains(run[i]));
        }
        assert(phrase_at(document, phrase, 0, position));
        assert(in_phrase_at(phrase, 0, position, token));
    }
}

/// What a phrase search answers. An empty text, or one without words, finds nothing. A phrase of one
/// word finds the tokens with that word, in the document's order. A longer one finds the tokens that
/// have one of its words and around them all its words, at consecutive positions and in their order,
/// and each of them is reported once.
pub proof fn law_phrase_shown(
    result: Option<Vec<(String, &TokenEntry)>>,
    document: Seq<Token>,
    phrase_str: Seq<char>,
    phrase: Seq<Token>,
    token: Token,
)
    requires
        phrase_reported(result, document, phrase_str, phrase),
    ensures
        ({
            let shown = match result {
                Some(highlights) => highlights@.map_values(
                    |highlight: (String, &TokenEntry)|
                        (Token {
                            term: highlight.0@,
                            type_: highlight.1.type_@,
                            position: highlight.1.position,
                            start_offset: highlight.1.start_offset,
                            end_offset: highlight.1.end_offset,
                        }),
                ),
                None => Seq::empty(),
            };
            &&& result is Some ==> shown.len() > 0
            &&& phrase_str.len() == 0 || phrase.len() == 0 ==> result is None
            &&& phrase_str.len() > 0 && phrase.len() == 1 ==> shown == document.filter(
                |t: Token| t.term == phrase[0].term,
            )
            &&& phrase.len() >= 2 ==> shown.no_duplicates()
            &&& phrase_str.len() > 0 && phrase.len() >= 2 ==> (shown.contains(token)
                <==> exists|run: Seq<Token>|
                {
                    &&& #[trigger] run.contains(token)
                    &&& run.len() == phrase.len()
                    &&& forall|i: int|
                        0 <= i < run.len() ==> {
                            &&& document.contains(#[trigger] run[i])
                            &&& run[i].term == phrase[i].term
                            &&& run[i].position == run[0].position + i
                        }
                })
        }),
{
    if phrase_str.len() > 0 && phrase.len() > 0 {
        law_proximity_shown(result, document, phrase_clause(phrase), token);
        assert(phrase_clause(phrase)[0].words[0] == phrase[0].term);
        law_phrase_consecutive(document, phrase);
        lemma_phrase_run(document, phrase, token);
    }
}

/// What the rows show of a table.
proof fn lemma_shown(
    rows: Seq<HighlightRow>,
    shown: Seq<(Seq<char>, Seq<char>, Seq<char>, i32, i64, i64)>,
)
    requires
        shown == rows.map_values(
            |row: HighlightRow|
                (
                    row.field_name@,
                    row.term@,
                    row.type_@,
                    row.position,
                    row.start_offset,
                    row.end_offset,
                ),
        ),
    ensures
        table(rows).no_duplicates() ==> shown.no_duplicates(),
        forall|row: Row| #[trigger]
            table(rows).contains(row) <==> shown.contains(
                (
                    row.field_name,
                    row.term,
                    row.type_,
                    row.position,
                    row.start_offset,
                    row.end_offset,
                ),
            ),
{
    let all = table(rows);
    assert forall|i: int| 0 <= i < rows.len() implies #[trigger] shown[i] == (
        all[i].field_name,
        all[i].term,
        all[i].type_,
        all[i].position,
        all[i].start_offset,
        all[i].end_offset,
    ) by {}
    assert forall|row: Row| #[trigger] all.contains(row) <==> shown.contains(
        (row.field_name, row.term, row.type_, row.position, row.start_offset, row.end_offset),
    ) by {
        let values = (
            row.field_name,
            row.term,
            row.type_,
            row.position,
            row.start_offset,
            row.end_offset,
        );
        if all.contains(row) {
            let i = choose|i: int| 0 <= i < all.len() && all[i] == row;
            assert(shown[i] == values);
        }
        if shown.contains(values) {
            let i = choose|i: int| 0 <= i < shown.len() && shown[i] == values;
            assert(all[i] == row);
        }
    }
    if all.no_duplicates() {
        assert forall|i: int, j: int|
            0 <= i < shown.len() && 0 <= j < shown.len() && i != j implies shown[i] != shown[j] by {
            assert(all[i] != all[j]);
        }
    }
}

/// What the table of a proximity search shows. A clause without parts, or with no words in the first,
/// has no rows. A clause of one part has one row for each reported token with its first word, in the
/// order in which they were reported. A longer one has no row twice, and one for each reported token
/// that it finds.
pub proof fn law_proximity_table(
    rows: Seq<HighlightRow>,
    field_name: Seq<char>,
    reported: Seq<AnalyzedToken>,
    clause: Seq<Part>,
    t: int,
)
    requires
        proximity_listed(table(rows), field_name, analyzed(reported), clause),
    ensures
        ({
            let shown = rows.map_values(
                |row: HighlightRow|
                    (
                        row.field_name@,
                        row.term@,
                        row.type_@,
                        row.position,
                        row.start_offset,
                        row.end_offset,
                    ),
            );
            &&& clause.len() == 0 || clause[0].words.len() == 0 ==> rows.len() == 0
            &&& clause.len() == 1 && clause[0].words.len() > 0 ==> shown == reported.filter(
                |token: AnalyzedToken| token.token@ == clause[0].words[0],
            ).map_values(
                |token: AnalyzedToken|
                    (
                        field_name,
                        token.token@,
                        token.type_@,
                        token.position,
                        token.start_offset,
                        token.end_offset,
                    ),
            )
            &&& clause.len() >= 2 ==> shown.no_duplicates()
            &&& clause.len() >= 2 && 0 <= t < reported.len() ==> (shown.contains(
                (
                    field_name,
                    reported[t].token@,
                    reported[t].type_@,
                    reported[t].position,
                    reported[t].start_offset,
                    reported[t].end_offset,
                ),
            ) <==> proximity_found(analyzed(reported), clause).contains(analyzed(reported)[t]))
            &&& clause.len() >= 2 && 0 <= t < rows.len() ==> exists|s: int|
                0 <= s < reported.len() && shown[t] == (
                    field_name,
                    (#[trigger] reported[s]).token@,
                    reported[s].type_@,
                    reported[s].position,
                    reported[s].start_offset,
                    reported[s].end_offset,
                )
        }),
{
    let document = analyzed(reported);
    let shown = rows.map_values(
        |row: HighlightRow|
            (
                row.field_name@,
                row.term@,
                row.type_@,
                row.position,
                row.start_offset,
                row.end_offset,
            ),
    );
    let all = table(rows);
    assert(all.len() == rows.len());
    lemma_shown(rows, shown);
    let to_row = |token: Token| row_of(field_name, token);
    if clause.len() == 1 && clause[0].words.len() > 0 {
        let word = clause[0].words[0];
        law_term_table(rows, field_name, reported, word);
        assert((|token: AnalyzedToken| token.token@ == word) =~= (|token: AnalyzedToken|
            token.token@ == clause[0].words[0]));
    }
    if clause.len() >= 2 {
        let found = proximity_found(document, clause);
        law_proximity_rows(all, field_name, document, clause);
        assert(all.no_duplicates());
        if 0 <= t < reported.len() {
            let token = document[t];
            law_row_shows_report(field_name, reported[t]);
            let row = to_row(token);
            assert(all.to_set().contains(row) <==> found.map(to_row).contains(row));
            if found.map(to_row).contains(row) {
                let other = choose|other: Token| #[trigger]
                    found.contains(other) && to_row(other) == row;
                lemma_row_of_injective(field_name, other, token);
            }
            assert(all.contains(row) <==> found.contains(token));
            assert(shown.contains((
                    field_name,
                    reported[t].token@,
                    reported[t].type_@,
                    reported[t].position,
                    reported[t].start_offset,
                    reported[t].end_offset,
                )) <==> found.contains(token));
        }
        if 0 <= t < rows.len() {
            assert(all.to_set().contains(all[t]));
            let token = choose|token: Token| #[trigger]
                found.contains(token) && to_row(token) == all[t];
            law_proximity_from_document(document, clause, token);
            let s = choose|s: int| 0 <= s < document.len() && document[s] == token;
            law_row_shows_report(field_name, reported[s]);
            assert(reported[s]@ == token);
            assert(shown[t] == (
                    field_name,
                    reported[s].token@,
                    reported[s].type_@,
                    reported[s].position,
                    reported[s].start_offset,
                    reported[s].end_offset,
                ));
        }
        assert(shown.no_duplicates());
    }
}

/// A run of the document's tokens is a run of reported tokens.
proof fn lemma_run_indices(reported: Seq<AnalyzedToken>, phrase: Seq<AnalyzedToken>, t: int)
    requires
        0 <= t < reported.len(),
    ensures
        (exists|run: Seq<Token>|
                {
                    &&& #[trigger] run.contains(analyzed(reported)[t])
                    &&& run.len() == phrase.len()
                    &&& forall|i: int|
                        0 <= i < run.len() ==> {
                            &&& analyzed(reported).contains(#[trigger] run[i])
                            &&& run[i].term == phrase[i].token@
                            &&& run[i].position == run[0].position + i
                        }
                }) <==> (exists|run: Seq<int>|
                {
                    &&& #[trigger] run.contains(t)
                    &&& run.len() == phrase.len()
                    &&& forall|i: int|
                        0 <= i < run.len() ==> {
                            &&& 0 <= #[trigger] run[i] < reported.len()
                            &&& reported[run[i]].token@ == phrase[i].token@
                            &&& reported[run[i]].position as u32 == reported[run[0]].position as u32
                                + i
                        }
                }),
{
    let document = analyzed(reported);
    let token = document[t];
    if exists|run: Seq<Token>|
                {
                    &&& #[trigger] run.contains(analyzed(reported)[t])
                    &&& run.len() == phrase.len()
                    &&& forall|i: int|
                        0 <= i < run.len() ==> {
                            &&& analyzed(reported).contains(#[trigger] run[i])
                            &&& run[i].term == phrase[i].token@
                            &&& run[i].position == run[0].position + i
                        }
                } {
        let run = choose|run: Seq<Token>|
                {
                    &&& #[trigger] run.contains(analyzed(reported)[t])
                    &&& run.len() == phrase.len()
                    &&& forall|i: int|
                        0 <= i < run.len() ==> {
                            &&& analyzed(reported).contains(#[trigger] run[i])
                            &&& run[i].term == phrase[i].token@
                            &&& run[i].position == run[0].position + i
                        }
                };
        let k = choose|k: int| 0 <= k < run.len() && run[k] == token;
        let places = Seq::new(
            run.len(),
            |i: int|
                if i == k {
                    t
                } else {
                    choose|s: int| 0 <= s < document.len() && document[s] == run[i]
                },
        );
        assert forall|i: int| 0 <= i < places.len() implies 0 <= #[trigger] places[i]
            < reported.len() && document[places[i]] == run[i] by {
            assert(document.contains(run[i]));
        }
        assert forall|i: int| 0 <= i < places.len() implies 0 <= #[trigger] places[i]
            < reported.len() && reported[places[i]].token@ == phrase[i].token@
            && reported[places[i]].position as u32 == reported[places[0]].position as u32 + i by {
            assert(document[places[i]] == run[i]);
            assert(document[places[0]] == run[0]);
            assert(document[places[i]] == reported[places[i]]@);
            assert(document[places[0]] == reported[places[0]]@);
        }
        assert(places[k] == t);
        assert(places.contains(t));
    }
    if exists|run: Seq<int>|
                {
                    &&& #[trigger] run.contains(t)
                    &&& run.len() == phrase.len()
                    &&& forall|i: int|
                        0 <= i < run.len() ==> {
                            &&& 0 <= #[trigger] run[i] < reported.len()
                            &&& reported[run[i]].token@ == phrase[i].token@
                            &&& reported[run[i]].position as u32 == reported[run[0]].position as u32
                                + i
                        }
                } {
        let places = choose|run: Seq<int>|
                {
                    &&& #[trigger] run.contains(t)
                    &&& run.len() == phrase.len()
                    &&& forall|i: int|
                        0 <= i < run.len() ==> {
                            &&& 0 <= #[trigger] run[i] < reported.len()
                            &&& reported[run[i]].token@ == phrase[i].token@
                            &&& reported[run[i]].position as u32 == reported[run[0]].position as u32
                                + i
                        }
                };
        let k = choose|k: int| 0 <= k < places.len() && places[k] == t;
        let run = Seq::new(places.len(), |i: int| document[places[i]]);
        assert forall|i: int| 0 <= i < run.len() implies document.contains(#[trigger] run[i])
            && run[i].term == phrase[i].token@ && run[i].position == run[0].position + i by {
            let (here, first) = (places[i], places[0]);
            assert(document[here] == reported[here]@);
            assert(document[first] == reported[first]@);
        }
        assert(run[k] == token);
        assert(run.contains(token));
    }
}

/// What the table of a phrase search shows. An empty text, or one without words, has no rows. A phrase
/// of one word has one row for each reported token with that word, in the order in which they were
/// reported. A longer one has no row twice, and one for each reported token that has one of its words
/// and around it all its words, at consecutive positions and in their order.
pub proof fn law_phrase_table(
    rows: Seq<HighlightRow>,
    field_name: Seq<char>,
    reported: Seq<AnalyzedToken>,
    phrase_str: Seq<char>,
    phrase: Seq<AnalyzedToken>,
    t: int,
)
    requires
        phrase_listed(
            table(rows),
            field_name,
            analyzed(reported),
            phrase_str,
            analyzed(phrase),
        ),
    ensures
        ({
            let shown = rows.map_values(
                |row: HighlightRow|
                    (
                        row.field_name@,
                        row.term@,
                        row.type_@,
                        row.position,
                        row.start_offset,
                        row.end_offset,
                    ),
            );
            &&& phrase_str.len() == 0 || phrase.len() == 0 ==> rows.len() == 0
            &&& phrase_str.len() > 0 && phrase.len() == 1 ==> shown == reported.filter(
                |token: AnalyzedToken| token.token@ == phrase[0].token@,
            ).map_values(
                |token: AnalyzedToken|
                    (
                        field_name,
                        token.token@,
                        token.type_@,
                        token.position,
                        token.start_offset,
                        token.end_offset,
                    ),
            )
            &&& phrase.len() >= 2 ==> shown.no_duplicates()
            &&& phrase_str.len() > 0 && phrase.len() >= 2 && 0 <= t < reported.len() ==> (
            shown.contains(
                (
                    field_name,
                    reported[t].token@,
                    reported[t].type_@,
                    reported[t].position,
                    reported[t].start_offset,
                    reported[t].end_offset,
                ),
            ) <==> exists|run: Seq<int>|
                {
                    &&& #[trigger] run.contains(t)
                    &&& run.len() == phrase.len()
                    &&& forall|i: int|
                        0 <= i < run.len() ==> {
                            &&& 0 <= #[trigger] run[i] < reported.len()
                            &&& reported[run[i]].token@ == phrase[i].token@
                            &&& reported[run[i]].position as u32 == reported[run[0]].position as u32
                                + i
                        }
                })
            &&& phrase_str.len() > 0 && phrase.len() >= 2 && 0 <= t < rows.len() ==> exists|s: int|
                0 <= s < reported.len() && shown[t] == (
                    field_name,
                    (#[trigger] reported[s]).token@,
                    reported[s].type_@,
                    reported[s].position,
                    reported[s].start_offset,
                    reported[s].end_offset,
                )
        }),
{
    let document = analyzed(reported);
    let words = analyzed(phrase);
    if phrase_str.len() > 0 && phrase.len() > 0 {
        law_proximity_table(rows, field_name, reported, phrase_clause(words), t);
        assert(phrase_clause(words)[0].words[0] == words[0].term);
        law_phrase_consecutive(document, words);
        if 0 <= t < reported.len() {
            lemma_phrase_run(document, words, document[t]);
            lemma_run_indices(reported, phrase, t);
        }
    }
}

} // verus!
