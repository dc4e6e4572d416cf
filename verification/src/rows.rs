//! The searches as table functions: from the tokens of a text to one row per highlight.

use crate::document::occurrences;
use crate::document_highlighter::DocumentHighlighter;
use crate::error::HighlightError;
use crate::fuzzy::{fuzzy_found, prefix_allowed};
use crate::pattern::{
    regex_compiles, regex_found, wildcard_found, wildcard_pattern, wildcard_simple,
};
use crate::proximity::{clause, ProximityPart};
use crate::proximity_model::{
    all_occur, chained, phrase_clause, proximity_measurable, proximity_reported, Part,
};
use crate::token::{analyzed, highlighted, AnalyzedToken, Token, TokenEntry};
use vstd::prelude::*;

verus! {

/// One highlight of the field `field_name`.
#[derive(Debug, PartialEq, Eq, Clone)]
pub struct HighlightRow {
    pub field_name: String,
    pub term: String,
    pub type_: String,
    pub position: i32,
    pub start_offset: i64,
    pub end_offset: i64,
}

/// The mathematical model of a [`HighlightRow`].
#[verifier::ext_equal]
pub struct Row {
    pub field_name: Seq<char>,
    pub term: Seq<char>,
    pub type_: Seq<char>,
    pub position: i32,
    pub start_offset: i64,
    pub end_offset: i64,
}

impl View for HighlightRow {
    type V = Row;

    open spec fn view(&self) -> Row {
        Row {
            field_name: self.field_name@,
            term: self.term@,
            type_: self.type_@,
            position: self.position,
            start_offset: self.start_offset,
            end_offset: self.end_offset,
        }
    }
}

/// What a sequence of rows shows.
pub open spec fn table(rows: Seq<HighlightRow>) -> Seq<Row> {
    rows.map_values(|row: HighlightRow| row@)
}

/// The row that shows `token`. The numbers are reinterpreted as signed, bit by bit.
pub open spec fn row_of(field_name: Seq<char>, token: Token) -> Row {
    Row {
        field_name,
        term: token.term,
        type_: token.type_,
        position: token.position as i32,
        start_offset: token.start_offset as i64,
        end_offset: token.end_offset as i64,
    }
}

/// The rows that show `tokens`, in their order.
pub open spec fn rows_of(field_name: Seq<char>, tokens: Seq<Token>) -> Seq<Row> {
    tokens.map_values(|token: Token| row_of(field_name, token))
}

/// `rows` is the table of a proximity search for `clause`; see [`proximity_reported`] for which
/// tokens it shows.
pub open spec fn proximity_listed(
    rows: Seq<Row>,
    field_name: Seq<char>,
    document: Seq<Token>,
    clause: Seq<Part>,
) -> bool {
    if clause.len() == 0 || clause[0].words.len() == 0 {
        rows.len() == 0
    } else if clause.len() == 1 {
        rows == rows_of(field_name, occurrences(document, clause[0].words[0]))
    } else if !all_occur(document, clause[0].words) {
        rows.len() == 0
    } else {
        &&& rows.no_duplicates()
        &&& rows.to_set() == chained(document, clause, clause[0].words).map(
            |token: Token| row_of(field_name, token),
        )
    }
}

/// `rows` is the table of a phrase search for the text `phrase_str`, of which the analyser made
/// `phrase`.
pub open spec fn phrase_listed(
    rows: Seq<Row>,
    field_name: Seq<char>,
    document: Seq<Token>,
    phrase_str: Seq<char>,
    phrase: Seq<Token>,
) -> bool {
    if phrase_str.len() == 0 || phrase.len() == 0 {
        rows.len() == 0
    } else {
        proximity_listed(rows, field_name, document, phrase_clause(phrase))
    }
}

/// Whether no part of a proximity clause is null.
pub open spec fn all_given(parts: Seq<Option<ProximityPart>>) -> bool {
    forall|i: int| 0 <= i < parts.len() ==> #[trigger] parts[i] is Some
}

/// The clause that a sequence of parts makes up when none is null.
pub open spec fn given(parts: Seq<Option<ProximityPart>>) -> Seq<Part> {
    parts.map_values(|part: Option<ProximityPart>| part->0@)
}

/// Different tokens have different rows.
pub proof fn lemma_row_of_injective(field_name: Seq<char>, a: Token, b: Token)
    requires
        row_of(field_name, a) == row_of(field_name, b),
    ensures
        a == b,
{
    let (p, q) = (a.position, b.position);
    assert(p as i32 == q as i32 ==> p == q) by (bit_vector);
    let (p, q) = (a.start_offset, b.start_offset);
    assert(p as i64 == q as i64 ==> p == q) by (bit_vector);
    let (p, q) = (a.end_offset, b.end_offset);
    assert(p as i64 == q as i64 ==> p == q) by (bit_vector);
}

/// The rows of what a proximity search reports are its table.
proof fn lemma_listed(
    result: Option<Vec<(String, &TokenEntry)>>,
    field_name: Seq<char>,
    document: Seq<Token>,
    clause: Seq<Part>,
)
    requires
        proximity_reported(result, document, clause),
    ensures
        proximity_listed(
            match result {
                Some(highlights) => rows_of(field_name, highlighted(highlights@)),
                None => Seq::empty(),
            },
            field_name,
            document,
            clause,
        ),
{
    let to_row = |token: Token| row_of(field_name, token);
    match result {
        Some(highlights) => {
            let tokens = highlighted(highlights@);
            let rows = rows_of(field_name, tokens);
            tokens.lemma_to_set_map_commutes(to_row);
            assert forall|i: int, j: int|
                #![trigger rows[i], rows[j]]
                0 <= i < rows.len() && 0 <= j < rows.len() && rows[i] == rows[j] implies tokens[i]
                == tokens[j] by {
                lemma_row_of_injective(field_name, tokens[i], tokens[j]);
            }
        },
        None => {
            if clause.len() == 1 && clause[0].words.len() > 0 {
                assert(rows_of(field_name, occurrences(document, clause[0].words[0]))
                    =~= Seq::<Row>::empty());
            }
            assert(Set::<Token>::empty().map(to_row) =~= Set::empty());
            assert(Seq::<Row>::empty().to_set() =~= Set::empty());
        },
    }
}

/// The rows of some highlights.
fn to_rows(field_name: &str, highlights: Option<Vec<(String, &TokenEntry)>>) -> (result: Vec<
    HighlightRow,
>)
    ensures
        match highlights {
            Some(highlights) => table(result@) == rows_of(field_name@, highlighted(highlights@)),
            None => table(result@) == Seq::<Row>::empty(),
        },
{
    let mut rows: Vec<HighlightRow> = Vec::new();
    match highlights {
        Some(highlights) => {
            let ghost tokens = highlighted(highlights@);
            let mut i: usize = 0;
            while i < highlights.len()
                invariant
                    i <= highlights.len(),
                    tokens == highlighted(highlights@),
                    rows@.len() == i,
                    forall|j: int| 0 <= j < i ==> #[trigger] rows@[j]@ == row_of(field_name@, tokens[j]),
                decreases highlights.len() - i,
            {
                let entry = highlights[i].1;
                rows.push(
                    HighlightRow {
                        field_name: field_name.to_owned(),
                        term: highlights[i].0.clone(),
                        type_: entry.type_.clone(),
                        position: entry.position as i32,
                        start_offset: entry.start_offset as i64,
                        end_offset: entry.end_offset as i64,
                    },
                );
                i = i + 1;
            }
            assert(table(rows@) =~= rows_of(field_name@, tokens));
        },
        None => {
            assert(table(rows@) =~= Seq::<Row>::empty());
        },
    }
    rows
}

/// The index of the tokens that the analyser made of a text.
fn index<'a>(document: Vec<AnalyzedToken>) -> (result: DocumentHighlighter<'a>)
    ensures
        result@ == analyzed(document@),
{
    let mut highlighter = DocumentHighlighter::new();
    highlighter.analyze_document(document);
    assert(Seq::<Token>::empty() + analyzed(document@) =~= analyzed(document@));
    highlighter
}

/// One row for each occurrence of a term.
pub fn highlight_term(
    field_name: &str,
    document: Vec<AnalyzedToken>,
    token_to_highlight: &str,
) -> (result: Vec<HighlightRow>)
    ensures
        table(result@) == rows_of(
            field_name@,
            occurrences(analyzed(document@), token_to_highlight@),
        ),
{
    let highlighter = index(document);
    to_rows(field_name, highlighter.highlight_token(token_to_highlight))
}

/// One row for each highlight of a phrase search.
pub fn highlight_phrase(
    field_name: &str,
    document: Vec<AnalyzedToken>,
    tokens_to_highlight: &str,
    phrase: Vec<AnalyzedToken>,
) -> (result: Vec<HighlightRow>)
    ensures
        phrase_listed(
            table(result@),
            field_name@,
            analyzed(document@),
            tokens_to_highlight@,
            analyzed(phrase@),
        ),
{
    let ghost terms = analyzed(phrase@);
    let highlighter = index(document);
    let highlights = highlighter.highlight_phrase(tokens_to_highlight, phrase);
    proof {
        if tokens_to_highlight@.len() > 0 && terms.len() > 0 {
            lemma_listed(highlights, field_name@, highlighter@, phrase_clause(terms));
        }
    }
    to_rows(field_name, highlights)
}

/// One row for each occurrence of a term that a wildcard pattern matches.
pub fn highlight_wildcard(
    field_name: &str,
    document: Vec<AnalyzedToken>,
    token_to_highlight: &str,
) -> (result: Result<Vec<HighlightRow>, HighlightError>)
    ensures
        match result {
            Ok(rows) => {
                &&& regex_compiles(wildcard_pattern(token_to_highlight@))
                &&& table(rows@) == rows_of(
                    field_name@,
                    regex_found(analyzed(document@), wildcard_pattern(token_to_highlight@)),
                )
                &&& wildcard_simple(token_to_highlight@) ==> table(rows@) == rows_of(
                    field_name@,
                    wildcard_found(analyzed(document@), token_to_highlight@),
                )
            },
            Err(error) => !regex_compiles(wildcard_pattern(token_to_highlight@)) && error
                == HighlightError::InvalidRegex,
        },
{
    let highlighter = index(document);
    match highlighter.try_highlight_wildcard(token_to_highlight) {
        Ok(highlights) => Ok(to_rows(field_name, highlights)),
        Err(error) => Err(error),
    }
}

/// One row for each occurrence of a term that a regular expression matches.
pub fn highlight_regex(
    field_name: &str,
    document: Vec<AnalyzedToken>,
    token_to_highlight: &str,
) -> (result: Result<Vec<HighlightRow>, HighlightError>)
    ensures
        match result {
            Ok(rows) => {
                &&& regex_compiles(token_to_highlight@)
                &&& table(rows@) == rows_of(
                    field_name@,
                    regex_found(analyzed(document@), token_to_highlight@),
                )
                &&& forall|wildcard: Seq<char>|
                    wildcard_simple(wildcard) && token_to_highlight@ == #[trigger] wildcard_pattern(
                        wildcard,
                    ) ==> table(rows@) == rows_of(
                        field_name@,
                        wildcard_found(analyzed(document@), wildcard),
                    )
            },
            Err(error) => !regex_compiles(token_to_highlight@) && error
                == HighlightError::InvalidRegex,
        },
{
    let highlighter = index(document);
    match highlighter.try_highlight_regex(token_to_highlight) {
        Ok(highlights) => Ok(to_rows(field_name, highlights)),
        Err(error) => Err(error),
    }
}

/// One row for each highlight of a fuzzy search. Negative prefixes are not allowed, nor those that
/// end inside a character.
pub fn highlight_fuzzy(
    field_name: &str,
    document: Vec<AnalyzedToken>,
    token_to_highlight: &str,
    prefix: i32,
) -> (result: Result<Vec<HighlightRow>, HighlightError>)
    ensures
        match result {
            Ok(rows) => {
                &&& prefix >= 0
                &&& prefix_allowed(token_to_highlight@, prefix as int)
                &&& table(rows@) == rows_of(
                    field_name@,
                    fuzzy_found(analyzed(document@), token_to_highlight@, prefix as int),
                )
            },
            Err(HighlightError::NegativePrefix) => prefix < 0,
            Err(error) => {
                &&& prefix >= 0
                &&& !prefix_allowed(token_to_highlight@, prefix as int)
                &&& error == HighlightError::SplitCharacter
            },
        },
{
    if prefix < 0 {
        return Err(HighlightError::NegativePrefix);
    }
    let length: usize = prefix as usize;
    if length < token_to_highlight.as_bytes().len() && !token_to_highlight.is_char_boundary(length) {
        return Err(HighlightError::SplitCharacter);
    }
    let highlighter = index(document);
    Ok(to_rows(field_name, highlighter.highlight_fuzzy(token_to_highlight, length)))
}

/// One row for each highlight of a proximity search. A null part is not allowed, nor a distance
/// that cannot be measured.
pub fn highlight_proximity(
    field_name: &str,
    document: Vec<AnalyzedToken>,
    prox_clause: Vec<Option<ProximityPart>>,
) -> (result: Result<Vec<HighlightRow>, HighlightError>)
    ensures
        match result {
            Ok(rows) => {
                &&& all_given(prox_clause@)
                &&& proximity_measurable(analyzed(document@), given(prox_clause@))
                &&& proximity_listed(
                    table(rows@),
                    field_name@,
                    analyzed(document@),
                    given(prox_clause@),
                )
            },
            Err(HighlightError::MissingPart) => !all_given(prox_clause@),
            Err(error) => {
                &&& all_given(prox_clause@)
                &&& !proximity_measurable(analyzed(document@), given(prox_clause@))
                &&& error == HighlightError::DistanceOverflow
            },
        },
{
    let ghost parts = prox_clause@;
    let mut phrase: Vec<ProximityPart> = Vec::new();
    for part in rest: prox_clause
        invariant
            rest.seq() == parts,
            phrase@.len() == rest.index(),
            forall|i: int| 0 <= i < phrase@.len() ==> #[trigger] parts[i] == Some(phrase@[i]),
    {
        match part {
            Some(part) => {
                phrase.push(part);
            },
            None => {
                assert(parts[rest.index()] is None);
                return Err(HighlightError::MissingPart);
            },
        }
    }
    assert(clause(phrase@) =~= given(parts));
    let highlighter = index(document);
    match highlighter.try_highlight_proximity(&phrase) {
        Ok(highlights) => {
            proof {
                lemma_listed(highlights, field_name@, highlighter@, given(parts));
            }
            Ok(to_rows(field_name, highlights))
        },
        Err(error) => Err(error),
    }
}

} // verus!
