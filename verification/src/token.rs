//! Tokens: what the analyser reports, what the index stores, and the model of both.

use vstd::prelude::*;

verus! {

/// The mathematical model of one token of a document: its term, and where and as what it occurs.
#[verifier::ext_equal]
pub struct Token {
    pub term: Seq<char>,
    pub type_: Seq<char>,
    pub position: u32,
    pub start_offset: u64,
    pub end_offset: u64,
}

/// One occurrence of a term, as the index stores it. The term itself is the key of the index.
#[derive(Debug, PartialEq, Eq, Hash, Clone)]
pub struct TokenEntry {
    pub type_: String,
    pub position: u32,
    pub start_offset: u64,
    pub end_offset: u64,
}

impl TokenEntry {
    /// The token that this entry stands for when it is stored under `term`.
    pub open spec fn at(self, term: Seq<char>) -> Token {
        Token {
            term,
            type_: self.type_@,
            position: self.position,
            start_offset: self.start_offset,
            end_offset: self.end_offset,
        }
    }

    /// Whether two entries hold the same values.
    pub fn same(&self, other: &TokenEntry) -> (result: bool)
        ensures
            result == (self.type_@ == other.type_@ && self.position == other.position
                && self.start_offset == other.start_offset && self.end_offset == other.end_offset),
    {
        self.type_ == other.type_ && self.position == other.position && self.start_offset
            == other.start_offset && self.end_offset == other.end_offset
    }
}

/// One token as the analyser reports it, with the analyser's signed numbers.
#[derive(Debug, PartialEq, Eq, Clone)]
pub struct AnalyzedToken {
    pub token: String,
    pub type_: String,
    pub position: i32,
    pub start_offset: i64,
    pub end_offset: i64,
}

impl View for AnalyzedToken {
    type V = Token;

    /// The numbers are reinterpreted as unsigned, bit by bit.
    open spec fn view(&self) -> Token {
        Token {
            term: self.token@,
            type_: self.type_@,
            position: self.position as u32,
            start_offset: self.start_offset as u64,
            end_offset: self.end_offset as u64,
        }
    }
}

/// The document that a sequence of reported tokens makes up.
pub open spec fn analyzed(tokens: Seq<AnalyzedToken>) -> Seq<Token> {
    tokens.map_values(|token: AnalyzedToken| token@)
}

/// The tokens that a sequence of highlights stands for.
pub open spec fn highlighted(highlights: Seq<(String, &TokenEntry)>) -> Seq<Token> {
    highlights.map_values(|highlight: (String, &TokenEntry)| highlight.1.at(highlight.0@))
}

/// `result` is how a search reports exactly `tokens`, in this order: `None` where there are none.
pub open spec fn reports(result: Option<Vec<(String, &TokenEntry)>>, tokens: Seq<Token>) -> bool {
    match result {
        Some(highlights) => tokens.len() > 0 && highlighted(highlights@) == tokens,
        None => tokens.len() == 0,
    }
}

/// `result` is how a search reports exactly the set `tokens`, each of them once, in some order:
/// `None` where the set is empty.
pub open spec fn reports_set(
    result: Option<Vec<(String, &TokenEntry)>>,
    tokens: Set<Token>,
) -> bool {
    match result {
        Some(highlights) => {
            &&& highlights.len() > 0
            &&& highlighted(highlights@).no_duplicates()
            &&& highlighted(highlights@).to_set() == tokens
        },
        None => tokens == Set::<Token>::empty(),
    }
}

} // verus!
