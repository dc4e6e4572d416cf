//! Searches for the terms that a regular expression or a wildcard pattern matches.

use crate::document::{selected, terms};
use crate::document_highlighter::DocumentHighlighter;
use crate::error::HighlightError;
use crate::token::{reports, Token, TokenEntry};
use regex::Regex;
use vstd::prelude::*;

verus! {

/// `regex::Regex`, a compiled regular expression.
#[verifier::external_type_specification]
#[verifier::external_body]
pub struct ExRegex(regex::Regex);

/// `regex::Error`, why a regular expression does not compile.
#[verifier::external_type_specification]
#[verifier::external_body]
pub struct ExRegexError(regex::Error);

/// What `regex::Regex::new` makes of a pattern: the compiled expression, or `None` where the
/// pattern is malformed or too large.
pub uninterp spec fn regex_compiled(pattern: Seq<char>) -> Option<Regex>;

/// What `regex::Regex::is_match` answers: whether the expression matches anywhere in `text`.
pub uninterp spec fn regex_is_match(regex: Regex, text: Seq<char>) -> bool;

/// `regex::Regex::new` compiles a pattern or rejects it; on a given target, which of the two, and
/// what comes out, depends on the pattern alone. Which patterns are malformed, or too large once
/// compiled (a limit in bytes), is not stated.
pub assume_specification[ Regex::new ](re: &str) -> (result: Result<Regex, regex::Error>)
    ensures
        match result {
            Ok(regex) => regex_compiled(re@) == Some(regex),
            Err(_) => regex_compiled(re@) is None,
        },
;

/// `regex::Regex::is_match` searches a text, and what it answers depends on the expression and the
/// text alone. An expression that a simple wildcard pattern stands for matches as the syntax of that
/// crate says: `^` and `$` are the beginning and the end of the text, `.` is any character except a
/// new line, `.*` any number of them, and a character that is not special is itself. Which texts any
/// other expression matches is not stated.
pub assume_specification[ Regex::is_match ](regex: &Regex, haystack: &str) -> (result: bool)
    ensures
        result == regex_is_match(*regex, haystack@),
        forall|wildcard: Seq<char>|
            wildcard_simple(wildcard) && regex_compiled(#[trigger] wildcard_pattern(wildcard)) == Some(
                *regex,
            ) ==> result == wildcard_matches(wildcard, haystack@),
;

/// `String::push` appends one character.
pub assume_specification[ String::push ](string: &mut String, c: char)
    ensures
        final(string)@ == old(string)@.push(c),
;

/// Whether `pattern` is a regular expression that compiles.
pub open spec fn regex_compiles(pattern: Seq<char>) -> bool {
    regex_compiled(pattern) is Some
}

/// Whether the regular expression `pattern` matches somewhere in `text`.
pub open spec fn regex_matches(pattern: Seq<char>, text: Seq<char>) -> bool {
    match regex_compiled(pattern) {
        Some(regex) => regex_is_match(regex, text),
        None => false,
    }
}

/// The tokens whose term the regular expression `pattern` matches.
pub open spec fn regex_found(document: Seq<Token>, pattern: Seq<char>) -> Seq<Token> {
    selected(document, |term: Seq<char>| regex_matches(pattern, term))
}

/// What one character of a wildcard pattern becomes in a regular expression: `?` becomes `.`, `*`
/// becomes `.*`, and everything else stays.
pub open spec fn wildcard_piece(c: char) -> Seq<char> {
    if c == '?' {
        seq!['.']
    } else if c == '*' {
        seq!['.', '*']
    } else {
        seq![c]
    }
}

/// The pieces of a wildcard pattern, one behind the other.
pub open spec fn wildcard_pieces(wildcard: Seq<char>) -> Seq<char>
    decreases wildcard.len(),
{
    if wildcard.len() == 0 {
        Seq::empty()
    } else {
        wildcard_pieces(wildcard.drop_last()) + wildcard_piece(wildcard.last())
    }
}

/// The regular expression of a wildcard pattern: its pieces between the anchors `^` and `$`.
pub open spec fn wildcard_pattern(wildcard: Seq<char>) -> Seq<char> {
    seq!['^'] + wildcard_pieces(wildcard) + seq!['$']
}

/// Whether `c` can mean something else than itself in a regular expression, outside of brackets.
pub open spec fn is_special(c: char) -> bool {
    ||| c == '\\' || c == '.' || c == '^' || c == '$'
    ||| c == '?' || c == '*' || c == '+' || c == '{'
    ||| c == '(' || c == ')' || c == '|' || c == '['
}

/// Whether every character of `word` means itself.
pub open spec fn is_plain(word: Seq<char>) -> bool {
    forall|i: int| 0 <= i < word.len() ==> !is_special(#[trigger] word[i])
}

/// Whether every character of a wildcard pattern means itself, but for the wildcards.
pub open spec fn wildcard_simple(wildcard: Seq<char>) -> bool {
    forall|i: int|
        0 <= i < wildcard.len() ==> {
            ||| #[trigger] wildcard[i] == '?'
            ||| wildcard[i] == '*'
            ||| !is_special(wildcard[i])
        }
}

/// Whether a wildcard pattern matches the whole of `text`: `?` stands for one character, `*` for any
/// number of them, none of which is a new line, and everything else for itself.
pub open spec fn wildcard_matches(wildcard: Seq<char>, text: Seq<char>) -> bool
    decreases wildcard.len(), text.len(),
{
    if wildcard.len() == 0 {
        text.len() == 0
    } else if wildcard.last() == '*' {
        ||| wildcard_matches(wildcard.drop_last(), text)
        ||| text.len() > 0 && text.last() != '\n' && wildcard_matches(wildcard, text.drop_last())
    } else {
        &&& text.len() > 0
        &&& if wildcard.last() == '?' {
            text.last() != '\n'
        } else {
            text.last() == wildcard.last()
        }
        &&& wildcard_matches(wildcard.drop_last(), text.drop_last())
    }
}

/// The tokens whose term a wildcard pattern matches.
pub open spec fn wildcard_found(document: Seq<Token>, wildcard: Seq<char>) -> Seq<Token> {
    selected(document, |term: Seq<char>| wildcard_matches(wildcard, term))
}

/// Writes the regular expression of a wildcard pattern.
pub fn wildcard_to_regex(token: &str) -> (result: String)
    ensures
        result@ == wildcard_pattern(token@),
{
    let mut new_regex: String = String::new();
    new_regex.push('^');
    let ghost wildcard = token@;
    assert(new_regex@ =~= seq!['^'] + wildcard_pieces(wildcard.take(0)));
    for c in rest: token.chars()
        invariant
            rest.seq() == wildcard,
            new_regex@ == seq!['^'] + wildcard_pieces(wildcard.take(rest.index())),
    {
        let ghost before = new_regex@;
        if c == '?' {
            new_regex.push('.');
        } else if c == '*' {
            new_regex.push('.');
            new_regex.push(c);
        } else {
            new_regex.push(c);
        }
        proof {
            let longer = wildcard.take(rest.index() + 1);
            assert(longer.drop_last() =~= wildcard.take(rest.index()));
            assert(new_regex@ =~= before + wildcard_piece(c));
            assert(new_regex@ =~= seq!['^'] + wildcard_pieces(longer));
        }
    }
    assert(wildcard.take(wildcard.len() as int) =~= wildcard);
    new_regex.push('$');
    assert(new_regex@ =~= wildcard_pattern(wildcard));
    new_regex
}

impl<'a> DocumentHighlighter<'a> {
    /// The occurrences of the terms that a regular expression matches; `None` where it matches
    /// none. Where a simple wildcard pattern stands for it, those are the terms that the wildcard
    /// pattern matches.
    pub fn highlight_regex(&'a self, regex: &str) -> (result: Option<Vec<(String, &'a TokenEntry)>>)
        requires
            regex_compiles(regex@),
        ensures
            reports(result, regex_found(self@, regex@)),
            forall|wildcard: Seq<char>|
                wildcard_simple(wildcard) && regex@ == #[trigger] wildcard_pattern(wildcard)
                    ==> reports(result, wildcard_found(self@, wildcard)),
    {
        let ghost pattern = regex@;
        match Regex::new(regex) {
            Ok(regex) => {
                let ghost keep = |term: Seq<char>| regex_matches(pattern, term);
                let mut flags: Vec<bool> = Vec::new();
                let mut i: usize = 0;
                while i < self.term_count()
                    invariant
                        i <= terms(self@).len(),
                        regex_compiled(pattern) == Some(regex),
                        keep == |term: Seq<char>| regex_matches(pattern, term),
                        flags@ == terms(self@).take(i as int).map_values(keep),
                        forall|wildcard: Seq<char>, j: int|
                            #![trigger wildcard_pattern(wildcard), flags@[j]]
                            wildcard_simple(wildcard) && pattern == wildcard_pattern(wildcard) && 0
                                <= j < i ==> flags@[j] == wildcard_matches(
                                wildcard,
                                terms(self@)[j],
                            ),
                    decreases terms(self@).len() - i,
                {
                    flags.push(regex.is_match(self.term(i)));
                    i = i + 1;
                }
                assert(flags@ =~= terms(self@).map_values(keep));
                let result = self.highlight_flagged(&flags);
                assert forall|wildcard: Seq<char>|
                    wildcard_simple(wildcard) && pattern == #[trigger] wildcard_pattern(
                        wildcard,
                    ) implies reports(result, wildcard_found(self@, wildcard)) by {
                    let matched = |term: Seq<char>| wildcard_matches(wildcard, term);
                    assert(flags@ =~= terms(self@).map_values(matched));
                }
                result
            },
            Err(_) => None,
        }
    }

    /// As [`highlight_regex`](Self::highlight_regex), for any string: refused where it does not
    /// compile.
    pub fn try_highlight_regex(&'a self, regex: &str) -> (result: Result<
        Option<Vec<(String, &'a TokenEntry)>>,
        HighlightError,
    >)
        ensures
            match result {
                Ok(found) => {
                    &&& regex_compiles(regex@)
                    &&& reports(found, regex_found(self@, regex@))
                    &&& forall|wildcard: Seq<char>|
                        wildcard_simple(wildcard) && regex@ == #[trigger] wildcard_pattern(wildcard)
                            ==> reports(found, wildcard_found(self@, wildcard))
                },
                Err(error) => !regex_compiles(regex@) && error == HighlightError::InvalidRegex,
            },
    {
        match Regex::new(regex) {
            Ok(_) => Ok(self.highlight_regex(regex)),
            Err(_) => Err(HighlightError::InvalidRegex),
        }
    }

    /// The occurrences of the terms that the regular expression of a wildcard pattern matches;
    /// `None` where it matches none. Those are the terms that the wildcard pattern itself matches,
    /// if it is simple.
    pub fn highlight_wildcard(&'a self, token: &str) -> (result: Option<
        Vec<(String, &'a TokenEntry)>,
    >)
        requires
            regex_compiles(wildcard_pattern(token@)),
        ensures
            reports(result, regex_found(self@, wildcard_pattern(token@))),
            wildcard_simple(token@) ==> reports(result, wildcard_found(self@, token@)),
    {
        let new_regex = wildcard_to_regex(token);
        self.highlight_regex(new_regex.as_str())
    }

    /// As [`highlight_wildcard`](Self::highlight_wildcard), for any string: refused where its
    /// regular expression does not compile.
    pub fn try_highlight_wildcard(&'a self, token: &str) -> (result: Result<
        Option<Vec<(String, &'a TokenEntry)>>,
        HighlightError,
    >)
        ensures
            match result {
                Ok(found) => {
                    &&& regex_compiles(wildcard_pattern(token@))
                    &&& reports(found, regex_found(self@, wildcard_pattern(token@)))
                    &&& wildcard_simple(token@) ==> reports(found, wildcard_found(self@, token@))
                },
                Err(error) => !regex_compiles(wildcard_pattern(token@)) && error
                    == HighlightError::InvalidRegex,
            },
    {
        let new_regex = wildcard_to_regex(token);
        match Regex::new(new_regex.as_str()) {
            Ok(_) => Ok(self.highlight_wildcard(token)),
            Err(_) => Err(HighlightError::InvalidRegex),
        }
    }
}

} // verus!
