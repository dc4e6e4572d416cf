//! Fuzzy searches: terms within a small edit distance of a key.

use crate::document::{occurrences, selected, terms};
use crate::document_highlighter::DocumentHighlighter;
use crate::token::{reports, Token, TokenEntry};
use levenshtein::levenshtein;
use vstd::prelude::*;
use vstd::utf8::{encode_utf8, is_char_boundary};

verus! {

/// The Levenshtein distance: how many insertions, deletions and substitutions of one character it
/// takes to turn `a` into `b`.
pub open spec fn edit_distance(a: Seq<char>, b: Seq<char>) -> nat
    decreases a.len() + b.len(),
{
    if a.len() == 0 {
        b.len()
    } else if b.len() == 0 {
        a.len()
    } else {
        let deletion = edit_distance(a.drop_last(), b) + 1;
        let insertion = edit_distance(a, b.drop_last()) + 1;
        let substitution = edit_distance(a.drop_last(), b.drop_last()) + if a.last() == b.last() {
            0nat
        } else {
            1nat
        };
        let shorter = if deletion < insertion {
            deletion
        } else {
            insertion
        };
        if shorter < substitution {
            shorter
        } else {
            substitution
        }
    }
}

/// `levenshtein::levenshtein` computes the Levenshtein distance of two strings, counted in
/// characters.
pub assume_specification[ levenshtein::levenshtein ](a: &str, b: &str) -> (result: usize)
    ensures
        result == edit_distance(a@, b@),
;

/// Whether `term` is close enough to `key`: equal to a key of up to two bytes, at most one edit away
/// from one of up to five, at most two edits away from a longer one. The distance is compared as an
/// `i32`.
pub open spec fn is_close(term: Seq<char>, key: Seq<char>) -> bool {
    let distance = edit_distance(term, key) as i32;
    if encode_utf8(key).len() < 3 {
        distance == 0
    } else if encode_utf8(key).len() < 6 {
        distance <= 1
    } else {
        distance <= 2
    }
}

/// Whether a fuzzy search for `key` selects `term`: it begins with the first `prefix` bytes of
/// the key and is close to it.
pub open spec fn fuzzy_selects(key: Seq<char>, prefix: int, term: Seq<char>) -> bool {
    encode_utf8(key).take(prefix).is_prefix_of(encode_utf8(term)) && is_close(term, key)
}

/// The tokens that a fuzzy search finds: only the key itself where the prefix covers it.
pub open spec fn fuzzy_found(document: Seq<Token>, key: Seq<char>, prefix: int) -> Seq<Token> {
    if prefix >= encode_utf8(key).len() {
        occurrences(document, key)
    } else {
        selected(document, |term: Seq<char>| fuzzy_selects(key, prefix, term))
    }
}

/// Whether a fuzzy search can cut a prefix of `prefix` bytes off `key`: the prefix covers the key
/// or ends between two characters.
pub open spec fn prefix_allowed(key: Seq<char>, prefix: int) -> bool {
    prefix >= encode_utf8(key).len() || is_char_boundary(encode_utf8(key), prefix)
}

/// Decides [`fuzzy_selects`].
fn selects(key: &str, prefix: usize, term: &str) -> (result: bool)
    requires
        prefix < encode_utf8(key@).len(),
    ensures
        result == fuzzy_selects(key@, prefix as int, term@),
{
    let key_bytes = key.as_bytes();
    let term_bytes = term.as_bytes();
    let ghost start = encode_utf8(key@).take(prefix as int);
    if term_bytes.len() < prefix {
        return false;
    }
    let mut i: usize = 0;
    while i < prefix
        invariant
            i <= prefix,
            prefix < key_bytes@.len(),
            prefix <= term_bytes@.len(),
            key_bytes@ == encode_utf8(key@),
            term_bytes@ == encode_utf8(term@),
            start == encode_utf8(key@).take(prefix as int),
            forall|j: int| 0 <= j < i ==> key_bytes@[j] == #[trigger] term_bytes@[j],
        decreases prefix - i,
    {
        if key_bytes[i] != term_bytes[i] {
            assert(start[i as int] != encode_utf8(term@).take(prefix as int)[i as int]);
            return false;
        }
        i = i + 1;
    }
    assert(start =~= encode_utf8(term@).take(prefix as int));
    let distance: i32 = levenshtein(term, key) as i32;
    if key_bytes.len() < 3 {
        distance == 0
    } else if key_bytes.len() < 6 {
        distance <= 1
    } else {
        distance <= 2
    }
}

impl<'a> DocumentHighlighter<'a> {
    /// The highlights of a fuzzy search: the occurrences of the terms that begin with the first
    /// `prefix` bytes of `fuzzy_key` and are close to it; `None` where there are none.
    pub fn highlight_fuzzy(&'a self, fuzzy_key: &str, prefix: usize) -> (result: Option<
        Vec<(String, &'a TokenEntry)>,
    >)
        requires
            prefix_allowed(fuzzy_key@, prefix as int),
        ensures
            reports(result, fuzzy_found(self@, fuzzy_key@, prefix as int)),
    {
        if prefix >= fuzzy_key.as_bytes().len() {
            return self.highlight_token(fuzzy_key);
        }
        let ghost keep = |term: Seq<char>| fuzzy_selects(fuzzy_key@, prefix as int, term);
        let mut flags: Vec<bool> = Vec::new();
        let mut i: usize = 0;
        while i < self.term_count()
            invariant
                i <= terms(self@).len(),
                prefix < encode_utf8(fuzzy_key@).len(),
                keep == |term: Seq<char>| fuzzy_selects(fuzzy_key@, prefix as int, term),
                flags@ == terms(self@).take(i as int).map_values(keep),
            decreases terms(self@).len() - i,
        {
            flags.push(selects(fuzzy_key, prefix, self.term(i)));
            i = i + 1;
        }
        assert(flags@ =~= terms(self@).map_values(keep));
        self.highlight_flagged(&flags)
    }
}

} // verus!
