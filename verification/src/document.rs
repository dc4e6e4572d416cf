//! What a document holds, as spec functions over its sequence of tokens.

use crate::token::Token;
use vstd::prelude::*;

verus! {

/// The tokens of `document` with the term `term`, in the document's order.
pub open spec fn occurrences(document: Seq<Token>, term: Seq<char>) -> Seq<Token> {
    document.filter(|token: Token| token.term == term)
}

/// The different terms of `document`, in the order in which they first occur.
pub open spec fn terms(document: Seq<Token>) -> Seq<Seq<char>>
    decreases document.len(),
{
    if document.len() == 0 {
        Seq::empty()
    } else {
        let before = terms(document.drop_last());
        if before.contains(document.last().term) {
            before
        } else {
            before.push(document.last().term)
        }
    }
}

/// The occurrences of those terms of `terms` whose flag is set, one term after the other.
pub open spec fn gathered(
    document: Seq<Token>,
    terms: Seq<Seq<char>>,
    flags: Seq<bool>,
) -> Seq<Token>
    decreases terms.len(),
{
    if terms.len() == 0 {
        Seq::empty()
    } else {
        let before = gathered(document, terms.drop_last(), flags.drop_last());
        if flags.last() {
            before + occurrences(document, terms.last())
        } else {
            before
        }
    }
}

/// The tokens of `document` whose term satisfies `keep`: term after term, in the order in which
/// the terms first occur, and for each term in the document's order.
pub open spec fn selected(document: Seq<Token>, keep: spec_fn(Seq<char>) -> bool) -> Seq<Token> {
    gathered(document, terms(document), terms(document).map_values(keep))
}

/// Adding one token adds one occurrence of its term and none of any other.
pub proof fn lemma_occurrences_push(document: Seq<Token>, token: Token, term: Seq<char>)
    ensures
        occurrences(document.push(token), term) == if token.term == term {
            occurrences(document, term).push(token)
        } else {
            occurrences(document, term)
        },
{
    reveal(Seq::filter);
    assert(document.push(token).drop_last() =~= document);
}

/// Adding one token adds its term behind the others, unless the document had it already.
pub proof fn lemma_terms_push(document: Seq<Token>, token: Token)
    ensures
        terms(document.push(token)) == if terms(document).contains(token.term) {
            terms(document)
        } else {
            terms(document).push(token.term)
        },
{
    assert(document.push(token).drop_last() =~= document);
}

/// A term is listed exactly if it occurs.
pub proof fn lemma_terms_occur(document: Seq<Token>, term: Seq<char>)
    ensures
        terms(document).contains(term) <==> occurrences(document, term).len() > 0,
    decreases document.len(),
{
    if document.len() == 0 {
        reveal(Seq::filter);
    } else {
        let before = document.drop_last();
        let last = document.last();
        assert(before.push(last) =~= document);
        lemma_terms_occur(before, term);
        lemma_occurrences_push(before, last, term);
        lemma_terms_push(before, last);
        if !terms(before).contains(last.term) {
            let all = terms(before).push(last.term);
            assert(all[all.len() - 1] == last.term);
            if terms(before).contains(term) {
                let i = choose|i: int| 0 <= i < terms(before).len() && terms(before)[i] == term;
                assert(all[i] == term);
            }
        }
    }
}

/// The occurrences of a term are the document's tokens with that term.
pub proof fn lemma_occurrences_contain(document: Seq<Token>, term: Seq<char>, token: Token)
    ensures
        occurrences(document, term).contains(token) <==> document.contains(token) && token.term
            == term,
{
    let with_term = |t: Token| t.term == term;
    if occurrences(document, term).contains(token) {
        document.lemma_filter_contains_rev(with_term, token);
        let i = choose|i: int|
            0 <= i < occurrences(document, term).len() && occurrences(document, term)[i] == token;
        document.lemma_filter_pred(with_term, i);
    }
    if document.contains(token) && token.term == term {
        let i = choose|i: int| 0 <= i < document.len() && document[i] == token;
        document.lemma_filter_contains(with_term, i);
    }
}

/// Appending one element adds it to what a sequence contains, and nothing else.
pub(crate) proof fn lemma_push_contains<A>(sequence: Seq<A>, element: A)
    ensures
        forall|a: A| #[trigger]
            sequence.push(element).contains(a) <==> sequence.contains(a) || a == element,
{
    let longer = sequence.push(element);
    assert forall|a: A| #[trigger] longer.contains(a) <==> sequence.contains(a) || a == element by {
        assert(longer[sequence.len() as int] == element);
        if sequence.contains(a) {
            let i = choose|i: int| 0 <= i < sequence.len() && sequence[i] == a;
            assert(longer[i] == a);
        }
    }
}

} // verus!
