//! The index of a document, and the searches that look whole terms up in it.

use crate::document::{
    gathered, lemma_occurrences_push, lemma_terms_occur, lemma_terms_push, occurrences, terms,
};
use crate::token::{analyzed, highlighted, reports, AnalyzedToken, Token, TokenEntry};
use std::marker::PhantomData;
use vstd::hash_map::StringHashMap;
use vstd::prelude::*;

verus! {

/// A term of the document and its occurrences.
struct Posting {
    term: String,
    entries: Vec<TokenEntry>,
}

impl Posting {
    spec fn tokens(self) -> Seq<Token> {
        self.entries@.map_values(|entry: TokenEntry| entry.at(self.term@))
    }
}

/// The postings of a document in the order in which their terms first occur, and for each term
/// the place of its posting.
struct Index {
    slots: StringHashMap<usize>,
    postings: Vec<Posting>,
    document: Ghost<Seq<Token>>,
}

impl Index {
    /// Every term has one posting, which holds its occurrences, and one slot, which leads there.
    spec fn wf(self) -> bool {
        let all = terms(self.document@);
        &&& self.postings@.len() == all.len()
        &&& forall|i: int|
            #![trigger self.postings@[i]]
            0 <= i < self.postings@.len() ==> {
                &&& self.postings@[i].term@ == all[i]
                &&& self.postings@[i].tokens() == occurrences(self.document@, all[i])
                &&& self.slots@.contains_key(all[i])
                &&& self.slots@[all[i]] == i
            }
        &&& forall|term: Seq<char>| #[trigger]
            self.slots@.contains_key(term) ==> self.slots@[term] < self.postings@.len()
                && all[self.slots@[term] as int] == term
    }

    fn new() -> (result: Self)
        ensures
            result.wf(),
            result.document@ == Seq::<Token>::empty(),
    {
        Index {
            slots: StringHashMap::with_capacity(150),
            postings: Vec::new(),
            document: Ghost(Seq::empty()),
        }
    }

    /// Adds one token behind the others.
    fn add(&mut self, token: AnalyzedToken)
        requires
            old(self).wf(),
        ensures
            final(self).wf(),
            final(self).document@ == old(self).document@.push(token@),
    {
        let ghost before = self.document@;
        let ghost added = token@;
        let entry = TokenEntry {
            type_: token.type_,
            position: token.position as u32,
            start_offset: token.start_offset as u64,
            end_offset: token.end_offset as u64,
        };
        let known: Option<usize> = match self.slots.get(token.token.as_str()) {
            Some(slot) => Some(*slot),
            None => None,
        };
        let slot: usize = match known {
            Some(slot) => slot,
            None => {
                let slot: usize = self.postings.len();
                self.slots.insert(token.token.clone(), slot);
                self.postings.push(Posting { term: token.token, entries: Vec::with_capacity(5) });
                slot
            },
        };
        let ghost placed = self.postings@;
        self.postings[slot].entries.push(entry);
        self.document = Ghost(before.push(added));
        proof {
            let after = self.document@;
            lemma_terms_push(before, added);
            lemma_terms_occur(before, added.term);
            if known is None {
                assert(!terms(before).contains(added.term)) by {
                    assert forall|i: int| 0 <= i < terms(before).len() implies terms(before)[i]
                        != added.term by {
                        let _ = old(self).postings@[i];
                    }
                }
                assert(occurrences(before, added.term) =~= Seq::empty());
            } else {
                assert(terms(before)[slot as int] == added.term);
            }
            assert(terms(after)[slot as int] == added.term);
            assert forall|i: int|
                #![trigger self.postings@[i]]
                0 <= i < self.postings@.len() implies {
                &&& self.postings@[i].term@ == terms(after)[i]
                &&& self.postings@[i].tokens() == occurrences(after, terms(after)[i])
                &&& self.slots@.contains_key(terms(after)[i])
                &&& self.slots@[terms(after)[i]] == i
            } by {
                let _ = old(self).postings@[i];
                lemma_occurrences_push(before, added, terms(after)[i]);
                assert(placed[i].tokens() =~= occurrences(before, terms(after)[i]));
                if i == slot {
                    assert(self.postings@[i].tokens() =~= placed[i].tokens().push(added));
                } else {
                    assert(self.postings@[i] == placed[i]);
                }
            }
        }
    }
}

/// The index of one document, which answers searches for the tokens to highlight.
pub struct DocumentHighlighter<'a> {
    index: Index,
    __marker: PhantomData<&'a TokenEntry>,
}

impl<'a> View for DocumentHighlighter<'a> {
    type V = Seq<Token>;

    /// The document: every token that was analysed so far, in order.
    closed spec fn view(&self) -> Seq<Token> {
        self.index.document@
    }
}

impl<'a> DocumentHighlighter<'a> {
    #[verifier::type_invariant]
    spec fn wf(self) -> bool {
        self.index.wf()
    }

    /// An empty document.
    pub fn new() -> (result: Self)
        ensures
            result@ == Seq::<Token>::empty(),
    {
        DocumentHighlighter { index: Index::new(), __marker: PhantomData }
    }

    /// Adds the tokens that the analyser reported for a text, behind those that are there.
    pub fn analyze_document(&mut self, tokens: Vec<AnalyzedToken>)
        ensures
            final(self)@ == old(self)@ + analyzed(tokens@),
    {
        proof {
            use_type_invariant(&*self);
        }
        let ghost before = self@;
        let ghost reported = tokens@;
        let mut index = Index::new();
        std::mem::swap(&mut self.index, &mut index);
        assert(before + analyzed(reported.take(0)) =~= before);
        for token in rest: tokens
            invariant
                index.wf(),
                rest.seq() == reported,
                index.document@ == before + analyzed(reported.take(rest.index())),
        {
            proof {
                let done = reported.take(rest.index());
                assert(reported.take(rest.index() + 1) =~= done.push(token));
                assert(analyzed(done.push(token)) =~= analyzed(done).push(token@));
                assert(before + analyzed(done).push(token@) =~= (before + analyzed(done)).push(
                    token@,
                ));
            }
            index.add(token);
        }
        assert(reported.take(reported.len() as int) =~= reported);
        self.index = index;
    }

    /// How many different terms the document has.
    pub fn term_count(&self) -> (result: usize)
        ensures
            result == terms(self@).len(),
    {
        proof {
            use_type_invariant(self);
        }
        self.index.postings.len()
    }

    /// The term number `i`, in the order in which the terms first occur.
    pub fn term(&self, i: usize) -> (result: &str)
        requires
            i < terms(self@).len(),
        ensures
            result@ == terms(self@)[i as int],
    {
        proof {
            use_type_invariant(self);
        }
        self.index.postings[i].term.as_str()
    }

    /// Appends the occurrences of the term number `i` to `highlights`.
    fn push_occurrences(&'a self, i: usize, highlights: &mut Vec<(String, &'a TokenEntry)>)
        requires
            i < terms(self@).len(),
        ensures
            highlighted(final(highlights)@) == highlighted(old(highlights)@) + occurrences(
                self@,
                terms(self@)[i as int],
            ),
    {
        proof {
            use_type_invariant(self);
        }
        let posting = &self.index.postings[i];
        let ghost before = highlighted(highlights@);
        assert(before + posting.tokens().take(0) =~= before);
        let mut j: usize = 0;
        while j < posting.entries.len()
            invariant
                j <= posting.entries.len(),
                highlighted(highlights@) == before + posting.tokens().take(j as int),
            decreases posting.entries.len() - j,
        {
            let ghost done = highlights@;
            let entry = &posting.entries[j];
            highlights.push((posting.term.clone(), entry));
            proof {
                let token = entry.at(posting.term@);
                assert(highlighted(highlights@) =~= highlighted(done).push(token));
                assert(posting.tokens().take(j + 1) =~= posting.tokens().take(j as int).push(token));
            }
            j = j + 1;
        }
        assert(posting.tokens().take(j as int) =~= posting.tokens());
    }

    /// The occurrences of one term, in the document's order; `None` where it does not occur.
    pub fn highlight_token(&'a self, token: &str) -> (result: Option<Vec<(String, &'a TokenEntry)>>)
        ensures
            reports(result, occurrences(self@, token@)),
    {
        proof {
            use_type_invariant(self);
            lemma_terms_occur(self@, token@);
        }
        match self.index.slots.get(token) {
            Some(slot) => {
                let mut highlights: Vec<(String, &'a TokenEntry)> = Vec::new();
                self.push_occurrences(*slot, &mut highlights);
                proof {
                    assert(terms(self@).contains(token@));
                    assert(highlighted(Seq::empty()) + occurrences(self@, token@)
                        =~= occurrences(self@, token@));
                }
                Some(highlights)
            },
            None => {
                proof {
                    assert forall|i: int| 0 <= i < terms(self@).len() implies terms(self@)[i]
                        != token@ by {
                        let _ = self.index.postings@[i];
                    }
                }
                None
            },
        }
    }

    /// The occurrences of the terms that `flags` marks, term after term; `None` where no term is
    /// marked.
    pub fn highlight_flagged(&'a self, flags: &Vec<bool>) -> (result: Option<
        Vec<(String, &'a TokenEntry)>,
    >)
        requires
            flags@.len() == terms(self@).len(),
        ensures
            reports(result, gathered(self@, terms(self@), flags@)),
    {
        let mut highlights: Vec<(String, &'a TokenEntry)> = Vec::new();
        let ghost all = terms(self@);
        assert(highlighted(highlights@) =~= gathered(self@, all.take(0), flags@.take(0)));
        let mut i: usize = 0;
        while i < flags.len()
            invariant
                i <= flags.len(),
                all == terms(self@),
                flags@.len() == all.len(),
                highlighted(highlights@) == gathered(
                    self@,
                    all.take(i as int),
                    flags@.take(i as int),
                ),
            decreases flags.len() - i,
        {
            proof {
                assert(all.take(i + 1).drop_last() =~= all.take(i as int));
                assert(flags@.take(i + 1).drop_last() =~= flags@.take(i as int));
            }
            if flags[i] {
                self.push_occurrences(i, &mut highlights);
            }
            i = i + 1;
        }
        proof {
            assert(all.take(i as int) =~= all);
            assert(flags@.take(i as int) =~= flags@);
        }
        if highlights.is_empty() {
            None
        } else {
            Some(highlights)
        }
    }
}

} // verus!
