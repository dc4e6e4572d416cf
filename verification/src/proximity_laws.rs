//! What holds of proximity and phrase searches as a whole.

use crate::document::{lemma_occurrences_contain, occurrences};
use crate::proximity_model::{
    all_occur, chain_measurable, chained, follow, follow_measurable, in_chain, near, phrase_clause,
    phrase_reported, positions, proximity_measurable, proximity_reported, within, Part,
};
use crate::rows::{phrase_listed, proximity_listed, row_of, Row};
use crate::token::{highlighted, Token, TokenEntry};
use vstd::prelude::*;

verus! {

/// Whether every position of the document is small enough to be read as signed.
pub open spec fn positions_signed(document: Seq<Token>) -> bool {
    forall|token: Token| #[trigger] document.contains(token) ==> token.position <= i32::MAX
}

/// Where the order does not count, being near works in both directions.
pub proof fn law_near_both_ways(a: u32, b: u32, distance: u32)
    ensures
        within(a, b, distance, false) == within(b, a, distance, false),
{
}

/// With positions and distances that are small enough to be read as signed, no proximity search is
/// refused.
pub proof fn law_small_numbers_measurable(document: Seq<Token>, clause: Seq<Part>)
    requires
        positions_signed(document),
        forall|i: int| 0 <= i < clause.len() ==> (#[trigger] clause[i]).distance < i32::MAX,
    ensures
        proximity_measurable(document, clause),
{
    if clause.len() >= 2 {
        assert forall|start: Token| document.contains(start) implies chain_measurable(
            document,
            clause,
            start,
        ) by {
            lemma_small_follow_measurable(
                document,
                clause,
                0,
                Set::empty().insert(start.position),
            );
        }
    }
}

proof fn lemma_small_follow_measurable(
    document: Seq<Token>,
    clause: Seq<Part>,
    k: nat,
    starts: Set<u32>,
)
    requires
        positions_signed(document),
        forall|i: int| 0 <= i < clause.len() ==> (#[trigger] clause[i]).distance < i32::MAX,
        forall|point: u32| #[trigger] starts.contains(point) ==> point <= i32::MAX,
    ensures
        follow_measurable(document, clause, k, starts),
    decreases clause.len() - k,
{
    if k + 1 < clause.len() {
        let part = clause[k as int];
        let found = near(
            document,
            clause[k as int + 1].words,
            part.distance,
            part.in_order,
            starts,
        );
        lemma_small_follow_measurable(document, clause, k + 1, positions(found));
    }
}

/// The set of tokens that a proximity search for `clause` finds.
pub open spec fn proximity_found(document: Seq<Token>, clause: Seq<Part>) -> Set<Token> {
    if clause.len() == 0 || clause[0].words.len() == 0 {
        Set::empty()
    } else if clause.len() == 1 {
        occurrences(document, clause[0].words[0]).to_set()
    } else if !all_occur(document, clause[0].words) {
        Set::empty()
    } else {
        chained(document, clause, clause[0].words)
    }
}

/// What a proximity search answers holds exactly the tokens that it finds, and a clause of two or
/// more parts reports none of them twice.
pub proof fn law_proximity_answer(
    result: Option<Vec<(String, &TokenEntry)>>,
    document: Seq<Token>,
    clause: Seq<Part>,
)
    requires
        proximity_reported(result, document, clause),
    ensures
        match result {
            Some(highlights) => highlighted(highlights@).to_set() == proximity_found(
                document,
                clause,
            ),
            None => proximity_found(document, clause) == Set::<Token>::empty(),
        },
        clause.len() >= 2 && result is Some ==> highlighted(result->0@).no_duplicates(),
{
    if result is None && clause.len() == 1 && clause[0].words.len() > 0 {
        assert(proximity_found(document, clause) =~= Set::empty());
    }
}

/// The table of a proximity search shows exactly the tokens that it finds, and that of a clause of
/// two or more parts has no row twice.
pub proof fn law_proximity_rows(
    rows: Seq<Row>,
    field_name: Seq<char>,
    document: Seq<Token>,
    clause: Seq<Part>,
)
    requires
        proximity_listed(rows, field_name, document, clause),
    ensures
        rows.to_set() == proximity_found(document, clause).map(
            |token: Token| row_of(field_name, token),
        ),
        clause.len() >= 2 ==> rows.no_duplicates(),
{
    let to_row = |token: Token| row_of(field_name, token);
    if rows.len() == 0 {
        assert(rows.to_set() =~= Set::empty());
        assert(Set::<Token>::empty().map(to_row) =~= Set::empty());
    }
    if clause.len() == 1 && clause[0].words.len() > 0 {
        occurrences(document, clause[0].words[0]).lemma_to_set_map_commutes(to_row);
    }
}

/// Whether `term` is a word of one of the parts of `clause` from the part number `k` on.
pub open spec fn has_word(clause: Seq<Part>, k: int, term: Seq<char>) -> bool {
    exists|i: int| k <= i < clause.len() && (#[trigger] clause[i]).words.contains(term)
}

/// A proximity search finds only tokens of the document, and only such as have a word of the
/// clause as their term.
pub proof fn law_proximity_from_document(document: Seq<Token>, clause: Seq<Part>, token: Token)
    requires
        proximity_found(document, clause).contains(token),
    ensures
        document.contains(token),
        has_word(clause, 0, token.term),
{
    if clause.len() == 1 {
        lemma_occurrences_contain(document, clause[0].words[0], token);
        assert(clause[0].words.contains(token.term));
    } else {
        lemma_chained_from_document(document, clause, token);
    }
}

/// A proximity search finds nothing in an empty document.
pub proof fn law_proximity_empty_document(clause: Seq<Part>)
    ensures
        proximity_found(Seq::empty(), clause) == Set::<Token>::empty(),
{
    assert forall|token: Token| !proximity_found(Seq::empty(), clause).contains(token) by {
        if proximity_found(Seq::empty(), clause).contains(token) {
            law_proximity_from_document(Seq::empty(), clause, token);
        }
    }
    assert(proximity_found(Seq::empty(), clause) =~= Set::empty());
}

proof fn lemma_chained_from_document(document: Seq<Token>, clause: Seq<Part>, token: Token)
    requires
        clause.len() > 0,
        chained(document, clause, clause[0].words).contains(token),
    ensures
        document.contains(token),
        has_word(clause, 0, token.term),
{
    let start = choose|start: Token|
        {
            &&& document.contains(start)
            &&& clause[0].words.contains(start.term)
            &&& #[trigger] in_chain(document, clause, start, token)
        };
    if token != start {
        lemma_follow_from_document(
            document,
            clause,
            0,
            Set::empty().insert(start.position),
            token,
        );
        let i = choose|i: int|
            1 <= i < clause.len() && (#[trigger] clause[i]).words.contains(token.term);
        assert(clause[i].words.contains(token.term));
    }
}

proof fn lemma_follow_from_document(
    document: Seq<Token>,
    clause: Seq<Part>,
    k: nat,
    starts: Set<u32>,
    token: Token,
)
    requires
        follow(document, clause, k, starts) is Some,
        follow(document, clause, k, starts)->0.contains(token),
    ensures
        document.contains(token),
        has_word(clause, k as int + 1, token.term),
    decreases clause.len() - k,
{
    if k + 1 < clause.len() {
        let part = clause[k as int];
        let found = near(
            document,
            clause[k as int + 1].words,
            part.distance,
            part.in_order,
            starts,
        );
        if !found.contains(token) {
            lemma_follow_from_document(document, clause, k + 1, positions(found), token);
            let i = choose|i: int|
                k + 2 <= i < clause.len() && (#[trigger] clause[i]).words.contains(token.term);
            assert(clause[i].words.contains(token.term));
        } else {
            assert(clause[k as int + 1].words.contains(token.term));
        }
    }
}

/// A proximity search that finds anything finds something for every part of its clause.
pub proof fn law_every_part_found(
    document: Seq<Token>,
    clause: Seq<Part>,
    token: Token,
    i: int,
)
    requires
        proximity_found(document, clause).contains(token),
        0 <= i < clause.len(),
    ensures
        exists|found: Token| #[trigger]
            proximity_found(document, clause).contains(found) && clause[i].words.contains(
                found.term,
            ),
{
    if clause.len() == 1 {
        lemma_occurrences_contain(document, clause[0].words[0], token);
        assert(clause[0].words.contains(token.term));
    } else {
        let start = choose|start: Token|
            {
                &&& document.contains(start)
                &&& clause[0].words.contains(start.term)
                &&& #[trigger] in_chain(document, clause, start, token)
            };
        let starts = Set::empty().insert(start.position);
        if i == 0 {
            assert(in_chain(document, clause, start, start));
            assert(proximity_found(document, clause).contains(start));
        } else {
            lemma_follow_finds_part(document, clause, 0, starts, i);
            let rest = follow(document, clause, 0, starts)->0;
            let found = choose|found: Token| #[trigger]
                rest.contains(found) && clause[i].words.contains(found.term);
            assert(in_chain(document, clause, start, found));
            assert(proximity_found(document, clause).contains(found));
        }
    }
}

proof fn lemma_follow_finds_part(
    document: Seq<Token>,
    clause: Seq<Part>,
    k: nat,
    starts: Set<u32>,
    i: int,
)
    requires
        follow(document, clause, k, starts) is Some,
        k < i < clause.len(),
    ensures
        exists|found: Token| #[trigger]
            follow(document, clause, k, starts)->0.contains(found) && clause[i].words.contains(
                found.term,
            ),
    decreases clause.len() - k,
{
    let part = clause[k as int];
    let words = clause[k as int + 1].words;
    let found = near(document, words, part.distance, part.in_order, starts);
    let all = follow(document, clause, k, starts)->0;
    if i == k + 1 {
        lemma_nonempty(found);
        let token = choose|token: Token| found.contains(token);
        assert(all.contains(token));
    } else {
        lemma_follow_finds_part(document, clause, k + 1, positions(found), i);
        let rest = follow(document, clause, k + 1, positions(found))->0;
        let token = choose|token: Token| #[trigger]
            rest.contains(token) && clause[i].words.contains(token.term);
        assert(all.contains(token));
    }
}

/// A set that is not empty contains something.
proof fn lemma_nonempty(tokens: Set<Token>)
    requires
        tokens != Set::<Token>::empty(),
    ensures
        exists|token: Token| tokens.contains(token),
{
    if forall|token: Token| !tokens.contains(token) {
        assert(tokens =~= Set::empty());
    }
}

/// Where the order counts everywhere, every token of a chain but its start lies behind the start.
pub proof fn law_ordered_chain_behind_start(
    document: Seq<Token>,
    clause: Seq<Part>,
    start: Token,
    token: Token,
)
    requires
        forall|i: int| 0 <= i < clause.len() ==> (#[trigger] clause[i]).in_order,
        in_chain(document, clause, start, token),
        token != start,
    ensures
        start.position < token.position,
{
    lemma_ordered_follow_behind(
        document,
        clause,
        0,
        Set::empty().insert(start.position),
        start.position,
        token,
    );
}

proof fn lemma_ordered_follow_behind(
    document: Seq<Token>,
    clause: Seq<Part>,
    k: nat,
    starts: Set<u32>,
    bound: u32,
    token: Token,
)
    requires
        forall|i: int| 0 <= i < clause.len() ==> (#[trigger] clause[i]).in_order,
        forall|point: u32| #[trigger] starts.contains(point) ==> bound <= point,
        follow(document, clause, k, starts) is Some,
        follow(document, clause, k, starts)->0.contains(token),
    ensures
        bound < token.position,
    decreases clause.len() - k,
{
    if k + 1 < clause.len() {
        let part = clause[k as int];
        let found = near(
            document,
            clause[k as int + 1].words,
            part.distance,
            part.in_order,
            starts,
        );
        if !found.contains(token) {
            lemma_ordered_follow_behind(
                document,
                clause,
                k + 1,
                positions(found),
                bound,
                token,
            );
        }
    }
}

/// Whether the part `b` asks for no more than `a` does: it has all of its words, at least its
/// distance, and its order only if `a` has it. A part without order reads its numbers as signed,
/// so they have to be small enough where they were not read so before.
pub open spec fn asks_less(document: Seq<Token>, a: Part, b: Part) -> bool {
    &&& forall|word: Seq<char>| #[trigger] a.words.contains(word) ==> b.words.contains(word)
    &&& a.distance <= b.distance
    &&& b.in_order ==> a.in_order
    &&& !b.in_order ==> b.distance <= i32::MAX
    &&& !b.in_order && a.in_order ==> positions_signed(document)
}

/// Dropping the order, allowing more distance or, behind the first part, allowing more words never
/// loses a token that a proximity search finds.
pub proof fn law_asking_less_finds_more(
    document: Seq<Token>,
    a: Seq<Part>,
    b: Seq<Part>,
    token: Token,
)
    requires
        a.len() == b.len(),
        forall|i: int| 0 <= i < a.len() ==> asks_less(document, #[trigger] a[i], b[i]),
        a.len() > 0 ==> a[0].words == b[0].words,
        proximity_found(document, a).contains(token),
    ensures
        proximity_found(document, b).contains(token),
{
    if a.len() >= 2 {
        let start = choose|start: Token|
            {
                &&& document.contains(start)
                &&& a[0].words.contains(start.term)
                &&& #[trigger] in_chain(document, a, start, token)
            };
        let starts = Set::empty().insert(start.position);
        lemma_asking_less_follows(document, a, b, 0, starts, starts);
        assert(in_chain(document, b, start, token));
    }
}

proof fn lemma_asking_less_follows(
    document: Seq<Token>,
    a: Seq<Part>,
    b: Seq<Part>,
    k: nat,
    starts: Set<u32>,
    more: Set<u32>,
)
    requires
        a.len() == b.len(),
        forall|i: int| 0 <= i < a.len() ==> asks_less(document, #[trigger] a[i], b[i]),
        starts.subset_of(more),
        positions_signed(document) ==> forall|point: u32| #[trigger]
            starts.contains(point) ==> point <= i32::MAX,
        follow(document, a, k, starts) is Some,
    ensures
        follow(document, b, k, more) is Some,
        follow(document, a, k, starts)->0.subset_of(follow(document, b, k, more)->0),
    decreases a.len() - k,
{
    if k + 1 < a.len() {
        let (p, q) = (a[k as int], b[k as int]);
        let (v, w) = (a[k as int + 1].words, b[k as int + 1].words);
        let found = near(document, v, p.distance, p.in_order, starts);
        let wider = near(document, w, q.distance, q.in_order, more);
        assert(asks_less(document, p, q));
        assert(asks_less(document, a[k as int + 1], b[k as int + 1]));
        assert forall|token: Token| found.contains(token) implies wider.contains(token) by {
            let point = choose|point: u32| #[trigger]
                starts.contains(point) && within(point, token.position, p.distance, p.in_order);
            assert(more.contains(point));
            assert(within(point, token.position, q.distance, q.in_order));
        }
        assert(found != Set::<Token>::empty());
        lemma_nonempty(found);
        assert(wider != Set::<Token>::empty());
        assert forall|position: u32| positions(found).contains(position) implies positions(
            wider,
        ).contains(position) by {
            let token = choose|token: Token| #[trigger]
                found.contains(token) && token.position == position;
            assert(wider.contains(token));
        }
        lemma_asking_less_follows(document, a, b, k + 1, positions(found), positions(wider));
    }
}

/// Whether `term` occurs at `position`.
pub open spec fn occurs_at(document: Seq<Token>, term: Seq<char>, position: int) -> bool {
    exists|token: Token| #[trigger]
        document.contains(token) && token.term == term && token.position == position
}

/// Whether the terms of `phrase` from the one number `k` on occur at consecutive positions, that
/// one at `position`.
pub open spec fn phrase_at(
    document: Seq<Token>,
    phrase: Seq<Token>,
    k: int,
    position: int,
) -> bool {
    forall|i: int|
        k <= i < phrase.len() ==> occurs_at(document, (#[trigger] phrase[i]).term, position + i - k)
}

/// Whether `token` is one of the terms of `phrase` from the one number `k` on, at its place in a
/// phrase that has that one at `position`.
pub open spec fn in_phrase_at(
    phrase: Seq<Token>,
    k: int,
    position: int,
    token: Token,
) -> bool {
    exists|i: int|
        k <= i < phrase.len() && (#[trigger] phrase[i]).term == token.term && token.position
            == position + i - k
}

/// The tokens of the document that belong to an occurrence of the whole phrase.
pub open spec fn phrase_tokens(document: Seq<Token>, phrase: Seq<Token>) -> Set<Token> {
    Set::new(
        |token: Token|
            document.contains(token) && exists|position: int| #[trigger]
                phrase_at(document, phrase, 0, position) && in_phrase_at(
                    phrase,
                    0,
                    position,
                    token,
                ),
    )
}

/// What [`follow`] finds of a phrase from one position.
proof fn lemma_follow_phrase(document: Seq<Token>, phrase: Seq<Token>, k: nat, position: u32)
    requires
        k < phrase.len(),
    ensures
        match follow(document, phrase_clause(phrase), k, Set::empty().insert(position)) {
            Some(tokens) => {
                &&& phrase_at(document, phrase, k as int + 1, position + 1)
                &&& forall|token: Token| #[trigger]
                    tokens.contains(token) <==> document.contains(token) && in_phrase_at(
                        phrase,
                        k as int + 1,
                        position + 1,
                        token,
                    )
            },
            None => !phrase_at(document, phrase, k as int + 1, position + 1),
        },
    decreases phrase.len() - k,
{
    let clause = phrase_clause(phrase);
    let starts = Set::empty().insert(position);
    if k + 1 < phrase.len() {
        let next = phrase[k as int + 1].term;
        let words = seq![next];
        let found = near(document, words, 0, true, starts);
        assert(clause[k as int + 1].words == words);
        assert(words.contains(next)) by {
            assert(words[0] == next);
        }
        assert forall|token: Token|
            found.contains(token) <==> document.contains(token) && token.term == next
                && token.position == position + 1 by {
            assert(starts.contains(position));
            assert(within(position, token.position, 0, true) <==> token.position == position + 1);
        }
        if found == Set::<Token>::empty() {
            assert(!occurs_at(document, next, position + 1)) by {
                if occurs_at(document, next, position + 1) {
                    let token = choose|token: Token| #[trigger]
                        document.contains(token) && token.term == next && token.position == position
                            + 1;
                    assert(found.contains(token));
                }
            }
            assert(phrase[k as int + 1].term == next);
        } else {
            lemma_nonempty(found);
            let token = choose|token: Token| found.contains(token);
            let after = token.position;
            assert(after == position + 1);
            assert(positions(found) =~= Set::empty().insert(after)) by {
                assert forall|p: u32| positions(found).contains(p) <==> p == after by {
                    assert(found.contains(token));
                }
            }
            assert(occurs_at(document, next, position + 1));
            lemma_follow_phrase(document, phrase, k + 1, after);
            lemma_phrase_step(document, phrase, k as int + 1, position + 1);
        }
    }
}

/// A phrase from one term on is that term and the phrase from the next one on.
proof fn lemma_phrase_step(document: Seq<Token>, phrase: Seq<Token>, k: int, position: int)
    requires
        0 <= k < phrase.len(),
    ensures
        phrase_at(document, phrase, k, position) <==> occurs_at(document, phrase[k].term, position)
            && phrase_at(document, phrase, k + 1, position + 1),
        forall|token: Token| #[trigger]
            in_phrase_at(phrase, k, position, token) <==> {
                ||| token.term == phrase[k].term && token.position == position
                ||| in_phrase_at(phrase, k + 1, position + 1, token)
            },
{
    if phrase_at(document, phrase, k, position) {
        assert(occurs_at(document, phrase[k].term, position + k - k));
        assert forall|i: int| k + 1 <= i < phrase.len() implies occurs_at(
            document,
            (#[trigger] phrase[i]).term,
            position + 1 + i - (k + 1),
        ) by {
            assert(occurs_at(document, phrase[i].term, position + i - k));
        }
    }
    if occurs_at(document, phrase[k].term, position) && phrase_at(
        document,
        phrase,
        k + 1,
        position + 1,
    ) {
        assert forall|i: int| k <= i < phrase.len() implies occurs_at(
            document,
            (#[trigger] phrase[i]).term,
            position + i - k,
        ) by {
            if i > k {
                assert(occurs_at(document, phrase[i].term, position + 1 + i - (k + 1)));
            }
        }
    }
    assert forall|token: Token| #[trigger]
        in_phrase_at(phrase, k, position, token) <==> {
            ||| token.term == phrase[k].term && token.position == position
            ||| in_phrase_at(phrase, k + 1, position + 1, token)
        } by {
        if in_phrase_at(phrase, k, position, token) {
            let i = choose|i: int|
                k <= i < phrase.len() && (#[trigger] phrase[i]).term == token.term && token.position
                    == position + i - k;
            assert(phrase[i].term == token.term);
        }
        if in_phrase_at(phrase, k + 1, position + 1, token) {
            let i = choose|i: int|
                k + 1 <= i < phrase.len() && (#[trigger] phrase[i]).term == token.term
                    && token.position == position + 1 + i - (k + 1);
            assert(phrase[i].term == token.term);
        }
        assert(phrase[k].term == phrase[k].term);
    }
}

/// A phrase search finds exactly the tokens that belong to an occurrence of the whole phrase: its
/// terms at consecutive positions, in their order.
pub proof fn law_phrase_consecutive(document: Seq<Token>, phrase: Seq<Token>)
    requires
        phrase.len() > 0,
    ensures
        proximity_found(document, phrase_clause(phrase)) == phrase_tokens(document, phrase),
{
    let clause = phrase_clause(phrase);
    let words = clause[0].words;
    let first = phrase[0].term;
    assert(words == seq![first]);
    assert(words[0] == first);
    assert forall|token: Token|
        proximity_found(document, clause).contains(token) <==> phrase_tokens(
            document,
            phrase,
        ).contains(token) by {
        lemma_phrase_token(document, phrase, token);
    }
    assert(proximity_found(document, clause) =~= phrase_tokens(document, phrase));
}

proof fn lemma_phrase_token(document: Seq<Token>, phrase: Seq<Token>, token: Token)
    requires
        phrase.len() > 0,
    ensures
        proximity_found(document, phrase_clause(phrase)).contains(token) <==> phrase_tokens(
            document,
            phrase,
        ).contains(token),
{
    let clause = phrase_clause(phrase);
    let words = clause[0].words;
    let first = phrase[0].term;
    assert(words == seq![first]);
    assert(words[0] == first);
    if proximity_found(document, clause).contains(token) {
        let start = if clause.len() == 1 {
            lemma_occurrences_contain(document, first, token);
            token
        } else {
            choose|start: Token|
                {
                    &&& document.contains(start)
                    &&& words.contains(start.term)
                    &&& #[trigger] in_chain(document, clause, start, token)
                }
        };
        let position = start.position;
        lemma_follow_phrase(document, phrase, 0, position);
        lemma_phrase_step(document, phrase, 0, position as int);
        assert(occurs_at(document, first, position as int));
        assert(phrase_at(document, phrase, 0, position as int));
        assert(in_phrase_at(phrase, 0, position as int, token));
    }
    if phrase_tokens(document, phrase).contains(token) {
        let position = choose|position: int| #[trigger]
            phrase_at(document, phrase, 0, position) && in_phrase_at(phrase, 0, position, token);
        lemma_phrase_step(document, phrase, 0, position);
        let start = if token.term == first && token.position == position {
            token
        } else {
            choose|start: Token| #[trigger]
                document.contains(start) && start.term == first && start.position == position
        };
        lemma_follow_phrase(document, phrase, 0, start.position);
        lemma_occurrences_contain(document, first, start);
        assert(occurrences(document, first).len() > 0);
        assert(all_occur(document, words));
        if clause.len() == 1 {
            assert(!in_phrase_at(phrase, 1, position + 1, token));
        } else {
            assert(in_chain(document, clause, start, token));
        }
    }
}

/// What a phrase search answers holds exactly the tokens that belong to an occurrence of the whole
/// phrase, and a phrase of two or more words reports none of them twice.
pub proof fn law_phrase_answer(
    result: Option<Vec<(String, &TokenEntry)>>,
    document: Seq<Token>,
    phrase_str: Seq<char>,
    phrase: Seq<Token>,
)
    requires
        phrase_reported(result, document, phrase_str, phrase),
        phrase_str.len() > 0,
        phrase.len() > 0,
    ensures
        match result {
            Some(highlights) => highlighted(highlights@).to_set() == phrase_tokens(
                document,
                phrase,
            ),
            None => phrase_tokens(document, phrase) == Set::<Token>::empty(),
        },
        phrase.len() >= 2 && result is Some ==> highlighted(result->0@).no_duplicates(),
{
    law_proximity_answer(result, document, phrase_clause(phrase));
    law_phrase_consecutive(document, phrase);
}

/// The table of a phrase search shows exactly the tokens that belong to an occurrence of the whole
/// phrase, and that of a phrase of two or more words has no row twice.
pub proof fn law_phrase_rows(
    rows: Seq<Row>,
    field_name: Seq<char>,
    document: Seq<Token>,
    phrase_str: Seq<char>,
    phrase: Seq<Token>,
)
    requires
        phrase_listed(rows, field_name, document, phrase_str, phrase),
        phrase_str.len() > 0,
        phrase.len() > 0,
    ensures
        rows.to_set() == phrase_tokens(document, phrase).map(
            |token: Token| row_of(field_name, token),
        ),
        phrase.len() >= 2 ==> rows.no_duplicates(),
{
    law_proximity_rows(rows, field_name, document, phrase_clause(phrase));
    law_phrase_consecutive(document, phrase);
}

} // verus!
