//! Which tokens a proximity clause or a phrase finds, as spec functions over the document.

use crate::document::{lemma_occurrences_contain, occurrences};
use crate::token::{reports, reports_set, Token, TokenEntry};
use vstd::prelude::*;

verus! {

/// The mathematical model of a [`ProximityPart`](crate::proximity::ProximityPart).
#[verifier::ext_equal]
pub struct Part {
    pub words: Seq<Seq<char>>,
    pub distance: u32,
    pub in_order: bool,
}

/// Whether a token at `position` is near one at `point`: at most `distance` other positions lie
/// between them, and behind it where the order counts. Where it does not, the three numbers are
/// read as signed.
pub open spec fn within(point: u32, position: u32, distance: u32, in_order: bool) -> bool {
    if in_order {
        point < position && position - point <= distance + 1
    } else {
        let reach = distance as i32 + 1;
        -reach <= point as i32 - position as i32 <= reach
    }
}

/// Whether the numbers that [`within`] compares fit their types: unsigned where the order counts,
/// signed where it does not.
pub open spec fn measurable(point: u32, position: u32, distance: u32, in_order: bool) -> bool {
    if in_order {
        point < position ==> distance < u32::MAX
    } else {
        &&& i32::MIN < point as i32 - position as i32 <= i32::MAX
        &&& (distance as i32) < i32::MAX
    }
}

/// Whether some position of `starts` is near `position`.
pub open spec fn reached(
    starts: Set<u32>,
    position: u32,
    distance: u32,
    in_order: bool,
) -> bool {
    exists|point: u32| #[trigger]
        starts.contains(point) && within(point, position, distance, in_order)
}

/// Whether the distance of every position of `starts` to `position` can be measured.
pub open spec fn all_measurable(
    starts: Set<u32>,
    position: u32,
    distance: u32,
    in_order: bool,
) -> bool {
    forall|point: u32| #[trigger]
        starts.contains(point) ==> measurable(point, position, distance, in_order)
}

/// The tokens of `document` with one of `words` as their term that are near some position of
/// `starts`.
pub open spec fn near(
    document: Seq<Token>,
    words: Seq<Seq<char>>,
    distance: u32,
    in_order: bool,
    starts: Set<u32>,
) -> Set<Token> {
    Set::new(
        |token: Token|
            {
                &&& document.contains(token)
                &&& words.contains(token.term)
                &&& reached(starts, token.position, distance, in_order)
            },
    )
}

/// Whether every distance that decides about [`near`] can be measured.
pub open spec fn near_measurable(
    document: Seq<Token>,
    words: Seq<Seq<char>>,
    distance: u32,
    in_order: bool,
    starts: Set<u32>,
) -> bool {
    forall|token: Token| #[trigger]
        document.contains(token) && words.contains(token.term) ==> all_measurable(
            starts,
            token.position,
            distance,
            in_order,
        )
}

/// The positions at which `tokens` occur.
pub open spec fn positions(tokens: Set<Token>) -> Set<u32> {
    Set::new(|position: u32| exists|token: Token| #[trigger]
        tokens.contains(token) && token.position == position)
}

/// The tokens that the parts of `clause` behind the part number `k` find one after the other, from
/// the positions `starts` of the part number `k`; `None` where one of them finds nothing.
pub open spec fn follow(
    document: Seq<Token>,
    clause: Seq<Part>,
    k: nat,
    starts: Set<u32>,
) -> Option<Set<Token>>
    decreases clause.len() - k,
{
    if k + 1 >= clause.len() {
        Some(Set::empty())
    } else {
        let part = clause[k as int];
        let found = near(document, clause[k as int + 1].words, part.distance, part.in_order, starts);
        if found == Set::<Token>::empty() {
            None
        } else {
            match follow(document, clause, k + 1, positions(found)) {
                Some(rest) => Some(found.union(rest)),
                None => None,
            }
        }
    }
}

/// Whether every distance that decides about [`follow`] can be measured.
pub open spec fn follow_measurable(
    document: Seq<Token>,
    clause: Seq<Part>,
    k: nat,
    starts: Set<u32>,
) -> bool
    decreases clause.len() - k,
{
    k + 1 >= clause.len() || {
        let part = clause[k as int];
        let words = clause[k as int + 1].words;
        let found = near(document, words, part.distance, part.in_order, starts);
        &&& near_measurable(document, words, part.distance, part.in_order, starts)
        &&& found != Set::<Token>::empty() ==> follow_measurable(
            document,
            clause,
            k + 1,
            positions(found),
        )
    }
}

/// The tokens of the chain that starts with `start`, which itself is one of them; `None` where the
/// chain breaks off.
pub open spec fn chain(document: Seq<Token>, clause: Seq<Part>, start: Token) -> Option<Set<Token>> {
    match follow(document, clause, 0, Set::empty().insert(start.position)) {
        Some(rest) => Some(rest.insert(start)),
        None => None,
    }
}

/// Whether every distance that decides about [`chain`] can be measured.
pub open spec fn chain_measurable(document: Seq<Token>, clause: Seq<Part>, start: Token) -> bool {
    follow_measurable(document, clause, 0, Set::empty().insert(start.position))
}

/// Whether `token` belongs to the chain that starts with `start`.
pub open spec fn in_chain(
    document: Seq<Token>,
    clause: Seq<Part>,
    start: Token,
    token: Token,
) -> bool {
    match chain(document, clause, start) {
        Some(tokens) => tokens.contains(token),
        None => false,
    }
}

/// The tokens of all chains that start with an occurrence of one of `words`.
pub open spec fn chained(
    document: Seq<Token>,
    clause: Seq<Part>,
    words: Seq<Seq<char>>,
) -> Set<Token> {
    Set::new(
        |token: Token|
            exists|start: Token|
                {
                    &&& document.contains(start)
                    &&& words.contains(start.term)
                    &&& #[trigger] in_chain(document, clause, start, token)
                },
    )
}

/// Whether every one of `words` occurs.
pub open spec fn all_occur(document: Seq<Token>, words: Seq<Seq<char>>) -> bool {
    forall|i: int| 0 <= i < words.len() ==> occurrences(document, #[trigger] words[i]).len() > 0
}

/// Whether every chain that starts with an occurrence of one of `words` can be measured, up to the
/// first word that does not occur.
pub open spec fn chains_measurable(
    document: Seq<Token>,
    clause: Seq<Part>,
    words: Seq<Seq<char>>,
) -> bool {
    forall|i: int, start: Token|
        #![trigger words[i], document.contains(start)]
        0 <= i < words.len() && all_occur(document, words.take(i)) && document.contains(start)
            && start.term == words[i] ==> chain_measurable(document, clause, start)
}

/// Whether every distance that decides about a proximity search for `clause` can be measured.
pub open spec fn proximity_measurable(document: Seq<Token>, clause: Seq<Part>) -> bool {
    clause.len() >= 2 ==> chains_measurable(document, clause, clause[0].words)
}

/// `result` is what a proximity search for `clause` answers. A clause of one part finds the
/// occurrences of its first word; a longer one the tokens of all its chains, and nothing if one of
/// the words that a chain may start with does not occur.
pub open spec fn proximity_reported(
    result: Option<Vec<(String, &TokenEntry)>>,
    document: Seq<Token>,
    clause: Seq<Part>,
) -> bool {
    if clause.len() == 0 || clause[0].words.len() == 0 {
        result is None
    } else if clause.len() == 1 {
        reports(result, occurrences(document, clause[0].words[0]))
    } else if !all_occur(document, clause[0].words) {
        result is None
    } else {
        reports_set(result, chained(document, clause, clause[0].words))
    }
}

/// What the first word number `i` adds to the question whether all chains can be measured, when
/// those of the words before it can be.
pub(crate) proof fn lemma_next_first_word(
    document: Seq<Token>,
    clause: Seq<Part>,
    words: Seq<Seq<char>>,
    i: int,
)
    requires
        0 <= i < words.len(),
        all_occur(document, words.take(i)),
        chains_measurable(document, clause, words.take(i)),
    ensures
        (forall|start: Token| #[trigger]
            document.contains(start) && start.term == words[i] ==> chain_measurable(
                document,
                clause,
                start,
            )) ==> chains_measurable(document, clause, words.take(i + 1)),
        forall|start: Token| #[trigger]
            document.contains(start) && start.term == words[i] && !chain_measurable(
                document,
                clause,
                start,
            ) ==> !chains_measurable(document, clause, words),
        occurrences(document, words[i]).len() == 0 ==> !all_occur(document, words)
            && chains_measurable(document, clause, words),
        occurrences(document, words[i]).len() > 0 ==> all_occur(document, words.take(i + 1)),
{
    let before = words.take(i);
    let after = words.take(i + 1);
    assert(after =~= before.push(words[i]));
    assert forall|j: int| 0 <= j <= i implies #[trigger] after.take(j) == words.take(j) by {
        assert(after.take(j) =~= words.take(j));
    }
    assert forall|j: int| 0 <= j <= i implies #[trigger] before.take(j) == words.take(j) by {
        assert(before.take(j) =~= words.take(j));
    }
    assert forall|j: int, start: Token|
        #![trigger words[j], document.contains(start)]
        0 <= j < i && all_occur(document, words.take(j)) && document.contains(start) && start.term
            == words[j] implies chain_measurable(document, clause, start) by {
        assert(before.take(j) == words.take(j));
        assert(before[j] == words[j]);
    }
    assert forall|j: int|
        i < j <= words.len() && occurrences(document, words[i]).len()
            == 0 implies !#[trigger] all_occur(document, words.take(j)) by {
        assert(words.take(j)[i] == words[i]);
    }
    assert(words.take(words.len() as int) =~= words);
    assert forall|start: Token| occurrences(document, words[i]).len() == 0 implies !(
    document.contains(start) && start.term == words[i]) by {
        lemma_occurrences_contain(document, words[i], start);
    }
    if forall|start: Token| #[trigger]
        document.contains(start) && start.term == words[i] ==> chain_measurable(
            document,
            clause,
            start,
        ) {
        assert forall|j: int, start: Token|
            #![trigger after[j], document.contains(start)]
            0 <= j < after.len() && all_occur(document, after.take(j)) && document.contains(start)
                && start.term == after[j] implies chain_measurable(document, clause, start) by {
            assert(after.take(j) == words.take(j));
            assert(after[j] == words[j]);
        }
    }
}

/// The clause of a phrase: its terms one directly behind the other.
pub open spec fn phrase_clause(phrase: Seq<Token>) -> Seq<Part> {
    phrase.map_values(
        |token: Token| Part { words: seq![token.term], distance: 0, in_order: true },
    )
}

/// `result` is what a phrase search answers for the text `phrase_str` and the tokens that the
/// analyser made of it.
pub open spec fn phrase_reported(
    result: Option<Vec<(String, &TokenEntry)>>,
    document: Seq<Token>,
    phrase_str: Seq<char>,
    phrase: Seq<Token>,
) -> bool {
    if phrase_str.len() == 0 || phrase.len() == 0 {
        result is None
    } else {
        proximity_reported(result, document, phrase_clause(phrase))
    }
}

/// Where the order counts everywhere and no distance is the greatest, all chains can be measured.
pub(crate) proof fn lemma_ordered_measurable(document: Seq<Token>, clause: Seq<Part>)
    requires
        forall|i: int|
            0 <= i < clause.len() ==> #[trigger] clause[i].in_order && clause[i].distance < u32::MAX,
    ensures
        proximity_measurable(document, clause),
{
    if clause.len() >= 2 {
        assert forall|start: Token| chain_measurable(document, clause, start) by {
            lemma_ordered_follow_measurable(
                document,
                clause,
                0,
                Set::empty().insert(start.position),
            );
        }
    }
}

proof fn lemma_ordered_follow_measurable(
    document: Seq<Token>,
    clause: Seq<Part>,
    k: nat,
    starts: Set<u32>,
)
    requires
        forall|i: int|
            0 <= i < clause.len() ==> #[trigger] clause[i].in_order && clause[i].distance < u32::MAX,
    ensures
        follow_measurable(document, clause, k, starts),
    decreases clause.len() - k,
{
    if k + 1 < clause.len() {
        let part = clause[k as int];
        let found = near(
            document,
            clause[k as int + 1].words,
            part.distance,
            part.in_order,
            starts,
        );
        lemma_ordered_follow_measurable(document, clause, k + 1, positions(found));
    }
}

} // verus!
