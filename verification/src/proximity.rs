//! Proximity and phrase searches: chains of words, each near the one before it.

use crate::document::{lemma_occurrences_contain, lemma_push_contains, occurrences};
use crate::document_highlighter::DocumentHighlighter;
use crate::error::HighlightError;
use crate::proximity_model::{
    all_measurable, all_occur, chain, chain_measurable, chained, chains_measurable, follow,
    follow_measurable, in_chain, lemma_next_first_word, lemma_ordered_measurable, measurable, near,
    near_measurable, phrase_clause, phrase_reported, positions, proximity_measurable,
    proximity_reported, reached, within, Part,
};
use crate::token::{analyzed, highlighted, reports_set, AnalyzedToken, Token, TokenEntry};
use vstd::prelude::*;

verus! {

/// One link of a proximity clause: any of `words`, and how near to it the next link must be.
#[derive(Debug, Clone, PartialEq, Eq)]
pub struct ProximityPart {
    pub words: Vec<String>,
    pub distance: u32,
    pub in_order: bool,
}

/// What a sequence of strings spells.
pub open spec fn spelled(words: Seq<String>) -> Seq<Seq<char>> {
    words.map_values(|word: String| word@)
}

impl View for ProximityPart {
    type V = Part;

    open spec fn view(&self) -> Part {
        Part { words: spelled(self.words@), distance: self.distance, in_order: self.in_order }
    }
}

/// The clause that a sequence of parts makes up.
pub open spec fn clause(phrase: Seq<ProximityPart>) -> Seq<Part> {
    phrase.map_values(|part: ProximityPart| part@)
}

/// Decides [`within`]; `None` where the distance cannot be measured.
fn measure(point: u32, position: u32, distance: u32, in_order: bool) -> (result: Option<bool>)
    ensures
        match result {
            Some(near) => measurable(point, position, distance, in_order) && near == within(
                point,
                position,
                distance,
                in_order,
            ),
            None => !measurable(point, position, distance, in_order),
        },
{
    if in_order {
        if point < position {
            match distance.checked_add(1) {
                Some(reach) => Some(position - point <= reach),
                None => None,
            }
        } else {
            Some(false)
        }
    } else {
        let from: i32 = point as i32;
        let to: i32 = position as i32;
        let limit: i32 = distance as i32;
        match from.checked_sub(to) {
            Some(gap) => {
                if gap == i32::MIN {
                    None
                } else {
                    let width: i32 = if gap < 0 {
                        -gap
                    } else {
                        gap
                    };
                    match limit.checked_add(1) {
                        Some(reach) => Some(width <= reach),
                        None => None,
                    }
                }
            },
            None => None,
        }
    }
}

/// Decides [`reached`]; refused where a distance cannot be measured.
fn is_reached(
    starting_point: &Vec<u32>,
    position: u32,
    distance: u32,
    in_order: bool,
) -> (result: Result<bool, HighlightError>)
    ensures
        match result {
            Ok(found) => {
                &&& all_measurable(starting_point@.to_set(), position, distance, in_order)
                &&& found == reached(starting_point@.to_set(), position, distance, in_order)
            },
            Err(error) => {
                &&& !all_measurable(starting_point@.to_set(), position, distance, in_order)
                &&& error == HighlightError::DistanceOverflow
            },
        },
{
    let ghost starts = starting_point@.to_set();
    let mut found = false;
    let mut i: usize = 0;
    while i < starting_point.len()
        invariant
            i <= starting_point.len(),
            starts == starting_point@.to_set(),
            forall|j: int|
                0 <= j < i ==> measurable(#[trigger] starting_point@[j], position, distance, in_order),
            found ==> reached(starts, position, distance, in_order),
            !found ==> forall|j: int|
                0 <= j < i ==> !within(#[trigger] starting_point@[j], position, distance, in_order),
        decreases starting_point.len() - i,
    {
        let point = starting_point[i];
        assert(starts.contains(point));
        match measure(point, position, distance, in_order) {
            Some(near) => {
                if near {
                    found = true;
                }
            },
            None => {
                return Err(HighlightError::DistanceOverflow);
            },
        }
        i = i + 1;
    }
    assert forall|point: u32| #[trigger] starts.contains(point) implies measurable(
        point,
        position,
        distance,
        in_order,
    ) && (!found ==> !within(point, position, distance, in_order)) by {
        let j = choose|j: int| 0 <= j < starting_point@.len() && starting_point@[j] == point;
        assert(starting_point@[j] == point);
    }
    Ok(found)
}

/// Adds one highlight to a collection that holds none twice.
fn insert<'a>(highlights: &mut Vec<(String, &'a TokenEntry)>, term: &String, entry: &'a TokenEntry)
    requires
        highlighted(old(highlights)@).no_duplicates(),
    ensures
        highlighted(final(highlights)@).no_duplicates(),
        highlighted(final(highlights)@).to_set() == highlighted(old(highlights)@).to_set().insert(
            entry.at(term@),
        ),
{
    let ghost before = highlighted(highlights@);
    let ghost token = entry.at(term@);
    let mut i: usize = 0;
    while i < highlights.len()
        invariant
            i <= highlights.len(),
            before == highlighted(highlights@),
            before.no_duplicates(),
            token == entry.at(term@),
            forall|j: int| 0 <= j < i ==> before[j] != token,
        decreases highlights.len() - i,
    {
        let known = &highlights[i];
        if known.0 == *term && known.1.same(entry) {
            proof {
                assert(before[i as int] == token);
                assert(before.to_set().insert(token) =~= before.to_set());
            }
            return;
        }
        assert(before[i as int] == known.1.at(known.0@));
        i = i + 1;
    }
    highlights.push((term.clone(), entry));
    proof {
        let after = highlighted(highlights@);
        assert(after =~= before.push(token));
        lemma_push_contains(before, token);
        assert(after.to_set() =~= before.to_set().insert(token));
    }
}

/// The positions of some highlights.
fn positions_of(highlights: &Vec<(String, &TokenEntry)>) -> (result: Vec<u32>)
    ensures
        result@.to_set() == positions(highlighted(highlights@).to_set()),
{
    let ghost tokens = highlighted(highlights@);
    let mut result: Vec<u32> = Vec::new();
    let mut i: usize = 0;
    while i < highlights.len()
        invariant
            i <= highlights.len(),
            tokens == highlighted(highlights@),
            result@.len() == i,
            forall|j: int| 0 <= j < i ==> #[trigger] result@[j] == tokens[j].position,
        decreases highlights.len() - i,
    {
        result.push(highlights[i].1.position);
        i = i + 1;
    }
    proof {
        assert forall|position: u32|
            result@.to_set().contains(position) <==> positions(tokens.to_set()).contains(
                position,
            ) by {
            if result@.contains(position) {
                let j = choose|j: int| 0 <= j < result@.len() && result@[j] == position;
                assert(tokens.to_set().contains(tokens[j]));
            }
            if positions(tokens.to_set()).contains(position) {
                let token = choose|token: Token| #[trigger]
                    tokens.to_set().contains(token) && token.position == position;
                let j = choose|j: int| 0 <= j < tokens.len() && tokens[j] == token;
                assert(result@[j] == position);
            }
        }
        assert(result@.to_set() =~= positions(tokens.to_set()));
    }
    result
}

/// Appends highlights to others.
fn append<'a>(
    highlights: &mut Vec<(String, &'a TokenEntry)>,
    others: Vec<(String, &'a TokenEntry)>,
)
    ensures
        highlighted(final(highlights)@).to_set() == highlighted(old(highlights)@).to_set().union(
            highlighted(others@).to_set(),
        ),
{
    let ghost left = highlighted(highlights@);
    let ghost right = highlighted(others@);
    let mut others = others;
    highlights.append(&mut others);
    proof {
        let both = highlighted(highlights@);
        assert(both =~= left + right);
        assert forall|token: Token|
            both.to_set().contains(token) <==> left.to_set().union(right.to_set()).contains(
                token,
            ) by {
            if left.contains(token) {
                let i = choose|i: int| 0 <= i < left.len() && left[i] == token;
                assert(both[i] == token);
            }
            if right.contains(token) {
                let i = choose|i: int| 0 <= i < right.len() && right[i] == token;
                assert(both[left.len() + i] == token);
            }
            if both.contains(token) {
                let i = choose|i: int| 0 <= i < both.len() && both[i] == token;
                if i < left.len() {
                    assert(left[i] == token);
                } else {
                    assert(right[i - left.len()] == token);
                }
            }
        }
        assert(both.to_set() =~= left.to_set().union(right.to_set()));
    }
}

impl<'a> DocumentHighlighter<'a> {
    /// The occurrences of `words` that are near one of the positions in `starting_point`, each
    /// once; `None` where there are none. Refused where a distance cannot be measured.
    pub fn try_look_for_match(
        &'a self,
        words: &Vec<String>,
        distance: u32,
        order: bool,
        starting_point: &Vec<u32>,
    ) -> (result: Result<Option<Vec<(String, &'a TokenEntry)>>, HighlightError>)
        ensures
            match result {
                Ok(found) => {
                    &&& near_measurable(
                        self@,
                        spelled(words@),
                        distance,
                        order,
                        starting_point@.to_set(),
                    )
                    &&& reports_set(
                        found,
                        near(self@, spelled(words@), distance, order, starting_point@.to_set()),
                    )
                },
                Err(error) => {
                    &&& !near_measurable(
                        self@,
                        spelled(words@),
                        distance,
                        order,
                        starting_point@.to_set(),
                    )
                    &&& error == HighlightError::DistanceOverflow
                },
            },
    {
        let ghost starts = starting_point@.to_set();
        let ghost all = spelled(words@);
        let mut matches: Vec<(String, &'a TokenEntry)> = Vec::new();
        assert(highlighted(matches@).to_set() =~= near(self@, all.take(0), distance, order, starts));
        let mut i: usize = 0;
        while i < words.len()
            invariant
                i <= words.len(),
                starts == starting_point@.to_set(),
                all == spelled(words@),
                near_measurable(self@, all.take(i as int), distance, order, starts),
                highlighted(matches@).no_duplicates(),
                highlighted(matches@).to_set() == near(
                    self@,
                    all.take(i as int),
                    distance,
                    order,
                    starts,
                ),
            decreases words.len() - i,
        {
            let word = &words[i];
            let ghost term = word@;
            let ghost before = all.take(i as int);
            let ghost after = all.take(i + 1);
            proof {
                assert(all[i as int] == term);
                assert(after =~= before.push(term));
                lemma_push_contains(before, term);
                assert forall|token: Token|
                    occurrences(self@, term).contains(token) <==> self@.contains(token)
                        && token.term == term by {
                    lemma_occurrences_contain(self@, term, token);
                }
            }
            match self.highlight_token(word.as_str()) {
                Some(entries) => {
                    let ghost tokens = highlighted(entries@);
                    let ghost found = near(self@, before, distance, order, starts);
                    let mut k: usize = 0;
                    while k < entries.len()
                        invariant
                            k <= entries.len(),
                            i < words.len(),
                            starts == starting_point@.to_set(),
                            all == spelled(words@),
                            term == words@[i as int]@,
                            after == all.take(i + 1),
                            after.contains(term),
                            tokens == highlighted(entries@),
                            tokens == occurrences(self@, term),
                            forall|token: Token| #[trigger]
                                tokens.contains(token) ==> self@.contains(token) && token.term
                                    == term,
                            forall|j: int|
                                0 <= j < k ==> all_measurable(
                                    starts,
                                    #[trigger] tokens[j].position,
                                    distance,
                                    order,
                                ),
                            highlighted(matches@).no_duplicates(),
                            forall|token: Token| #[trigger]
                                highlighted(matches@).to_set().contains(token) <==> {
                                    ||| found.contains(token)
                                    ||| tokens.take(k as int).contains(token) && reached(
                                        starts,
                                        token.position,
                                        distance,
                                        order,
                                    )
                                },
                        decreases entries.len() - k,
                    {
                        let entry = &entries[k];
                        let ghost token = entry.1.at(entry.0@);
                        let ghost done = highlighted(matches@).to_set();
                        proof {
                            assert(tokens[k as int] == token);
                            assert(tokens.contains(token));
                            assert(tokens.take(k + 1) =~= tokens.take(k as int).push(token));
                        }
                        match is_reached(starting_point, entry.1.position, distance, order) {
                            Ok(hit) => {
                                if hit {
                                    insert(&mut matches, &entry.0, entry.1);
                                }
                                proof {
                                    let longer = tokens.take(k + 1);
                                    lemma_push_contains(tokens.take(k as int), token);
                                    assert forall|t: Token| #[trigger]
                                        highlighted(matches@).to_set().contains(t) <==> {
                                            ||| found.contains(t)
                                            ||| longer.contains(t) && reached(
                                                starts,
                                                t.position,
                                                distance,
                                                order,
                                            )
                                        } by {
                                        assert(done.contains(t) || hit && t == token
                                            <==> highlighted(matches@).to_set().contains(t));
                                    }
                                }
                            },
                            Err(error) => {
                                proof {
                                    assert(self@.contains(token));
                                    assert(all.contains(token.term)) by {
                                        assert(all[i as int] == term);
                                    }
                                }
                                return Err(error);
                            },
                        }
                        k = k + 1;
                    }
                    proof {
                        assert(tokens.take(k as int) =~= tokens);
                        assert forall|token: Token|
                            self@.contains(token) && token.term == term implies all_measurable(
                            starts,
                            token.position,
                            distance,
                            order,
                        ) by {
                            assert(tokens.contains(token));
                            let j = choose|j: int| 0 <= j < tokens.len() && tokens[j] == token;
                            assert(tokens[j].position == token.position);
                        }
                    }
                },
                None => {
                    assert forall|token: Token| !(self@.contains(token) && token.term == term) by {
                        assert(!occurrences(self@, term).contains(token));
                    }
                },
            }
            assert(highlighted(matches@).to_set() =~= near(self@, after, distance, order, starts));
            i = i + 1;
        }
        assert(all.take(i as int) =~= all);
        if matches.is_empty() {
            assert(highlighted(matches@).to_set() =~= Set::<Token>::empty());
            Ok(None)
        } else {
            Ok(Some(matches))
        }
    }

    /// The occurrences of `words` that are near one of the positions in `starting_point`, each
    /// once; `None` where there are none.
    pub fn look_for_match(
        &'a self,
        words: &Vec<String>,
        distance: u32,
        order: bool,
        starting_point: Vec<u32>,
    ) -> (result: Option<Vec<(String, &'a TokenEntry)>>)
        requires
            near_measurable(
                self@,
                spelled(words@),
                distance,
                order,
                starting_point@.to_set(),
            ),
        ensures
            reports_set(
                result,
                near(self@, spelled(words@), distance, order, starting_point@.to_set()),
            ),
    {
        match self.try_look_for_match(words, distance, order, &starting_point) {
            Ok(found) => found,
            Err(_) => None,
        }
    }

    /// The tokens of the chain that starts with `start`; `None` where it breaks off. Refused where
    /// a distance cannot be measured.
    fn try_chain(
        &'a self,
        phrase: &Vec<ProximityPart>,
        start: (String, &'a TokenEntry),
    ) -> (result: Result<Option<Vec<(String, &'a TokenEntry)>>, HighlightError>)
        ensures
            match result {
                Ok(found) => {
                    &&& chain_measurable(self@, clause(phrase@), start.1.at(start.0@))
                    &&& match (found, chain(self@, clause(phrase@), start.1.at(start.0@))) {
                        (Some(highlights), Some(tokens)) => highlighted(highlights@).to_set()
                            == tokens,
                        (None, None) => true,
                        _ => false,
                    }
                },
                Err(error) => {
                    &&& !chain_measurable(self@, clause(phrase@), start.1.at(start.0@))
                    &&& error == HighlightError::DistanceOverflow
                },
            },
    {
        let ghost parts = clause(phrase@);
        let ghost first = start.1.at(start.0@);
        let ghost starts = Set::empty().insert(first.position);
        let ghost mut gained = Set::<Token>::empty();
        let mut start_positions: Vec<u32> = Vec::new();
        start_positions.push(start.1.position);
        let mut possibilities: Vec<(String, &'a TokenEntry)> = Vec::new();
        possibilities.push(start);
        proof {
            assert(start_positions@.to_set() =~= starts) by {
                assert(start_positions@[0] == first.position);
            }
            assert(highlighted(possibilities@) =~= seq![first]);
            assert(highlighted(possibilities@).to_set() =~= gained.insert(first)) by {
                assert(seq![first][0] == first);
            }
        }
        if phrase.len() == 0 {
            return Ok(Some(possibilities));
        }
        let mut k: usize = 0;
        while k < phrase.len() - 1
            invariant
                0 < phrase.len(),
                k < phrase.len(),
                parts == clause(phrase@),
                first == start.1.at(start.0@),
                highlighted(possibilities@).to_set() == gained.insert(first),
                chain_measurable(self@, parts, first) == follow_measurable(
                    self@,
                    parts,
                    k as nat,
                    start_positions@.to_set(),
                ),
                chain(self@, parts, first) == match follow(
                    self@,
                    parts,
                    k as nat,
                    start_positions@.to_set(),
                ) {
                    Some(rest) => Some(gained.union(rest).insert(first)),
                    None => None,
                },
            decreases phrase.len() - k,
        {
            let current = &phrase[k];
            let next = &phrase[k + 1];
            let ghost here = start_positions@.to_set();
            let ghost found = near(
                self@,
                parts[k + 1].words,
                parts[k as int].distance,
                parts[k as int].in_order,
                here,
            );
            match self.try_look_for_match(
                &next.words,
                current.distance,
                current.in_order,
                &start_positions,
            ) {
                Ok(Some(next_entries)) => {
                    proof {
                        let tokens = highlighted(next_entries@);
                        assert(tokens.to_set().contains(tokens[0]));
                    }
                    start_positions = positions_of(&next_entries);
                    append(&mut possibilities, next_entries);
                    proof {
                        let rest = follow(self@, parts, (k + 1) as nat, positions(found));
                        if let Some(tokens) = rest {
                            assert(gained.union(found.union(tokens)) =~= gained.union(found).union(
                                tokens,
                            ));
                        }
                        gained = gained.union(found);
                        assert(highlighted(possibilities@).to_set() =~= gained.insert(first));
                    }
                },
                Ok(None) => {
                    return Ok(None);
                },
                Err(error) => {
                    return Err(error);
                },
            }
            k = k + 1;
        }
        assert(gained.union(Set::empty()) =~= gained);
        Ok(Some(possibilities))
    }

    /// Adds the tokens of the chains that start with one of `entries` to `matches`. Refused where
    /// a distance cannot be measured.
    fn try_add_chains(
        &'a self,
        phrase: &Vec<ProximityPart>,
        entries: Vec<(String, &'a TokenEntry)>,
        matches: &mut Vec<(String, &'a TokenEntry)>,
    ) -> (result: Result<(), HighlightError>)
        requires
            highlighted(old(matches)@).no_duplicates(),
        ensures
            highlighted(final(matches)@).no_duplicates(),
            match result {
                Ok(_) => {
                    &&& forall|start: Token| #[trigger]
                        highlighted(entries@).contains(start) ==> chain_measurable(
                            self@,
                            clause(phrase@),
                            start,
                        )
                    &&& forall|token: Token| #[trigger]
                        highlighted(final(matches)@).to_set().contains(token) <==> {
                            ||| highlighted(old(matches)@).to_set().contains(token)
                            ||| exists|start: Token|
                                highlighted(entries@).contains(start) && #[trigger] in_chain(
                                    self@,
                                    clause(phrase@),
                                    start,
                                    token,
                                )
                        }
                },
                Err(error) => {
                    &&& exists|start: Token| #[trigger]
                        highlighted(entries@).contains(start) && !chain_measurable(
                            self@,
                            clause(phrase@),
                            start,
                        )
                    &&& error == HighlightError::DistanceOverflow
                },
            },
    {
        let ghost parts = clause(phrase@);
        let ghost starts = highlighted(entries@);
        let ghost before = highlighted(matches@).to_set();
        let mut i: usize = 0;
        while i < entries.len()
            invariant
                i <= entries.len(),
                parts == clause(phrase@),
                starts == highlighted(entries@),
                highlighted(matches@).no_duplicates(),
                forall|j: int|
                    0 <= j < i ==> chain_measurable(self@, parts, #[trigger] starts[j]),
                forall|token: Token| #[trigger]
                    highlighted(matches@).to_set().contains(token) <==> {
                        ||| before.contains(token)
                        ||| exists|j: int|
                            0 <= j < i && in_chain(self@, parts, #[trigger] starts[j], token)
                    },
            decreases entries.len() - i,
        {
            let start = (entries[i].0.clone(), entries[i].1);
            let ghost first = starts[i as int];
            let ghost earlier = highlighted(matches@).to_set();
            assert(starts.contains(first));
            match self.try_chain(phrase, start) {
                Ok(Some(possibilities)) => {
                    let ghost tokens = highlighted(possibilities@);
                    let mut k: usize = 0;
                    while k < possibilities.len()
                        invariant
                            k <= possibilities.len(),
                            tokens == highlighted(possibilities@),
                            highlighted(matches@).no_duplicates(),
                            forall|token: Token| #[trigger]
                                highlighted(matches@).to_set().contains(token) <==> {
                                    ||| earlier.contains(token)
                                    ||| exists|j: int| 0 <= j < k && #[trigger] tokens[j] == token
                                },
                        decreases possibilities.len() - k,
                    {
                        let possibility = &possibilities[k];
                        assert(tokens[k as int] == possibility.1.at(possibility.0@));
                        insert(matches, &possibility.0, possibility.1);
                        k = k + 1;
                    }
                    assert forall|token: Token| #[trigger]
                        highlighted(matches@).to_set().contains(token) <==> earlier.contains(token)
                            || in_chain(self@, parts, first, token) by {
                        assert(in_chain(self@, parts, first, token) <==> tokens.to_set().contains(
                            token,
                        ));
                    }
                },
                Ok(None) => {},
                Err(error) => {
                    return Err(error);
                },
            }
            assert forall|token: Token| #[trigger]
                highlighted(matches@).to_set().contains(token) <==> {
                    ||| before.contains(token)
                    ||| exists|j: int|
                        0 <= j < i + 1 && in_chain(self@, parts, #[trigger] starts[j], token)
                } by {
                assert(earlier.contains(token) || in_chain(self@, parts, starts[i as int], token)
                    <==> highlighted(matches@).to_set().contains(token));
                if highlighted(matches@).to_set().contains(token) && !before.contains(token) {
                    if !in_chain(self@, parts, starts[i as int], token) {
                        let j = choose|j: int|
                            0 <= j < i && in_chain(self@, parts, #[trigger] starts[j], token);
                        assert(in_chain(self@, parts, starts[j], token));
                    }
                }
            }
            i = i + 1;
        }
        proof {
            assert forall|start: Token| #[trigger] starts.contains(start) implies chain_measurable(
                self@,
                parts,
                start,
            ) by {
                let j = choose|j: int| 0 <= j < starts.len() && starts[j] == start;
                assert(chain_measurable(self@, parts, starts[j]));
            }
            assert forall|token: Token| #[trigger]
                highlighted(matches@).to_set().contains(token) <==> {
                    ||| before.contains(token)
                    ||| exists|start: Token|
                        starts.contains(start) && #[trigger] in_chain(self@, parts, start, token)
                } by {
                if exists|j: int| 0 <= j < i && in_chain(self@, parts, #[trigger] starts[j], token) {
                    let j = choose|j: int|
                        0 <= j < i && in_chain(self@, parts, #[trigger] starts[j], token);
                    assert(starts.contains(starts[j]));
                }
                if exists|start: Token|
                    starts.contains(start) && #[trigger] in_chain(self@, parts, start, token) {
                    let start = choose|start: Token|
                        starts.contains(start) && #[trigger] in_chain(self@, parts, start, token);
                    let j = choose|j: int| 0 <= j < starts.len() && starts[j] == start;
                    assert(in_chain(self@, parts, starts[j], token));
                }
            }
        }
        Ok(())
    }

    /// The highlights of a proximity search. Refused where a distance cannot be measured.
    pub fn try_highlight_proximity(&'a self, phrase: &Vec<ProximityPart>) -> (result: Result<
        Option<Vec<(String, &'a TokenEntry)>>,
        HighlightError,
    >)
        ensures
            match result {
                Ok(found) => {
                    &&& proximity_measurable(self@, clause(phrase@))
                    &&& proximity_reported(found, self@, clause(phrase@))
                },
                Err(error) => {
                    &&& !proximity_measurable(self@, clause(phrase@))
                    &&& error == HighlightError::DistanceOverflow
                },
            },
    {
        let ghost parts = clause(phrase@);
        if phrase.len() == 0 {
            return Ok(None);
        }
        let first_words = &phrase[0].words;
        let ghost words = spelled(first_words@);
        assert(words == parts[0].words);
        let mut final_matches: Vec<(String, &'a TokenEntry)> = Vec::new();
        assert(highlighted(final_matches@).to_set() =~= chained(self@, parts, words.take(0)));
        let mut i: usize = 0;
        while i < first_words.len()
            invariant
                i <= first_words.len(),
                0 < phrase.len(),
                i > 0 ==> phrase.len() > 1,
                parts == clause(phrase@),
                words == spelled(first_words@),
                words == parts[0].words,
                all_occur(self@, words.take(i as int)),
                chains_measurable(self@, parts, words.take(i as int)),
                highlighted(final_matches@).no_duplicates(),
                highlighted(final_matches@).to_set() == chained(self@, parts, words.take(i as int)),
            decreases first_words.len() - i,
        {
            let word = &first_words[i];
            let ghost term = word@;
            let ghost before = words.take(i as int);
            let ghost after = words.take(i + 1);
            proof {
                assert(words[i as int] == term);
                assert(after =~= before.push(term));
                lemma_push_contains(before, term);
                lemma_next_first_word(self@, parts, words, i as int);
            }
            let first_word_entries = self.highlight_token(word.as_str());
            if phrase.len() == 1 {
                return Ok(first_word_entries);
            }
            match first_word_entries {
                Some(entries) => {
                    let ghost starts = highlighted(entries@);
                    proof {
                        assert forall|start: Token| #[trigger]
                            starts.contains(start) <==> self@.contains(start) && start.term
                                == term by {
                            lemma_occurrences_contain(self@, term, start);
                        }
                    }
                    match self.try_add_chains(phrase, entries, &mut final_matches) {
                        Ok(_) => {
                            assert forall|start: Token| #[trigger]
                                self@.contains(start) && start.term
                                    == words[i as int] implies chain_measurable(
                                self@,
                                parts,
                                start,
                            ) by {
                                assert(starts.contains(start));
                            }
                        },
                        Err(error) => {
                            return Err(error);
                        },
                    }
                },
                None => {
                    return Ok(None);
                },
            }
            assert(highlighted(final_matches@).to_set() =~= chained(self@, parts, after));
            i = i + 1;
        }
        assert(words.take(i as int) =~= words);
        if final_matches.is_empty() {
            assert(highlighted(final_matches@).to_set() =~= Set::<Token>::empty());
            Ok(None)
        } else {
            proof {
                let tokens = highlighted(final_matches@);
                assert(tokens.to_set().contains(tokens[0]));
            }
            Ok(Some(final_matches))
        }
    }

    /// The highlights of a proximity search: the tokens of the chains of words, each near the one
    /// before it, that `phrase` describes.
    pub fn highlight_proximity(&'a self, phrase: Vec<ProximityPart>) -> (result: Option<
        Vec<(String, &'a TokenEntry)>,
    >)
        requires
            proximity_measurable(self@, clause(phrase@)),
        ensures
            proximity_reported(result, self@, clause(phrase@)),
    {
        match self.try_highlight_proximity(&phrase) {
            Ok(found) => found,
            Err(_) => None,
        }
    }

    /// The highlights of a phrase search: the words of the phrase one directly behind the other.
    /// `tokens` is what the analyser makes of `phrase_str`; of an empty phrase it is not looked at.
    pub fn highlight_phrase(&'a self, phrase_str: &str, tokens: Vec<AnalyzedToken>) -> (result:
        Option<Vec<(String, &'a TokenEntry)>>)
        ensures
            phrase_reported(result, self@, phrase_str@, analyzed(tokens@)),
    {
        if phrase_str.is_empty() {
            return None;
        }
        let ghost reported = tokens@;
        let mut phrase: Vec<ProximityPart> = Vec::new();
        for token in rest: tokens
            invariant
                rest.seq() == reported,
                phrase@.len() == rest.index(),
                forall|i: int|
                    0 <= i < phrase@.len() ==> #[trigger] phrase@[i]@ == phrase_clause(
                        analyzed(reported),
                    )[i],
        {
            let mut words: Vec<String> = Vec::new();
            words.push(token.token);
            phrase.push(ProximityPart { words, distance: 0, in_order: true });
            proof {
                let part = phrase@[rest.index()];
                assert(part@.words =~= seq![token@.term]);
            }
        }
        assert(clause(phrase@) =~= phrase_clause(analyzed(reported)));
        if phrase.is_empty() {
            None
        } else {
            proof {
                lemma_ordered_measurable(self@, clause(phrase@));
            }
            self.highlight_proximity(phrase)
        }
    }
}

} // verus!
