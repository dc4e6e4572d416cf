//! Proximity searches seen from the outside: paths of tokens through the document, each of them
//! near enough to the one before it.

use crate::document::{lemma_occurrences_contain, occurrences};
use crate::proximity_laws::proximity_found;
use crate::proximity_model::{
    all_measurable, all_occur, chain_measurable, chains_measurable, follow, follow_measurable,
    in_chain, measurable, near, near_measurable, positions, proximity_measurable, within, Part,
};
use crate::token::Token;
use vstd::prelude::*;

verus! {

/// Whether `path` goes on from `point`, a position of the part number `k`: its tokens belong to the
/// parts behind that one, each near the one before it.
spec fn leads(
    document: Seq<Token>,
    clause: Seq<Part>,
    k: int,
    point: u32,
    path: Seq<Token>,
) -> bool
    decreases path.len(),
{
    if path.len() == 0 {
        k < clause.len()
    } else {
        &&& k + 1 < clause.len()
        &&& document.contains(path[0])
        &&& clause[k + 1].words.contains(path[0].term)
        &&& within(point, path[0].position, clause[k].distance, clause[k].in_order)
        &&& leads(document, clause, k + 1, path[0].position, path.drop_first())
    }
}

/// The position at which a path from `point` ends.
spec fn end_of(point: u32, path: Seq<Token>) -> u32 {
    if path.len() == 0 {
        point
    } else {
        path.last().position
    }
}

proof fn lemma_leads_length(
    document: Seq<Token>,
    clause: Seq<Part>,
    k: int,
    point: u32,
    path: Seq<Token>,
)
    requires
        leads(document, clause, k, point, path),
    ensures
        k + path.len() < clause.len(),
    decreases path.len(),
{
    if path.len() > 0 {
        lemma_leads_length(document, clause, k + 1, path[0].position, path.drop_first());
    }
}

/// Whether `path` goes on from one of `starts` and ends with `token`.
spec fn leads_to(
    document: Seq<Token>,
    clause: Seq<Part>,
    k: int,
    starts: Set<u32>,
    point: u32,
    path: Seq<Token>,
    token: Token,
) -> bool {
    &&& starts.contains(point)
    &&& leads(document, clause, k, point, path)
    &&& path.len() > 0
    &&& path.last() == token
}

/// Whether `path` goes on from one of `starts` to the last part.
spec fn leads_through(
    document: Seq<Token>,
    clause: Seq<Part>,
    k: int,
    starts: Set<u32>,
    point: u32,
    path: Seq<Token>,
) -> bool {
    &&& starts.contains(point)
    &&& leads(document, clause, k, point, path)
    &&& k + path.len() == clause.len() - 1
}

proof fn lemma_found_step(
    document: Seq<Token>,
    clause: Seq<Part>,
    k: nat,
    starts: Set<u32>,
    point: u32,
    path: Seq<Token>,
)
    requires
        starts.contains(point),
        leads(document, clause, k as int, point, path),
        path.len() > 0,
    ensures
        near(
            document,
            clause[k as int + 1].words,
            clause[k as int].distance,
            clause[k as int].in_order,
            starts,
        ).contains(path[0]),
        positions(
            near(
                document,
                clause[k as int + 1].words,
                clause[k as int].distance,
                clause[k as int].in_order,
                starts,
            ),
        ).contains(path[0].position),
        leads(document, clause, k as int + 1, path[0].position, path.drop_first()),
{
    let found = near(
        document,
        clause[k as int + 1].words,
        clause[k as int].distance,
        clause[k as int].in_order,
        starts,
    );
    assert(found.contains(path[0]));
}

/// One step and a path from there make up a path.
proof fn lemma_step_found(
    document: Seq<Token>,
    clause: Seq<Part>,
    k: nat,
    starts: Set<u32>,
    first: Token,
    path: Seq<Token>,
) -> (point: u32)
    requires
        k + 1 < clause.len(),
        near(
            document,
            clause[k as int + 1].words,
            clause[k as int].distance,
            clause[k as int].in_order,
            starts,
        ).contains(first),
        leads(document, clause, k as int + 1, first.position, path),
    ensures
        starts.contains(point),
        leads(document, clause, k as int, point, seq![first] + path),
        end_of(point, seq![first] + path) == end_of(first.position, path),
{
    let point = choose|point: u32| #[trigger]
        starts.contains(point) && within(
            point,
            first.position,
            clause[k as int].distance,
            clause[k as int].in_order,
        );
    let longer = seq![first] + path;
    assert(longer.drop_first() =~= path);
    point
}

/// What follows is where the paths lead, and nothing does where none goes through.
proof fn lemma_follow_paths(document: Seq<Token>, clause: Seq<Part>, k: nat, starts: Set<u32>)
    requires
        k < clause.len(),
        exists|point: u32| starts.contains(point),
    ensures
        follow(document, clause, k, starts) is Some <==> exists|point: u32, path: Seq<Token>|
            leads_through(document, clause, k as int, starts, point, path),
        follow(document, clause, k, starts) matches Some(tokens) ==> forall|token: Token| #[trigger]
            tokens.contains(token) <==> exists|point: u32, path: Seq<Token>|
                leads_to(document, clause, k as int, starts, point, path, token),
    decreases clause.len() - k,
{
    if k + 1 >= clause.len() {
        let point = choose|point: u32| starts.contains(point);
        assert(leads_through(document, clause, k as int, starts, point, Seq::empty()));
    } else {
        let n = k as int + 1;
        let part = clause[k as int];
        let words = clause[n].words;
        let found = near(document, words, part.distance, part.in_order, starts);
        if found == Set::<Token>::empty() {
            assert forall|point: u32, path: Seq<Token>| !leads_through(
                document,
                clause,
                k as int,
                starts,
                point,
                path,
            ) by {
                if leads_through(document, clause, k as int, starts, point, path) {
                    lemma_found_step(document, clause, k, starts, point, path);
                }
            }
        } else {
            let next = positions(found);
            assert(exists|token: Token| found.contains(token)) by {
                if forall|token: Token| !found.contains(token) {
                    assert(found =~= Set::empty());
                }
            }
            let some = choose|token: Token| found.contains(token);
            assert(next.contains(some.position));
            lemma_follow_paths(document, clause, k + 1, next);
            let after = follow(document, clause, k + 1, next);
            if after is Some {
                let (p, path) = choose|p: u32, path: Seq<Token>|
                    leads_through(document, clause, n, next, p, path);
                let first = choose|token: Token| #[trigger]
                    found.contains(token) && token.position == p;
                let point = lemma_step_found(document, clause, k, starts, first, path);
                assert(leads_through(
                    document,
                    clause,
                    k as int,
                    starts,
                    point,
                    seq![first] + path,
                ));
                let tokens = follow(document, clause, k, starts)->0;
                assert forall|token: Token| #[trigger]
                    tokens.contains(token) <==> exists|point: u32, path: Seq<Token>|
                        leads_to(document, clause, k as int, starts, point, path, token) by {
                    if tokens.contains(token) {
                        if found.contains(token) {
                            let point = lemma_step_found(
                                document,
                                clause,
                                k,
                                starts,
                                token,
                                Seq::empty(),
                            );
                            let path = seq![token] + Seq::empty();
                            assert(path.last() == token);
                            assert(leads_to(
                                document,
                                clause,
                                k as int,
                                starts,
                                point,
                                path,
                                token,
                            ));
                        } else {
                            assert(after->0.contains(token));
                            let (p, path) = choose|p: u32, path: Seq<Token>|
                                leads_to(document, clause, n, next, p, path, token);
                            let first = choose|token: Token| #[trigger]
                                found.contains(token) && token.position == p;
                            let point = lemma_step_found(
                                document,
                                clause,
                                k,
                                starts,
                                first,
                                path,
                            );
                            let longer = seq![first] + path;
                            assert(longer.last() == token);
                            assert(leads_to(
                                document,
                                clause,
                                k as int,
                                starts,
                                point,
                                longer,
                                token,
                            ));
                        }
                    }
                    if exists|point: u32, path: Seq<Token>|
                        leads_to(document, clause, k as int, starts, point, path, token) {
                        let (point, path) = choose|point: u32, path: Seq<Token>|
                            leads_to(document, clause, k as int, starts, point, path, token);
                        lemma_found_step(document, clause, k, starts, point, path);
                        if path.len() > 1 {
                            assert(leads_to(
                                document,
                                clause,
                                n,
                                next,
                                path[0].position,
                                path.drop_first(),
                                token,
                            ));
                        }
                    }
                }
            }
            if exists|point: u32, path: Seq<Token>|
                leads_through(document, clause, k as int, starts, point, path) {
                let (point, path) = choose|point: u32, path: Seq<Token>|
                    leads_through(document, clause, k as int, starts, point, path);
                lemma_found_step(document, clause, k, starts, point, path);
                assert(leads_through(
                    document,
                    clause,
                    n,
                    next,
                    path[0].position,
                    path.drop_first(),
                ));
            }
        }
    }
}

/// Whether the tokens of `path` belong to the parts from the part number `k` on, each at most the
/// distance and one position away from the one before it, and behind it where the order counts.
spec fn is_path(document: Seq<Token>, clause: Seq<Part>, k: int, path: Seq<Token>) -> bool {
    &&& 0 < path.len()
    &&& k + path.len() <= clause.len()
    &&& forall|i: int|
        k <= i < k + path.len() ==> (#[trigger] clause[i]).words.contains(path[i - k].term)
            && document.contains(path[i - k])
    &&& forall|i: int|
        k <= i < k + path.len() - 1 ==> {
            let (p, q) = (path[i - k].position, path[i - k + 1].position);
            if (#[trigger] clause[i]).in_order {
                p < q && q - p <= clause[i].distance + 1
            } else {
                -(clause[i].distance as i32 + 1) <= p as i32 - q as i32 <= clause[i].distance as i32
                    + 1
            }
        }
}

proof fn lemma_leads_path(document: Seq<Token>, clause: Seq<Part>, k: int, path: Seq<Token>)
    requires
        0 <= k,
        0 < path.len(),
    ensures
        is_path(document, clause, k, path) <==> {
            &&& k < clause.len()
            &&& document.contains(path[0])
            &&& clause[k].words.contains(path[0].term)
            &&& leads(document, clause, k, path[0].position, path.drop_first())
        },
    decreases path.len(),
{
    let rest = path.drop_first();
    if path.len() == 1 {
        assert(is_path(document, clause, k, path) ==> clause[k].words.contains(path[k - k].term));
    } else {
        lemma_leads_path(document, clause, k + 1, rest);
        assert(rest[0] == path[1]);
        let (p, q) = (path[0].position, path[1].position);
        if is_path(document, clause, k, path) {
            assert(clause[k].words.contains(path[k - k].term));
            assert(within(p, q, clause[k].distance, clause[k].in_order));
            assert forall|i: int| k + 1 <= i < k + 1 + rest.len() implies (
            #[trigger] clause[i]).words.contains(rest[i - (k + 1)].term) && document.contains(
                rest[i - (k + 1)],
            ) by {
                assert(rest[i - (k + 1)] == path[i - k]);
            }
            assert forall|i: int| k + 1 <= i < k + 1 + rest.len() - 1 implies {
                let (p, q) = (rest[i - (k + 1)].position, rest[i - (k + 1) + 1].position);
                if (#[trigger] clause[i]).in_order {
                    p < q && q - p <= clause[i].distance + 1
                } else {
                    -(clause[i].distance as i32 + 1) <= p as i32 - q as i32
                        <= clause[i].distance as i32 + 1
                }
            } by {
                assert(rest[i - (k + 1)] == path[i - k]);
                assert(rest[i - (k + 1) + 1] == path[i - k + 1]);
            }
            assert(is_path(document, clause, k + 1, rest));
        }
        if k < clause.len() && document.contains(path[0]) && clause[k].words.contains(path[0].term)
            && leads(document, clause, k, p, rest) {
            assert(is_path(document, clause, k + 1, rest));
            assert(within(p, q, clause[k].distance, clause[k].in_order));
            assert forall|i: int| k <= i < k + path.len() implies (
            #[trigger] clause[i]).words.contains(path[i - k].term) && document.contains(
                path[i - k],
            ) by {
                if i > k {
                    assert(rest[i - (k + 1)] == path[i - k]);
                }
            }
            assert forall|i: int| k <= i < k + path.len() - 1 implies {
                let (p, q) = (path[i - k].position, path[i - k + 1].position);
                if (#[trigger] clause[i]).in_order {
                    p < q && q - p <= clause[i].distance + 1
                } else {
                    -(clause[i].distance as i32 + 1) <= p as i32 - q as i32
                        <= clause[i].distance as i32 + 1
                }
            } by {
                if i > k {
                    assert(rest[i - (k + 1)] == path[i - k]);
                    assert(rest[i - (k + 1) + 1] == path[i - k + 1]);
                }
            }
        }
    }
}

proof fn lemma_in_chain(document: Seq<Token>, clause: Seq<Part>, start: Token, token: Token)
    requires
        clause.len() >= 2,
        document.contains(start),
        clause[0].words.contains(start.term),
    ensures
        in_chain(document, clause, start, token) <==> exists|whole: Seq<Token>, path: Seq<Token>|
            #![trigger is_path(document, clause, 0, whole), is_path(document, clause, 0, path)]
            {
                &&& is_path(document, clause, 0, whole)
                &&& is_path(document, clause, 0, path)
                &&& whole.len() == clause.len()
                &&& whole[0] == start
                &&& path[0] == start
                &&& path.last() == token
            },
{
    let starts = Set::empty().insert(start.position);
    assert(starts.contains(start.position));
    lemma_follow_paths(document, clause, 0, starts);
    if in_chain(document, clause, start, token) {
        let (point, rest) = choose|point: u32, rest: Seq<Token>|
            leads_through(document, clause, 0, starts, point, rest);
        let whole = seq![start] + rest;
        assert(whole.drop_first() =~= rest);
        lemma_leads_path(document, clause, 0, whole);
        assert(is_path(document, clause, 0, whole));
        if token == start {
            let path = seq![start];
            assert(path.drop_first() =~= Seq::empty());
            lemma_leads_path(document, clause, 0, path);
            assert(is_path(document, clause, 0, path));
        } else {
            let (point, behind) = choose|point: u32, behind: Seq<Token>|
                leads_to(document, clause, 0, starts, point, behind, token);
            let path = seq![start] + behind;
            assert(path.drop_first() =~= behind);
            assert(path.last() == token);
            lemma_leads_path(document, clause, 0, path);
            assert(is_path(document, clause, 0, path));
        }
    }
    if exists|whole: Seq<Token>, path: Seq<Token>|
        #![trigger is_path(document, clause, 0, whole), is_path(document, clause, 0, path)]
        {
            &&& is_path(document, clause, 0, whole)
            &&& is_path(document, clause, 0, path)
            &&& whole.len() == clause.len()
            &&& whole[0] == start
            &&& path[0] == start
            &&& path.last() == token
        } {
        let (whole, path) = choose|whole: Seq<Token>, path: Seq<Token>|
            #![trigger is_path(document, clause, 0, whole), is_path(document, clause, 0, path)]
            {
                &&& is_path(document, clause, 0, whole)
                &&& is_path(document, clause, 0, path)
                &&& whole.len() == clause.len()
                &&& whole[0] == start
                &&& path[0] == start
                &&& path.last() == token
            };
        lemma_leads_path(document, clause, 0, whole);
        lemma_leads_path(document, clause, 0, path);
        assert(leads_through(document, clause, 0, starts, start.position, whole.drop_first()));
        if path.len() > 1 {
            assert(path.drop_first().last() == token);
            assert(leads_to(
                document,
                clause,
                0,
                starts,
                start.position,
                path.drop_first(),
                token,
            ));
        }
    }
}

proof fn lemma_all_occur(document: Seq<Token>, words: Seq<Seq<char>>)
    ensures
        all_occur(document, words) <==> forall|word: Seq<char>| #[trigger]
            words.contains(word) ==> exists|t: Token| #[trigger]
                document.contains(t) && t.term == word,
{
    assert forall|word: Seq<char>| occurrences(document, word).len() > 0 <==> exists|t: Token|
        #[trigger] document.contains(t) && t.term == word by {
        let found = occurrences(document, word);
        if found.len() > 0 {
            assert(found.contains(found[0]));
            lemma_occurrences_contain(document, word, found[0]);
        }
        if exists|t: Token| #[trigger] document.contains(t) && t.term == word {
            let t = choose|t: Token| #[trigger] document.contains(t) && t.term == word;
            lemma_occurrences_contain(document, word, t);
        }
    }
    if all_occur(document, words) {
        assert forall|word: Seq<char>| #[trigger] words.contains(word) implies exists|t: Token|
            #[trigger] document.contains(t) && t.term == word by {
            let j = choose|j: int| 0 <= j < words.len() && words[j] == word;
            assert(occurrences(document, words[j]).len() > 0);
        }
    } else {
        let j = choose|j: int|
            0 <= j < words.len() && !(occurrences(document, #[trigger] words[j]).len() > 0);
        assert(words.contains(words[j]));
        assert(occurrences(document, words[j]).len() == 0);
    }
}

/// A proximity search for two or more parts finds a token exactly if every word of the first part
/// occurs and the token ends a path that starts as a path through all parts does. The tokens of a
/// path have words of the parts as their terms, part by part; where the order counts each of them is
/// behind the one before it, by at most the distance and one more position, and where it does not
/// the two are at most that far apart, in signed numbers.
pub proof fn law_proximity_paths(document: Seq<Token>, clause: Seq<Part>, token: Token)
    requires
        clause.len() >= 2,
    ensures
        proximity_found(document, clause).contains(token) <==> {
            &&& forall|word: Seq<char>| #[trigger]
                clause[0].words.contains(word) ==> exists|t: Token| #[trigger]
                    document.contains(t) && t.term == word
            &&& exists|whole: Seq<Token>, path: Seq<Token>|
                {
                    &&& #[trigger] whole.len() == clause.len()
                    &&& 1 <= #[trigger] path.len() <= clause.len()
                    &&& path[0] == whole[0]
                    &&& path.last() == token
                    &&& forall|i: int|
                        0 <= i < whole.len() ==> (#[trigger] clause[i]).words.contains(
                            whole[i].term,
                        ) && document.contains(whole[i])
                    &&& forall|i: int|
                        0 <= i < path.len() ==> (#[trigger] clause[i]).words.contains(path[i].term)
                            && document.contains(path[i])
                    &&& forall|i: int|
                        0 <= i < whole.len() - 1 ==> {
                            let (p, q) = (whole[i].position, whole[i + 1].position);
                            if (#[trigger] clause[i]).in_order {
                                p < q && q - p <= clause[i].distance + 1
                            } else {
                                -(clause[i].distance as i32 + 1) <= p as i32 - q as i32
                                    <= clause[i].distance as i32 + 1
                            }
                        }
                    &&& forall|i: int|
                        0 <= i < path.len() - 1 ==> {
                            let (p, q) = (path[i].position, path[i + 1].position);
                            if (#[trigger] clause[i]).in_order {
                                p < q && q - p <= clause[i].distance + 1
                            } else {
                                -(clause[i].distance as i32 + 1) <= p as i32 - q as i32
                                    <= clause[i].distance as i32 + 1
                            }
                        }
                }
        },
{
    let words = clause[0].words;
    lemma_all_occur(document, words);
    if proximity_found(document, clause).contains(token) {
        let start = choose|start: Token|
            {
                &&& document.contains(start)
                &&& words.contains(start.term)
                &&& #[trigger] in_chain(document, clause, start, token)
            };
        lemma_in_chain(document, clause, start, token);
        let (whole, path) = choose|whole: Seq<Token>, path: Seq<Token>|
            #![trigger is_path(document, clause, 0, whole), is_path(document, clause, 0, path)]
            {
                &&& is_path(document, clause, 0, whole)
                &&& is_path(document, clause, 0, path)
                &&& whole.len() == clause.len()
                &&& whole[0] == start
                &&& path[0] == start
                &&& path.last() == token
            };
        assert(whole.len() == clause.len());
        assert(1 <= path.len() <= clause.len());
    }
    if all_occur(document, words) && exists|whole: Seq<Token>, path: Seq<Token>|
                {
                    &&& #[trigger] whole.len() == clause.len()
                    &&& 1 <= #[trigger] path.len() <= clause.len()
                    &&& path[0] == whole[0]
                    &&& path.last() == token
                    &&& forall|i: int|
                        0 <= i < whole.len() ==> (#[trigger] clause[i]).words.contains(
                            whole[i].term,
                        ) && document.contains(whole[i])
                    &&& forall|i: int|
                        0 <= i < path.len() ==> (#[trigger] clause[i]).words.contains(path[i].term)
                            && document.contains(path[i])
                    &&& forall|i: int|
                        0 <= i < whole.len() - 1 ==> {
                            let (p, q) = (whole[i].position, whole[i + 1].position);
                            if (#[trigger] clause[i]).in_order {
                                p < q && q - p <= clause[i].distance + 1
                            } else {
                                -(clause[i].distance as i32 + 1) <= p as i32 - q as i32
                                    <= clause[i].distance as i32 + 1
                            }
                        }
                    &&& forall|i: int|
                        0 <= i < path.len() - 1 ==> {
                            let (p, q) = (path[i].position, path[i + 1].position);
                            if (#[trigger] clause[i]).in_order {
                                p < q && q - p <= clause[i].distance + 1
                            } else {
                                -(clause[i].distance as i32 + 1) <= p as i32 - q as i32
                                    <= clause[i].distance as i32 + 1
                            }
                        }
                } {
        let (whole, path) = choose|whole: Seq<Token>, path: Seq<Token>|
                {
                    &&& #[trigger] whole.len() == clause.len()
                    &&& 1 <= #[trigger] path.len() <= clause.len()
                    &&& path[0] == whole[0]
                    &&& path.last() == token
                    &&& forall|i: int|
                        0 <= i < whole.len() ==> (#[trigger] clause[i]).words.contains(
                            whole[i].term,
                        ) && document.contains(whole[i])
                    &&& forall|i: int|
                        0 <= i < path.len() ==> (#[trigger] clause[i]).words.contains(path[i].term)
                            && document.contains(path[i])
                    &&& forall|i: int|
                        0 <= i < whole.len() - 1 ==> {
                            let (p, q) = (whole[i].position, whole[i + 1].position);
                            if (#[trigger] clause[i]).in_order {
                                p < q && q - p <= clause[i].distance + 1
                            } else {
                                -(clause[i].distance as i32 + 1) <= p as i32 - q as i32
                                    <= clause[i].distance as i32 + 1
                            }
                        }
                    &&& forall|i: int|
                        0 <= i < path.len() - 1 ==> {
                            let (p, q) = (path[i].position, path[i + 1].position);
                            if (#[trigger] clause[i]).in_order {
                                p < q && q - p <= clause[i].distance + 1
                            } else {
                                -(clause[i].distance as i32 + 1) <= p as i32 - q as i32
                                    <= clause[i].distance as i32 + 1
                            }
                        }
                };
        let start = whole[0];
        assert(clause[0].words.contains(whole[0].term));
        assert(whole.len() == clause.len());
        assert(forall|i: int|
            0 <= i < 0 + whole.len() ==> (#[trigger] clause[i]).words.contains(whole[i - 0].term)
                && document.contains(whole[i - 0]));
        assert(is_path(document, clause, 0, whole));
        assert(is_path(document, clause, 0, path));
        lemma_in_chain(document, clause, start, token);
        assert(in_chain(document, clause, start, token));
    }
}

/// Whether the distance from the end of a path to one of the tokens of the next part cannot be
/// measured.
spec fn exceeds(
    document: Seq<Token>,
    clause: Seq<Part>,
    k: int,
    starts: Set<u32>,
    point: u32,
    path: Seq<Token>,
    next: Token,
) -> bool {
    let part = clause[k + path.len()];
    &&& starts.contains(point)
    &&& leads(document, clause, k, point, path)
    &&& k + path.len() + 1 < clause.len()
    &&& document.contains(next)
    &&& clause[k + path.len() + 1].words.contains(next.term)
    &&& !measurable(end_of(point, path), next.position, part.distance, part.in_order)
}

proof fn lemma_follow_exceeds(document: Seq<Token>, clause: Seq<Part>, k: nat, starts: Set<u32>)
    ensures
        !follow_measurable(document, clause, k, starts) <==> exists|
            point: u32,
            path: Seq<Token>,
            next: Token,
        |
            exceeds(document, clause, k as int, starts, point, path, next),
    decreases clause.len() - k,
{
    if k + 1 >= clause.len() {
        assert forall|point: u32, path: Seq<Token>, next: Token| !exceeds(
            document,
            clause,
            k as int,
            starts,
            point,
            path,
            next,
        ) by {}
    } else {
        let n = k as int + 1;
        let part = clause[k as int];
        let words = clause[n].words;
        let found = near(document, words, part.distance, part.in_order, starts);
        let after = positions(found);
        lemma_follow_exceeds(document, clause, k + 1, after);
        if !near_measurable(document, words, part.distance, part.in_order, starts) {
            let next = choose|next: Token| #[trigger]
                document.contains(next) && words.contains(next.term) && !all_measurable(
                    starts,
                    next.position,
                    part.distance,
                    part.in_order,
                );
            let point = choose|point: u32| #[trigger]
                starts.contains(point) && !measurable(
                    point,
                    next.position,
                    part.distance,
                    part.in_order,
                );
            assert(exceeds(document, clause, k as int, starts, point, Seq::empty(), next));
        } else if !follow_measurable(document, clause, k, starts) {
            let (p, path, next) = choose|p: u32, path: Seq<Token>, next: Token|
                exceeds(document, clause, n, after, p, path, next);
            let first = choose|token: Token| #[trigger]
                found.contains(token) && token.position == p;
            let point = lemma_step_found(document, clause, k, starts, first, path);
            assert(exceeds(document, clause, k as int, starts, point, seq![first] + path, next));
        }
        if exists|point: u32, path: Seq<Token>, next: Token|
            exceeds(document, clause, k as int, starts, point, path, next) {
            let (point, path, next) = choose|point: u32, path: Seq<Token>, next: Token|
                exceeds(document, clause, k as int, starts, point, path, next);
            if path.len() == 0 {
                assert(!all_measurable(starts, next.position, part.distance, part.in_order));
            } else {
                lemma_found_step(document, clause, k, starts, point, path);
                assert(found.contains(path[0]));
                assert(exceeds(
                    document,
                    clause,
                    n,
                    after,
                    path[0].position,
                    path.drop_first(),
                    next,
                ));
            }
        }
    }
}

proof fn lemma_chain_exceeds(document: Seq<Token>, clause: Seq<Part>, start: Token)
    requires
        clause.len() >= 2,
        document.contains(start),
        clause[0].words.contains(start.term),
    ensures
        !chain_measurable(document, clause, start) <==> exists|path: Seq<Token>, next: Token|
            #![trigger is_path(document, clause, 0, path), document.contains(next)]
            {
                &&& is_path(document, clause, 0, path)
                &&& path[0] == start
                &&& path.len() < clause.len()
                &&& document.contains(next)
                &&& clause[path.len() as int].words.contains(next.term)
                &&& !measurable(
                    path.last().position,
                    next.position,
                    clause[path.len() - 1].distance,
                    clause[path.len() - 1].in_order,
                )
            },
{
    let starts = Set::empty().insert(start.position);
    assert(starts.contains(start.position));
    lemma_follow_exceeds(document, clause, 0, starts);
    if !chain_measurable(document, clause, start) {
        let (point, rest, next) = choose|point: u32, rest: Seq<Token>, next: Token|
            exceeds(document, clause, 0, starts, point, rest, next);
        let path = seq![start] + rest;
        assert(path.drop_first() =~= rest);
        lemma_leads_path(document, clause, 0, path);
        assert(is_path(document, clause, 0, path));
        assert(path.last().position == end_of(point, rest));
        assert(document.contains(next));
    }
    if exists|path: Seq<Token>, next: Token|
        #![trigger is_path(document, clause, 0, path), document.contains(next)]
        {
            &&& is_path(document, clause, 0, path)
            &&& path[0] == start
            &&& path.len() < clause.len()
            &&& document.contains(next)
            &&& clause[path.len() as int].words.contains(next.term)
            &&& !measurable(
                path.last().position,
                next.position,
                clause[path.len() - 1].distance,
                clause[path.len() - 1].in_order,
            )
        } {
        let (path, next) = choose|path: Seq<Token>, next: Token|
            #![trigger is_path(document, clause, 0, path), document.contains(next)]
            {
                &&& is_path(document, clause, 0, path)
                &&& path[0] == start
                &&& path.len() < clause.len()
                &&& document.contains(next)
                &&& clause[path.len() as int].words.contains(next.term)
                &&& !measurable(
                    path.last().position,
                    next.position,
                    clause[path.len() - 1].distance,
                    clause[path.len() - 1].in_order,
                )
            };
        lemma_leads_path(document, clause, 0, path);
        let rest = path.drop_first();
        assert(path.last().position == end_of(start.position, rest));
        assert(exceeds(document, clause, 0, starts, start.position, rest, next));
    }
}

/// A proximity search is refused exactly if it comes to a distance that cannot be measured: from the
/// end of a path to a token of the next part, with the greatest distance of all where the order
/// counts and that token is behind, or with a difference or a limit that no signed number holds where
/// it does not. It does not come to the paths of a first word if one of those before it does not
/// occur.
pub proof fn law_proximity_refused(document: Seq<Token>, clause: Seq<Part>)
    ensures
        !proximity_measurable(document, clause) <==> exists|first: int, path: Seq<Token>, next: Token|
            #![trigger clause[0].words[first], path.len(), document.contains(next)]
            {
                &&& 0 <= first < clause[0].words.len()
                &&& forall|word: Seq<char>| #[trigger]
                    clause[0].words.take(first).contains(word) ==> exists|t: Token| #[trigger]
                        document.contains(t) && t.term == word
                &&& 1 <= path.len() < clause.len()
                &&& path[0].term == clause[0].words[first]
                &&& forall|i: int|
                    0 <= i < path.len() ==> (#[trigger] clause[i]).words.contains(path[i].term)
                        && document.contains(path[i])
                &&& forall|i: int|
                    0 <= i < path.len() - 1 ==> {
                        let (p, q) = (path[i].position, path[i + 1].position);
                        if (#[trigger] clause[i]).in_order {
                            p < q && q - p <= clause[i].distance + 1
                        } else {
                            -(clause[i].distance as i32 + 1) <= p as i32 - q as i32
                                <= clause[i].distance as i32 + 1
                        }
                    }
                &&& document.contains(next)
                &&& clause[path.len() as int].words.contains(next.term)
                &&& ({
                    let (p, q) = (path.last().position, next.position);
                    let part = clause[path.len() - 1];
                    if part.in_order {
                        p < q && part.distance == u32::MAX
                    } else {
                        ||| p as i32 - q as i32 <= i32::MIN
                        ||| p as i32 - q as i32 > i32::MAX
                        ||| part.distance as i32 == i32::MAX
                    }
                })
            },
{
    if clause.len() >= 2 {
        let words = clause[0].words;
        if !chains_measurable(document, clause, words) {
            let (first, start) = choose|first: int, start: Token|
                #![trigger words[first], document.contains(start)]
                0 <= first < words.len() && all_occur(document, words.take(first))
                    && document.contains(start) && start.term == words[first] && !chain_measurable(
                    document,
                    clause,
                    start,
                );
            assert(words.contains(words[first]));
            lemma_all_occur(document, words.take(first));
            lemma_chain_exceeds(document, clause, start);
            let (path, next) = choose|path: Seq<Token>, next: Token|
                #![trigger is_path(document, clause, 0, path), document.contains(next)]
                {
                    &&& is_path(document, clause, 0, path)
                    &&& path[0] == start
                    &&& path.len() < clause.len()
                    &&& document.contains(next)
                    &&& clause[path.len() as int].words.contains(next.term)
                    &&& !measurable(
                        path.last().position,
                        next.position,
                        clause[path.len() - 1].distance,
                        clause[path.len() - 1].in_order,
                    )
                };
            assert(1 <= path.len() < clause.len());
            assert(path[0].term == clause[0].words[first]);
            assert(document.contains(next));
        }
        if exists|first: int, path: Seq<Token>, next: Token|
            #![trigger clause[0].words[first], path.len(), document.contains(next)]
            {
                &&& 0 <= first < clause[0].words.len()
                &&& forall|word: Seq<char>| #[trigger]
                    clause[0].words.take(first).contains(word) ==> exists|t: Token| #[trigger]
                        document.contains(t) && t.term == word
                &&& 1 <= path.len() < clause.len()
                &&& path[0].term == clause[0].words[first]
                &&& forall|i: int|
                    0 <= i < path.len() ==> (#[trigger] clause[i]).words.contains(path[i].term)
                        && document.contains(path[i])
                &&& forall|i: int|
                    0 <= i < path.len() - 1 ==> {
                        let (p, q) = (path[i].position, path[i + 1].position);
                        if (#[trigger] clause[i]).in_order {
                            p < q && q - p <= clause[i].distance + 1
                        } else {
                            -(clause[i].distance as i32 + 1) <= p as i32 - q as i32
                                <= clause[i].distance as i32 + 1
                        }
                    }
                &&& document.contains(next)
                &&& clause[path.len() as int].words.contains(next.term)
                &&& ({
                    let (p, q) = (path.last().position, next.position);
                    let part = clause[path.len() - 1];
                    if part.in_order {
                        p < q && part.distance == u32::MAX
                    } else {
                        ||| p as i32 - q as i32 <= i32::MIN
                        ||| p as i32 - q as i32 > i32::MAX
                        ||| part.distance as i32 == i32::MAX
                    }
                })
            } {
            let (first, path, next) = choose|first: int, path: Seq<Token>, next: Token|
            #![trigger clause[0].words[first], path.len(), document.contains(next)]
            {
                &&& 0 <= first < clause[0].words.len()
                &&& forall|word: Seq<char>| #[trigger]
                    clause[0].words.take(first).contains(word) ==> exists|t: Token| #[trigger]
                        document.contains(t) && t.term == word
                &&& 1 <= path.len() < clause.len()
                &&& path[0].term == clause[0].words[first]
                &&& forall|i: int|
                    0 <= i < path.len() ==> (#[trigger] clause[i]).words.contains(path[i].term)
                        && document.contains(path[i])
                &&& forall|i: int|
                    0 <= i < path.len() - 1 ==> {
                        let (p, q) = (path[i].position, path[i + 1].position);
                        if (#[trigger] clause[i]).in_order {
                            p < q && q - p <= clause[i].distance + 1
                        } else {
                            -(clause[i].distance as i32 + 1) <= p as i32 - q as i32
                                <= clause[i].distance as i32 + 1
                        }
                    }
                &&& document.contains(next)
                &&& clause[path.len() as int].words.contains(next.term)
                &&& ({
                    let (p, q) = (path.last().position, next.position);
                    let part = clause[path.len() - 1];
                    if part.in_order {
                        p < q && part.distance == u32::MAX
                    } else {
                        ||| p as i32 - q as i32 <= i32::MIN
                        ||| p as i32 - q as i32 > i32::MAX
                        ||| part.distance as i32 == i32::MAX
                    }
                })
            };
            let start = path[0];
            assert(clause[0].words.contains(path[0].term));
            lemma_all_occur(document, words.take(first));
            assert(is_path(document, clause, 0, path)) by {
                assert(forall|i: int|
                    0 <= i < 0 + path.len() ==> (#[trigger] clause[i]).words.contains(
                        path[i - 0].term,
                    ) && document.contains(path[i - 0]));
            }
            lemma_chain_exceeds(document, clause, start);
            assert(!chain_measurable(document, clause, start));
            assert(document.contains(start) && start.term == words[first]);
        }
    }
}

} // verus!
