//! What the edit distance counts: insertions, deletions and substitutions of single characters.

use crate::fuzzy::edit_distance;
use crate::laws::{law_distance_bounds, law_distance_zero};
use vstd::prelude::*;

verus! {

/// The way over a third string is never shorter.
pub proof fn law_distance_triangle(a: Seq<char>, b: Seq<char>, c: Seq<char>)
    ensures
        edit_distance(a, c) <= edit_distance(a, b) + edit_distance(b, c),
    decreases a.len() + b.len() + c.len(),
{
    law_distance_bounds(a, b);
    law_distance_bounds(b, c);
    law_distance_bounds(a, c);
    if a.len() > 0 && b.len() > 0 && c.len() > 0 {
        let (p, q, r) = (a.drop_last(), b.drop_last(), c.drop_last());
        law_distance_triangle(p, b, c);
        law_distance_triangle(a, b, r);
        law_distance_triangle(a, q, c);
        law_distance_triangle(a, q, r);
        law_distance_triangle(p, q, c);
        law_distance_triangle(p, q, r);
    }
}

/// The same end adds nothing to the distance.
proof fn lemma_same_end(a: Seq<char>, b: Seq<char>, end: Seq<char>)
    ensures
        edit_distance(a + end, b + end) <= edit_distance(a, b),
    decreases end.len(),
{
    if end.len() == 0 {
        assert(a + end =~= a);
        assert(b + end =~= b);
    } else {
        lemma_same_end(a, b, end.drop_last());
        assert((a + end).drop_last() =~= a + end.drop_last());
        assert((b + end).drop_last() =~= b + end.drop_last());
        assert((a + end).last() == (b + end).last());
    }
}

proof fn lemma_last_edit(s: Seq<char>, x: char, y: char)
    ensures
        edit_distance(s.push(x), s) <= 1,
        edit_distance(s, s.push(x)) <= 1,
        edit_distance(s.push(x), s.push(y)) <= 1,
{
    law_distance_zero(s, s);
    assert(s.push(x).drop_last() =~= s);
    assert(s.push(y).drop_last() =~= s);
}

/// The distance is at most one exactly between equal strings and where one character is deleted,
/// inserted or replaced.
pub proof fn law_one_edit(a: Seq<char>, b: Seq<char>)
    ensures
        edit_distance(a, b) <= 1 <==> {
            ||| a == b
            ||| exists|i: int| 0 <= i < a.len() && b == #[trigger] a.remove(i)
            ||| exists|i: int| 0 <= i < b.len() && a == #[trigger] b.remove(i)
            ||| a.len() == b.len() && exists|i: int, c: char|
                0 <= i < a.len() && b == #[trigger] a.update(i, c)
        },
    decreases a.len() + b.len(),
{
    law_distance_zero(a, b);
    if edit_distance(a, b) <= 1 && a != b {
        law_distance_bounds(a, b);
        if a.len() == 0 {
            assert(a =~= b.remove(0));
        } else if b.len() == 0 {
            assert(b =~= a.remove(0));
        } else {
            let (p, q) = (a.drop_last(), b.drop_last());
            let (x, y) = (a.last(), b.last());
            let (m, n) = (a.len() - 1, b.len() - 1);
            assert(a =~= p.push(x));
            assert(b =~= q.push(y));
            law_distance_zero(p, b);
            law_distance_zero(a, q);
            law_distance_zero(p, q);
            if p == b {
                assert(b =~= a.remove(m));
            } else if a == q {
                assert(a =~= b.remove(n));
            } else if x != y {
                assert(p == q);
                assert(b =~= a.update(m, y));
            } else {
                assert(edit_distance(p, q) <= 1);
                law_one_edit(p, q);
                if p == q {
                    assert(a =~= b);
                } else if exists|i: int| 0 <= i < p.len() && q == #[trigger] p.remove(i) {
                    let i = choose|i: int| 0 <= i < p.len() && q == #[trigger] p.remove(i);
                    assert(b =~= a.remove(i));
                } else if exists|i: int| 0 <= i < q.len() && p == #[trigger] q.remove(i) {
                    let i = choose|i: int| 0 <= i < q.len() && p == #[trigger] q.remove(i);
                    assert(a =~= b.remove(i));
                } else {
                    let (i, c) = choose|i: int, c: char|
                        0 <= i < p.len() && q == #[trigger] p.update(i, c);
                    assert(b =~= a.update(i, c));
                }
            }
        }
    }
    assert forall|i: int| 0 <= i < a.len() && b == #[trigger] a.remove(i) implies edit_distance(a, b)
        <= 1 by {
        let (start, end) = (a.take(i), a.skip(i + 1));
        lemma_last_edit(start, a[i], a[i]);
        lemma_same_end(start.push(a[i]), start, end);
        assert(a =~= start.push(a[i]) + end);
        assert(b =~= start + end);
    }
    assert forall|i: int| 0 <= i < b.len() && a == #[trigger] b.remove(i) implies edit_distance(a, b)
        <= 1 by {
        let (start, end) = (b.take(i), b.skip(i + 1));
        lemma_last_edit(start, b[i], b[i]);
        lemma_same_end(start, start.push(b[i]), end);
        assert(b =~= start.push(b[i]) + end);
        assert(a =~= start + end);
    }
    assert forall|i: int, c: char|
        0 <= i < a.len() && b == #[trigger] a.update(i, c) implies edit_distance(a, b) <= 1 by {
        let (start, end) = (a.take(i), a.skip(i + 1));
        lemma_last_edit(start, a[i], c);
        lemma_same_end(start.push(a[i]), start.push(c), end);
        assert(a =~= start.push(a[i]) + end);
        assert(b =~= start.push(c) + end);
    }
}

proof fn lemma_from_first(s: Seq<char>)
    requires
        s.len() > 0,
    ensures
        edit_distance(seq![s[0]], s) <= s.len() - 1,
    decreases s.len(),
{
    let first = seq![s[0]];
    if s.len() == 1 {
        assert(first =~= s);
        law_distance_zero(s, s);
    } else {
        lemma_from_first(s.drop_last());
        assert(s.drop_last()[0] == s[0]);
    }
}

/// A string some edits away is one edit from a string that is one edit nearer.
proof fn lemma_nearer(a: Seq<char>, b: Seq<char>) -> (c: Seq<char>)
    requires
        edit_distance(a, b) > 0,
    ensures
        edit_distance(a, c) <= 1,
        edit_distance(c, b) <= edit_distance(a, b) - 1,
    decreases a.len() + b.len(),
{
    law_distance_zero(a, a);
    law_distance_zero(b, b);
    if a.len() == 0 {
        lemma_from_first(b);
        let c = seq![b[0]];
        c
    } else if b.len() == 0 {
        lemma_last_edit(a.drop_last(), a.last(), a.last());
        assert(a =~= a.drop_last().push(a.last()));
        a.drop_last()
    } else {
        let (p, q) = (a.drop_last(), b.drop_last());
        let (x, y) = (a.last(), b.last());
        lemma_last_edit(p, x, y);
        assert(a =~= p.push(x));
        assert(b =~= q.push(y));
        lemma_last_edit(q, y, y);
        if edit_distance(a, b) == edit_distance(p, b) + 1 {
            p
        } else if edit_distance(a, b) == edit_distance(a, q) + 1 {
            if edit_distance(a, q) == 0 {
                b
            } else {
                let c = lemma_nearer(a, q);
                law_distance_triangle(c, q, b);
                c
            }
        } else if x == y {
            let c = lemma_nearer(p, q);
            lemma_same_end(p, c, seq![x]);
            lemma_same_end(c, q, seq![x]);
            assert(p + seq![x] =~= a);
            assert(q + seq![x] =~= b);
            c + seq![x]
        } else {
            lemma_same_end(p, q, seq![y]);
            assert(p + seq![y] =~= p.push(y));
            assert(q + seq![y] =~= b);
            p.push(y)
        }
    }
}

/// A string is at most one more than `n` edits away exactly if it is at most `n` edits away from a
/// string that is at most one edit away. With [`law_one_edit`] this says of every number of edits
/// which strings they reach.
pub proof fn law_more_edits(a: Seq<char>, b: Seq<char>, n: nat)
    ensures
        edit_distance(a, b) <= n + 1 <==> exists|c: Seq<char>| #[trigger]
            edit_distance(a, c) <= 1 && edit_distance(c, b) <= n,
{
    if edit_distance(a, b) <= n + 1 {
        if edit_distance(a, b) == 0 {
            law_distance_zero(a, a);
            assert(edit_distance(a, a) <= 1);
        } else {
            let c = lemma_nearer(a, b);
            assert(edit_distance(a, c) <= 1);
        }
    }
    assert forall|c: Seq<char>| #[trigger] edit_distance(a, c) <= 1 && edit_distance(c, b)
        <= n implies edit_distance(a, b) <= n + 1 by {
        law_distance_triangle(a, c, b);
    }
}

} // verus!
