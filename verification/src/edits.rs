//! Edit scripts: the edit distance is the length of the shortest way from
//! one sequence to another by insertions, deletions and substitutions of
//! one character.

use vstd::prelude::*;
use crate::distance::{
    edit_distance, lemma_edit_distance_same, lemma_edit_distance_symmetric,
    lemma_edit_distance_triangle, substitution_cost,
};

verus! {

/// Whether `b` is `a` with one character inserted.
pub open spec fn is_insertion(a: Seq<char>, b: Seq<char>) -> bool {
    exists|p: int, c: char| 0 <= p <= a.len() && b == #[trigger] a.insert(p, c)
}

/// Whether `b` is `a` with one character deleted.
pub open spec fn is_deletion(a: Seq<char>, b: Seq<char>) -> bool {
    exists|p: int| 0 <= p < a.len() && b == #[trigger] a.remove(p)
}

/// Whether `b` is `a` with one character replaced by another.
pub open spec fn is_substitution(a: Seq<char>, b: Seq<char>) -> bool {
    exists|p: int, c: char| 0 <= p < a.len() && b == #[trigger] a.update(p, c)
}

/// Whether one edit turns `a` into `b`.
pub open spec fn one_edit(a: Seq<char>, b: Seq<char>) -> bool {
    is_insertion(a, b) || is_deletion(a, b) || is_substitution(a, b)
}

/// Whether `script` leads from `a` to `b`, each of its sequences one edit
/// away from the one before. It makes one edit less than it has sequences.
pub open spec fn is_script(script: Seq<Seq<char>>, a: Seq<char>, b: Seq<char>) -> bool {
    &&& script.len() >= 1
    &&& script[0] == a
    &&& script.last() == b
    &&& forall|i: int| 0 <= i < script.len() - 1 ==> one_edit(#[trigger] script[i], script[i + 1])
}

/// Every sequence of `script` with `x` appended.
pub open spec fn each_with(script: Seq<Seq<char>>, x: char) -> Seq<Seq<char>> {
    script.map_values(|s: Seq<char>| s.push(x))
}

/// A shortest script from `a` to `b`, built along the recurrence of the
/// distance.
pub open spec fn shortest_script(a: Seq<char>, b: Seq<char>) -> Seq<Seq<char>>
    decreases a.len() + b.len(),
{
    if a.len() == 0 {
        Seq::new(b.len() + 1, |i: int| b.take(i))
    } else if b.len() == 0 {
        Seq::new(a.len() + 1, |i: int| a.take(a.len() - i))
    } else if edit_distance(a, b) == edit_distance(a.drop_last(), b) + 1 {
        seq![a] + shortest_script(a.drop_last(), b)
    } else if edit_distance(a, b) == edit_distance(a, b.drop_last()) + 1 {
        shortest_script(a, b.drop_last()).push(b)
    } else {
        let kept = each_with(shortest_script(a.drop_last(), b.drop_last()), a.last());
        if a.last() == b.last() {
            kept
        } else {
            kept.push(b)
        }
    }
}

/// Inserting one character costs at most one.
pub proof fn lemma_insertion_costs_one(a: Seq<char>, p: int, c: char)
    requires
        0 <= p <= a.len(),
    ensures
        edit_distance(a, a.insert(p, c)) <= 1,
    decreases a.len(),
{
    let b = a.insert(p, c);
    if p == a.len() {
        assert(b =~= a.push(c));
        assert(b.drop_last() =~= a);
        lemma_edit_distance_same(a);
    } else {
        assert(b.last() == a.last());
        assert(b.drop_last() =~= a.drop_last().insert(p, c));
        lemma_insertion_costs_one(a.drop_last(), p, c);
    }
}

/// Replacing one character costs at most one.
pub proof fn lemma_substitution_costs_one(a: Seq<char>, p: int, c: char)
    requires
        0 <= p < a.len(),
    ensures
        edit_distance(a, a.update(p, c)) <= 1,
    decreases a.len(),
{
    let b = a.update(p, c);
    if p == a.len() - 1 {
        assert(b.drop_last() =~= a.drop_last());
        lemma_edit_distance_same(a.drop_last());
    } else {
        assert(b.last() == a.last());
        assert(b.drop_last() =~= a.drop_last().update(p, c));
        lemma_substitution_costs_one(a.drop_last(), p, c);
    }
}

/// Sequences one edit apart are at distance one at most.
pub proof fn lemma_one_edit_costs_one(a: Seq<char>, b: Seq<char>)
    requires
        one_edit(a, b),
    ensures
        edit_distance(a, b) <= 1,
{
    if is_insertion(a, b) {
        let (p, c) = choose|p: int, c: char| 0 <= p <= a.len() && b == #[trigger] a.insert(p, c);
        lemma_insertion_costs_one(a, p, c);
    } else if is_deletion(a, b) {
        let p = choose|p: int| 0 <= p < a.len() && b == #[trigger] a.remove(p);
        assert(b.insert(p, a[p]) =~= a);
        lemma_insertion_costs_one(b, p, a[p]);
        lemma_edit_distance_symmetric(a, b);
    } else {
        let (p, c) = choose|p: int, c: char| 0 <= p < a.len() && b == #[trigger] a.update(p, c);
        lemma_substitution_costs_one(a, p, c);
    }
}

/// No script from `a` to `b` makes fewer edits than the distance.
pub proof fn lemma_script_bound(script: Seq<Seq<char>>, a: Seq<char>, b: Seq<char>)
    requires
        is_script(script, a, b),
    ensures
        edit_distance(a, b) <= script.len() - 1,
    decreases script.len(),
{
    if script.len() == 1 {
        lemma_edit_distance_same(a);
    } else {
        let front = script.drop_last();
        let mid = front.last();
        assert(front[0] == script[0]);
        assert forall|i: int| 0 <= i < front.len() - 1 implies one_edit(
            #[trigger] front[i],
            front[i + 1],
        ) by {
            assert(front[i] == script[i]);
            assert(front[i + 1] == script[i + 1]);
        }
        lemma_script_bound(front, a, mid);
        assert(mid == script[script.len() - 2]);
        assert(one_edit(script[script.len() - 2], script[script.len() - 2 + 1]));
        lemma_one_edit_costs_one(mid, b);
        lemma_edit_distance_triangle(a, mid, b);
    }
}

/// An edit stays an edit when the same character is appended to both
/// sequences.
pub proof fn lemma_edit_with(s: Seq<char>, t: Seq<char>, x: char)
    requires
        one_edit(s, t),
    ensures
        one_edit(s.push(x), t.push(x)),
{
    if is_insertion(s, t) {
        let (p, c) = choose|p: int, c: char| 0 <= p <= s.len() && t == #[trigger] s.insert(p, c);
        assert(t.push(x) =~= s.push(x).insert(p, c));
        assert(is_insertion(s.push(x), t.push(x)));
    } else if is_deletion(s, t) {
        let p = choose|p: int| 0 <= p < s.len() && t == #[trigger] s.remove(p);
        assert(t.push(x) =~= s.push(x).remove(p));
        assert(is_deletion(s.push(x), t.push(x)));
    } else {
        let (p, c) = choose|p: int, c: char| 0 <= p < s.len() && t == #[trigger] s.update(p, c);
        assert(t.push(x) =~= s.push(x).update(p, c));
        assert(is_substitution(s.push(x), t.push(x)));
    }
}

/// The shortest script is a script, and it makes as many edits as the
/// distance says.
pub proof fn lemma_shortest_script(a: Seq<char>, b: Seq<char>)
    ensures
        is_script(shortest_script(a, b), a, b),
        shortest_script(a, b).len() == edit_distance(a, b) + 1,
    decreases a.len() + b.len(),
{
    let script = shortest_script(a, b);
    if a.len() == 0 {
        assert(script[0] =~= a);
        assert(script.last() =~= b);
        assert forall|i: int| 0 <= i < script.len() - 1 implies one_edit(
            #[trigger] script[i],
            script[i + 1],
        ) by {
            assert(b.take(i + 1) =~= b.take(i).insert(i, b[i]));
            assert(is_insertion(script[i], script[i + 1]));
        }
    } else if b.len() == 0 {
        assert(script[0] =~= a);
        assert(script.last() =~= b);
        assert forall|i: int| 0 <= i < script.len() - 1 implies one_edit(
            #[trigger] script[i],
            script[i + 1],
        ) by {
            let n = a.len() - i;
            assert(a.take(n - 1) =~= a.take(n).remove(n - 1));
            assert(is_deletion(script[i], script[i + 1]));
        }
    } else if edit_distance(a, b) == edit_distance(a.drop_last(), b) + 1 {
        let rest = shortest_script(a.drop_last(), b);
        lemma_shortest_script(a.drop_last(), b);
        assert(script[0] == a);
        assert(script.last() == rest.last());
        assert forall|i: int| 0 <= i < script.len() - 1 implies one_edit(
            #[trigger] script[i],
            script[i + 1],
        ) by {
            if i == 0 {
                assert(script[1] == rest[0]);
                assert(a.drop_last() =~= a.remove(a.len() - 1));
                assert(is_deletion(a, a.drop_last()));
            } else {
                assert(script[i] == rest[i - 1]);
                assert(script[i + 1] == rest[i - 1 + 1]);
            }
        }
    } else if edit_distance(a, b) == edit_distance(a, b.drop_last()) + 1 {
        let rest = shortest_script(a, b.drop_last());
        lemma_shortest_script(a, b.drop_last());
        assert(script[0] == rest[0]);
        assert forall|i: int| 0 <= i < script.len() - 1 implies one_edit(
            #[trigger] script[i],
            script[i + 1],
        ) by {
            if i == rest.len() - 1 {
                assert(script[i] == b.drop_last());
                assert(b =~= b.drop_last().insert(b.len() - 1, b.last()));
                assert(is_insertion(b.drop_last(), b));
            } else {
                assert(script[i] == rest[i]);
                assert(script[i + 1] == rest[i + 1]);
            }
        }
    } else {
        let rest = shortest_script(a.drop_last(), b.drop_last());
        let x = a.last();
        let kept = each_with(rest, x);
        lemma_shortest_script(a.drop_last(), b.drop_last());
        assert(edit_distance(a, b) == edit_distance(a.drop_last(), b.drop_last())
            + substitution_cost(a.last(), b.last()));
        assert(kept[0] =~= a);
        assert(kept.last() =~= b.drop_last().push(x));
        assert forall|i: int| 0 <= i < kept.len() - 1 implies one_edit(
            #[trigger] kept[i],
            kept[i + 1],
        ) by {
            assert(one_edit(rest[i], rest[i + 1]));
            lemma_edit_with(rest[i], rest[i + 1], x);
        }
        if a.last() == b.last() {
            assert(b.drop_last().push(x) =~= b);
        } else {
            assert(script[0] == kept[0]);
            assert forall|i: int| 0 <= i < script.len() - 1 implies one_edit(
                #[trigger] script[i],
                script[i + 1],
            ) by {
                if i == kept.len() - 1 {
                    let before = b.drop_last().push(x);
                    assert(script[i] == before);
                    assert(b =~= before.update(b.len() - 1, b.last()));
                    assert(is_substitution(before, b));
                } else {
                    assert(script[i] == kept[i]);
                    assert(script[i + 1] == kept[i + 1]);
                }
            }
        }
    }
}

/// The edit distance is the least number of edits that turn `a` into `b`:
/// some script makes exactly that many, and none makes fewer.
pub proof fn lemma_edit_distance_is_least(a: Seq<char>, b: Seq<char>)
    ensures
        exists|script: Seq<Seq<char>>|
            #[trigger] is_script(script, a, b) && script.len() - 1 == edit_distance(a, b),
        forall|script: Seq<Seq<char>>|
            #[trigger] is_script(script, a, b) ==> edit_distance(a, b) <= script.len() - 1,
{
    lemma_shortest_script(a, b);
    assert(is_script(shortest_script(a, b), a, b));
    assert forall|script: Seq<Seq<char>>| #[trigger] is_script(script, a, b) implies edit_distance(
        a,
        b,
    ) <= script.len() - 1 by {
        lemma_script_bound(script, a, b);
    }
}

} // verus!
