//! Edit distance between character sequences, and the prefix-biased
//! distance between a query token and a name token.

use vstd::prelude::*;

verus! {

/// The smaller of two numbers.
pub open spec fn min2(a: nat, b: nat) -> nat {
    if a <= b {
        a
    } else {
        b
    }
}

/// What replacing `x` by `y` costs.
pub open spec fn substitution_cost(x: char, y: char) -> nat {
    if x == y {
        0
    } else {
        1
    }
}

/// The Levenshtein distance between `a` and `b`, where inserting, deleting
/// and substituting a character cost one each. To an empty sequence it is
/// the length of the other; else it is the least of: the distance without
/// the last character of `a`, plus one; the distance without the last
/// character of `b`, plus one; and the distance without both, plus one
/// where the two differ. That this is the least number of such edits that
/// turn `a` into `b` is proved where edit scripts are defined.
pub open spec fn edit_distance(a: Seq<char>, b: Seq<char>) -> nat
    decreases a.len() + b.len(),
{
    if a.len() == 0 {
        b.len()
    } else if b.len() == 0 {
        a.len()
    } else {
        min2(
            min2(edit_distance(a.drop_last(), b) + 1, edit_distance(a, b.drop_last()) + 1),
            edit_distance(a.drop_last(), b.drop_last()) + substitution_cost(a.last(), b.last()),
        )
    }
}

/// The distance never exceeds the longer length.
pub proof fn lemma_edit_distance_bound(a: Seq<char>, b: Seq<char>)
    ensures
        edit_distance(a, b) <= a.len() || edit_distance(a, b) <= b.len(),
    decreases a.len() + b.len(),
{
    if a.len() != 0 && b.len() != 0 {
        lemma_edit_distance_bound(a.drop_last(), b.drop_last());
    }
}

/// The distance between a sequence and itself is zero.
pub proof fn lemma_edit_distance_same(a: Seq<char>)
    ensures
        edit_distance(a, a) == 0,
    decreases a.len(),
{
    if a.len() != 0 {
        lemma_edit_distance_same(a.drop_last());
    }
}

/// The distance is symmetric.
pub proof fn lemma_edit_distance_symmetric(a: Seq<char>, b: Seq<char>)
    ensures
        edit_distance(a, b) == edit_distance(b, a),
    decreases a.len() + b.len(),
{
    if a.len() != 0 && b.len() != 0 {
        lemma_edit_distance_symmetric(a.drop_last(), b);
        lemma_edit_distance_symmetric(a, b.drop_last());
        lemma_edit_distance_symmetric(a.drop_last(), b.drop_last());
    }
}

/// The distance is at least the difference of the lengths.
pub proof fn lemma_edit_distance_lengths(a: Seq<char>, b: Seq<char>)
    ensures
        a.len() <= b.len() + edit_distance(a, b),
        b.len() <= a.len() + edit_distance(a, b),
    decreases a.len() + b.len(),
{
    if a.len() != 0 && b.len() != 0 {
        lemma_edit_distance_lengths(a.drop_last(), b);
        lemma_edit_distance_lengths(a, b.drop_last());
        lemma_edit_distance_lengths(a.drop_last(), b.drop_last());
    }
}

/// Only equal sequences are at distance zero.
pub proof fn lemma_edit_distance_zero(a: Seq<char>, b: Seq<char>)
    requires
        edit_distance(a, b) == 0,
    ensures
        a == b,
    decreases a.len() + b.len(),
{
    if a.len() == 0 || b.len() == 0 {
        assert(a =~= b);
    } else {
        lemma_edit_distance_zero(a.drop_last(), b.drop_last());
        assert(a =~= a.drop_last().push(a.last()));
        assert(b =~= b.drop_last().push(b.last()));
    }
}

/// The triangle inequality: going from `a` to `b` by way of `c` costs no
/// less than going directly.
pub proof fn lemma_edit_distance_triangle(a: Seq<char>, c: Seq<char>, b: Seq<char>)
    ensures
        edit_distance(a, b) <= edit_distance(a, c) + edit_distance(c, b),
    decreases a.len() + c.len() + b.len(),
{
    if a.len() == 0 || b.len() == 0 {
        lemma_edit_distance_lengths(a, c);
        lemma_edit_distance_lengths(c, b);
    } else if c.len() == 0 {
        lemma_edit_distance_bound(a, b);
    } else {
        lemma_edit_distance_triangle(a.drop_last(), c, b);
        lemma_edit_distance_triangle(a, c, b.drop_last());
        lemma_edit_distance_triangle(a, c.drop_last(), b);
        lemma_edit_distance_triangle(a, c.drop_last(), b.drop_last());
        lemma_edit_distance_triangle(a.drop_last(), c.drop_last(), b);
        lemma_edit_distance_triangle(a.drop_last(), c.drop_last(), b.drop_last());
    }
}

/// The distances between `a` and the non-empty prefixes of `b` up to length
/// `limit`: entry `j` is the distance to the prefix of length `j + 1`.
pub fn distance_row(a: &Vec<char>, b: &Vec<char>, limit: usize) -> (row: Vec<usize>)
    requires
        limit <= b.len(),
    ensures
        row.len() == limit,
        forall|j: int| 0 <= j < limit ==> #[trigger] row[j] == edit_distance(a@, b@.take(j + 1)),
{
    let n = a.len();
    let mut prev: Vec<usize> = Vec::new();
    let mut j: usize = 0;
    while j < limit
        invariant
            j <= limit <= b.len(),
            prev.len() == j,
            forall|k: int| 0 <= k < j ==> prev[k] == k + 1,
        decreases limit - j,
    {
        prev.push(j + 1);
        j += 1;
    }
    assert(a@.take(0).len() == 0);
    let mut i: usize = 0;
    while i < n
        invariant
            i <= n == a.len(),
            limit <= b.len(),
            prev.len() == limit,
            forall|k: int|
                0 <= k < limit ==> #[trigger] prev[k] == edit_distance(
                    a@.take(i as int),
                    b@.take(k + 1),
                ),
        decreases n - i,
    {
        let ghost a_old = a@.take(i as int);
        let ghost a_new = a@.take(i + 1);
        assert(a_new.drop_last() =~= a_old);
        assert(a_new.last() == a@[i as int]);
        let mut cur: Vec<usize> = Vec::new();
        let mut j: usize = 0;
        while j < limit
            invariant
                j <= limit <= b.len(),
                i < n == a.len(),
                a_old == a@.take(i as int),
                a_new == a@.take(i + 1),
                a_new.drop_last() == a_old,
                a_new.last() == a@[i as int],
                prev.len() == limit,
                cur.len() == j,
                forall|k: int|
                    0 <= k < limit ==> #[trigger] prev[k] == edit_distance(a_old, b@.take(k + 1)),
                forall|k: int|
                    0 <= k < j ==> #[trigger] cur[k] == edit_distance(a_new, b@.take(k + 1)),
            decreases limit - j,
        {
            let ghost b_new = b@.take(j + 1);
            let ghost b_old = b@.take(j as int);
            assert(b_new.drop_last() =~= b_old);
            assert(b_new.last() == b@[j as int]);
            proof {
                lemma_edit_distance_bound(a_old, b_old);
            }
            let diag: usize = if j == 0 {
                i
            } else {
                prev[j - 1]
            };
            assert(diag == edit_distance(a_old, b_old));
            let up: usize = prev[j];
            let left: usize = if j == 0 {
                i + 1
            } else {
                cur[j - 1]
            };
            assert(left == edit_distance(a_new, b_old));
            let cost: usize = if a[i] == b[j] {
                0
            } else {
                1
            };
            let near: usize = if up <= left {
                up
            } else {
                left
            };
            let value: usize = if near < diag {
                if near + 1 <= diag + cost {
                    near + 1
                } else {
                    diag + cost
                }
            } else {
                diag + cost
            };
            assert(value == edit_distance(a_new, b_new));
            cur.push(value);
            j += 1;
        }
        prev = cur;
        i += 1;
    }
    assert(a@.take(n as int) =~= a@);
    prev
}

/// The Levenshtein distance between `a` and `b`.
pub fn levenshtein(a: &Vec<char>, b: &Vec<char>) -> (d: usize)
    ensures
        d == edit_distance(a@, b@),
{
    if b.len() == 0 {
        a.len()
    } else {
        let row = distance_row(a, b, b.len());
        assert(b@.take(b.len() as int) =~= b@);
        row[b.len() - 1]
    }
}

} // verus!
