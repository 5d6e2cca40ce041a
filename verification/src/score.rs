//! How well a tokenized query matches a tokenized course name.

use vstd::prelude::*;
use crate::distance::{distance_row, edit_distance, levenshtein, min2};
use crate::text::{lemma_total_len_concat, starts_with, total_len, words};

verus! {

/// The shortest name prefix that a query token is compared with:
/// one character less than the token, but at least one.
pub open spec fn shortest_prefix(q: Seq<char>) -> nat {
    if q.len() <= 2 {
        1
    } else {
        (q.len() - 1) as nat
    }
}

/// The longest name prefix that a query token is compared with:
/// two characters more than the token, but no more than the name token has.
pub open spec fn longest_prefix(q: Seq<char>, n: Seq<char>) -> nat {
    min2(q.len() + 2, n.len())
}

/// The least edit distance between `q` and the prefixes of `n` whose length
/// lies between `lo` and `hi`, both included.
pub open spec fn closest_prefix(q: Seq<char>, n: Seq<char>, lo: nat, hi: nat) -> nat
    decreases hi,
{
    if hi <= lo {
        edit_distance(q, n.take(lo as int))
    } else {
        min2(closest_prefix(q, n, lo, (hi - 1) as nat), edit_distance(q, n.take(hi as int)))
    }
}

/// The distance between a query token and a name token: zero where the name
/// token starts with the query token, else the least edit distance to a
/// prefix of similar length, else (the name token being too short for any
/// such prefix) the edit distance to the whole name token.
pub open spec fn token_distance(q: Seq<char>, n: Seq<char>) -> nat {
    if q.is_prefix_of(n) {
        0
    } else if shortest_prefix(q) <= longest_prefix(q, n) {
        closest_prefix(q, n, shortest_prefix(q), longest_prefix(q, n))
    } else {
        edit_distance(q, n)
    }
}

/// The least distance between `q` and any of `names`; none without names.
pub open spec fn best_distance(q: Seq<char>, names: Seq<Seq<char>>) -> Option<nat>
    decreases names.len(),
{
    if names.len() == 0 {
        None
    } else {
        let d = token_distance(q, names.last());
        match best_distance(q, names.drop_last()) {
            None => Some(d),
            Some(b) => Some(min2(b, d)),
        }
    }
}

/// The largest distance at which a query token still matches: one for a
/// token of up to three characters, two for a longer one.
pub open spec fn threshold(q: Seq<char>) -> nat {
    if q.len() <= 3 {
        1
    } else {
        2
    }
}

/// The score of one query token against a name: its best distance, if that
/// is within the threshold.
pub open spec fn token_score(q: Seq<char>, names: Seq<Seq<char>>) -> Option<nat> {
    match best_distance(q, names) {
        Some(d) => if d <= threshold(q) {
            Some(d)
        } else {
            None
        },
        None => None,
    }
}

/// The score of a query against a name: the sum of the token scores, if
/// every query token matches.
pub open spec fn course_score(query: Seq<Seq<char>>, names: Seq<Seq<char>>) -> Option<nat>
    decreases query.len(),
{
    if query.len() == 0 {
        Some(0)
    } else {
        match (course_score(query.drop_last(), names), token_score(query.last(), names)) {
            (Some(s), Some(d)) => Some(s + d),
            _ => None,
        }
    }
}

/// `closest_prefix` is a minimum: no prefix in range is closer, and some
/// prefix in range is that close.
pub proof fn lemma_closest_prefix_is_least(q: Seq<char>, n: Seq<char>, lo: nat, hi: nat)
    requires
        lo <= hi,
    ensures
        forall|len: int|
            lo <= len <= hi ==> closest_prefix(q, n, lo, hi) <= edit_distance(
                q,
                #[trigger] n.take(len),
            ),
        exists|len: int|
            lo <= len <= hi && closest_prefix(q, n, lo, hi) == edit_distance(
                q,
                #[trigger] n.take(len),
            ),
    decreases hi,
{
    if hi <= lo {
        assert(closest_prefix(q, n, lo, hi) == edit_distance(q, n.take(lo as int)));
    } else {
        lemma_closest_prefix_is_least(q, n, lo, (hi - 1) as nat);
        let w = choose|len: int|
            lo <= len <= hi - 1 && closest_prefix(q, n, lo, (hi - 1) as nat) == edit_distance(
                q,
                #[trigger] n.take(len),
            );
        if closest_prefix(q, n, lo, hi) == edit_distance(q, n.take(hi as int)) {
        } else {
            assert(closest_prefix(q, n, lo, hi) == edit_distance(q, n.take(w)));
        }
    }
}

/// The best distance is a minimum over the name tokens.
pub proof fn lemma_best_distance_is_least(q: Seq<char>, names: Seq<Seq<char>>)
    ensures
        names.len() == 0 <==> best_distance(q, names) is None,
        names.len() > 0 ==> forall|j: int|
            0 <= j < names.len() ==> best_distance(q, names).unwrap() <= token_distance(
                q,
                #[trigger] names[j],
            ),
        names.len() > 0 ==> exists|j: int|
            0 <= j < names.len() && best_distance(q, names).unwrap() == token_distance(
                q,
                #[trigger] names[j],
            ),
    decreases names.len(),
{
    if names.len() > 0 {
        let front = names.drop_last();
        lemma_best_distance_is_least(q, front);
        let last = names.len() - 1;
        if front.len() == 0 {
            assert(best_distance(q, names).unwrap() == token_distance(q, names[last]));
        } else {
            let w = choose|j: int|
                0 <= j < front.len() && best_distance(q, front).unwrap() == token_distance(
                    q,
                    #[trigger] front[j],
                );
            assert(front[w] == names[w]);
            assert forall|j: int| 0 <= j < names.len() implies best_distance(q, names).unwrap()
                <= token_distance(q, #[trigger] names[j]) by {
                if j < last {
                    assert(front[j] == names[j]);
                }
            }
            if best_distance(q, names).unwrap() == token_distance(q, names[last]) {
            } else {
                assert(best_distance(q, names).unwrap() == token_distance(q, names[w]));
            }
        }
    }
}

/// Whether every token of `query` is a prefix of some token of `names`.
pub open spec fn all_prefixes(query: Seq<Seq<char>>, names: Seq<Seq<char>>) -> bool {
    forall|i: int|
        0 <= i < query.len() ==> exists|j: int|
            0 <= j < names.len() && (#[trigger] query[i]).is_prefix_of(#[trigger] names[j])
}

/// A query whose every token starts a token of the name scores zero, the
/// best score there is.
pub proof fn lemma_prefixes_score_zero(query: Seq<Seq<char>>, names: Seq<Seq<char>>)
    requires
        all_prefixes(query, names),
    ensures
        course_score(query, names) == Some(0nat),
    decreases query.len(),
{
    if query.len() > 0 {
        let front = query.drop_last();
        assert forall|i: int| 0 <= i < front.len() implies exists|j: int|
            0 <= j < names.len() && (#[trigger] front[i]).is_prefix_of(#[trigger] names[j]) by {
            assert(front[i] == query[i]);
        }
        lemma_prefixes_score_zero(front, names);
        let q = query[query.len() - 1];
        let j = choose|j: int| 0 <= j < names.len() && q.is_prefix_of(#[trigger] names[j]);
        lemma_best_distance_is_least(q, names);
        assert(token_distance(q, names[j]) == 0);
    }
}

/// A token never scores more than it has characters.
pub proof fn lemma_token_score_bound(q: Seq<char>, names: Seq<Seq<char>>)
    ensures
        token_score(q, names) matches Some(d) ==> d <= q.len() && d <= 2,
{
    if q.len() == 0 && names.len() > 0 {
        lemma_best_distance_is_least(q, names);
        assert(q.is_prefix_of(names[0]));
    }
}

/// A query never scores more than its tokens have characters.
pub proof fn lemma_course_score_bound(query: Seq<Seq<char>>, names: Seq<Seq<char>>)
    ensures
        course_score(query, names) matches Some(s) ==> s <= total_len(query) && s <= 2
            * query.len(),
    decreases query.len(),
{
    if query.len() > 0 {
        lemma_course_score_bound(query.drop_last(), names);
        lemma_token_score_bound(query.last(), names);
    }
}

/// The distance between the query token `q` and the name token `n`.
pub fn token_distance_of(q: &Vec<char>, n: &Vec<char>) -> (d: usize)
    ensures
        d == token_distance(q@, n@),
{
    if starts_with(n, q) {
        return 0;
    }
    let lo: usize = if q.len() <= 2 {
        1
    } else {
        q.len() - 1
    };
    let hi: usize = if n.len() <= q.len() {
        n.len()
    } else if n.len() - q.len() <= 2 {
        n.len()
    } else {
        q.len() + 2
    };
    if lo <= hi {
        let row = distance_row(q, n, hi);
        let mut best: usize = row[lo - 1];
        let mut len: usize = lo;
        while len < hi
            invariant
                1 <= lo <= len <= hi <= n.len(),
                row.len() == hi,
                forall|j: int|
                    0 <= j < hi ==> #[trigger] row[j] == edit_distance(q@, n@.take(j + 1)),
                best == closest_prefix(q@, n@, lo as nat, len as nat),
            decreases hi - len,
        {
            len += 1;
            let d = row[len - 1];
            if d < best {
                best = d;
            }
        }
        best
    } else {
        levenshtein(q, n)
    }
}

/// The least distance between the query token `q` and the tokens of a name.
pub fn best_distance_of(q: &Vec<char>, names: &Vec<Vec<char>>) -> (best: Option<usize>)
    ensures
        best matches Some(d) ==> best_distance(q@, words(names@)) == Some(d as nat),
        best is None ==> best_distance(q@, words(names@)) is None,
{
    let mut best: Option<usize> = None;
    let mut j: usize = 0;
    assert(words(names@).take(0) =~= Seq::<Seq<char>>::empty());
    while j < names.len()
        invariant
            j <= names.len(),
            best matches Some(d) ==> best_distance(q@, words(names@).take(j as int)) == Some(
                d as nat,
            ),
            best is None ==> best_distance(q@, words(names@).take(j as int)) is None,
        decreases names.len() - j,
    {
        let d = token_distance_of(q, &names[j]);
        proof {
            let upto = words(names@).take(j + 1);
            assert(upto.drop_last() =~= words(names@).take(j as int));
            assert(upto.last() == names@[j as int]@);
        }
        best =
        match best {
            None => Some(d),
            Some(b) => if d < b {
                Some(d)
            } else {
                Some(b)
            },
        };
        j += 1;
    }
    assert(words(names@).take(names.len() as int) =~= words(names@));
    best
}

/// The score of a tokenized query against a tokenized name, where the
/// name matches. The query's characters must be countable in a `usize`,
/// as those of any text in memory are.
pub fn course_score_of(query: &Vec<Vec<char>>, names: &Vec<Vec<char>>) -> (score: Option<usize>)
    requires
        total_len(words(query@)) <= usize::MAX,
    ensures
        score matches Some(s) ==> course_score(words(query@), words(names@)) == Some(s as nat),
        score is None ==> course_score(words(query@), words(names@)) is None,
{
    let mut total: usize = 0;
    let mut i: usize = 0;
    assert(words(query@).take(0) =~= Seq::<Seq<char>>::empty());
    while i < query.len()
        invariant
            i <= query.len(),
            total_len(words(query@)) <= usize::MAX,
            course_score(words(query@).take(i as int), words(names@)) == Some(total as nat),
        decreases query.len() - i,
    {
        let ghost upto = words(query@).take(i + 1);
        proof {
            assert(upto.drop_last() =~= words(query@).take(i as int));
            assert(upto.last() == query@[i as int]@);
            lemma_course_score_bound(upto, words(names@));
            assert(words(query@) =~= upto + words(query@).skip(i + 1));
            lemma_total_len_concat(upto, words(query@).skip(i + 1));
        }
        let limit: usize = if query[i].len() <= 3 {
            1
        } else {
            2
        };
        match best_distance_of(&query[i], names) {
            Some(d) => {
                if d > limit {
                    proof {
                        lemma_score_stays_none(words(query@), words(names@), i + 1);
                    }
                    return None;
                }
                total = total + d;
            },
            None => {
                proof {
                    lemma_score_stays_none(words(query@), words(names@), i + 1);
                }
                return None;
            },
        }
        i += 1;
    }
    assert(words(query@).take(query.len() as int) =~= words(query@));
    Some(total)
}

/// Once a prefix of the query fails to match, the whole query does.
pub proof fn lemma_score_stays_none(query: Seq<Seq<char>>, names: Seq<Seq<char>>, k: int)
    requires
        0 <= k <= query.len(),
        course_score(query.take(k), names) is None,
    ensures
        course_score(query, names) is None,
    decreases query.len() - k,
{
    if k < query.len() {
        assert(query.take(k + 1).drop_last() =~= query.take(k));
        lemma_score_stays_none(query, names, k + 1);
    } else {
        assert(query.take(k) =~= query);
    }
}

} // verus!
