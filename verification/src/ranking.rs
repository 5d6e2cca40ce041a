//! The best matches among scored candidates: lowest score first, earlier
//! candidates first among equal scores, up to a cap.

use vstd::prelude::*;

verus! {

/// The scores as numbers without a machine bound.
pub open spec fn score_values(scores: Seq<Option<usize>>) -> Seq<Option<nat>> {
    scores.map_values(
        |s: Option<usize>|
            match s {
                Some(v) => Some(v as nat),
                None => None,
            },
    )
}

/// The positions as integers.
pub open spec fn positions(order: Seq<usize>) -> Seq<int> {
    order.map_values(|i: usize| i as int)
}

/// Whether position `x` holds a candidate that matched.
pub open spec fn matched(scores: Seq<Option<nat>>, x: int) -> bool {
    0 <= x < scores.len() && scores[x] is Some
}

/// Whether the candidate at `a` ranks strictly before the one at `b`:
/// it scores lower, or scores the same and stands earlier.
pub open spec fn ranks_before(scores: Seq<Option<nat>>, a: int, b: int) -> bool {
    scores[a].unwrap() < scores[b].unwrap() || (scores[a].unwrap() == scores[b].unwrap() && a < b)
}

/// Whether `order` lists the `cap` best matched candidates, best first:
/// it holds matched positions only, in strictly ascending rank, and leaves
/// a matched position out only where it is full and that position ranks
/// after all it holds.
pub open spec fn is_ranking(order: Seq<int>, scores: Seq<Option<nat>>, cap: nat) -> bool {
    &&& order.len() <= cap
    &&& forall|k: int| 0 <= k < order.len() ==> matched(scores, #[trigger] order[k])
    &&& forall|k: int, l: int|
        0 <= k < l < order.len() ==> ranks_before(scores, #[trigger] order[k], #[trigger] order[l])
    &&& forall|x: int|
        #[trigger] matched(scores, x) && !order.contains(x) ==> order.len() == cap && forall|
            k: int,
        |
            0 <= k < order.len() ==> ranks_before(scores, #[trigger] order[k], x)
}

/// The best-ranked matched candidate among the first `n` that `order` does
/// not hold yet.
pub open spec fn next_best(scores: Seq<Option<nat>>, order: Seq<int>, n: int) -> Option<int>
    decreases n,
{
    if n <= 0 {
        None
    } else {
        let x = n - 1;
        let earlier = next_best(scores, order, n - 1);
        if matched(scores, x) && !order.contains(x) {
            match earlier {
                Some(b) => if ranks_before(scores, x, b) {
                    Some(x)
                } else {
                    Some(b)
                },
                None => Some(x),
            }
        } else {
            earlier
        }
    }
}

/// The ranking of the candidates: the `cap` best matched ones, found one
/// after the other.
pub open spec fn ranking(scores: Seq<Option<nat>>, cap: nat) -> Seq<int>
    decreases cap,
{
    if cap == 0 {
        Seq::empty()
    } else {
        let shorter = ranking(scores, (cap - 1) as nat);
        match next_best(scores, shorter, scores.len() as int) {
            Some(b) => shorter.push(b),
            None => shorter,
        }
    }
}

/// `next_best` finds a matched candidate that `order` does not hold and that
/// ranks before every other such candidate; it finds none only where
/// `order` holds them all.
pub proof fn lemma_next_best(scores: Seq<Option<nat>>, order: Seq<int>, n: int)
    requires
        0 <= n <= scores.len(),
    ensures
        next_best(scores, order, n) matches Some(b) ==> 0 <= b < n && matched(scores, b)
            && !order.contains(b) && forall|c: int|
            0 <= c < n && #[trigger] matched(scores, c) && !order.contains(c) && c != b
                ==> ranks_before(scores, b, c),
        next_best(scores, order, n) is None ==> forall|c: int|
            0 <= c < n && #[trigger] matched(scores, c) ==> order.contains(c),
    decreases n,
{
    if n > 0 {
        lemma_next_best(scores, order, n - 1);
    }
}

/// The ranking is a ranking.
pub proof fn lemma_ranking_is_ranking(scores: Seq<Option<nat>>, cap: nat)
    ensures
        is_ranking(ranking(scores, cap), scores, cap),
    decreases cap,
{
    if cap > 0 {
        let shorter = ranking(scores, (cap - 1) as nat);
        lemma_ranking_is_ranking(scores, (cap - 1) as nat);
        lemma_next_best(scores, shorter, scores.len() as int);
        match next_best(scores, shorter, scores.len() as int) {
            Some(b) => {
                let grown = shorter.push(b);
                assert(matched(scores, b));
                assert forall|k: int| 0 <= k < grown.len() implies matched(
                    scores,
                    #[trigger] grown[k],
                ) by {
                    if k < shorter.len() {
                        assert(grown[k] == shorter[k]);
                    }
                }
                assert forall|k: int, l: int| 0 <= k < l < grown.len() implies ranks_before(
                    scores,
                    #[trigger] grown[k],
                    #[trigger] grown[l],
                ) by {
                    assert(grown[k] == shorter[k]);
                    if l < shorter.len() {
                        assert(grown[l] == shorter[l]);
                    }
                }
                assert forall|x: int| #[trigger]
                    matched(scores, x) && !grown.contains(x) implies grown.len() == cap
                    && forall|k: int|
                    0 <= k < grown.len() ==> ranks_before(scores, #[trigger] grown[k], x) by {
                    assert(!shorter.contains(x)) by {
                        if shorter.contains(x) {
                            let w = choose|w: int| 0 <= w < shorter.len() && shorter[w] == x;
                            assert(grown[w] == x);
                        }
                    }
                    assert(x != b) by {
                        if x == b {
                            assert(grown[shorter.len() as int] == x);
                        }
                    }
                    assert forall|k: int| 0 <= k < grown.len() implies ranks_before(
                        scores,
                        #[trigger] grown[k],
                        x,
                    ) by {
                        if k < shorter.len() {
                            assert(grown[k] == shorter[k]);
                        }
                    }
                }
            },
            None => {},
        }
    }
}

/// The positions of the candidates that matched.
pub open spec fn matched_positions(scores: Seq<Option<nat>>) -> Set<int> {
    Set::new(|x: int| matched(scores, x))
}

/// The ranking holds as many candidates as the cap allows: the cap where
/// that many or more matched, else all that matched.
pub proof fn lemma_ranking_len(scores: Seq<Option<nat>>, cap: nat)
    ensures
        matched_positions(scores).finite(),
        ranking(scores, cap).len() == if matched_positions(scores).len() <= cap {
            matched_positions(scores).len()
        } else {
            cap
        },
{
    let order = ranking(scores, cap);
    let all = matched_positions(scores);
    let range = vstd::set_lib::set_int_range(0, scores.len() as int);
    lemma_ranking_is_ranking(scores, cap);
    vstd::set_lib::lemma_int_range(0, scores.len() as int);
    assert(all.subset_of(range));
    vstd::set_lib::lemma_len_subset(all, range);
    assert forall|i: int, j: int|
        0 <= i < order.len() && 0 <= j < order.len() && i != j implies order[i] != order[j] by {
        if i < j {
            assert(ranks_before(scores, order[i], order[j]));
        } else {
            assert(ranks_before(scores, order[j], order[i]));
        }
    }
    order.unique_seq_to_set();
    assert forall|x: int| order.to_set().contains(x) implies all.contains(x) by {
        let k = choose|k: int| 0 <= k < order.len() && order[k] == x;
        assert(matched(scores, order[k]));
    }
    assert(order.to_set().subset_of(all));
    vstd::set_lib::lemma_len_subset(order.to_set(), all);
    if order.len() < cap {
        assert forall|x: int| all.contains(x) implies order.to_set().contains(x) by {
            assert(matched(scores, x));
        }
        assert(all =~= order.to_set());
    }
}

/// Two rankings of the same candidates agree on their common positions.
proof fn lemma_rankings_agree(
    a: Seq<int>,
    b: Seq<int>,
    scores: Seq<Option<nat>>,
    cap: nat,
    k: int,
)
    requires
        is_ranking(a, scores, cap),
        is_ranking(b, scores, cap),
        0 <= k <= a.len(),
        k <= b.len(),
    ensures
        a.take(k) == b.take(k),
    decreases k,
{
    if k == 0 {
        assert(a.take(0) =~= b.take(0));
    } else {
        lemma_rankings_agree(a, b, scores, cap, k - 1);
        let x = a[k - 1];
        let y = b[k - 1];
        assert forall|l: int| 0 <= l < k - 1 implies a[l] == b[l] by {
            assert(a.take(k - 1)[l] == b.take(k - 1)[l]);
        }
        if x != y {
            lemma_later_in_other(a, b, scores, cap, k - 1);
            lemma_later_in_other(b, a, scores, cap, k - 1);
            assert(ranks_before(scores, y, x));
            assert(ranks_before(scores, x, y));
        }
        assert(a.take(k) =~= b.take(k));
    }
}

/// Where two rankings agree before position `k` and differ at it, the
/// entry of the second ranks before the entry of the first.
proof fn lemma_later_in_other(
    a: Seq<int>,
    b: Seq<int>,
    scores: Seq<Option<nat>>,
    cap: nat,
    k: int,
)
    requires
        is_ranking(a, scores, cap),
        is_ranking(b, scores, cap),
        0 <= k < a.len(),
        k < b.len(),
        forall|l: int| 0 <= l < k ==> a[l] == b[l],
        a[k] != b[k],
    ensures
        ranks_before(scores, b[k], a[k]),
{
    let x = a[k];
    assert(matched(scores, x));
    if b.contains(x) {
        let l = choose|l: int| 0 <= l < b.len() && b[l] == x;
        if l < k {
            assert(a[l] == x);
            assert(ranks_before(scores, a[l], a[k]));
        } else {
            assert(ranks_before(scores, b[k], b[l]));
        }
    } else {
        assert(ranks_before(scores, b[k], x));
    }
}

/// There is only one ranking.
pub proof fn lemma_ranking_unique(a: Seq<int>, b: Seq<int>, scores: Seq<Option<nat>>, cap: nat)
    requires
        is_ranking(a, scores, cap),
        is_ranking(b, scores, cap),
    ensures
        a == b,
{
    if a.len() <= b.len() {
        lemma_rankings_agree(a, b, scores, cap, a.len() as int);
        lemma_same_length(a, b, scores, cap);
    } else {
        lemma_rankings_agree(a, b, scores, cap, b.len() as int);
        lemma_same_length(b, a, scores, cap);
    }
    assert(a.take(a.len() as int) =~= a);
    assert(b.take(b.len() as int) =~= b);
}

/// A ranking that starts with another ranking is no longer than it.
proof fn lemma_same_length(a: Seq<int>, b: Seq<int>, scores: Seq<Option<nat>>, cap: nat)
    requires
        is_ranking(a, scores, cap),
        is_ranking(b, scores, cap),
        a.len() <= b.len(),
        a.take(a.len() as int) == b.take(a.len() as int),
    ensures
        a.len() == b.len(),
{
    if a.len() < b.len() {
        let n = a.len() as int;
        let y = b[n];
        assert(matched(scores, y));
        if a.contains(y) {
            let l = choose|l: int| 0 <= l < a.len() && a[l] == y;
            assert(a.take(n)[l] == b.take(n)[l]);
            assert(ranks_before(scores, b[l], b[n]));
        }
    }
}

/// A sequence that is a ranking is the ranking.
pub proof fn lemma_is_the_ranking(order: Seq<int>, scores: Seq<Option<nat>>, cap: nat)
    requires
        is_ranking(order, scores, cap),
    ensures
        order == ranking(scores, cap),
{
    lemma_ranking_is_ranking(scores, cap);
    lemma_ranking_unique(order, ranking(scores, cap), scores, cap);
}

/// Whether the candidate at `a` ranks strictly before the one at `b`.
fn comes_before(scores: &Vec<Option<usize>>, a: usize, b: usize) -> (r: bool)
    requires
        matched(score_values(scores@), a as int),
        matched(score_values(scores@), b as int),
    ensures
        r == ranks_before(score_values(scores@), a as int, b as int),
{
    match (scores[a], scores[b]) {
        (Some(x), Some(y)) => x < y || (x == y && a < b),
        _ => false,
    }
}

/// The positions of the `cap` best matched candidates, best first.
pub fn top_matches(scores: &Vec<Option<usize>>, cap: usize) -> (order: Vec<usize>)
    ensures
        is_ranking(positions(order@), score_values(scores@), cap as nat),
        positions(order@) == ranking(score_values(scores@), cap as nat),
{
    let ghost sv = score_values(scores@);
    let mut order: Vec<usize> = Vec::new();
    let mut full = false;
    while order.len() < cap && !full
        invariant
            sv == score_values(scores@),
            order.len() <= cap,
            forall|k: int| 0 <= k < order.len() ==> matched(sv, #[trigger] positions(order@)[k]),
            forall|k: int, l: int|
                0 <= k < l < order.len() ==> ranks_before(
                    sv,
                    #[trigger] positions(order@)[k],
                    #[trigger] positions(order@)[l],
                ),
            forall|x: int|
                #[trigger] matched(sv, x) && !positions(order@).contains(x) ==> forall|k: int|
                    0 <= k < order.len() ==> ranks_before(sv, #[trigger] positions(order@)[k], x),
            full ==> forall|x: int| #[trigger] matched(sv, x) ==> positions(order@).contains(x),
        decreases cap - order.len(), if full { 0int } else { 1int },
    {
        let ghost chosen = positions(order@);
        let mut best: Option<usize> = None;
        let mut x: usize = 0;
        while x < scores.len()
            invariant
                x <= scores.len(),
                sv == score_values(scores@),
                chosen == positions(order@),
                forall|k: int| 0 <= k < chosen.len() ==> matched(sv, #[trigger] chosen[k]),
                forall|k: int, l: int|
                    0 <= k < l < chosen.len() ==> ranks_before(
                        sv,
                        #[trigger] chosen[k],
                        #[trigger] chosen[l],
                    ),
                best matches Some(b) ==> b < x && matched(sv, b as int) && !chosen.contains(
                    b as int,
                ),
                best matches Some(b) ==> forall|c: int|
                    0 <= c < x && #[trigger] matched(sv, c) && !chosen.contains(c) && c != b
                        ==> ranks_before(sv, b as int, c),
                best is None ==> forall|c: int|
                    0 <= c < x && #[trigger] matched(sv, c) ==> chosen.contains(c),
            decreases scores.len() - x,
        {
            if scores[x].is_some() {
                assert(matched(sv, x as int));
                if !is_listed(&order, x) {
                    match best {
                        None => {
                            best = Some(x);
                        },
                        Some(b) => {
                            if comes_before(scores, x, b) {
                                assert forall|c: int|
                                    0 <= c < x + 1 && #[trigger] matched(sv, c) && !chosen.contains(
                                        c,
                                    ) && c != x implies ranks_before(sv, x as int, c) by {
                                    if c != b {
                                        assert(ranks_before(sv, b as int, c));
                                    }
                                }
                                best = Some(x);
                            }
                        },
                    }
                }
            }
            x += 1;
        }
        match best {
            None => {
                full = true;
            },
            Some(b) => {
                proof {
                    let grown = positions(order@.push(b));
                    assert(grown =~= chosen.push(b as int));
                    assert forall|y: int|
                        #[trigger] matched(sv, y) && !grown.contains(y) implies forall|k: int|
                        0 <= k < grown.len() ==> ranks_before(sv, #[trigger] grown[k], y) by {
                        assert(!chosen.contains(y)) by {
                            if chosen.contains(y) {
                                let w = choose|w: int| 0 <= w < chosen.len() && chosen[w] == y;
                                assert(grown[w] == y);
                            }
                        }
                        assert(y != b) by {
                            if y == b {
                                assert(grown[chosen.len() as int] == y);
                            }
                        }
                        assert forall|k: int| 0 <= k < grown.len() implies ranks_before(
                            sv,
                            #[trigger] grown[k],
                            y,
                        ) by {
                            if k < chosen.len() {
                                assert(grown[k] == chosen[k]);
                            }
                        }
                    }
                    assert forall|k: int, l: int| 0 <= k < l < grown.len() implies ranks_before(
                        sv,
                        #[trigger] grown[k],
                        #[trigger] grown[l],
                    ) by {
                        assert(grown[k] == chosen[k]);
                        if l < chosen.len() {
                            assert(grown[l] == chosen[l]);
                        }
                    }
                    assert forall|k: int| 0 <= k < grown.len() implies matched(
                        sv,
                        #[trigger] grown[k],
                    ) by {
                        if k < chosen.len() {
                            assert(grown[k] == chosen[k]);
                        }
                    }
                }
                order.push(b);
            },
        }
    }
    proof {
        lemma_is_the_ranking(positions(order@), sv, cap as nat);
    }
    order
}

/// Whether `x` is one of `order`.
fn is_listed(order: &Vec<usize>, x: usize) -> (r: bool)
    ensures
        r == positions(order@).contains(x as int),
{
    let mut k: usize = 0;
    while k < order.len()
        invariant
            k <= order.len(),
            forall|l: int| 0 <= l < k ==> positions(order@)[l] != x as int,
        decreases order.len() - k,
    {
        if order[k] == x {
            assert(positions(order@)[k as int] == x as int);
            return true;
        }
        k += 1;
    }
    false
}

} // verus!
