//! Typo-tolerant search of the catalog.

use vstd::prelude::*;
use crate::conflict::{conflict_name, find_conflict};
use crate::model::{views, Course, CourseView};
use crate::ranking::{
    is_ranking, lemma_ranking_is_ranking, lemma_ranking_len, matched, matched_positions,
    positions, ranking, ranks_before, score_values, top_matches,
};
use crate::score::{course_score, course_score_of};
use crate::selection::{has_name, Selection};
use crate::text::{
    chars_of, lemma_tokens_total_len, lowercase, to_lowercase, tokenize, tokens, total_len, words,
};

verus! {

/// The most results that a search returns.
pub const MAX_RESULTS: usize = 10;

/// The score of every catalog course against the query tokens: none for a
/// course whose name is among the selected, and none for one that the query
/// does not match. `folded` holds the lowercase name of each course.
pub open spec fn catalog_scores(
    query: Seq<Seq<char>>,
    catalog: Seq<CourseView>,
    folded: Seq<Seq<char>>,
    selection: Seq<CourseView>,
) -> Seq<Option<nat>> {
    Seq::new(
        catalog.len(),
        |i: int|
            if has_name(selection, catalog[i].name) {
                None
            } else {
                course_score(query, tokens(folded[i]))
            },
    )
}

/// What a search for the lowercase text `query` returns: nothing for a
/// query without tokens; else the best-ranked matching courses that are not
/// selected, each with the name of the first selected course that it is in
/// conflict with.
pub open spec fn search_hits(
    query: Seq<char>,
    catalog: Seq<CourseView>,
    folded: Seq<Seq<char>>,
    selection: Seq<CourseView>,
) -> Seq<(CourseView, Option<Seq<char>>)> {
    if tokens(query).len() == 0 {
        Seq::empty()
    } else {
        ranking(
            catalog_scores(tokens(query), catalog, folded, selection),
            MAX_RESULTS as nat,
        ).map_values(|i: int| (catalog[i], conflict_name(catalog[i], selection)))
    }
}

/// The lowercase names of the courses of a catalog.
pub open spec fn folded_names(catalog: Seq<CourseView>) -> Seq<Seq<char>> {
    catalog.map_values(|c: CourseView| lowercase(c.name))
}

/// The values of a sequence of texts.
pub open spec fn texts(v: Seq<String>) -> Seq<Seq<char>> {
    v.map_values(|s: String| s@)
}

/// The value of one search result.
pub open spec fn hit_view(hit: (Course, Option<String>)) -> (CourseView, Option<Seq<char>>) {
    (
        hit.0@,
        match hit.1 {
            Some(name) => Some(name@),
            None => None,
        },
    )
}

/// The values of a sequence of search results.
pub open spec fn hit_views(hits: Seq<(Course, Option<String>)>) -> Seq<
    (CourseView, Option<Seq<char>>),
> {
    hits.map_values(|h: (Course, Option<String>)| hit_view(h))
}

/// The score of the `k`-th result of a search.
pub open spec fn hit_score(
    query: Seq<char>,
    catalog: Seq<CourseView>,
    folded: Seq<Seq<char>>,
    selection: Seq<CourseView>,
    k: int,
) -> nat {
    let scores = catalog_scores(tokens(query), catalog, folded, selection);
    scores[ranking(scores, MAX_RESULTS as nat)[k]].unwrap()
}

/// A search returns ten courses where ten or more match, else all that
/// match. Each is a catalog course that the query matches and that is not
/// selected; a course with a lower score comes before one with a higher
/// score, and among equal scores the earlier catalog course comes first;
/// and a matching course is left out only where ten courses that rank
/// before it are returned.
pub proof fn lemma_search_hits(
    query: Seq<char>,
    catalog: Seq<CourseView>,
    folded: Seq<Seq<char>>,
    selection: Seq<CourseView>,
)
    ensures
        search_hits(query, catalog, folded, selection).len() <= MAX_RESULTS,
        tokens(query).len() > 0 ==> search_hits(query, catalog, folded, selection).len() == ({
            let found = matched_positions(
                catalog_scores(tokens(query), catalog, folded, selection),
            ).len();
            if found <= MAX_RESULTS {
                found
            } else {
                MAX_RESULTS as nat
            }
        }),
        tokens(query).len() > 0 ==> is_ranking(
            ranking(
                catalog_scores(tokens(query), catalog, folded, selection),
                MAX_RESULTS as nat,
            ),
            catalog_scores(tokens(query), catalog, folded, selection),
            MAX_RESULTS as nat,
        ),
        forall|k: int|
            0 <= k < search_hits(query, catalog, folded, selection).len() ==> {
                let hit = #[trigger] search_hits(query, catalog, folded, selection)[k];
                &&& catalog.contains(hit.0)
                &&& !has_name(selection, hit.0.name)
                &&& hit.1 == conflict_name(hit.0, selection)
            },
        forall|k: int, l: int|
            0 <= k < l < search_hits(query, catalog, folded, selection).len() ==> #[trigger] hit_score(
                query,
                catalog,
                folded,
                selection,
                k,
            ) <= #[trigger] hit_score(query, catalog, folded, selection, l),
{
    if tokens(query).len() > 0 {
        let scores = catalog_scores(tokens(query), catalog, folded, selection);
        lemma_ranking_is_ranking(scores, MAX_RESULTS as nat);
        lemma_ranking_len(scores, MAX_RESULTS as nat);
        let order = ranking(scores, MAX_RESULTS as nat);
        let hits = search_hits(query, catalog, folded, selection);
        assert forall|k: int, l: int| 0 <= k < l < hits.len() implies #[trigger] hit_score(
            query,
            catalog,
            folded,
            selection,
            k,
        ) <= #[trigger] hit_score(query, catalog, folded, selection, l) by {
            assert(ranks_before(scores, order[k], order[l]));
        }
        assert forall|k: int| 0 <= k < hits.len() implies {
            let hit = #[trigger] hits[k];
            &&& catalog.contains(hit.0)
            &&& !has_name(selection, hit.0.name)
            &&& hit.1 == conflict_name(hit.0, selection)
        } by {
            assert(matched(scores, order[k]));
            assert(hits[k].0 == catalog[order[k]]);
        }
    }
}

/// Scores every catalog course against the query tokens.
fn score_catalog(
    query: &Vec<Vec<char>>,
    catalog: &Vec<Course>,
    folded: &Vec<String>,
    selection: &Selection,
) -> (scores: Vec<Option<usize>>)
    requires
        folded.len() == catalog.len(),
        total_len(words(query@)) <= usize::MAX,
    ensures
        scores.len() == catalog.len(),
        score_values(scores@) == catalog_scores(
            words(query@),
            views(catalog@),
            texts(folded@),
            selection@,
        ),
{
    let ghost want = catalog_scores(words(query@), views(catalog@), texts(folded@), selection@);
    let mut scores: Vec<Option<usize>> = Vec::new();
    let mut i: usize = 0;
    while i < catalog.len()
        invariant
            i <= catalog.len() == folded.len(),
            total_len(words(query@)) <= usize::MAX,
            want == catalog_scores(words(query@), views(catalog@), texts(folded@), selection@),
            scores.len() == i,
            forall|k: int| 0 <= k < i ==> #[trigger] score_values(scores@)[k] == want[k],
        decreases catalog.len() - i,
    {
        let score = if selection.contains_name(catalog[i].name.as_str()) {
            None
        } else {
            let name = chars_of(folded[i].as_str());
            let name_tokens = tokenize(&name);
            course_score_of(query, &name_tokens)
        };
        proof {
            let grown = scores@.push(score);
            assert forall|k: int| 0 <= k < i + 1 implies #[trigger] score_values(grown)[k]
                == want[k] by {
                if k < i {
                    assert(score_values(grown)[k] == score_values(scores@)[k]);
                }
            }
        }
        scores.push(score);
        i += 1;
    }
    assert(score_values(scores@) =~= want);
    scores
}

/// Searches the catalog for the lowercase text `query`, given the
/// lowercase name of each catalog course in `folded`.
pub fn search_folded(
    query: &str,
    catalog: &Vec<Course>,
    folded: &Vec<String>,
    selection: &Selection,
) -> (hits: Vec<(Course, Option<String>)>)
    requires
        folded.len() == catalog.len(),
    ensures
        hit_views(hits@) == search_hits(query@, views(catalog@), texts(folded@), selection@),
        hits.len() <= MAX_RESULTS,
{
    let mut hits: Vec<(Course, Option<String>)> = Vec::new();
    let query_chars = chars_of(query);
    let query_tokens = tokenize(&query_chars);
    if query_tokens.len() == 0 {
        assert(hit_views(hits@) =~= Seq::<(CourseView, Option<Seq<char>>)>::empty());
        return hits;
    }
    proof {
        lemma_tokens_total_len(query@);
        assert(query@.len() == query_chars.len());
    }
    let scores = score_catalog(&query_tokens, catalog, folded, selection);
    let order = top_matches(&scores, MAX_RESULTS);
    let ghost want = search_hits(query@, views(catalog@), texts(folded@), selection@);
    assert(want.len() == order.len());
    let mut k: usize = 0;
    while k < order.len()
        invariant
            k <= order.len(),
            hits.len() == k,
            scores.len() == catalog.len(),
            is_ranking(positions(order@), score_values(scores@), MAX_RESULTS as nat),
            want.len() == order.len(),
            forall|j: int|
                0 <= j < order.len() ==> #[trigger] want[j] == (
                    views(catalog@)[positions(order@)[j]],
                    conflict_name(views(catalog@)[positions(order@)[j]], selection@),
                ),
            forall|j: int| 0 <= j < k ==> #[trigger] hit_views(hits@)[j] == want[j],
        decreases order.len() - k,
    {
        assert(matched(score_values(scores@), positions(order@)[k as int]));
        let course = catalog[order[k]].clone();
        let conflict = find_conflict(&course, selection.courses());
        let hit = (course, conflict);
        proof {
            let grown = hits@.push(hit);
            assert forall|j: int| 0 <= j < k + 1 implies #[trigger] hit_views(grown)[j]
                == want[j] by {
                if j < k {
                    assert(hit_views(grown)[j] == hit_views(hits@)[j]);
                }
            }
        }
        hits.push(hit);
        k += 1;
    }
    assert(hit_views(hits@) =~= want);
    hits
}

/// Searches the catalog for `query`, whatever its case: the courses whose
/// names match every token of the query, best first, at most ten, without
/// the courses that are selected; each comes with the name of the first
/// selected course that it would replace.
pub fn search(query: &str, catalog: &Vec<Course>, selection: &Selection) -> (hits: Vec<
    (Course, Option<String>),
>)
    ensures
        hit_views(hits@) == search_hits(
            lowercase(query@),
            views(catalog@),
            folded_names(views(catalog@)),
            selection@,
        ),
        hits.len() <= MAX_RESULTS,
{
    let folded_query = to_lowercase(query);
    let mut folded: Vec<String> = Vec::new();
    let mut i: usize = 0;
    while i < catalog.len()
        invariant
            i <= catalog.len(),
            folded.len() == i,
            forall|k: int|
                0 <= k < i ==> #[trigger] texts(folded@)[k] == lowercase(views(catalog@)[k].name),
        decreases catalog.len() - i,
    {
        let name = to_lowercase(catalog[i].name.as_str());
        proof {
            let grown = folded@.push(name);
            assert forall|k: int| 0 <= k < i + 1 implies #[trigger] texts(grown)[k] == lowercase(
                views(catalog@)[k].name,
            ) by {
                if k < i {
                    assert(texts(grown)[k] == texts(folded@)[k]);
                }
            }
        }
        folded.push(name);
        i += 1;
    }
    assert(texts(folded@) =~= folded_names(views(catalog@)));
    search_folded(folded_query.as_str(), catalog, &folded, selection)
}

} // verus!
