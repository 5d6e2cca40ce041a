//! When two courses cannot both be taken.

use vstd::prelude::*;
use crate::model::{views, Course, CourseDuration, CourseView};

verus! {

/// Whether two courses occupy the same day and slot.
pub open spec fn same_slot(a: CourseView, b: CourseView) -> bool {
    a.day == b.day && a.slot == b.slot
}

/// Whether one duration is the first half and the other the second half.
pub open spec fn half_pair(a: CourseDuration, b: CourseDuration) -> bool {
    (a is H1 && b is H2) || (a is H2 && b is H1)
}

/// Two courses are compatible unless they share day and slot without being
/// a first-half and second-half pair.
pub open spec fn is_compatible(a: CourseView, b: CourseView) -> bool {
    same_slot(a, b) ==> half_pair(a.duration, b.duration)
}

/// Two courses are in conflict when they are not compatible.
pub open spec fn is_conflict(a: CourseView, b: CourseView) -> bool {
    !is_compatible(a, b)
}

/// Whether any two distinct members of `s` are in conflict.
pub open spec fn any_conflict(s: Seq<CourseView>) -> bool {
    exists|i: int, j: int| 0 <= i < j < s.len() && is_conflict(#[trigger] s[i], #[trigger] s[j])
}

/// The position of the first member of `s` that is in conflict with `c`.
pub open spec fn first_conflict(c: CourseView, s: Seq<CourseView>) -> Option<int>
    decreases s.len(),
{
    if s.len() == 0 {
        None
    } else {
        match first_conflict(c, s.drop_last()) {
            Some(i) => Some(i),
            None => if is_conflict(s.last(), c) {
                Some(s.len() - 1)
            } else {
                None
            },
        }
    }
}

/// The name of the first member of `s` that is in conflict with `c`.
pub open spec fn conflict_name(c: CourseView, s: Seq<CourseView>) -> Option<Seq<char>> {
    match first_conflict(c, s) {
        Some(i) => Some(s[i].name),
        None => None,
    }
}

/// The conflicts of member `i` with the members from position `j` on.
pub open spec fn conflicts_with(s: Seq<CourseView>, i: int, j: int) -> Seq<
    (CourseView, CourseView),
>
    decreases s.len() - j,
{
    if j >= s.len() {
        Seq::empty()
    } else if is_conflict(s[i], s[j]) {
        seq![(s[i], s[j])] + conflicts_with(s, i, j + 1)
    } else {
        conflicts_with(s, i, j + 1)
    }
}

/// The conflicts of the members from position `i` on with later members.
pub open spec fn conflicts_from(s: Seq<CourseView>, i: int) -> Seq<(CourseView, CourseView)>
    decreases s.len() - i,
{
    if i >= s.len() {
        Seq::empty()
    } else {
        conflicts_with(s, i, i + 1) + conflicts_from(s, i + 1)
    }
}

/// Every pair of members in conflict, the earlier member first, ordered by
/// the position of the earlier member and then by that of the later one.
pub open spec fn conflict_pairs(s: Seq<CourseView>) -> Seq<(CourseView, CourseView)> {
    conflicts_from(s, 0)
}

/// The values of a sequence of pairs of courses.
pub open spec fn pair_views(pairs: Seq<(Course, Course)>) -> Seq<(CourseView, CourseView)> {
    pairs.map_values(|p: (Course, Course)| (p.0@, p.1@))
}

/// Compatibility does not depend on the order of the two courses, and two
/// courses in one slot are compatible exactly when one lasts the first half
/// and the other the second.
pub proof fn lemma_compatible_symmetric(a: CourseView, b: CourseView)
    ensures
        is_compatible(a, b) == is_compatible(b, a),
        same_slot(a, b) ==> (is_compatible(a, b) <==> (a.duration == CourseDuration::H1
            && b.duration == CourseDuration::H2) || (a.duration == CourseDuration::H2 && b.duration
            == CourseDuration::H1)),
        !same_slot(a, b) ==> is_compatible(a, b),
{
}

/// `first_conflict` finds a member in conflict, and none comes before it;
/// it finds none only where no member is in conflict.
pub proof fn lemma_first_conflict(c: CourseView, s: Seq<CourseView>)
    ensures
        first_conflict(c, s) matches Some(i) ==> 0 <= i < s.len() && is_conflict(s[i], c)
            && forall|k: int| 0 <= k < i ==> !is_conflict(#[trigger] s[k], c),
        first_conflict(c, s) is None ==> forall|k: int|
            0 <= k < s.len() ==> !is_conflict(#[trigger] s[k], c),
    decreases s.len(),
{
    if s.len() > 0 {
        let front = s.drop_last();
        lemma_first_conflict(c, front);
        assert forall|k: int| 0 <= k < front.len() implies front[k] == s[k] by {}
        match first_conflict(c, front) {
            Some(i) => {
                assert forall|k: int| 0 <= k < i implies !is_conflict(#[trigger] s[k], c) by {
                    assert(front[k] == s[k]);
                }
            },
            None => {
                assert forall|k: int| 0 <= k < front.len() implies !is_conflict(
                    #[trigger] s[k],
                    c,
                ) by {
                    assert(front[k] == s[k]);
                }
            },
        }
    }
}

/// A pair is listed among the conflicts of member `i` from `j` on exactly
/// when it is that member with a later one, from `j` on, in conflict.
pub proof fn lemma_conflicts_with(
    s: Seq<CourseView>,
    i: int,
    j: int,
    p: (CourseView, CourseView),
)
    requires
        0 <= i < j <= s.len(),
    ensures
        conflicts_with(s, i, j).contains(p) <==> exists|k: int|
            j <= k < s.len() && is_conflict(s[i], #[trigger] s[k]) && p == (s[i], s[k]),
    decreases s.len() - j,
{
    if j < s.len() {
        lemma_conflicts_with(s, i, j + 1, p);
        let rest = conflicts_with(s, i, j + 1);
        if is_conflict(s[i], s[j]) {
            let head = seq![(s[i], s[j])];
            assert(conflicts_with(s, i, j) == head + rest);
            if (head + rest).contains(p) {
                let w = choose|w: int| 0 <= w < (head + rest).len() && (head + rest)[w] == p;
                if w == 0 {
                    assert(p == (s[i], s[j]));
                } else {
                    assert(rest[w - 1] == p);
                    assert(rest.contains(p));
                }
            }
            if exists|k: int|
                j <= k < s.len() && is_conflict(s[i], #[trigger] s[k]) && p == (s[i], s[k]) {
                let k = choose|k: int|
                    j <= k < s.len() && is_conflict(s[i], #[trigger] s[k]) && p == (s[i], s[k]);
                if k == j {
                    assert((head + rest)[0] == p);
                } else {
                    assert(rest.contains(p));
                    let w = choose|w: int| 0 <= w < rest.len() && rest[w] == p;
                    assert((head + rest)[w + 1] == p);
                }
            }
        } else {
            if exists|k: int|
                j <= k < s.len() && is_conflict(s[i], #[trigger] s[k]) && p == (s[i], s[k]) {
                let k = choose|k: int|
                    j <= k < s.len() && is_conflict(s[i], #[trigger] s[k]) && p == (s[i], s[k]);
                assert(k != j);
            }
        }
    }
}

/// A pair is listed among the conflicts exactly when it is an earlier and
/// a later member in conflict.
pub proof fn lemma_conflict_pairs(s: Seq<CourseView>, p: (CourseView, CourseView))
    ensures
        conflict_pairs(s).contains(p) <==> exists|i: int, k: int|
            0 <= i < k < s.len() && is_conflict(#[trigger] s[i], #[trigger] s[k]) && p == (
                s[i],
                s[k],
            ),
{
    lemma_conflicts_from(s, 0, p);
}

/// The same, for the members from position `i` on.
pub proof fn lemma_conflicts_from(s: Seq<CourseView>, i: int, p: (CourseView, CourseView))
    requires
        0 <= i <= s.len(),
    ensures
        conflicts_from(s, i).contains(p) <==> exists|a: int, k: int|
            i <= a < k < s.len() && is_conflict(#[trigger] s[a], #[trigger] s[k]) && p == (
                s[a],
                s[k],
            ),
    decreases s.len() - i,
{
    if i < s.len() {
        lemma_conflicts_from(s, i + 1, p);
        lemma_conflicts_with(s, i, i + 1, p);
        let head = conflicts_with(s, i, i + 1);
        let rest = conflicts_from(s, i + 1);
        assert(conflicts_from(s, i) == head + rest);
        if (head + rest).contains(p) {
            let w = choose|w: int| 0 <= w < (head + rest).len() && (head + rest)[w] == p;
            if w < head.len() {
                assert(head[w] == p);
                assert(head.contains(p));
                let k = choose|k: int|
                    i + 1 <= k < s.len() && is_conflict(s[i], #[trigger] s[k]) && p == (
                        s[i],
                        s[k],
                    );
                assert(i <= i < k < s.len() && is_conflict(s[i], s[k]) && p == (s[i], s[k]));
            } else {
                assert(rest[w - head.len()] == p);
                assert(rest.contains(p));
                let (a, k) = choose|a: int, k: int|
                    i + 1 <= a < k < s.len() && is_conflict(#[trigger] s[a], #[trigger] s[k])
                        && p == (s[a], s[k]);
                assert(i <= a < k < s.len() && is_conflict(s[a], s[k]) && p == (s[a], s[k]));
            }
        }
        if exists|a: int, k: int|
            i <= a < k < s.len() && is_conflict(#[trigger] s[a], #[trigger] s[k]) && p == (
                s[a],
                s[k],
            ) {
            let (a, k) = choose|a: int, k: int|
                i <= a < k < s.len() && is_conflict(#[trigger] s[a], #[trigger] s[k]) && p == (
                    s[a],
                    s[k],
                );
            if a == i {
                assert(head.contains(p));
                let w = choose|w: int| 0 <= w < head.len() && head[w] == p;
                assert((head + rest)[w] == p);
            } else {
                assert(i + 1 <= a < k < s.len() && is_conflict(s[a], s[k]) && p == (s[a], s[k]));
                assert(rest.contains(p));
                let w = choose|w: int| 0 <= w < rest.len() && rest[w] == p;
                assert((head + rest)[head.len() + w] == p);
            }
        }
    } else {
        assert(conflicts_from(s, i).len() == 0);
    }
}

/// Whether `a` and `b` occupy the same day and slot.
pub fn shares_slot(a: &Course, b: &Course) -> (r: bool)
    ensures
        r == same_slot(a@, b@),
{
    a.day == b.day && a.slot == b.slot
}

/// Whether `a` and `b` can both be taken.
pub fn compatible(a: &Course, b: &Course) -> (r: bool)
    ensures
        r == is_compatible(a@, b@),
{
    if !shares_slot(a, b) {
        return true;
    }
    match (a.duration, b.duration) {
        (CourseDuration::H1, CourseDuration::H2) => true,
        (CourseDuration::H2, CourseDuration::H1) => true,
        _ => false,
    }
}

/// Whether any two of `courses` are in conflict.
pub fn has_conflict(courses: &Vec<Course>) -> (r: bool)
    ensures
        r == any_conflict(views(courses@)),
{
    let ghost s = views(courses@);
    let mut i: usize = 0;
    while i < courses.len()
        invariant
            i <= courses.len(),
            s == views(courses@),
            forall|a: int, b: int|
                0 <= a < b < s.len() && a < i ==> !is_conflict(#[trigger] s[a], #[trigger] s[b]),
        decreases courses.len() - i,
    {
        let mut j: usize = i + 1;
        while j < courses.len()
            invariant
                i < j <= courses.len(),
                s == views(courses@),
                forall|a: int, b: int|
                    0 <= a < b < s.len() && a < i ==> !is_conflict(
                        #[trigger] s[a],
                        #[trigger] s[b],
                    ),
                forall|b: int| i < b < j ==> !is_conflict(s[i as int], #[trigger] s[b]),
            decreases courses.len() - j,
        {
            if !compatible(&courses[i], &courses[j]) {
                assert(is_conflict(s[i as int], s[j as int]));
                return true;
            }
            j += 1;
        }
        i += 1;
    }
    false
}

/// The name of the first of `courses` that is in conflict with `course`.
pub fn find_conflict(course: &Course, courses: &Vec<Course>) -> (r: Option<String>)
    ensures
        r matches Some(name) ==> conflict_name(course@, views(courses@)) == Some(name@),
        r is None ==> conflict_name(course@, views(courses@)) is None,
{
    let ghost s = views(courses@);
    let mut k: usize = 0;
    assert(s.take(0) =~= Seq::<CourseView>::empty());
    while k < courses.len()
        invariant
            k <= courses.len(),
            s == views(courses@),
            first_conflict(course@, s.take(k as int)) is None,
        decreases courses.len() - k,
    {
        assert(s.take(k + 1).drop_last() =~= s.take(k as int));
        if !compatible(&courses[k], course) {
            proof {
                lemma_first_conflict_grows(course@, s, k + 1);
            }
            return Some(courses[k].name.clone());
        }
        k += 1;
    }
    assert(s.take(courses.len() as int) =~= s);
    None
}

/// A first conflict found in a prefix is the first conflict of the whole.
pub proof fn lemma_first_conflict_grows(c: CourseView, s: Seq<CourseView>, k: int)
    requires
        0 <= k <= s.len(),
        first_conflict(c, s.take(k)) is Some,
    ensures
        first_conflict(c, s) == first_conflict(c, s.take(k)),
    decreases s.len() - k,
{
    if k < s.len() {
        assert(s.take(k + 1).drop_last() =~= s.take(k));
        lemma_first_conflict_grows(c, s, k + 1);
    } else {
        assert(s.take(k) =~= s);
    }
}

/// Every pair of `courses` in conflict, the earlier course first.
pub fn conflicts(courses: &Vec<Course>) -> (r: Vec<(Course, Course)>)
    ensures
        pair_views(r@) == conflict_pairs(views(courses@)),
{
    let ghost s = views(courses@);
    let mut out: Vec<(Course, Course)> = Vec::new();
    let mut i: usize = 0;
    assert(pair_views(out@) =~= Seq::<(CourseView, CourseView)>::empty());
    while i < courses.len()
        invariant
            i <= courses.len(),
            s == views(courses@),
            pair_views(out@) + conflicts_from(s, i as int) == conflict_pairs(s),
        decreases courses.len() - i,
    {
        let mut j: usize = i + 1;
        while j < courses.len()
            invariant
                i < j <= courses.len(),
                s == views(courses@),
                pair_views(out@) + conflicts_with(s, i as int, j as int) + conflicts_from(
                    s,
                    i + 1,
                ) == conflict_pairs(s),
            decreases courses.len() - j,
        {
            if !compatible(&courses[i], &courses[j]) {
                let pair = (courses[i].clone(), courses[j].clone());
                proof {
                    let entry = seq![(s[i as int], s[j as int])];
                    assert(pair_views(out@.push(pair)) =~= pair_views(out@) + entry);
                    assert(pair_views(out@) + (entry + conflicts_with(s, i as int, j + 1))
                        =~= pair_views(out@) + entry + conflicts_with(s, i as int, j + 1));
                }
                out.push(pair);
            }
            j += 1;
        }
        assert(pair_views(out@) + conflicts_with(s, i as int, j as int) =~= pair_views(out@));
        i += 1;
    }
    assert(pair_views(out@) + conflicts_from(s, i as int) =~= pair_views(out@));
    out
}

} // verus!
