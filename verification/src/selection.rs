//! The courses a user has chosen.

use vstd::prelude::*;
use crate::conflict::{
    any_conflict, compatible, conflict_pairs, conflicts, has_conflict, is_compatible, is_conflict,
    pair_views, same_slot,
};
use crate::model::{copy_courses, names_distinct, views, Course, CourseDuration, CourseView};
use crate::text::same_text;

verus! {

/// Tells the members that stay when `c` is added: those not in conflict
/// with it.
pub open spec fn stays_with(c: CourseView) -> spec_fn(CourseView) -> bool {
    |m: CourseView| !is_conflict(m, c)
}

/// Tells the members that are not called `name`.
pub open spec fn not_named(name: Seq<char>) -> spec_fn(CourseView) -> bool {
    |m: CourseView| m.name != name
}

/// The selection after `c` is added to `s`: the members in conflict with
/// `c` are gone, the others keep their order, and `c` comes last.
pub open spec fn after_add(s: Seq<CourseView>, c: CourseView) -> Seq<CourseView> {
    s.filter(stays_with(c)).push(c)
}

/// The selection after the course called `name` is removed from `s`.
pub open spec fn after_remove(s: Seq<CourseView>, name: Seq<char>) -> Seq<CourseView> {
    s.filter(not_named(name))
}

/// Whether a member of `s` is called `name`.
pub open spec fn has_name(s: Seq<CourseView>, name: Seq<char>) -> bool {
    exists|i: int| 0 <= i < s.len() && (#[trigger] s[i]).name == name
}

/// The courses of `s` without those whose name an earlier course of `s`
/// has: of each name the first course, in the order of `s`.
pub open spec fn first_of_each_name(s: Seq<CourseView>) -> Seq<CourseView>
    decreases s.len(),
{
    if s.len() == 0 {
        Seq::empty()
    } else {
        let front = first_of_each_name(s.drop_last());
        if has_name(front, s.last().name) {
            front
        } else {
            front.push(s.last())
        }
    }
}

/// A course whose name no member has can join without a name being
/// repeated.
pub proof fn lemma_push_keeps_distinct(s: Seq<CourseView>, c: CourseView)
    requires
        names_distinct(s),
        !has_name(s, c.name),
    ensures
        names_distinct(s.push(c)),
{
    let all = s.push(c);
    assert forall|i: int, j: int| 0 <= i < j < all.len() implies (#[trigger] all[i]).name != (
    #[trigger] all[j]).name by {
        assert(all[i] == s[i]);
        if j < s.len() {
            assert(all[j] == s[j]);
        }
    }
}

/// Taking the first course of each name leaves no name repeated.
pub proof fn lemma_first_of_each_name_distinct(s: Seq<CourseView>)
    ensures
        names_distinct(first_of_each_name(s)),
    decreases s.len(),
{
    if s.len() > 0 {
        let front = first_of_each_name(s.drop_last());
        lemma_first_of_each_name_distinct(s.drop_last());
        if !has_name(front, s.last().name) {
            lemma_push_keeps_distinct(front, s.last());
        }
    }
}

/// Where no name is repeated, taking the first course of each name
/// changes nothing.
pub proof fn lemma_first_of_each_name_same(s: Seq<CourseView>)
    requires
        names_distinct(s),
    ensures
        first_of_each_name(s) == s,
    decreases s.len(),
{
    if s.len() > 0 {
        let front = s.drop_last();
        assert forall|i: int, j: int| 0 <= i < j < front.len() implies (#[trigger] front[i]).name
            != (#[trigger] front[j]).name by {
            assert(front[i] == s[i] && front[j] == s[j]);
        }
        lemma_first_of_each_name_same(front);
        if has_name(front, s.last().name) {
            let w = choose|w: int| 0 <= w < front.len() && (#[trigger] front[w]).name == s.last().name;
            assert(front[w] == s[w]);
            assert(s[s.len() - 1] == s.last());
        }
        assert(front.push(s.last()) =~= s);
    } else {
        assert(first_of_each_name(s) =~= s);
    }
}

/// After `c` is added it is the last member, and no member before it is in
/// conflict with it.
pub proof fn lemma_add_evicts(s: Seq<CourseView>, c: CourseView)
    ensures
        after_add(s, c).len() >= 1,
        after_add(s, c).last() == c,
        forall|i: int|
            0 <= i < after_add(s, c).len() - 1 ==> !is_conflict(#[trigger] after_add(s, c)[i], c),
{
    let kept = s.filter(stays_with(c));
    assert forall|i: int| 0 <= i < after_add(s, c).len() - 1 implies !is_conflict(
        #[trigger] after_add(s, c)[i],
        c,
    ) by {
        s.lemma_filter_pred(stays_with(c), i);
        assert(after_add(s, c)[i] == kept[i]);
    }
}

/// Adding `c` keeps every member that is compatible with it.
pub proof fn lemma_add_keeps(s: Seq<CourseView>, c: CourseView, i: int)
    requires
        0 <= i < s.len(),
        is_compatible(s[i], c),
    ensures
        after_add(s, c).contains(s[i]),
        after_add(s, c).contains(c),
{
    let kept = s.filter(stays_with(c));
    s.lemma_filter_contains(stays_with(c), i);
    let w = choose|w: int| 0 <= w < kept.len() && kept[w] == s[i];
    assert(after_add(s, c)[w] == s[i]);
    assert(after_add(s, c)[kept.len() as int] == c);
}

/// Adding a half-semester course to a slot that holds the other half
/// leaves both in the selection.
pub proof fn lemma_add_keeps_other_half(s: Seq<CourseView>, c: CourseView, i: int)
    requires
        0 <= i < s.len(),
        same_slot(s[i], c),
        (s[i].duration == CourseDuration::H1 && c.duration == CourseDuration::H2) || (
        s[i].duration == CourseDuration::H2 && c.duration == CourseDuration::H1),
    ensures
        after_add(s, c).contains(s[i]),
        after_add(s, c).contains(c),
{
    lemma_add_keeps(s, c, i);
}

/// Filtering twice is filtering once.
proof fn lemma_filter_twice(s: Seq<CourseView>, keep: spec_fn(CourseView) -> bool)
    ensures
        s.filter(keep).filter(keep) == s.filter(keep),
    decreases s.len(),
{
    reveal(Seq::filter);
    if s.len() > 0 {
        lemma_filter_twice(s.drop_last(), keep);
        if keep(s.last()) {
            s.drop_last().filter(keep).lemma_filter_push(s.last(), keep);
        }
    }
}

/// Adding a course twice gives what adding it once gives.
pub proof fn lemma_add_idempotent(s: Seq<CourseView>, c: CourseView)
    ensures
        after_add(after_add(s, c), c) == after_add(s, c),
{
    let kept = s.filter(stays_with(c));
    lemma_filter_twice(s, stays_with(c));
    kept.lemma_filter_push(c, stays_with(c));
    assert(is_conflict(c, c));
}

/// After a removal no member has the name, and removing a name that no
/// member has changes nothing.
pub proof fn lemma_remove(s: Seq<CourseView>, name: Seq<char>)
    ensures
        !has_name(after_remove(s, name), name),
        !has_name(s, name) ==> after_remove(s, name) == s,
    decreases s.len(),
{
    let r = after_remove(s, name);
    assert forall|i: int| 0 <= i < r.len() implies (#[trigger] r[i]).name != name by {
        s.lemma_filter_pred(not_named(name), i);
    }
    if !has_name(s, name) {
        lemma_keep_all(s, not_named(name));
    }
}

/// Filtering a list without repeated names leaves no repeated names.
proof fn lemma_filter_keeps_distinct(s: Seq<CourseView>, keep: spec_fn(CourseView) -> bool)
    requires
        names_distinct(s),
    ensures
        names_distinct(s.filter(keep)),
    decreases s.len(),
{
    reveal(Seq::filter);
    if s.len() > 0 {
        let front = s.drop_last();
        assert forall|i: int, j: int| 0 <= i < j < front.len() implies (#[trigger] front[i]).name
            != (#[trigger] front[j]).name by {
            assert(front[i] == s[i] && front[j] == s[j]);
        }
        lemma_filter_keeps_distinct(front, keep);
        if keep(s.last()) {
            let kept = front.filter(keep);
            let all = kept.push(s.last());
            assert forall|i: int, j: int| 0 <= i < j < all.len() implies (#[trigger] all[i]).name
                != (#[trigger] all[j]).name by {
                assert(all[i] == kept[i]);
                if j < kept.len() {
                    assert(all[j] == kept[j]);
                } else {
                    assert(kept.contains(kept[i]));
                    front.lemma_filter_contains_rev(keep, kept[i]);
                    let w = choose|w: int| 0 <= w < front.len() && front[w] == kept[i];
                    assert(s[w] == kept[i]);
                    assert(s[s.len() - 1] == all[j]);
                }
            }
        }
    }
}

/// A selection without repeated names keeps none when `c` is added, where
/// every member that has the name of `c` is in conflict with `c`, as the
/// course itself is.
pub proof fn lemma_add_keeps_names_distinct(s: Seq<CourseView>, c: CourseView)
    requires
        names_distinct(s),
        forall|i: int| 0 <= i < s.len() && (#[trigger] s[i]).name == c.name ==> is_conflict(s[i], c),
    ensures
        names_distinct(after_add(s, c)),
{
    let kept = s.filter(stays_with(c));
    let all = after_add(s, c);
    lemma_filter_keeps_distinct(s, stays_with(c));
    assert forall|i: int, j: int| 0 <= i < j < all.len() implies (#[trigger] all[i]).name != (
    #[trigger] all[j]).name by {
        assert(all[i] == kept[i]);
        if j < kept.len() {
            assert(all[j] == kept[j]);
        } else {
            s.lemma_filter_pred(stays_with(c), i);
            assert(kept.contains(kept[i]));
            s.lemma_filter_contains_rev(stays_with(c), kept[i]);
            let w = choose|w: int| 0 <= w < s.len() && s[w] == kept[i];
            assert(!is_conflict(s[w], c));
        }
    }
}

/// A selection without repeated names keeps none when a course is
/// removed.
pub proof fn lemma_remove_keeps_names_distinct(s: Seq<CourseView>, name: Seq<char>)
    requires
        names_distinct(s),
    ensures
        names_distinct(after_remove(s, name)),
{
    lemma_filter_keeps_distinct(s, not_named(name));
}

/// A filter that every member passes changes nothing.
proof fn lemma_keep_all(s: Seq<CourseView>, keep: spec_fn(CourseView) -> bool)
    requires
        forall|i: int| 0 <= i < s.len() ==> keep(#[trigger] s[i]),
    ensures
        s.filter(keep) == s,
    decreases s.len(),
{
    reveal(Seq::filter);
    if s.len() > 0 {
        let front = s.drop_last();
        assert forall|i: int| 0 <= i < front.len() implies keep(#[trigger] front[i]) by {
            assert(front[i] == s[i]);
        }
        lemma_keep_all(front, keep);
        assert(keep(s[s.len() - 1]));
        assert(front.push(s.last()) =~= s);
    }
}

/// The chosen courses, in the order in which they were chosen.
#[derive(Debug)]
pub struct Selection {
    courses: Vec<Course>,
}

impl View for Selection {
    type V = Seq<CourseView>;

    closed spec fn view(&self) -> Seq<CourseView> {
        views(self.courses@)
    }
}

impl Clone for Selection {
    fn clone(&self) -> (r: Selection)
        ensures
            r@ == self@,
    {
        Selection { courses: copy_courses(&self.courses) }
    }
}

/// Whether one of `courses` is called `name`.
pub fn holds_name(courses: &Vec<Course>, name: &str) -> (r: bool)
    ensures
        r == has_name(views(courses@), name@),
{
    let mut i: usize = 0;
    while i < courses.len()
        invariant
            i <= courses.len(),
            forall|k: int| 0 <= k < i ==> (#[trigger] views(courses@)[k]).name != name@,
        decreases courses.len() - i,
    {
        if same_text(courses[i].name.as_str(), name) {
            assert(views(courses@)[i as int].name == name@);
            return true;
        }
        i += 1;
    }
    false
}

impl Selection {
    /// The empty selection.
    pub fn new() -> (r: Selection)
        ensures
            r@ == Seq::<CourseView>::empty(),
    {
        let r = Selection { courses: Vec::new() };
        assert(r@ =~= Seq::<CourseView>::empty());
        r
    }

    /// The selection made of `courses`, in their order. Of courses with
    /// the same name only the first is taken, so that no name is repeated.
    pub fn from_courses(courses: &Vec<Course>) -> (r: Selection)
        ensures
            r@ == first_of_each_name(views(courses@)),
            names_distinct(r@),
    {
        let ghost all = views(courses@);
        let mut kept: Vec<Course> = Vec::new();
        let mut i: usize = 0;
        assert(all.take(0) =~= Seq::<CourseView>::empty());
        assert(views(kept@) =~= Seq::<CourseView>::empty());
        while i < courses.len()
            invariant
                i <= courses.len(),
                all == views(courses@),
                views(kept@) == first_of_each_name(all.take(i as int)),
            decreases courses.len() - i,
        {
            assert(all.take(i + 1).drop_last() =~= all.take(i as int));
            assert(all.take(i + 1).last() == courses@[i as int]@);
            if !holds_name(&kept, courses[i].name.as_str()) {
                let c = courses[i].clone();
                assert(views(kept@.push(c)) =~= views(kept@).push(c@));
                kept.push(c);
            }
            i += 1;
        }
        proof {
            assert(all.take(courses.len() as int) =~= all);
            lemma_first_of_each_name_distinct(all);
        }
        Selection { courses: kept }
    }

    /// The members, in order.
    pub fn courses(&self) -> (r: &Vec<Course>)
        ensures
            views(r@) == self@,
    {
        &self.courses
    }

    /// The number of members.
    pub fn len(&self) -> (n: usize)
        ensures
            n == self@.len(),
    {
        self.courses.len()
    }

    /// Whether there is no member.
    pub fn is_empty(&self) -> (r: bool)
        ensures
            r == (self@.len() == 0),
    {
        self.courses.len() == 0
    }

    /// Whether a member is called `name`.
    pub fn contains_name(&self, name: &str) -> (r: bool)
        ensures
            r == has_name(self@, name@),
    {
        holds_name(&self.courses, name)
    }

    /// Adds `course`: every member in conflict with it leaves, then it
    /// joins as the last member.
    pub fn add(&mut self, course: Course)
        ensures
            final(self)@ == after_add(old(self)@, course@),
    {
        let ghost before = self@;
        let mut kept: Vec<Course> = Vec::new();
        let mut i: usize = 0;
        proof {
            assert(before.take(0) =~= Seq::<CourseView>::empty());
            reveal(Seq::filter);
            assert(views(kept@) =~= before.take(0).filter(stays_with(course@)));
        }
        while i < self.courses.len()
            invariant
                i <= self.courses.len(),
                before == views(self.courses@),
                views(kept@) == before.take(i as int).filter(stays_with(course@)),
            decreases self.courses.len() - i,
        {
            proof {
                assert(before.take(i + 1) =~= before.take(i as int).push(before[i as int]));
                before.take(i as int).lemma_filter_push(before[i as int], stays_with(course@));
            }
            if compatible(&self.courses[i], &course) {
                let c = self.courses[i].clone();
                assert(views(kept@.push(c)) =~= views(kept@).push(c@));
                kept.push(c);
            }
            i += 1;
        }
        assert(before.take(self.courses.len() as int) =~= before);
        assert(views(kept@.push(course)) =~= views(kept@).push(course@));
        kept.push(course);
        self.courses = kept;
    }

    /// Removes the course called `name`; nothing changes where there is
    /// none.
    pub fn remove(&mut self, name: &str)
        ensures
            final(self)@ == after_remove(old(self)@, name@),
    {
        let ghost before = self@;
        let mut kept: Vec<Course> = Vec::new();
        let mut i: usize = 0;
        proof {
            assert(before.take(0) =~= Seq::<CourseView>::empty());
            reveal(Seq::filter);
            assert(views(kept@) =~= before.take(0).filter(not_named(name@)));
        }
        while i < self.courses.len()
            invariant
                i <= self.courses.len(),
                before == views(self.courses@),
                views(kept@) == before.take(i as int).filter(not_named(name@)),
            decreases self.courses.len() - i,
        {
            proof {
                assert(before.take(i + 1) =~= before.take(i as int).push(before[i as int]));
                before.take(i as int).lemma_filter_push(before[i as int], not_named(name@));
            }
            if !same_text(self.courses[i].name.as_str(), name) {
                let c = self.courses[i].clone();
                assert(views(kept@.push(c)) =~= views(kept@).push(c@));
                kept.push(c);
            }
            i += 1;
        }
        assert(before.take(self.courses.len() as int) =~= before);
        self.courses = kept;
    }

    /// Removes every member.
    pub fn clear(&mut self)
        ensures
            final(self)@ == Seq::<CourseView>::empty(),
    {
        self.courses = Vec::new();
        assert(self@ =~= Seq::<CourseView>::empty());
    }

    /// Every pair of members in conflict, the earlier member first.
    pub fn conflicts(&self) -> (r: Vec<(Course, Course)>)
        ensures
            pair_views(r@) == conflict_pairs(self@),
    {
        conflicts(&self.courses)
    }

    /// Whether any two members are in conflict.
    pub fn has_conflict(&self) -> (r: bool)
        ensures
            r == any_conflict(self@),
    {
        has_conflict(&self.courses)
    }
}

} // verus!
