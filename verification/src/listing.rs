//! The list of courses that can still be chosen for a day, a slot, or both.

use vstd::prelude::*;
use crate::model::{filter_admits, views, Course, CourseView, FilterMode, FilterModeView};
use crate::selection::Selection;
use crate::text::{chars_of, string_of};

verus! {

/// Tells the courses that `filter` admits and that are not in `selection`.
pub open spec fn on_offer(filter: FilterModeView, selection: Seq<CourseView>) -> spec_fn(
    CourseView,
) -> bool {
    |c: CourseView| filter_admits(filter, c) && !selection.contains(c)
}

/// The courses listed for `filter`: none without a filter; else the
/// catalog courses that the filter admits and that are not selected, in
/// catalog order.
pub open spec fn listed(
    filter: Option<FilterModeView>,
    catalog: Seq<CourseView>,
    selection: Seq<CourseView>,
) -> Seq<CourseView> {
    match filter {
        Some(f) => catalog.filter(on_offer(f, selection)),
        None => Seq::empty(),
    }
}

/// The value of a filter that may be absent.
pub open spec fn filter_view(filter: Option<FilterMode>) -> Option<FilterModeView> {
    match filter {
        Some(f) => Some(f@),
        None => None,
    }
}

/// The heading of the list for `filter`.
pub open spec fn heading(filter: Option<FilterModeView>) -> Seq<char> {
    match filter {
        Some(FilterModeView::Day(d)) => "COURSES ON "@ + d,
        Some(FilterModeView::Slot(s)) => "COURSES IN "@ + s,
        Some(FilterModeView::Intersection(d, s)) => d + " - "@ + s,
        None => Seq::empty(),
    }
}

/// Whether `course` is one of `courses`, field by field.
pub fn is_member(courses: &Vec<Course>, course: &Course) -> (r: bool)
    ensures
        r == views(courses@).contains(course@),
{
    let mut i: usize = 0;
    while i < courses.len()
        invariant
            i <= courses.len(),
            forall|k: int| 0 <= k < i ==> views(courses@)[k] != course@,
        decreases courses.len() - i,
    {
        if courses[i] == *course {
            assert(views(courses@)[i as int] == course@);
            return true;
        }
        i += 1;
    }
    false
}

/// The courses to list for `filter`.
pub fn filter_courses(filter: &Option<FilterMode>, catalog: &Vec<Course>, selection: &Selection) -> (r:
    Vec<Course>)
    ensures
        views(r@) == listed(filter_view(*filter), views(catalog@), selection@),
{
    let mut out: Vec<Course> = Vec::new();
    assert(views(out@) =~= Seq::<CourseView>::empty());
    match filter {
        None => out,
        Some(f) => {
            let ghost all = views(catalog@);
            let ghost keep = on_offer(f@, selection@);
            let mut i: usize = 0;
            proof {
                reveal(Seq::filter);
                assert(all.take(0) =~= Seq::<CourseView>::empty());
                assert(views(out@) =~= all.take(0).filter(keep));
            }
            while i < catalog.len()
                invariant
                    i <= catalog.len(),
                    all == views(catalog@),
                    keep == on_offer(f@, selection@),
                    views(out@) == all.take(i as int).filter(keep),
                decreases catalog.len() - i,
            {
                proof {
                    assert(all.take(i + 1) =~= all.take(i as int).push(all[i as int]));
                    all.take(i as int).lemma_filter_push(all[i as int], keep);
                }
                if f.admits(&catalog[i]) && !is_member(selection.courses(), &catalog[i]) {
                    let c = catalog[i].clone();
                    assert(views(out@.push(c)) =~= views(out@).push(c@));
                    out.push(c);
                }
                i += 1;
            }
            assert(all.take(catalog.len() as int) =~= all);
            out
        },
    }
}

/// Appends the characters of `s` to `out`.
fn push_text(out: &mut Vec<char>, s: &str)
    ensures
        final(out)@ == old(out)@ + s@,
{
    let chars = chars_of(s);
    let ghost before = out@;
    let mut i: usize = 0;
    assert(out@ =~= before + chars@.take(0));
    while i < chars.len()
        invariant
            i <= chars.len(),
            out@ == before + chars@.take(i as int),
        decreases chars.len() - i,
    {
        out.push(chars[i]);
        assert(out@ =~= before + chars@.take(i + 1));
        i += 1;
    }
    assert(chars@.take(chars.len() as int) =~= chars@);
}

/// The heading of the list for `filter`.
pub fn title(filter: &Option<FilterMode>) -> (r: String)
    ensures
        r@ == heading(filter_view(*filter)),
{
    let mut out: Vec<char> = Vec::new();
    match filter {
        Some(FilterMode::Day(d)) => {
            push_text(&mut out, "COURSES ON ");
            push_text(&mut out, d.as_str());
            assert(out@ =~= "COURSES ON "@ + d@);
        },
        Some(FilterMode::Slot(s)) => {
            push_text(&mut out, "COURSES IN ");
            push_text(&mut out, s.as_str());
            assert(out@ =~= "COURSES IN "@ + s@);
        },
        Some(FilterMode::Intersection(d, s)) => {
            push_text(&mut out, d.as_str());
            push_text(&mut out, " - ");
            push_text(&mut out, s.as_str());
            assert(out@ =~= d@ + " - "@ + s@);
        },
        None => {
            assert(out@ =~= Seq::<char>::empty());
        },
    }
    string_of(&out)
}

} // verus!
