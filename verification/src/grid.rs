//! The weekly grid: its days and slots, and what one cell of it shows.

use vstd::prelude::*;
use crate::conflict::{any_conflict, has_conflict};
use crate::model::{views, Course, CourseDuration, CourseView};
use crate::selection::{has_name, holds_name};
use crate::text::same_text;

verus! {

/// The slots of a day, in order, each with its hours.
pub fn timeslots() -> (r: Vec<(&'static str, &'static str)>)
    ensures
        r.len() == 6,
        r[0].0@ == "T1"@ && r[0].1@ == "8:30 - 9:55"@,
        r[1].0@ == "T2"@ && r[1].1@ == "10:05 - 11:30"@,
        r[2].0@ == "T3"@ && r[2].1@ == "11:40 - 1:05"@,
        r[3].0@ == "T4"@ && r[3].1@ == "2:00 - 3:25"@,
        r[4].0@ == "T5"@ && r[4].1@ == "3:35 - 5:00"@,
        r[5].0@ == "T6"@ && r[5].1@ == "5:10 - 6:40"@,
{
    vec![
        ("T1", "8:30 - 9:55"),
        ("T2", "10:05 - 11:30"),
        ("T3", "11:40 - 1:05"),
        ("T4", "2:00 - 3:25"),
        ("T5", "3:35 - 5:00"),
        ("T6", "5:10 - 6:40"),
    ]
}

/// The days of the grid, in order.
pub fn days() -> (r: Vec<&'static str>)
    ensures
        r.len() == 3,
        r[0]@ == "Monday"@,
        r[1]@ == "Tuesday"@,
        r[2]@ == "Wednesday"@,
{
    vec!["Monday", "Tuesday", "Wednesday"]
}

/// Tells the courses that are placed in `day` and `slot`.
pub open spec fn placed_in(day: Seq<char>, slot: Seq<char>) -> spec_fn(CourseView) -> bool {
    |c: CourseView| c.day == day && c.slot == slot
}

/// Tells the courses of duration `d`.
pub open spec fn lasts(d: CourseDuration) -> spec_fn(CourseView) -> bool {
    |c: CourseView| c.duration == d
}

/// The courses of a cell in the order in which it shows them: the
/// first-half courses, then the full ones, then the second-half ones, each
/// group in the order it had.
pub open spec fn shown_order(cell: Seq<CourseView>) -> Seq<CourseView> {
    cell.filter(lasts(CourseDuration::H1)) + cell.filter(lasts(CourseDuration::Full))
        + cell.filter(lasts(CourseDuration::H2))
}

/// How a cell presents itself.
#[derive(Clone, Copy, Debug, PartialEq, Eq, Structural)]
pub enum CellState {
    /// Two of its courses are in conflict.
    Conflict,
    /// It holds the course that is pointed at.
    Highlighted,
    /// It holds courses.
    Occupied,
    /// It holds nothing.
    Empty,
}

/// The state of a cell with the courses `cell` while the course called
/// `hovered` is pointed at: a conflict counts before a highlight, a
/// highlight before mere occupation.
pub open spec fn state_of(cell: Seq<CourseView>, hovered: Option<Seq<char>>) -> CellState {
    if any_conflict(cell) {
        CellState::Conflict
    } else if hovered is Some && has_name(cell, hovered.unwrap()) {
        CellState::Highlighted
    } else if cell.len() > 0 {
        CellState::Occupied
    } else {
        CellState::Empty
    }
}

/// The courses among `courses` that are placed in `day` and `slot`, in
/// order.
pub fn courses_in_slot(courses: &Vec<Course>, day: &str, slot: &str) -> (cell: Vec<Course>)
    ensures
        views(cell@) == views(courses@).filter(placed_in(day@, slot@)),
{
    let ghost all = views(courses@);
    let ghost keep = placed_in(day@, slot@);
    let mut cell: Vec<Course> = Vec::new();
    let mut i: usize = 0;
    proof {
        reveal(Seq::filter);
        assert(all.take(0) =~= Seq::<CourseView>::empty());
        assert(views(cell@) =~= all.take(0).filter(keep));
    }
    while i < courses.len()
        invariant
            i <= courses.len(),
            all == views(courses@),
            keep == placed_in(day@, slot@),
            views(cell@) == all.take(i as int).filter(keep),
        decreases courses.len() - i,
    {
        proof {
            assert(all.take(i + 1) =~= all.take(i as int).push(all[i as int]));
            all.take(i as int).lemma_filter_push(all[i as int], keep);
        }
        if same_text(courses[i].day.as_str(), day) && same_text(courses[i].slot.as_str(), slot) {
            let c = courses[i].clone();
            assert(views(cell@.push(c)) =~= views(cell@).push(c@));
            cell.push(c);
        }
        i += 1;
    }
    assert(all.take(courses.len() as int) =~= all);
    cell
}

/// Appends to `out` the courses of `cell` that last `d`, in order.
fn push_lasting(out: &mut Vec<Course>, cell: &Vec<Course>, d: CourseDuration)
    ensures
        views(final(out)@) == views(old(out)@) + views(cell@).filter(lasts(d)),
{
    let ghost all = views(cell@);
    let ghost keep = lasts(d);
    let ghost before = views(out@);
    let mut i: usize = 0;
    proof {
        reveal(Seq::filter);
        assert(all.take(0) =~= Seq::<CourseView>::empty());
        assert(views(out@) =~= before + all.take(0).filter(keep));
    }
    while i < cell.len()
        invariant
            i <= cell.len(),
            all == views(cell@),
            keep == lasts(d),
            views(out@) == before + all.take(i as int).filter(keep),
        decreases cell.len() - i,
    {
        proof {
            assert(all.take(i + 1) =~= all.take(i as int).push(all[i as int]));
            all.take(i as int).lemma_filter_push(all[i as int], keep);
        }
        if cell[i].duration == d {
            let c = cell[i].clone();
            assert(views(out@.push(c)) =~= views(out@).push(c@));
            assert(before + all.take(i as int).filter(keep).push(c@) =~= (before + all.take(
                i as int,
            ).filter(keep)).push(c@));
            out.push(c);
        }
        i += 1;
    }
    assert(all.take(cell.len() as int) =~= all);
}

/// The courses of a cell in the order in which it shows them.
pub fn display_order(cell: &Vec<Course>) -> (shown: Vec<Course>)
    ensures
        views(shown@) == shown_order(views(cell@)),
{
    let mut shown: Vec<Course> = Vec::new();
    assert(views(shown@) =~= Seq::<CourseView>::empty());
    push_lasting(&mut shown, cell, CourseDuration::H1);
    assert(views(shown@) =~= views(cell@).filter(lasts(CourseDuration::H1)));
    push_lasting(&mut shown, cell, CourseDuration::Full);
    push_lasting(&mut shown, cell, CourseDuration::H2);
    shown
}

/// The state of a cell with the courses `cell` while the course called
/// `hovered` is pointed at.
pub fn cell_state(cell: &Vec<Course>, hovered: &Option<String>) -> (state: CellState)
    ensures
        state == state_of(
            views(cell@),
            match *hovered {
                Some(name) => Some(name@),
                None => None,
            },
        ),
{
    if has_conflict(cell) {
        return CellState::Conflict;
    }
    let highlighted = match hovered {
        Some(name) => holds_name(cell, name.as_str()),
        None => false,
    };
    if highlighted {
        CellState::Highlighted
    } else if cell.len() > 0 {
        CellState::Occupied
    } else {
        CellState::Empty
    }
}

} // verus!
