use timetable::codec::{CatalogProvider, Dataset};
use timetable::grid::{cell_state, courses_in_slot, days, display_order, timeslots, CellState};
use timetable::selection::holds_name;
use timetable::model::{Course, CourseDuration};
use timetable::session::Session;
use timetable::typewriter::{Typewriter, IDLE_PLACEHOLDER};

fn course(name: &str, day: &str, slot: &str, duration: CourseDuration) -> Course {
    Course { name: name.to_string(), day: day.to_string(), slot: slot.to_string(), duration }
}

fn catalog() -> Vec<Course> {
    vec![
        course("A", "Monday", "T1", CourseDuration::Full),
        course("B", "Monday", "T1", CourseDuration::Full),
        course("C (H1)", "Monday", "T3", CourseDuration::H1),
        course("D (H2)", "Monday", "T3", CourseDuration::H2),
    ]
}

fn provider() -> CatalogProvider {
    CatalogProvider { datasets: vec![Dataset { version: "S26".to_string(), courses: catalog() }] }
}

fn names(session: &Session) -> Vec<String> {
    session.selection().courses().iter().map(|c| c.name.clone()).collect()
}

#[test]
fn open_restores_the_shared_selection() {
    let s = Session::open("?s=S26&c=2,3,0", &provider());
    assert_eq!(s.semester(), "S26");
    assert_eq!(names(&s), vec!["C (H1)", "D (H2)", "A"]);
    assert_eq!(s.pending_deletion(), &None);
    let s = Session::open("", &provider());
    assert_eq!(s.semester(), "S26");
    assert!(s.selection().is_empty());
    let s = Session::open("?s=M25&c=0", &provider());
    assert_eq!(s.semester(), "M25");
    assert!(s.selection().is_empty());
}

#[test]
fn open_keeps_conflicts_of_the_reference() {
    let s = Session::open("s=S26&c=0,1", &provider());
    assert_eq!(names(&s), vec!["A", "B"]);
    assert!(s.selection().has_conflict());
    assert_eq!(s.selection().conflicts().len(), 1);
}

#[test]
fn switching_the_dataset_clears_the_selection() {
    let mut s = Session::open("", &provider());
    s.select(catalog()[0].clone());
    s.click_course("A");
    assert_eq!(s.selection().len(), 1);
    s.switch_semester("M25");
    assert!(s.selection().is_empty());
    assert_eq!(s.semester(), "M25");
    assert_eq!(s.pending_deletion(), &None);
    s.select(catalog()[1].clone());
    s.switch_semester("M25");
    assert!(s.selection().is_empty());
}

#[test]
fn select_replaces_conflicts() {
    let mut s = Session::open("", &provider());
    s.select(catalog()[0].clone());
    s.select(catalog()[2].clone());
    s.select(catalog()[1].clone());
    s.select(catalog()[3].clone());
    assert_eq!(names(&s), vec!["C (H1)", "B", "D (H2)"]);
    assert_eq!(s.semester(), "S26");
}

#[test]
fn second_click_removes_the_course() {
    let mut s = Session::open("s=S26&c=0,2", &provider());
    s.click_course("A");
    assert!(s.is_pending("A"));
    assert!(!s.is_pending("C (H1)"));
    assert_eq!(names(&s), vec!["A", "C (H1)"]);
    s.click_course("C (H1)");
    assert_eq!(s.pending_deletion(), &Some("C (H1)".to_string()));
    assert_eq!(names(&s), vec!["A", "C (H1)"]);
    s.click_course("C (H1)");
    assert_eq!(s.pending_deletion(), &None);
    assert_eq!(names(&s), vec!["A"]);
    s.click_course("A");
    s.click_elsewhere();
    assert_eq!(s.pending_deletion(), &None);
    s.click_course("A");
    assert_eq!(names(&s), vec!["A"]);
    assert!(s.is_pending("A"));
}

#[test]
fn share_writes_the_reference_string() {
    let mut s = Session::open("", &provider());
    assert_eq!(s.share(&catalog()), "s=S26&c=");
    s.select(catalog()[3].clone());
    s.select(catalog()[0].clone());
    assert_eq!(s.share(&catalog()), "s=S26&c=3,0");
    let again = Session::open(&s.share(&catalog()), &provider());
    assert_eq!(names(&again), names(&s));
}

#[test]
fn grid_axes() {
    assert_eq!(days(), vec!["Monday", "Tuesday", "Wednesday"]);
    let slots = timeslots();
    assert_eq!(slots.len(), 6);
    assert_eq!(slots[0], ("T1", "8:30 - 9:55"));
    assert_eq!(slots[1], ("T2", "10:05 - 11:30"));
    assert_eq!(slots[2], ("T3", "11:40 - 1:05"));
    assert_eq!(slots[3], ("T4", "2:00 - 3:25"));
    assert_eq!(slots[4], ("T5", "3:35 - 5:00"));
    assert_eq!(slots[5], ("T6", "5:10 - 6:40"));
}

#[test]
fn cell_courses_and_their_order() {
    let all = vec![
        course("Late (H2)", "Monday", "T3", CourseDuration::H2),
        course("Elsewhere", "Monday", "T1", CourseDuration::Full),
        course("Whole", "Monday", "T3", CourseDuration::Full),
        course("Other day", "Tuesday", "T3", CourseDuration::H1),
        course("Early (H1)", "Monday", "T3", CourseDuration::H1),
        course("Later (H2)", "Monday", "T3", CourseDuration::H2),
    ];
    let cell = courses_in_slot(&all, "Monday", "T3");
    let cell_names: Vec<&str> = cell.iter().map(|c| c.name.as_str()).collect();
    assert_eq!(cell_names, vec!["Late (H2)", "Whole", "Early (H1)", "Later (H2)"]);
    let shown = display_order(&cell);
    let shown_names: Vec<&str> = shown.iter().map(|c| c.name.as_str()).collect();
    assert_eq!(shown_names, vec!["Early (H1)", "Whole", "Late (H2)", "Later (H2)"]);
    assert!(courses_in_slot(&all, "Wednesday", "T3").is_empty());
    assert!(holds_name(&cell, "Whole"));
    assert!(!holds_name(&cell, "Elsewhere"));
}

#[test]
fn cell_states() {
    let h1 = course("Early (H1)", "Monday", "T3", CourseDuration::H1);
    let h2 = course("Late (H2)", "Monday", "T3", CourseDuration::H2);
    let full = course("Whole", "Monday", "T3", CourseDuration::Full);
    let pair = vec![h1.clone(), h2.clone()];
    assert_eq!(cell_state(&pair, &None), CellState::Occupied);
    assert_eq!(cell_state(&pair, &Some("Late (H2)".to_string())), CellState::Highlighted);
    assert_eq!(cell_state(&pair, &Some("Whole".to_string())), CellState::Occupied);
    let clash = vec![h1.clone(), full.clone()];
    assert_eq!(cell_state(&clash, &None), CellState::Conflict);
    assert_eq!(cell_state(&clash, &Some("Whole".to_string())), CellState::Conflict);
    assert_eq!(cell_state(&Vec::new(), &None), CellState::Empty);
    assert_eq!(cell_state(&Vec::new(), &Some("Whole".to_string())), CellState::Empty);
}

#[test]
fn typewriter_types_holds_and_deletes() {
    let hints = vec!["AB", "C"];
    let mut t = Typewriter::new();
    assert_eq!(t.tick(&hints, false), Some("A".to_string()));
    assert_eq!(t.tick(&hints, false), Some("AB".to_string()));
    for k in 0..80 {
        assert_eq!(t.tick(&hints, false), None);
        assert_eq!(t.waited, k + 1);
        assert!(!t.deleting);
    }
    assert_eq!(t.tick(&hints, false), None);
    assert!(t.deleting);
    assert_eq!(t.waited, 0);
    assert_eq!(t.tick(&hints, false), Some("A".to_string()));
    assert_eq!(t.tick(&hints, false), Some("".to_string()));
    assert_eq!(t.tick(&hints, false), None);
    assert_eq!(t, Typewriter { hint: 1, shown: 0, deleting: false, waited: 0 });
    assert_eq!(t.tick(&hints, false), Some("C".to_string()));
    for _ in 0..81 {
        assert_eq!(t.tick(&hints, false), None);
    }
    assert_eq!(t.tick(&hints, false), Some("".to_string()));
    assert_eq!(t.tick(&hints, false), None);
    assert_eq!(t.hint, 0);
}

#[test]
fn typewriter_stands_still_while_busy() {
    let hints = vec!["AB"];
    let mut t = Typewriter::new();
    t.tick(&hints, false);
    let before = t;
    assert_eq!(t.tick(&hints, true), Some(IDLE_PLACEHOLDER.to_string()));
    assert_eq!(t, before);
    assert_eq!(IDLE_PLACEHOLDER, "SEARCH COURSES...");
    let mut none = Typewriter::new();
    assert_eq!(none.tick(&Vec::new(), false), None);
    assert_eq!(none, Typewriter::new());
}

#[test]
fn share_address_replaces_the_query() {
    let mut s = Session::open("", &provider());
    s.select(catalog()[1].clone());
    assert_eq!(
        s.share_address("https://example.org/timetable/?s=M25&c=9", &catalog()),
        "https://example.org/timetable/?s=S26&c=1"
    );
    assert_eq!(s.share_address("https://example.org/app", &catalog()), "https://example.org/app?s=S26&c=1");
    assert_eq!(s.share_address("", &catalog()), "?s=S26&c=1");
    assert_eq!(s.share_address("a?b?c", &catalog()), "a?s=S26&c=1");
}

#[test]
fn clone_of_a_session_is_the_same_session() {
    let mut s = Session::open("s=S26&c=0", &provider());
    s.click_course("A");
    let t = s.clone();
    assert_eq!(t.semester(), s.semester());
    assert_eq!(t.selection().courses(), s.selection().courses());
    assert_eq!(t.pending_deletion(), s.pending_deletion());
}

#[test]
fn open_fields_takes_decoded_values() {
    let s = Session::open_fields(Some("S26"), Some("2,3,0"), &provider());
    assert_eq!(s.semester(), "S26");
    assert_eq!(names(&s), vec!["C (H1)", "D (H2)", "A"]);
    assert_eq!(s.pending_deletion(), &None);
    let s = Session::open_fields(None, Some("1"), &provider());
    assert_eq!(s.semester(), "S26");
    assert_eq!(names(&s), vec!["B"]);
    let s = Session::open_fields(Some("S26"), None, &provider());
    assert!(s.selection().is_empty());
    let s = Session::open_fields(Some("M25"), Some("0"), &provider());
    assert_eq!(s.semester(), "M25");
    assert!(s.selection().is_empty());
    let s = Session::open_fields(None, None, &provider());
    assert_eq!(s.semester(), "S26");
    assert!(s.selection().is_empty());
}

#[test]
fn open_takes_a_repeated_position_once() {
    let s = Session::open("s=S26&c=1,1,0,1", &provider());
    assert_eq!(names(&s), vec!["B", "A"]);
    let s = Session::open_fields(Some("S26"), Some("3,3"), &provider());
    assert_eq!(names(&s), vec!["D (H2)"]);
}
