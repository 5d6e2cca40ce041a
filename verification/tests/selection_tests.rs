use timetable::conflict::{compatible, conflicts, find_conflict, has_conflict, shares_slot};
use timetable::model::{Course, CourseDuration};
use timetable::selection::Selection;

fn course(name: &str, day: &str, slot: &str, duration: CourseDuration) -> Course {
    Course { name: name.to_string(), day: day.to_string(), slot: slot.to_string(), duration }
}

fn names(selection: &Selection) -> Vec<String> {
    selection.courses().iter().map(|c| c.name.clone()).collect()
}

#[test]
fn compatible_table_for_one_slot() {
    let all = [CourseDuration::Full, CourseDuration::H1, CourseDuration::H2];
    for a in all.iter() {
        for b in all.iter() {
            let x = course("X", "Monday", "T1", *a);
            let y = course("Y", "Monday", "T1", *b);
            let expected = matches!(
                (a, b),
                (CourseDuration::H1, CourseDuration::H2) | (CourseDuration::H2, CourseDuration::H1)
            );
            assert_eq!(compatible(&x, &y), expected);
            assert_eq!(compatible(&x, &y), compatible(&y, &x));
        }
    }
}

#[test]
fn different_slots_are_always_compatible() {
    let all = [CourseDuration::Full, CourseDuration::H1, CourseDuration::H2];
    for a in all.iter() {
        for b in all.iter() {
            let x = course("X", "Monday", "T1", *a);
            assert!(compatible(&x, &course("Y", "Monday", "T2", *b)));
            assert!(compatible(&x, &course("Y", "Tuesday", "T1", *b)));
        }
    }
    assert!(shares_slot(
        &course("X", "Monday", "T1", CourseDuration::Full),
        &course("Y", "Monday", "T1", CourseDuration::H1)
    ));
    assert!(!shares_slot(
        &course("X", "Monday", "T1", CourseDuration::Full),
        &course("Y", "Monday", "T2", CourseDuration::Full)
    ));
}

#[test]
fn add_evicts_conflicts() {
    let mut s = Selection::new();
    s.add(course("A", "Monday", "T1", CourseDuration::Full));
    s.add(course("B", "Monday", "T2", CourseDuration::Full));
    s.add(course("C", "Monday", "T1", CourseDuration::H1));
    assert_eq!(names(&s), vec!["B", "C"]);
    let c = course("D", "Monday", "T1", CourseDuration::Full);
    s.add(c.clone());
    assert_eq!(names(&s), vec!["B", "D"]);
    let members = s.courses();
    for m in members[..members.len() - 1].iter() {
        assert!(compatible(m, &c));
    }
    assert!(!s.has_conflict());
}

#[test]
fn add_keeps_the_other_half() {
    let h2 = course("Second (H2)", "Tuesday", "T3", CourseDuration::H2);
    let h1 = course("First (H1)", "Tuesday", "T3", CourseDuration::H1);
    let mut s = Selection::new();
    s.add(h2.clone());
    s.add(h1.clone());
    assert_eq!(s.courses(), &vec![h2.clone(), h1.clone()]);
    let mut t = Selection::new();
    t.add(h1.clone());
    t.add(h2.clone());
    assert_eq!(t.courses(), &vec![h1, h2]);
    assert!(!t.has_conflict());
}

#[test]
fn add_replaces_the_same_half() {
    let mut s = Selection::new();
    s.add(course("One (H1)", "Tuesday", "T3", CourseDuration::H1));
    s.add(course("Other (H2)", "Tuesday", "T3", CourseDuration::H2));
    s.add(course("Two (H1)", "Tuesday", "T3", CourseDuration::H1));
    assert_eq!(names(&s), vec!["Other (H2)", "Two (H1)"]);
}

#[test]
fn full_course_evicts_both_halves() {
    let mut s = Selection::new();
    s.add(course("One (H1)", "Tuesday", "T3", CourseDuration::H1));
    s.add(course("Other (H2)", "Tuesday", "T3", CourseDuration::H2));
    s.add(course("Whole", "Tuesday", "T3", CourseDuration::Full));
    assert_eq!(names(&s), vec!["Whole"]);
}

#[test]
fn add_twice_is_add_once() {
    let a = course("A", "Monday", "T1", CourseDuration::Full);
    let b = course("B", "Monday", "T2", CourseDuration::Full);
    let mut s = Selection::new();
    s.add(a.clone());
    s.add(b.clone());
    s.add(a.clone());
    assert_eq!(s.courses(), &vec![b.clone(), a.clone()]);
    s.add(a.clone());
    assert_eq!(s.courses(), &vec![b, a]);
    assert_eq!(s.len(), 2);
}

#[test]
fn remove_by_name() {
    let mut s = Selection::new();
    s.add(course("A", "Monday", "T1", CourseDuration::Full));
    s.add(course("B", "Monday", "T2", CourseDuration::Full));
    s.add(course("C", "Monday", "T3", CourseDuration::Full));
    assert!(s.contains_name("B"));
    s.remove("B");
    assert_eq!(names(&s), vec!["A", "C"]);
    assert!(!s.contains_name("B"));
    s.remove("B");
    assert_eq!(names(&s), vec!["A", "C"]);
    s.remove("missing");
    assert_eq!(names(&s), vec!["A", "C"]);
    s.clear();
    assert!(s.is_empty());
    assert_eq!(s.len(), 0);
}

#[test]
fn conflicts_are_listed_in_scan_order() {
    let a = course("A", "Monday", "T1", CourseDuration::Full);
    let b = course("B", "Monday", "T2", CourseDuration::H1);
    let c = course("C", "Monday", "T1", CourseDuration::H1);
    let d = course("D", "Monday", "T2", CourseDuration::H2);
    let e = course("E", "Monday", "T1", CourseDuration::H2);
    let f = course("F", "Monday", "T2", CourseDuration::H1);
    let all = vec![a.clone(), b.clone(), c.clone(), d.clone(), e.clone(), f.clone()];
    let found = conflicts(&all);
    assert_eq!(found, vec![(a.clone(), c.clone()), (a.clone(), e.clone()), (b.clone(), f.clone())]);
    assert!(has_conflict(&all));
    let s = Selection::from_courses(&all);
    assert_eq!(s.conflicts(), found);
    assert!(s.has_conflict());
}

#[test]
fn no_conflicts_in_a_compatible_selection() {
    let all = vec![
        course("A", "Monday", "T1", CourseDuration::H1),
        course("B", "Monday", "T1", CourseDuration::H2),
        course("C", "Tuesday", "T1", CourseDuration::Full),
    ];
    assert!(conflicts(&all).is_empty());
    assert!(!has_conflict(&all));
    assert!(!has_conflict(&Vec::new()));
    assert!(conflicts(&Vec::new()).is_empty());
}

#[test]
fn find_conflict_names_the_first() {
    let selected = vec![
        course("A", "Monday", "T2", CourseDuration::H2),
        course("B", "Monday", "T1", CourseDuration::Full),
        course("C", "Monday", "T2", CourseDuration::H1),
        course("D", "Monday", "T2", CourseDuration::Full),
    ];
    let candidate = course("X", "Monday", "T2", CourseDuration::H1);
    assert_eq!(find_conflict(&candidate, &selected), Some("C".to_string()));
    let other = course("Y", "Monday", "T2", CourseDuration::Full);
    assert_eq!(find_conflict(&other, &selected), Some("A".to_string()));
    let free = course("Z", "Wednesday", "T2", CourseDuration::Full);
    assert_eq!(find_conflict(&free, &selected), None);
}

#[test]
fn clone_keeps_the_members() {
    let mut s = Selection::new();
    s.add(course("A", "Monday", "T1", CourseDuration::Full));
    let t = s.clone();
    assert_eq!(t.courses(), s.courses());
}
