use timetable::config::{
    available_semesters, get_facts, ANIMATION_PAUSE_MS, ANIMATION_TYPING_SPEED_MS,
    DEFAULT_SEMESTER, EASTER_EGG_DURATION_MS, PAUSE_MS, TYPING_SPEED_MS,
};
use timetable::listing::{filter_courses, is_member, title};
use timetable::model::{
    duration_from_name, Course, CourseDuration, FilterMode, TimetableData, TimetableExt,
};
use timetable::selection::Selection;

fn course(name: &str, day: &str, slot: &str, duration: CourseDuration) -> Course {
    Course { name: name.to_string(), day: day.to_string(), slot: slot.to_string(), duration }
}

fn names(list: &[&str]) -> Vec<String> {
    list.iter().map(|s| s.to_string()).collect()
}

fn data() -> TimetableData {
    TimetableData {
        days: vec![
            (
                "Monday".to_string(),
                vec![
                    ("T1".to_string(), names(&["Algorithms", "Topics (H1)"])),
                    ("T2".to_string(), names(&[])),
                    ("T3".to_string(), names(&["Seminar (H2)"])),
                ],
            ),
            ("Tuesday".to_string(), vec![]),
            (
                "Wednesday".to_string(),
                vec![("T1".to_string(), names(&["Project (H1/H2)"]))],
            ),
        ],
    }
}

#[test]
fn duration_from_markers() {
    assert_eq!(duration_from_name("Algorithms"), CourseDuration::Full);
    assert_eq!(duration_from_name("Topics (H1)"), CourseDuration::H1);
    assert_eq!(duration_from_name("Seminar (H2)"), CourseDuration::H2);
    assert_eq!(duration_from_name("Project (H1/H2)"), CourseDuration::Full);
    assert_eq!(duration_from_name("(H1) and (H2)"), CourseDuration::H1);
    assert_eq!(duration_from_name("(H2) and (H1/H2)"), CourseDuration::Full);
    assert_eq!(duration_from_name("Lower (h1)"), CourseDuration::Full);
    assert_eq!(duration_from_name(""), CourseDuration::Full);
    assert_eq!(duration_from_name("H1"), CourseDuration::Full);
}

#[test]
fn flatten_keeps_the_order_of_the_data() {
    let courses = data().flatten_courses();
    assert_eq!(
        courses,
        vec![
            course("Algorithms", "Monday", "T1", CourseDuration::Full),
            course("Topics (H1)", "Monday", "T1", CourseDuration::H1),
            course("Seminar (H2)", "Monday", "T3", CourseDuration::H2),
            course("Project (H1/H2)", "Wednesday", "T1", CourseDuration::Full),
        ]
    );
    assert_eq!(data().flatten_courses(), courses);
    assert!(TimetableData { days: vec![] }.flatten_courses().is_empty());
}

#[test]
fn course_equality_is_field_by_field() {
    let a = course("A", "Monday", "T1", CourseDuration::Full);
    assert_eq!(a, a.clone());
    assert_ne!(a, course("B", "Monday", "T1", CourseDuration::Full));
    assert_ne!(a, course("A", "Tuesday", "T1", CourseDuration::Full));
    assert_ne!(a, course("A", "Monday", "T2", CourseDuration::Full));
    assert_ne!(a, course("A", "Monday", "T1", CourseDuration::H1));
}

#[test]
fn badges() {
    assert_eq!(CourseDuration::Full.badge(), None);
    assert_eq!(CourseDuration::H1.badge(), Some("H1"));
    assert_eq!(CourseDuration::H2.badge(), Some("H2"));
}

#[test]
fn filter_mode_admits() {
    let c = course("A", "Monday", "T1", CourseDuration::Full);
    assert!(FilterMode::Day("Monday".to_string()).admits(&c));
    assert!(!FilterMode::Day("Tuesday".to_string()).admits(&c));
    assert!(FilterMode::Slot("T1".to_string()).admits(&c));
    assert!(!FilterMode::Slot("T2".to_string()).admits(&c));
    assert!(FilterMode::Intersection("Monday".to_string(), "T1".to_string()).admits(&c));
    assert!(!FilterMode::Intersection("Monday".to_string(), "T2".to_string()).admits(&c));
    assert!(!FilterMode::Intersection("Tuesday".to_string(), "T1".to_string()).admits(&c));
    let f = FilterMode::Intersection("Monday".to_string(), "T1".to_string());
    assert_eq!(f.clone(), f);
    assert_ne!(f, FilterMode::Day("Monday".to_string()));
    assert_ne!(FilterMode::Day("T1".to_string()), FilterMode::Slot("T1".to_string()));
}

#[test]
fn filter_courses_lists_what_is_on_offer() {
    let catalog = data().flatten_courses();
    let mut selection = Selection::new();
    selection.add(catalog[0].clone());
    let day = Some(FilterMode::Day("Monday".to_string()));
    let listed = filter_courses(&day, &catalog, &selection);
    assert_eq!(listed, vec![catalog[1].clone(), catalog[2].clone()]);
    let slot = Some(FilterMode::Slot("T1".to_string()));
    let listed = filter_courses(&slot, &catalog, &selection);
    assert_eq!(listed, vec![catalog[1].clone(), catalog[3].clone()]);
    let both = Some(FilterMode::Intersection("Wednesday".to_string(), "T1".to_string()));
    assert_eq!(filter_courses(&both, &catalog, &selection), vec![catalog[3].clone()]);
    assert!(filter_courses(&None, &catalog, &selection).is_empty());
    assert!(is_member(&catalog, &catalog[2]));
    assert!(!is_member(&catalog, &course("Algorithms", "Monday", "T2", CourseDuration::Full)));
}

#[test]
fn titles() {
    assert_eq!(title(&Some(FilterMode::Day("Monday".to_string()))), "COURSES ON Monday");
    assert_eq!(title(&Some(FilterMode::Slot("T4".to_string()))), "COURSES IN T4");
    assert_eq!(
        title(&Some(FilterMode::Intersection("Tuesday".to_string(), "T2".to_string()))),
        "Tuesday - T2"
    );
    assert_eq!(title(&None), "");
}

#[test]
fn facts_and_settings() {
    assert_eq!(
        get_facts(),
        vec![
            "TRY PRESSING ANY KEY!!",
            "DID YOU KNOW? EVERY RECTANGLE IS CLICKABLE!!",
            "TRY TO CLICK ON RANDOM OBJECTS, YOU NEVER KNOW!!",
        ]
    );
    assert_eq!(TYPING_SPEED_MS, 25);
    assert_eq!(PAUSE_MS, 2000);
    assert_eq!(EASTER_EGG_DURATION_MS, 3000);
    assert_eq!(ANIMATION_TYPING_SPEED_MS, 50);
    assert_eq!(ANIMATION_PAUSE_MS, 3000);
    assert_eq!(DEFAULT_SEMESTER, "S26");
    assert_eq!(
        available_semesters(),
        vec![("S26", "data_s26"), ("M25", "data_m25"), ("S25", "data_s25"), ("M24", "data_m24")]
    );
}

#[test]
fn insert_keeps_each_day_and_slot_once() {
    let mut d = TimetableData::new();
    assert!(d.days.is_empty());
    assert!(d.is_well_formed());
    d.insert("Monday".to_string(), "T1".to_string(), names(&["A"]));
    d.insert("Tuesday".to_string(), "T1".to_string(), names(&["B"]));
    d.insert("Monday".to_string(), "T2".to_string(), names(&["C", "D (H1)"]));
    d.insert("Monday".to_string(), "T1".to_string(), names(&["E"]));
    assert_eq!(
        d.days,
        vec![
            (
                "Monday".to_string(),
                vec![("T1".to_string(), names(&["E"])), ("T2".to_string(), names(&["C", "D (H1)"]))]
            ),
            ("Tuesday".to_string(), vec![("T1".to_string(), names(&["B"]))]),
        ]
    );
    assert!(d.is_well_formed());
    assert_eq!(d.names_in("Monday", "T2"), Some(&names(&["C", "D (H1)"])));
    assert_eq!(d.names_in("Monday", "T1"), Some(&names(&["E"])));
    assert_eq!(d.names_in("Monday", "T3"), None);
    assert_eq!(d.names_in("Wednesday", "T1"), None);
    let flat: Vec<String> = d.flatten_courses().iter().map(|c| c.name.clone()).collect();
    assert_eq!(flat, names(&["E", "C", "D (H1)", "B"]));
}

#[test]
fn repeated_days_or_slots_are_not_well_formed() {
    assert!(data().is_well_formed());
    let twice_a_day = TimetableData {
        days: vec![
            ("Monday".to_string(), vec![]),
            ("Tuesday".to_string(), vec![]),
            ("Monday".to_string(), vec![]),
        ],
    };
    assert!(!twice_a_day.is_well_formed());
    let twice_a_slot = TimetableData {
        days: vec![(
            "Monday".to_string(),
            vec![("T1".to_string(), names(&[])), ("T1".to_string(), names(&["A"]))],
        )],
    };
    assert!(!twice_a_slot.is_well_formed());
    let same_slot_on_two_days = TimetableData {
        days: vec![
            ("Monday".to_string(), vec![("T1".to_string(), names(&[]))]),
            ("Tuesday".to_string(), vec![("T1".to_string(), names(&[]))]),
        ],
    };
    assert!(same_slot_on_two_days.is_well_formed());
}
