use timetable::codec::{
    decode, decode_courses, encode, find_by_name, CatalogProvider, Dataset, ShareReference,
};
use timetable::link::{
    format_reference, parse_index, parse_reference, reference_from_fields, share_url, split_chars,
};
use timetable::model::copy_courses;
use timetable::model::{Course, CourseDuration};
use timetable::selection::Selection;

fn course(name: &str, day: &str, slot: &str, duration: CourseDuration) -> Course {
    Course { name: name.to_string(), day: day.to_string(), slot: slot.to_string(), duration }
}

fn catalog() -> Vec<Course> {
    vec![
        course("A", "Monday", "T1", CourseDuration::Full),
        course("B", "Monday", "T2", CourseDuration::Full),
        course("C (H1)", "Monday", "T3", CourseDuration::H1),
        course("D (H2)", "Monday", "T3", CourseDuration::H2),
        course("E", "Tuesday", "T1", CourseDuration::Full),
    ]
}

fn provider() -> CatalogProvider {
    CatalogProvider {
        datasets: vec![
            Dataset { version: "S26".to_string(), courses: catalog() },
            Dataset {
                version: "M25".to_string(),
                courses: vec![course("Old", "Monday", "T1", CourseDuration::Full)],
            },
        ],
    }
}

fn chars(s: &str) -> Vec<char> {
    s.chars().collect()
}

#[test]
fn encode_gives_catalog_positions() {
    let cat = catalog();
    let s = Selection::from_courses(&vec![cat[3].clone(), cat[0].clone(), cat[4].clone()]);
    let r = encode(&s, &cat, "S26");
    assert_eq!(r.dataset_version, "S26");
    assert_eq!(r.indices, vec![3, 0, 4]);
}

#[test]
fn encode_omits_unknown_courses() {
    let cat = catalog();
    let s = Selection::from_courses(&vec![
        cat[1].clone(),
        course("Nowhere", "Monday", "T1", CourseDuration::Full),
        cat[2].clone(),
    ]);
    assert_eq!(encode(&s, &cat, "S26").indices, vec![1, 2]);
    assert_eq!(encode(&Selection::new(), &cat, "S26").indices, Vec::<usize>::new());
}

#[test]
fn encode_takes_the_first_course_of_a_name() {
    let mut cat = catalog();
    cat.push(course("B", "Wednesday", "T6", CourseDuration::Full));
    let s = Selection::from_courses(&vec![cat[5].clone()]);
    assert_eq!(encode(&s, &cat, "S26").indices, vec![1]);
    assert_eq!(find_by_name(&cat, "B"), Some(1));
    assert_eq!(find_by_name(&cat, "b"), None);
}

#[test]
fn round_trip_restores_the_selection() {
    let cat = catalog();
    let mut s = Selection::new();
    s.add(cat[2].clone());
    s.add(cat[3].clone());
    s.add(cat[0].clone());
    let r = encode(&s, &cat, "S26");
    let back = decode(&r, &provider());
    assert_eq!(back.courses(), s.courses());
}

#[test]
fn decode_skips_positions_out_of_range() {
    let r = ShareReference { dataset_version: "S26".to_string(), indices: vec![4, 5, 0, 99] };
    let back = decode(&r, &provider());
    let cat = catalog();
    assert_eq!(back.courses(), &vec![cat[4].clone(), cat[0].clone()]);
    assert_eq!(decode_courses(&vec![7], &cat), Vec::<Course>::new());
}

#[test]
fn decode_without_the_version_is_empty() {
    let r = ShareReference { dataset_version: "X99".to_string(), indices: vec![0, 1] };
    assert!(decode(&r, &provider()).is_empty());
    let r = ShareReference { dataset_version: "M25".to_string(), indices: vec![0, 1] };
    let back = decode(&r, &provider());
    assert_eq!(back.len(), 1);
    assert_eq!(back.courses()[0].name, "Old");
}

#[test]
fn by_version_finds_the_first_dataset() {
    let p = provider();
    assert_eq!(p.by_version("S26").map(|c| c.len()), Some(5));
    assert_eq!(p.by_version("M25").map(|c| c.len()), Some(1));
    assert!(p.by_version("s26").is_none());
    assert!(p.by_version("").is_none());
}

#[test]
fn format_reference_writes_both_fields() {
    let r = ShareReference { dataset_version: "S26".to_string(), indices: vec![3, 7, 12] };
    assert_eq!(format_reference(&r), "s=S26&c=3,7,12");
    let r = ShareReference { dataset_version: "M25".to_string(), indices: vec![] };
    assert_eq!(format_reference(&r), "s=M25&c=");
    let r = ShareReference { dataset_version: "".to_string(), indices: vec![0] };
    assert_eq!(format_reference(&r), "s=&c=0");
    let r = ShareReference { dataset_version: "S26".to_string(), indices: vec![10, 100, 9, 12345] };
    assert_eq!(format_reference(&r), "s=S26&c=10,100,9,12345");
    let r = ShareReference { dataset_version: "S26".to_string(), indices: vec![usize::MAX] };
    assert_eq!(format_reference(&r), format!("s=S26&c={}", usize::MAX));
}

#[test]
fn parse_reference_reads_both_fields() {
    let r = parse_reference("s=S26&c=3,7,12");
    assert_eq!(r.dataset_version, "S26");
    assert_eq!(r.indices, vec![3, 7, 12]);
    let r = parse_reference("?s=M25&c=0");
    assert_eq!(r.dataset_version, "M25");
    assert_eq!(r.indices, vec![0]);
    let r = parse_reference("c=1,2&s=S25");
    assert_eq!(r.dataset_version, "S25");
    assert_eq!(r.indices, vec![1, 2]);
}

#[test]
fn parse_reference_falls_back_on_missing_fields() {
    let r = parse_reference("");
    assert_eq!(r.dataset_version, "S26");
    assert!(r.indices.is_empty());
    let r = parse_reference("?");
    assert_eq!(r.dataset_version, "S26");
    assert!(r.indices.is_empty());
    let r = parse_reference("c=4");
    assert_eq!(r.dataset_version, "S26");
    assert_eq!(r.indices, vec![4]);
    let r = parse_reference("s=M24");
    assert_eq!(r.dataset_version, "M24");
    assert!(r.indices.is_empty());
    let r = parse_reference("x=1&y=2");
    assert_eq!(r.dataset_version, "S26");
    assert!(r.indices.is_empty());
    let r = parse_reference("s");
    assert_eq!(r.dataset_version, "");
    assert!(r.indices.is_empty());
}

#[test]
fn parse_reference_skips_malformed_positions() {
    let r = parse_reference("s=S26&c=1,x,2,,3, 4,-5,+6,7.5,0x1,008");
    assert_eq!(r.indices, vec![1, 2, 3, 8]);
    let r = parse_reference("s=S26&c=");
    assert!(r.indices.is_empty());
    let r = parse_reference("s=S26&c=,");
    assert!(r.indices.is_empty());
    let too_big = format!("s=S26&c=1,{}0,2", usize::MAX);
    assert_eq!(parse_reference(&too_big).indices, vec![1, 2]);
    let biggest = format!("s=S26&c={}", usize::MAX);
    assert_eq!(parse_reference(&biggest).indices, vec![usize::MAX]);
}

#[test]
fn parse_reference_takes_the_first_of_repeated_fields() {
    let r = parse_reference("s=S26&s=M25&c=1&c=2");
    assert_eq!(r.dataset_version, "S26");
    assert_eq!(r.indices, vec![1]);
    let r = parse_reference("s=a=b&c=1");
    assert_eq!(r.dataset_version, "a=b");
}

#[test]
fn parse_index_samples() {
    assert_eq!(parse_index(&chars("0")), Some(0));
    assert_eq!(parse_index(&chars("42")), Some(42));
    assert_eq!(parse_index(&chars("007")), Some(7));
    assert_eq!(parse_index(&chars("")), None);
    assert_eq!(parse_index(&chars("4a")), None);
    assert_eq!(parse_index(&chars("-1")), None);
    assert_eq!(parse_index(&chars("٣")), None);
    assert_eq!(parse_index(&chars(&usize::MAX.to_string())), Some(usize::MAX));
    let mut over = (usize::MAX / 10).to_string();
    over.push_str("9");
    let expected = if usize::MAX % 10 == 9 { Some(usize::MAX) } else { None };
    assert_eq!(parse_index(&chars(&over)), expected);
    assert_eq!(parse_index(&chars("99999999999999999999999999")), None);
}

#[test]
fn split_chars_keeps_empty_pieces() {
    let pieces = |s: &str| -> Vec<String> {
        split_chars(&chars(s), ',').iter().map(|p| p.iter().collect()).collect()
    };
    assert_eq!(pieces("a,b"), vec!["a", "b"]);
    assert_eq!(pieces(""), vec![""]);
    assert_eq!(pieces(","), vec!["", ""]);
    assert_eq!(pieces("a,,b,"), vec!["a", "", "b", ""]);
    assert_eq!(pieces("abc"), vec!["abc"]);
}

#[test]
fn text_round_trip() {
    let r = ShareReference { dataset_version: "S26".to_string(), indices: vec![0, 19, 230, 7] };
    let back = parse_reference(&format_reference(&r));
    assert_eq!(back.dataset_version, r.dataset_version);
    assert_eq!(back.indices, r.indices);
    let copy = r.clone();
    assert_eq!(copy.dataset_version, "S26");
    assert_eq!(copy.indices, vec![0, 19, 230, 7]);
}

#[test]
fn shown_catalog_falls_back_to_the_default_version() {
    let p = provider();
    assert_eq!(p.shown_catalog("M25").len(), 1);
    assert_eq!(p.shown_catalog("S26"), catalog());
    assert_eq!(p.shown_catalog("X99"), catalog());
    let only_old = CatalogProvider {
        datasets: vec![Dataset { version: "M25".to_string(), courses: catalog() }],
    };
    assert!(only_old.shown_catalog("X99").is_empty());
    assert_eq!(copy_courses(&catalog()), catalog());
}

#[test]
fn share_url_keeps_what_stands_before_the_query() {
    let r = ShareReference { dataset_version: "S25".to_string(), indices: vec![2, 40] };
    assert_eq!(share_url("http://host/path/?old=1", &r), "http://host/path/?s=S25&c=2,40");
    assert_eq!(share_url("http://host/path", &r), "http://host/path?s=S25&c=2,40");
}

#[test]
fn decode_takes_a_repeated_position_once() {
    let cat = vec![
        course("A", "Monday", "T1", CourseDuration::Full),
        course("B", "Monday", "T2", CourseDuration::Full),
        course("C", "Monday", "T3", CourseDuration::Full),
    ];
    assert_eq!(decode_courses(&vec![1, 1], &cat), vec![cat[1].clone()]);
    assert_eq!(decode_courses(&vec![2, 0, 2, 0, 1], &cat), vec![cat[2].clone(), cat[0].clone(), cat[1].clone()]);
    let p = CatalogProvider { datasets: vec![Dataset { version: "S26".to_string(), courses: cat.clone() }] };
    let r = ShareReference { dataset_version: "S26".to_string(), indices: vec![1, 1] };
    let back = decode(&r, &p);
    assert_eq!(back.courses(), &vec![cat[1].clone()]);
    assert_eq!(back.len(), 1);
}

#[test]
fn decode_takes_the_first_course_of_a_name() {
    let cat = vec![
        course("A", "Monday", "T1", CourseDuration::Full),
        course("B", "Monday", "T2", CourseDuration::Full),
        course("A", "Tuesday", "T3", CourseDuration::Full),
    ];
    assert_eq!(decode_courses(&vec![2, 0, 1], &cat), vec![cat[2].clone(), cat[1].clone()]);
    assert_eq!(decode_courses(&vec![0, 2], &cat), vec![cat[0].clone()]);
}

#[test]
fn from_courses_takes_each_name_once() {
    let a = course("A", "Monday", "T1", CourseDuration::Full);
    let b = course("B", "Monday", "T2", CourseDuration::Full);
    let a_again = course("A", "Tuesday", "T3", CourseDuration::H1);
    let s = Selection::from_courses(&vec![a.clone(), b.clone(), a_again, a.clone(), b.clone()]);
    assert_eq!(s.courses(), &vec![a.clone(), b.clone()]);
    let t = Selection::from_courses(&vec![b.clone(), a.clone()]);
    assert_eq!(t.courses(), &vec![b, a]);
    assert!(Selection::from_courses(&Vec::new()).is_empty());
}

#[test]
fn reference_from_fields_takes_decoded_values() {
    let r = reference_from_fields(Some("S25"), Some("1,2"));
    assert_eq!(r.dataset_version, "S25");
    assert_eq!(r.indices, vec![1, 2]);
    let r = reference_from_fields(None, Some("4,x,5"));
    assert_eq!(r.dataset_version, "S26");
    assert_eq!(r.indices, vec![4, 5]);
    let r = reference_from_fields(Some("a&b=c"), None);
    assert_eq!(r.dataset_version, "a&b=c");
    assert!(r.indices.is_empty());
    let r = reference_from_fields(Some(""), Some(""));
    assert_eq!(r.dataset_version, "");
    assert!(r.indices.is_empty());
}
