use timetable::text::{
    char_is_whitespace, chars_of, contains, same_chars, same_text, starts_with,
};

fn chars(s: &str) -> Vec<char> {
    s.chars().collect()
}

#[test]
fn whitespace_agrees_with_std_on_every_char() {
    let mut u: u32 = 0;
    while u <= 0x10FFFF {
        if let Some(c) = char::from_u32(u) {
            assert_eq!(char_is_whitespace(c), c.is_whitespace());
        }
        u += 1;
    }
}

#[test]
fn chars_of_lists_characters() {
    assert_eq!(chars_of("héllo"), vec!['h', 'é', 'l', 'l', 'o']);
    assert_eq!(chars_of(""), Vec::<char>::new());
}

#[test]
fn starts_with_samples() {
    assert!(starts_with(&chars("introduction"), &chars("intro")));
    assert!(starts_with(&chars("intro"), &chars("intro")));
    assert!(starts_with(&chars("intro"), &chars("")));
    assert!(!starts_with(&chars("intro"), &chars("introduction")));
    assert!(!starts_with(&chars("intro"), &chars("x")));
}

#[test]
fn contains_samples() {
    assert!(contains(&chars("Topics (H1)"), &chars("(H1)")));
    assert!(contains(&chars("(H1)"), &chars("(H1)")));
    assert!(contains(&chars("abc"), &chars("")));
    assert!(contains(&chars(""), &chars("")));
    assert!(!contains(&chars("Topics (H1/H2)"), &chars("(H1)")));
    assert!(contains(&chars("Topics (H1/H2)"), &chars("H2)")));
    assert!(!contains(&chars("ab"), &chars("abc")));
    assert!(contains(&chars("aab"), &chars("ab")));
}

#[test]
fn same_text_samples() {
    assert!(same_text("Monday", "Monday"));
    assert!(!same_text("Monday", "monday"));
    assert!(!same_text("Monday", "Monda"));
    assert!(same_text("", ""));
    assert!(same_chars(&chars("T1"), &chars("T1")));
    assert!(!same_chars(&chars("T1"), &chars("T2")));
}
