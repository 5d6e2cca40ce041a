use timetable::distance::{distance_row, levenshtein};
use timetable::model::{Course, CourseDuration};
use timetable::ranking::top_matches;
use timetable::score::{best_distance_of, course_score_of, token_distance_of};
use timetable::search::{search, search_folded, MAX_RESULTS};
use timetable::selection::Selection;
use timetable::text::{chars_of, tokenize};

fn course(name: &str, day: &str, slot: &str, duration: CourseDuration) -> Course {
    Course { name: name.to_string(), day: day.to_string(), slot: slot.to_string(), duration }
}

fn chars(s: &str) -> Vec<char> {
    s.chars().collect()
}

fn words(s: &str) -> Vec<Vec<char>> {
    s.split_whitespace().map(|w| w.chars().collect()).collect()
}

fn names(hits: &Vec<(Course, Option<String>)>) -> Vec<String> {
    hits.iter().map(|h| h.0.name.clone()).collect()
}

#[test]
fn levenshtein_known_values() {
    assert_eq!(levenshtein(&chars("kitten"), &chars("sitting")), 3);
    assert_eq!(levenshtein(&chars("flaw"), &chars("lawn")), 2);
    assert_eq!(levenshtein(&chars(""), &chars("abc")), 3);
    assert_eq!(levenshtein(&chars("abc"), &chars("")), 3);
    assert_eq!(levenshtein(&chars(""), &chars("")), 0);
    assert_eq!(levenshtein(&chars("same"), &chars("same")), 0);
    assert_eq!(levenshtein(&chars("qntm"), &chars("quant")), 3);
    assert_eq!(levenshtein(&chars("quntm"), &chars("quantum")), 2);
    assert_eq!(levenshtein(&chars("saturday"), &chars("sunday")), 3);
}

#[test]
fn levenshtein_is_symmetric_on_samples() {
    let samples = ["", "a", "ab", "abc", "quantum", "mechanics", "intro", "xyz123"];
    for a in samples.iter() {
        for b in samples.iter() {
            assert_eq!(levenshtein(&chars(a), &chars(b)), levenshtein(&chars(b), &chars(a)));
        }
    }
}

#[test]
fn distance_row_holds_prefix_distances() {
    let q = chars("qntm");
    let n = chars("quantum");
    let row = distance_row(&q, &n, 6);
    assert_eq!(row.len(), 6);
    for j in 0..6 {
        let prefix: Vec<char> = n[..j + 1].to_vec();
        assert_eq!(row[j], levenshtein(&q, &prefix));
    }
    assert_eq!(distance_row(&q, &n, 0).len(), 0);
}

#[test]
fn token_distance_prefix_is_zero() {
    assert_eq!(token_distance_of(&chars("intro"), &chars("introduction")), 0);
    assert_eq!(token_distance_of(&chars("a"), &chars("a")), 0);
    assert_eq!(token_distance_of(&chars(""), &chars("anything")), 0);
}

#[test]
fn token_distance_fuzzy_prefix() {
    // the prefixes of "quantum" of length 3 to 6 are all three edits away
    assert_eq!(token_distance_of(&chars("qntm"), &chars("quantum")), 3);
    // two edits from the whole token, which is among the prefixes compared
    assert_eq!(token_distance_of(&chars("quntm"), &chars("quantum")), 2);
    // one substitution against the prefix "mech"
    assert_eq!(token_distance_of(&chars("mach"), &chars("mechanics")), 1);
    // a one-letter query against a different letter
    assert_eq!(token_distance_of(&chars("x"), &chars("abc")), 1);
}

#[test]
fn token_distance_short_name_uses_whole_token() {
    // "to" is shorter than len("quantum") - 1, so the whole token counts
    assert_eq!(token_distance_of(&chars("quantum"), &chars("to")), levenshtein(&chars("quantum"), &chars("to")));
    assert_eq!(token_distance_of(&chars("quantum"), &chars("to")), 6);
    assert_eq!(token_distance_of(&chars("ab"), &chars("")), 2);
}

#[test]
fn best_distance_is_minimum_over_name_tokens() {
    let name = words("quantum mechanics");
    assert_eq!(best_distance_of(&chars("mech"), &name), Some(0));
    assert_eq!(best_distance_of(&chars("qntm"), &name), Some(3));
    assert_eq!(best_distance_of(&chars("quntm"), &name), Some(2));
    assert_eq!(best_distance_of(&chars("qntm"), &Vec::new()), None);
}

#[test]
fn course_score_sums_token_scores() {
    let name = words("quantum mechanics");
    assert_eq!(course_score_of(&words("quntm mech"), &name), Some(2));
    assert_eq!(course_score_of(&words("quantum mechanics"), &name), Some(0));
    assert_eq!(course_score_of(&words("quntm mach"), &name), Some(3));
    assert_eq!(course_score_of(&words("quntm xyz123"), &name), None);
    assert_eq!(course_score_of(&words("qntm mech"), &name), None);
    assert_eq!(course_score_of(&Vec::new(), &name), Some(0));
}

#[test]
fn course_score_threshold_depends_on_token_length() {
    // three characters: at most one edit
    assert_eq!(course_score_of(&words("qpp"), &words("quantum")), None);
    assert_eq!(course_score_of(&words("qux"), &words("quantum")), Some(1));
    // four characters: at most two edits
    assert_eq!(course_score_of(&words("qppn"), &words("quantum")), Some(2));
    assert_eq!(course_score_of(&words("pppn"), &words("quantum")), None);
}

#[test]
fn course_score_repeated_tokens_count_each_time() {
    let name = words("quantum mechanics");
    assert_eq!(course_score_of(&words("quntm quntm"), &name), Some(4));
    // two query tokens may match the same name token
    assert_eq!(course_score_of(&words("quan quant"), &name), Some(0));
}

#[test]
fn top_matches_orders_by_score_then_position() {
    let scores = vec![Some(2), None, Some(0), Some(2), Some(1), None, Some(0)];
    assert_eq!(top_matches(&scores, 10), vec![2, 6, 4, 0, 3]);
    assert_eq!(top_matches(&scores, 3), vec![2, 6, 4]);
    assert_eq!(top_matches(&scores, 0), Vec::<usize>::new());
    assert_eq!(top_matches(&Vec::new(), 10), Vec::<usize>::new());
    assert_eq!(top_matches(&vec![None, None], 10), Vec::<usize>::new());
}

#[test]
fn fuzzy_threshold_finds_quantum_mechanics() {
    let catalog = vec![
        course("Quantum Mechanics", "Monday", "T1", CourseDuration::Full),
        course("Linear Algebra", "Tuesday", "T2", CourseDuration::Full),
    ];
    // two edits away from "quantum": within the threshold of a long token
    let hits = search("quntm", &catalog, &Selection::new());
    assert_eq!(names(&hits), vec!["Quantum Mechanics".to_string()]);
    assert_eq!(hits[0].1, None);
    let hits = search("qantm", &catalog, &Selection::new());
    assert_eq!(names(&hits), vec!["Quantum Mechanics".to_string()]);
}

#[test]
fn three_edits_are_beyond_the_threshold() {
    let catalog = vec![
        course("Quantum Mechanics", "Monday", "T1", CourseDuration::Full),
        course("Linear Algebra", "Tuesday", "T2", CourseDuration::Full),
    ];
    // every prefix of "quantum" is three edits away from "qntm"
    assert_eq!(token_distance_of(&chars("qntm"), &chars("quantum")), 3);
    assert!(search("qntm", &catalog, &Selection::new()).is_empty());
}

#[test]
fn unrelated_query_finds_nothing() {
    let catalog = vec![
        course("Quantum Mechanics", "Monday", "T1", CourseDuration::Full),
        course("Linear Algebra", "Tuesday", "T2", CourseDuration::Full),
        course("Introduction to AI", "Wednesday", "T3", CourseDuration::Full),
    ];
    assert!(search("xyz123", &catalog, &Selection::new()).is_empty());
}

#[test]
fn exact_prefix_ranks_first() {
    let catalog = vec![
        course("Advanced Topics", "Monday", "T1", CourseDuration::Full),
        course("Introduction to AI", "Monday", "T2", CourseDuration::Full),
    ];
    let hits = search("intro", &catalog, &Selection::new());
    assert_eq!(hits[0].0.name, "Introduction to AI");
    let score = course_score_of(&words("intro"), &words("introduction to ai"));
    assert_eq!(score, Some(0));
    assert_eq!(course_score_of(&words("intro"), &words("advanced topics")), None);
    assert_eq!(hits.len(), 1);
}

#[test]
fn fuzzy_match_ranks_after_exact_prefix() {
    let catalog = vec![
        course("Intra Mural Sports", "Monday", "T1", CourseDuration::Full),
        course("Introduction to AI", "Monday", "T2", CourseDuration::Full),
    ];
    let hits = search("intro", &catalog, &Selection::new());
    assert_eq!(
        names(&hits),
        vec!["Introduction to AI".to_string(), "Intra Mural Sports".to_string()]
    );
}

#[test]
fn result_cap_is_ten() {
    let mut catalog = Vec::new();
    for i in 0..25 {
        let name = if i % 2 == 0 { format!("Course {}", i) } else { format!("Dourse {}", i) };
        catalog.push(course(&name, "Monday", "T1", CourseDuration::Full));
    }
    let hits = search("c", &catalog, &Selection::new());
    assert_eq!(hits.len(), 10);
    assert_eq!(MAX_RESULTS, 10);
    let q = words("c");
    let mut last = 0;
    for h in hits.iter() {
        let n: Vec<Vec<char>> = words(&h.0.name.to_lowercase());
        let s = course_score_of(&q, &n).unwrap();
        assert!(last <= s);
        last = s;
    }
    // the exact matches come first, in catalog order
    let expected: Vec<String> = (0..10).map(|k| format!("Course {}", 2 * k)).collect();
    assert_eq!(names(&hits), expected);
}

#[test]
fn result_cap_fills_with_fuzzy_matches() {
    let mut catalog = Vec::new();
    for i in 0..4 {
        catalog.push(course(&format!("Dx{}", i), "Monday", "T1", CourseDuration::Full));
    }
    for i in 0..3 {
        catalog.push(course(&format!("Cx{}", i), "Monday", "T1", CourseDuration::Full));
    }
    let hits = search("c", &catalog, &Selection::new());
    assert_eq!(
        names(&hits),
        vec!["Cx0", "Cx1", "Cx2", "Dx0", "Dx1", "Dx2", "Dx3"]
            .iter()
            .map(|s| s.to_string())
            .collect::<Vec<String>>()
    );
}

#[test]
fn conflict_annotation_names_the_selected_course() {
    let first = course("Operating Systems", "Monday", "T2", CourseDuration::Full);
    let second = course("Compilers", "Monday", "T2", CourseDuration::Full);
    let third = course("Compilers Lab", "Monday", "T3", CourseDuration::Full);
    let catalog = vec![first.clone(), second.clone(), third.clone()];
    let mut selection = Selection::new();
    selection.add(first.clone());
    let hits = search("compilers", &catalog, &selection);
    assert_eq!(hits.len(), 2);
    assert_eq!(hits[0].0, second);
    assert_eq!(hits[0].1, Some("Operating Systems".to_string()));
    assert_eq!(hits[1].0, third);
    assert_eq!(hits[1].1, None);
}

#[test]
fn compatible_half_is_not_annotated() {
    let h1 = course("Topics (H1)", "Monday", "T2", CourseDuration::H1);
    let h2 = course("Seminar (H2)", "Monday", "T2", CourseDuration::H2);
    let other_h1 = course("Seminar Two (H1)", "Monday", "T2", CourseDuration::H1);
    let catalog = vec![h1.clone(), h2.clone(), other_h1.clone()];
    let mut selection = Selection::new();
    selection.add(h1.clone());
    let hits = search("seminar", &catalog, &selection);
    assert_eq!(hits.len(), 2);
    assert_eq!(hits[0].0, h2);
    assert_eq!(hits[0].1, None);
    assert_eq!(hits[1].0, other_h1);
    assert_eq!(hits[1].1, Some("Topics (H1)".to_string()));
}

#[test]
fn selected_courses_are_not_offered() {
    let a = course("Algorithms", "Monday", "T1", CourseDuration::Full);
    let b = course("Algebra", "Tuesday", "T1", CourseDuration::Full);
    let catalog = vec![a.clone(), b.clone()];
    let mut selection = Selection::new();
    selection.add(a.clone());
    let hits = search("alg", &catalog, &selection);
    assert_eq!(names(&hits), vec!["Algebra".to_string()]);
}

#[test]
fn empty_and_blank_queries_find_nothing() {
    let catalog = vec![course("Algorithms", "Monday", "T1", CourseDuration::Full)];
    assert!(search("", &catalog, &Selection::new()).is_empty());
    assert!(search("   ", &catalog, &Selection::new()).is_empty());
    assert!(search("\t\n", &catalog, &Selection::new()).is_empty());
}

#[test]
fn search_ignores_case() {
    let catalog = vec![course("Quantum Mechanics", "Monday", "T1", CourseDuration::Full)];
    let hits = search("QUANTUM MECH", &catalog, &Selection::new());
    assert_eq!(names(&hits), vec!["Quantum Mechanics".to_string()]);
    let hits = search("QuNtM", &catalog, &Selection::new());
    assert_eq!(names(&hits), vec!["Quantum Mechanics".to_string()]);
}

#[test]
fn search_folded_takes_names_as_given() {
    let catalog = vec![course("Quantum Mechanics", "Monday", "T1", CourseDuration::Full)];
    let folded = vec!["quantum mechanics".to_string()];
    let hits = search_folded("quantum", &catalog, &folded, &Selection::new());
    assert_eq!(hits.len(), 1);
    // an unfolded name does not match a lowercase query beyond the threshold
    let unfolded = vec!["QUANTUM MECHANICS".to_string()];
    assert!(search_folded("quantum", &catalog, &unfolded, &Selection::new()).is_empty());
}

#[test]
fn all_tokens_must_match() {
    let catalog = vec![
        course("Quantum Mechanics", "Monday", "T1", CourseDuration::Full),
        course("Quantum Computing", "Monday", "T2", CourseDuration::Full),
    ];
    let hits = search("quantum comp", &catalog, &Selection::new());
    assert_eq!(names(&hits), vec!["Quantum Computing".to_string()]);
}

#[test]
fn tokenize_agrees_with_split_whitespace() {
    let samples = [
        "",
        " ",
        "a",
        " a",
        "a ",
        "intro to  ai",
        "\tquantum\n mechanics \r\n",
        "a\u{00A0}b\u{2003}c\u{3000}d",
        "x\u{200B}y",
    ];
    for s in samples.iter() {
        assert_eq!(tokenize(&chars_of(s)), words(s));
    }
}
