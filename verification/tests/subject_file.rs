use kalkulacka_prumeru::fields::ReversedBrackets;
use kalkulacka_prumeru::subject_file::{
    find_matching_brace, parse_subject_json, read_subject_json, subject_json, CategoryRecord,
    SubjectRecord,
};

const NEW_MATH: &str = "{\n  \"name\": \"Math\",\n  \"categories\": [\n    {\n      \"name\": \"A\",\n      \"weight\": 0.6,\n      \"grades\": []\n    },\n    {\n      \"name\": \"B\",\n      \"weight\": 0.3,\n      \"grades\": []\n    },\n    {\n      \"name\": \"C\",\n      \"weight\": 0.1,\n      \"grades\": []\n    }\n  ]\n}\n";

fn category(name: &str, weight: &str, grades: &[&str]) -> CategoryRecord {
    CategoryRecord {
        name: name.to_string(),
        weight: weight.to_string(),
        grades: grades.iter().map(|g| g.to_string()).collect(),
    }
}

#[test]
fn find_matching_brace_nested() {
    assert_eq!(find_matching_brace("{a{b}c}", 0), Some(6));
    assert_eq!(find_matching_brace("{a{b}c}", 2), Some(4));
}

#[test]
fn find_matching_brace_from_later_offset() {
    assert_eq!(find_matching_brace("xx{ { } }yy", 2), Some(8));
}

#[test]
fn find_matching_brace_unbalanced_is_none() {
    assert_eq!(find_matching_brace("{ { }", 0), None);
    assert_eq!(find_matching_brace("", 0), None);
}

#[test]
fn find_matching_brace_counts_bytes() {
    // "č" takes two bytes, so the closing brace is at byte 3.
    assert_eq!(find_matching_brace("{č}", 0), Some(3));
    assert_eq!(find_matching_brace("x{čč}", 1), Some(6));
}

#[test]
fn find_matching_brace_stray_closing_brace_first() {
    // A `}` before any `{` takes the count below zero, which never returns to zero
    // here.
    assert_eq!(find_matching_brace("}{}", 0), None);
}

#[test]
fn new_subject_has_three_categories() {
    let s = SubjectRecord::new("Math");
    assert_eq!(s.name, "Math");
    assert_eq!(
        s.categories,
        vec![category("A", "0.6", &[]), category("B", "0.3", &[]), category("C", "0.1", &[])]
    );
    assert_eq!(s.total_grades(), 0);
}

#[test]
fn subject_json_of_new_subject() {
    assert_eq!(subject_json(&SubjectRecord::new("Math")), NEW_MATH);
}

#[test]
fn subject_json_with_grades() {
    let s = SubjectRecord {
        name: "Physics".to_string(),
        categories: vec![category("A", "0.6", &["1", "2.5"]), category("B", "0.4", &["3"])],
    };
    let expected = "{\n  \"name\": \"Physics\",\n  \"categories\": [\n    {\n      \"name\": \"A\",\n      \"weight\": 0.6,\n      \"grades\": [1, 2.5]\n    },\n    {\n      \"name\": \"B\",\n      \"weight\": 0.4,\n      \"grades\": [3]\n    }\n  ]\n}\n";
    assert_eq!(subject_json(&s), expected);
    assert_eq!(s.total_grades(), 3);
}

#[test]
fn subject_json_without_categories() {
    let s = SubjectRecord { name: "Empty".to_string(), categories: vec![] };
    assert_eq!(subject_json(&s), "{\n  \"name\": \"Empty\",\n  \"categories\": [\n  ]\n}\n");
}

#[test]
fn parse_subject_json_of_new_subject() {
    assert_eq!(parse_subject_json(NEW_MATH), Some(SubjectRecord::new("Math")));
}

#[test]
fn written_subject_reads_back() {
    let s = SubjectRecord {
        name: "Dějepis".to_string(),
        categories: vec![
            category("A", "0.6", &["1", "1.5", "4"]),
            category("B", "0.3", &[]),
            category("C", "0.1", &["5"]),
        ],
    };
    assert_eq!(parse_subject_json(&subject_json(&s)), Some(s));
}

#[test]
fn empty_subject_reads_back() {
    let s = SubjectRecord { name: "X".to_string(), categories: vec![] };
    assert_eq!(parse_subject_json(&subject_json(&s)), Some(s));
}

#[test]
fn parse_subject_json_compact_text() {
    let json = "{\"name\":\"Bio\",\"categories\":[{\"name\":\"A\",\"weight\":1,\"grades\":[2,3]}]}";
    let expected = SubjectRecord { name: "Bio".to_string(), categories: vec![category("A", "1", &["2", "3"])] };
    assert_eq!(parse_subject_json(json), Some(expected));
}

#[test]
fn parse_subject_json_drops_grades_that_are_not_numbers() {
    let json = "{\"name\":\"Bio\",\"categories\":[{\"name\":\"A\",\"weight\":1,\"grades\":[2,x,3]}]}";
    let expected = SubjectRecord { name: "Bio".to_string(), categories: vec![category("A", "1", &["2", "3"])] };
    assert_eq!(parse_subject_json(json), Some(expected));
}

#[test]
fn parse_subject_json_without_name_is_none() {
    assert_eq!(parse_subject_json("{\"categories\": []}"), None);
}

#[test]
fn parse_subject_json_without_categories_is_none() {
    assert_eq!(parse_subject_json("{\"name\": \"Bio\"}"), None);
    assert_eq!(parse_subject_json("{\"name\": \"Bio\", \"categories\": 1}"), None);
}

#[test]
fn parse_subject_json_bad_weight_is_none() {
    let json = "{\"name\":\"Bio\",\"categories\":[{\"name\":\"A\",\"weight\":heavy,\"grades\":[]}]}";
    assert_eq!(parse_subject_json(json), None);
}

#[test]
fn parse_subject_json_unclosed_block_is_none() {
    let json = "{\"name\":\"Bio\",\"categories\":[{\"name\":\"A\",\"weight\":1]}";
    assert_eq!(parse_subject_json(json), None);
}

#[test]
fn read_subject_json_reversed_grade_brackets_is_error() {
    let json = "{\"name\":\"Bio\",\"categories\":[{\"name\":\"A\",\"weight\":1,\"grades\": ] [1]}]}";
    assert_eq!(read_subject_json(json), Err(ReversedBrackets));
}

#[test]
fn read_subject_json_agrees_with_parse_subject_json() {
    assert_eq!(read_subject_json(NEW_MATH), Ok(parse_subject_json(NEW_MATH)));
    assert_eq!(read_subject_json("{\"name\": \"Bio\"}"), Ok(None));
}

#[test]
fn find_matching_brace_is_least_balanced_close() {
    // From offset 1 the count of `{` minus `}` first returns to zero at the `}` at 4;
    // the `}` at 3 leaves it at one.
    assert_eq!(find_matching_brace("x{{}}}", 1), Some(4));
    assert_eq!(find_matching_brace("{}{}", 0), Some(1));
}
