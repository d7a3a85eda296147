use kalkulacka_prumeru::files::{json_stem, new_subject_name, subject_names, subject_path};
use kalkulacka_prumeru::order::sort_names;

fn strings(v: &[&str]) -> Vec<String> {
    v.iter().map(|s| s.to_string()).collect()
}

#[test]
fn subject_path_lowercases_and_adds_extension() {
    let expected = std::path::Path::new("grades").join("math.json");
    assert_eq!(subject_path("grades", "Math"), expected.to_string_lossy());
}

#[test]
fn subject_path_non_ascii_name() {
    let expected = std::path::Path::new("grades").join("čeština.json");
    assert_eq!(subject_path("grades", "ČEŠTINA"), expected.to_string_lossy());
}

#[test]
fn json_stem_of_json_files() {
    assert_eq!(json_stem("math.json"), Some("math".to_string()));
    assert_eq!(json_stem("a.b.json"), Some("a.b".to_string()));
    assert_eq!(json_stem(".hidden.json"), Some(".hidden".to_string()));
}

#[test]
fn json_stem_of_other_files() {
    assert_eq!(json_stem("grades_export.csv"), None);
    assert_eq!(json_stem("json"), None);
    assert_eq!(json_stem(".json"), None);
    assert_eq!(json_stem("math.JSON"), None);
    assert_eq!(json_stem("math.json.bak"), None);
    assert_eq!(json_stem("math."), None);
}

#[test]
fn subject_names_sorted_stems() {
    let files = strings(&["physics.json", "grades_export.csv", "math.json", "Art.json", "notes.txt"]);
    assert_eq!(subject_names(&files), strings(&["Art", "math", "physics"]));
}

#[test]
fn subject_names_empty_directory() {
    assert_eq!(subject_names(&vec![]), Vec::<String>::new());
}

#[test]
fn sort_names_orders_by_characters() {
    let names = strings(&["b", "ab", "a", "B", "č", "c", "a"]);
    assert_eq!(sort_names(names), strings(&["B", "a", "a", "ab", "b", "c", "č"]));
}

#[test]
fn sort_names_agrees_with_string_order() {
    let names = strings(&["zeta", "Alpha", "alpha", "beta", "Ärger", "alp", ""]);
    let mut expected = names.clone();
    expected.sort();
    assert_eq!(sort_names(names), expected);
}

#[test]
fn new_subject_name_trims() {
    assert_eq!(new_subject_name("  Math \n"), Some("Math".to_string()));
    assert_eq!(new_subject_name("Computer Science"), Some("Computer Science".to_string()));
}

#[test]
fn new_subject_name_blank_is_none() {
    assert_eq!(new_subject_name(""), None);
    assert_eq!(new_subject_name(" \t\n"), None);
}

#[test]
fn subject_file_is_listed_under_lowercase_name() {
    let path = subject_path("grades", "Math");
    let file_name = std::path::Path::new(&path).file_name().unwrap().to_string_lossy().to_string();
    assert_eq!(json_stem(&file_name), Some("math".to_string()));
    assert_eq!(subject_names(&vec![file_name]), vec!["math".to_string()]);
}

#[test]
fn dotted_subject_file_is_listed_under_lowercase_name() {
    let path = subject_path("grades", "Chem.Lab");
    let file_name = std::path::Path::new(&path).file_name().unwrap().to_string_lossy().to_string();
    assert_eq!(json_stem(&file_name), Some("chem.lab".to_string()));
    assert_eq!(subject_names(&vec![file_name]), vec!["chem.lab".to_string()]);
}
