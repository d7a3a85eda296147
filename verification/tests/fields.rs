use kalkulacka_prumeru::fields::{
    extract_number, extract_number_array, extract_string, read_number_list, ReversedBrackets,
};

#[test]
fn extract_string_reads_quoted_value() {
    let src = "{\n  \"name\": \"Math\",\n  \"x\": 1\n}";
    assert_eq!(extract_string(src, "\"name\""), Some("Math".to_string()));
}

#[test]
fn extract_string_skips_white_space_after_colon() {
    assert_eq!(extract_string("\"name\":   \t\"Physics\"", "\"name\""), Some("Physics".to_string()));
}

#[test]
fn extract_string_takes_first_occurrence_of_key() {
    let src = "\"name\": \"outer\", { \"name\": \"inner\" }";
    assert_eq!(extract_string(src, "\"name\""), Some("outer".to_string()));
}

#[test]
fn extract_string_missing_key_is_none() {
    assert_eq!(extract_string("\"title\": \"Math\"", "\"name\""), None);
}

#[test]
fn extract_string_unquoted_value_is_none() {
    assert_eq!(extract_string("\"name\": Math", "\"name\""), None);
}

#[test]
fn extract_string_without_colon_is_none() {
    assert_eq!(extract_string("\"name\" \"Math\"", "\"name\""), None);
}

#[test]
fn extract_string_unterminated_is_none() {
    assert_eq!(extract_string("\"name\": \"Math", "\"name\""), None);
}

#[test]
fn extract_string_empty_value() {
    assert_eq!(extract_string("\"name\": \"\"", "\"name\""), Some(String::new()));
}

#[test]
fn extract_string_non_ascii_value() {
    assert_eq!(extract_string("\"name\": \"Čeština\"", "\"name\""), Some("Čeština".to_string()));
}

#[test]
fn extract_number_reads_weight() {
    let src = "{\n      \"name\": \"A\",\n      \"weight\": 0.6,\n      \"grades\": []\n    }";
    assert_eq!(extract_number(src, "\"weight\""), Some("0.6".to_string()));
}

#[test]
fn extract_number_stops_at_brace_and_trims() {
    assert_eq!(extract_number("\"weight\":  1e3 }", "\"weight\""), Some("1e3".to_string()));
}

#[test]
fn extract_number_runs_to_end_of_text() {
    assert_eq!(extract_number("\"weight\": -2.5", "\"weight\""), Some("-2.5".to_string()));
}

#[test]
fn extract_number_rejects_non_number() {
    assert_eq!(extract_number("\"weight\": abc,", "\"weight\""), None);
    assert_eq!(extract_number("\"weight\": ,", "\"weight\""), None);
    assert_eq!(extract_number("\"weight\": 1.2.3\n", "\"weight\""), None);
}

#[test]
fn extract_number_accepts_special_words() {
    assert_eq!(extract_number("\"w\": inf,", "\"w\""), Some("inf".to_string()));
    assert_eq!(extract_number("\"w\": NaN,", "\"w\""), Some("NaN".to_string()));
    assert_eq!(extract_number("\"w\": +.5,", "\"w\""), Some("+.5".to_string()));
}

#[test]
fn extract_number_missing_key_is_none() {
    assert_eq!(extract_number("\"name\": 1", "\"weight\""), None);
}

#[test]
fn extract_number_array_reads_items() {
    let src = "\"grades\": [1, 2.5, 3]";
    assert_eq!(
        extract_number_array(src, "\"grades\""),
        vec!["1".to_string(), "2.5".to_string(), "3".to_string()]
    );
}

#[test]
fn extract_number_array_drops_items_that_are_not_numbers() {
    let src = "\"grades\": [ 1 , x, , 4.0 ]";
    assert_eq!(
        extract_number_array(src, "\"grades\""),
        vec!["1".to_string(), "4.0".to_string()]
    );
}

#[test]
fn extract_number_array_empty_list() {
    assert_eq!(extract_number_array("\"grades\": []", "\"grades\""), Vec::<String>::new());
}

#[test]
fn extract_number_array_without_key_or_brackets_is_empty() {
    assert_eq!(extract_number_array("\"other\": [1]", "\"grades\""), Vec::<String>::new());
    assert_eq!(extract_number_array("\"grades\": 1]", "\"grades\""), Vec::<String>::new());
    assert_eq!(extract_number_array("\"grades\": [1", "\"grades\""), Vec::<String>::new());
}

#[test]
fn read_number_list_reversed_brackets_is_error() {
    assert_eq!(read_number_list("\"grades\": ] [1]", "\"grades\""), Err(ReversedBrackets));
}

#[test]
fn read_number_list_agrees_with_extract_number_array() {
    let src = "\"grades\": [1, x, 2]";
    assert_eq!(read_number_list(src, "\"grades\""), Ok(extract_number_array(src, "\"grades\"")));
}
