use kalkulacka_prumeru::status::is_error_status;

#[test]
fn error_statuses() {
    assert!(is_error_status("Error: permission denied"));
    assert!(is_error_status("Invalid input."));
    assert!(is_error_status("Grade must be between 1.0 and 5.0."));
}

#[test]
fn other_statuses() {
    assert!(!is_error_status("Saved."));
    assert!(!is_error_status("Added 1.00 to A."));
    assert!(!is_error_status(""));
    assert!(!is_error_status("Erro"));
    assert!(!is_error_status("error: lower case"));
}
