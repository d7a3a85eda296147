use kalkulacka_prumeru::export::{csv_document, export_csv_text, CategoryRow, NoSubjects, SubjectRows};

fn row(name: &str, weight: &str, grades: &[&str], average: &str, weighted: &str) -> CategoryRow {
    CategoryRow {
        name: name.to_string(),
        weight_percent: weight.to_string(),
        grades: grades.iter().map(|g| g.to_string()).collect(),
        average: average.to_string(),
        weighted: weighted.to_string(),
    }
}

const HEADER: &str = "Subject,Category,Weight,Grades,Average,Weighted,Final Grade\n";

#[test]
fn csv_document_of_no_subjects_is_header() {
    assert_eq!(csv_document(&vec![]), HEADER);
}

#[test]
fn csv_document_final_grade_on_first_line_only() {
    let math = SubjectRows {
        name: "Math".to_string(),
        final_grade: "1.67".to_string(),
        categories: vec![
            row("A", "60", &["1.00", "2.00"], "1.50", "0.90"),
            row("B", "30", &["2.00"], "2.00", "0.60"),
            row("C", "10", &[], "", ""),
        ],
    };
    let expected = format!(
        "{}Math,A,60%,\"1.00; 2.00\",1.50,0.90,1.67\nMath,B,30%,\"2.00\",2.00,0.60,\nMath,C,10%,\"\",,,\n",
        HEADER
    );
    assert_eq!(csv_document(&vec![math]), expected);
}

#[test]
fn csv_document_several_subjects() {
    let a = SubjectRows { name: "Art".to_string(), final_grade: String::new(), categories: vec![row("A", "60", &[], "", "")] };
    let b = SubjectRows { name: "Bio".to_string(), final_grade: "3.00".to_string(), categories: vec![row("A", "60", &["3.00"], "3.00", "1.80")] };
    let expected = format!("{}Art,A,60%,\"\",,,\nBio,A,60%,\"3.00\",3.00,1.80,3.00\n", HEADER);
    assert_eq!(csv_document(&vec![a, b]), expected);
}

#[test]
fn export_csv_text_without_subjects_is_error() {
    assert_eq!(export_csv_text(&vec![], &vec![]), Err(NoSubjects));
}

#[test]
fn export_csv_text_with_listed_subjects() {
    // A listed subject whose file could not be read contributes no line.
    assert_eq!(export_csv_text(&vec!["broken".to_string()], &vec![]), Ok(HEADER.to_string()));
}
