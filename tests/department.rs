use harrys_lilla_lager::department::{
    best_mapping, get_department_from_barcode, has_valid_department_prefix, DepartmentMapping,
};

fn mapping(prefix: &str, department: &str) -> DepartmentMapping {
    DepartmentMapping { prefix: prefix.to_string(), department: department.to_string() }
}

#[test]
fn longest_prefix_wins() {
    let m = vec![mapping("ORTX", "Ortopedi"), mapping("ORTX1", "Special")];
    assert_eq!(get_department_from_barcode(&m, "ORTX123"), Some("Special".to_string()));
    assert_eq!(get_department_from_barcode(&m, "ORTX999"), Some("Ortopedi".to_string()));
}

#[test]
fn longest_prefix_wins_whatever_the_order() {
    let m = vec![mapping("ORTX1", "Special"), mapping("ORTX", "Ortopedi")];
    assert_eq!(get_department_from_barcode(&m, "ORTX123"), Some("Special".to_string()));
}

#[test]
fn prefix_match_ignores_case() {
    let m = vec![mapping("ORTX", "Ortopedi"), mapping("KÄKX", "Käkkirurgi")];
    assert_eq!(get_department_from_barcode(&m, "ortx42"), Some("Ortopedi".to_string()));
    assert_eq!(get_department_from_barcode(&m, "käkx001"), Some("Käkkirurgi".to_string()));
    assert!(has_valid_department_prefix(&m, "Ortx7"));
}

#[test]
fn no_prefix_no_department() {
    let m = vec![mapping("ORTX", "Ortopedi")];
    assert_eq!(get_department_from_barcode(&m, "NEURX1"), None);
    assert_eq!(get_department_from_barcode(&m, "ORT"), None);
    assert!(!has_valid_department_prefix(&m, "XORTX1"));
    assert_eq!(get_department_from_barcode(&Vec::new(), "ORTX1"), None);
}

#[test]
fn best_mapping_on_folded_text() {
    let m = vec![mapping("ORTX", "Ortopedi"), mapping("ORTX1", "Special"), mapping("ORTX2", "Other")];
    let folded = vec!["ORTX".to_string(), "ORTX1".to_string(), "ORTX2".to_string()];
    assert_eq!(best_mapping(&m, &folded, "ORTX123"), Some(1));
    assert_eq!(best_mapping(&m, &folded, "ORTX9"), Some(0));
    assert_eq!(best_mapping(&m, &folded, "ortx1"), None);
}

#[test]
fn equal_length_prefixes_take_the_first() {
    let m = vec![mapping("AB", "First"), mapping("ab", "Second")];
    assert_eq!(get_department_from_barcode(&m, "ABC"), Some("First".to_string()));
}
