use harrys_lilla_lager::alert::{department_rollup, is_overdue, AlertManager, OverdueItem, HOUR_MS};
use harrys_lilla_lager::department::DepartmentMapping;
use harrys_lilla_lager::logger::Logger;

#[test]
fn overdue_only_past_the_threshold() {
    let t = 1_000_000;
    assert!(!is_overdue(t, t + 24 * HOUR_MS, 24));
    assert!(is_overdue(t, t + 24 * HOUR_MS + 1, 24));
    assert!(!is_overdue(t, t, 24));
    assert!(is_overdue(i64::MIN, i64::MAX, 24));
    assert!(!is_overdue(i64::MAX, i64::MIN, 24));
}

#[test]
fn threshold_from_setting() {
    assert_eq!(AlertManager::new(Some("48")).threshold_hours, 48);
    assert_eq!(AlertManager::new(Some("+6")).threshold_hours, 6);
    assert_eq!(AlertManager::new(Some("abc")).threshold_hours, 24);
    assert_eq!(AlertManager::new(Some(" 5")).threshold_hours, 24);
    assert_eq!(AlertManager::new(None).threshold_hours, 24);
}

fn ledger() -> Logger {
    let m = vec![
        DepartmentMapping { prefix: "ORTX".to_string(), department: "Ortopedi".to_string() },
        DepartmentMapping { prefix: "NEURX".to_string(), department: "Neurokirurgi".to_string() },
    ];
    Logger::new(m, Vec::new())
}

#[test]
fn overdue_items_from_the_log() {
    let mut l = ledger();
    l.process_barcode_scan("ORTX1", 0).unwrap();
    l.process_barcode_scan("ORTX2", HOUR_MS).unwrap();
    l.process_barcode_scan("NEURX1", 2 * HOUR_MS).unwrap();
    l.process_barcode_scan("ORTX2", 3 * HOUR_MS).unwrap(); // checked in again
    let a = AlertManager::new(None);
    let now = 26 * HOUR_MS + 5;
    let items = a.check_overdue_items(&l, now);
    let got: Vec<(String, i64)> = items.iter().map(|o| (o.barcode.clone(), o.hours_overdue)).collect();
    // Newest check-out first.
    assert_eq!(got, vec![("NEURX1".to_string(), 24), ("ORTX1".to_string(), 26)]);
    assert_eq!(items[1].checked_out_time, 0);
    assert_eq!(items[0].department, Some("Neurokirurgi".to_string()));
    // Still reported on the next run.
    assert_eq!(a.check_overdue_items(&l, now + HOUR_MS).len(), 2);
}

#[test]
fn department_alerts_by_count() {
    let mut l = ledger();
    l.process_barcode_scan("NEURX1", 0).unwrap();
    l.process_barcode_scan("ORTX1", 0).unwrap();
    l.process_barcode_scan("ORTX2", HOUR_MS).unwrap();
    let a = AlertManager::new(Some("1"));
    let stats = a.get_department_alert_stats(&l, 30 * HOUR_MS);
    let got: Vec<(String, i64, i64)> =
        stats.iter().map(|s| (s.department.clone(), s.overdue_count, s.oldest_hours)).collect();
    assert_eq!(got, vec![("Ortopedi".to_string(), 2, 30), ("Neurokirurgi".to_string(), 1, 30)]);
}

fn item(barcode: &str, department: Option<&str>, hours: i64) -> OverdueItem {
    OverdueItem {
        barcode: barcode.to_string(),
        department: department.map(|d| d.to_string()),
        checked_out_time: 0,
        hours_overdue: hours,
    }
}

#[test]
fn rollup_labels_missing_departments_unknown() {
    let items = vec![
        item("A", None, 30),
        item("B", Some("Ortopedi"), 25),
        item("C", None, 40),
        item("D", Some("Ortopedi"), 26),
        item("E", None, 27),
        item("F", Some("Neuro"), 50),
    ];
    let r = department_rollup(&items);
    let got: Vec<(String, i64, i64)> =
        r.iter().map(|s| (s.department.clone(), s.overdue_count, s.oldest_hours)).collect();
    assert_eq!(
        got,
        vec![
            ("Unknown".to_string(), 3, 40),
            ("Ortopedi".to_string(), 2, 26),
            ("Neuro".to_string(), 1, 50),
        ]
    );
    assert!(department_rollup(&Vec::new()).is_empty());
}

#[test]
fn rollup_keeps_first_seen_order_for_equal_counts() {
    let items = vec![item("A", Some("X"), 3), item("B", Some("Y"), 4), item("C", Some("Z"), 5), item("D", Some("Z"), 1)];
    let r = department_rollup(&items);
    let got: Vec<String> = r.iter().map(|s| s.department.clone()).collect();
    assert_eq!(got, vec!["Z".to_string(), "X".to_string(), "Y".to_string()]);
}
