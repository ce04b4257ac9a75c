use harrys_lilla_lager::department::DepartmentMapping;
use harrys_lilla_lager::logger::{Action, LedgerError, Logger, ScanLog};

fn mappings() -> Vec<DepartmentMapping> {
    vec![
        DepartmentMapping { prefix: "ORTX".to_string(), department: "Ortopedi".to_string() },
        DepartmentMapping { prefix: "NEURX".to_string(), department: "Neurokirurgi".to_string() },
    ]
}

fn entry(id: u64, timestamp: i64, barcode: &str, action: Action) -> ScanLog {
    ScanLog { id, timestamp, barcode: barcode.to_string(), action, department: None }
}

fn checked_out_barcodes(l: &Logger) -> Vec<String> {
    l.get_checked_out_items().into_iter().map(|e| e.barcode).collect()
}

#[test]
fn four_scans_alternate() {
    let mut l = Logger::new(mappings(), Vec::new());
    let mut actions = Vec::new();
    for t in 0..4 {
        let a = l.process_barcode_scan("ORTX123", 1000 + t).unwrap();
        assert_eq!(a.department, Some("Ortopedi".to_string()));
        actions.push(a.action);
    }
    assert_eq!(actions, vec![Action::CheckOut, Action::CheckIn, Action::CheckOut, Action::CheckIn]);
    assert_eq!(l.logs().len(), 4);
    assert!(checked_out_barcodes(&l).is_empty());
}

#[test]
fn forced_check_out_twice_reports_once() {
    let mut l = Logger::new(mappings(), Vec::new());
    assert!(l.force_check_out("ORTX5", 10).is_ok());
    assert!(l.force_check_out("ORTX5", 20).is_ok());
    assert_eq!(checked_out_barcodes(&l), vec!["ORTX5".to_string()]);
    let items = l.get_checked_out_items();
    assert_eq!(items[0].id, 2);
    assert_eq!(items[0].timestamp, 20);
    // The next scan checks it in.
    assert_eq!(l.process_barcode_scan("ORTX5", 30).unwrap().action, Action::CheckIn);
    assert!(checked_out_barcodes(&l).is_empty());
}

#[test]
fn unknown_department_is_refused_without_change() {
    let mut l = Logger::new(mappings(), Vec::new());
    assert_eq!(l.process_barcode_scan("ABC1", 5).err(), Some(LedgerError::UnknownDepartment));
    assert_eq!(l.force_check_in("ABC1", 5).err(), Some(LedgerError::UnknownDepartment));
    assert_eq!(l.force_check_out("ABC1", 5).err(), Some(LedgerError::UnknownDepartment));
    assert!(l.logs().is_empty());
    assert!(l.plan_scan("ABC1").is_err());
}

#[test]
fn forced_check_in_clears_status() {
    let mut l = Logger::new(mappings(), Vec::new());
    l.process_barcode_scan("NEURX1", 1).unwrap();
    let a = l.force_check_in("NEURX1", 2).unwrap();
    assert_eq!(a.action, Action::CheckIn);
    assert_eq!(a.department, Some("Neurokirurgi".to_string()));
    assert!(checked_out_barcodes(&l).is_empty());
    assert_eq!(l.process_barcode_scan("NEURX1", 3).unwrap().action, Action::CheckOut);
}

#[test]
fn history_rebuilds_the_cache() {
    let history = vec![
        entry(1, 100, "ORTX1", Action::CheckOut),
        entry(2, 200, "ORTX2", Action::CheckOut),
        entry(3, 300, "ORTX1", Action::CheckIn),
    ];
    let mut l = Logger::new(mappings(), history);
    assert_eq!(checked_out_barcodes(&l), vec!["ORTX2".to_string()]);
    let ids: Vec<u64> = l.logs().iter().map(|e| e.id).collect();
    assert_eq!(ids, vec![1, 2, 3]);
    assert_eq!(l.plan_scan("ORTX2").unwrap().action, Action::CheckIn);
    assert_eq!(l.process_barcode_scan("ORTX1", 400).unwrap().action, Action::CheckOut);
}

#[test]
fn latest_action_is_by_timestamp() {
    // The check-in was stored before the check-out but happened later.
    let history = vec![entry(1, 500, "ORTX1", Action::CheckIn), entry(2, 100, "ORTX1", Action::CheckOut)];
    let l = Logger::new(mappings(), history);
    assert!(checked_out_barcodes(&l).is_empty());
    // Equal timestamps: the later sequence id wins.
    let history = vec![entry(1, 100, "ORTX1", Action::CheckIn), entry(2, 100, "ORTX1", Action::CheckOut)];
    let l = Logger::new(mappings(), history);
    assert_eq!(checked_out_barcodes(&l), vec!["ORTX1".to_string()]);
}

#[test]
fn clock_never_runs_backwards() {
    let mut l = Logger::new(mappings(), vec![entry(7, 1000, "ORTX9", Action::CheckIn)]);
    assert_eq!(l.stamp(400), 1000);
    assert_eq!(l.stamp(2000), 2000);
    assert_eq!(l.next_id(), Some(8));
    let r = l.record("ORTX1", Action::CheckOut, Some("Ortopedi".to_string()), 400);
    assert_eq!(r.timestamp, 1000);
    assert_eq!(r.id, 8);
    assert_eq!(l.process_barcode_scan("ORTX1", 300).unwrap().action, Action::CheckIn);
}

#[test]
fn clearing_the_log_checks_everything_in() {
    let mut l = Logger::new(mappings(), Vec::new());
    l.process_barcode_scan("ORTX1", 1).unwrap();
    l.clear_all_logs();
    assert!(l.logs().is_empty());
    assert!(checked_out_barcodes(&l).is_empty());
    assert_eq!(l.process_barcode_scan("ORTX1", 2).unwrap().action, Action::CheckOut);
}

#[test]
fn new_mappings_apply_to_later_scans() {
    let mut l = Logger::new(Vec::new(), Vec::new());
    assert!(!l.has_valid_department_prefix("ORTX1"));
    l.set_department_mappings(mappings());
    assert!(l.has_valid_department_prefix("ortx1"));
    assert_eq!(l.mappings().len(), 2);
}

#[test]
fn action_names() {
    assert_eq!(Action::CheckIn.as_str(), "check-in");
    assert_eq!(Action::CheckOut.as_str(), "check-out");
}

#[test]
fn department_stats_from_the_log() {
    let mut l = Logger::new(mappings(), vec![entry(1, 1, "XYZ1", Action::CheckOut)]);
    l.process_barcode_scan("NEURX1", 2).unwrap();
    l.process_barcode_scan("ORTX1", 3).unwrap();
    l.process_barcode_scan("ORTX2", 4).unwrap();
    l.process_barcode_scan("NEURX2", 5).unwrap();
    l.process_barcode_scan("NEURX3", 6).unwrap();
    l.process_barcode_scan("NEURX2", 7).unwrap(); // back in
    assert_eq!(
        l.get_department_stats(),
        vec![("Neurokirurgi".to_string(), 2), ("Ortopedi".to_string(), 2), ("Unknown".to_string(), 1)]
    );
    assert!(Logger::new(mappings(), Vec::new()).get_department_stats().is_empty());
}

#[test]
fn checked_out_items_newest_first() {
    let history = vec![
        entry(3, 100, "ORTX1", Action::CheckOut),
        entry(10, 300, "ORTX2", Action::CheckOut),
        entry(12, 200, "ORTX3", Action::CheckOut),
        entry(15, 200, "ORTX4", Action::CheckOut),
    ];
    let mut l = Logger::new(mappings(), history);
    // Stored ids are kept.
    let ids: Vec<u64> = l.logs().iter().map(|e| e.id).collect();
    assert_eq!(ids, vec![3, 10, 12, 15]);
    assert_eq!(
        checked_out_barcodes(&l),
        vec!["ORTX2".to_string(), "ORTX4".to_string(), "ORTX3".to_string(), "ORTX1".to_string()]
    );
    l.force_check_out("ORTX5", 50).unwrap();
    let items = l.get_checked_out_items();
    assert_eq!(items[0].barcode, "ORTX5");
    assert_eq!(items[0].id, 16);
    assert_eq!(items[0].timestamp, 300);
}

#[test]
fn ids_run_out() {
    let l = Logger::new(mappings(), vec![entry(u64::MAX, 1, "ORTX1", Action::CheckOut)]);
    assert_eq!(l.next_id(), None);
}
