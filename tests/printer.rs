use harrys_lilla_lager::printer::{discover_zebra_printers, PrinterSettings, ZebraPrinter};

#[test]
fn default_printer_settings() {
    let s = PrinterSettings::default();
    assert_eq!(s.ip_address, "192.168.1.100");
    assert_eq!(s.port, 9100);
    assert_eq!(s.label_width, 203);
    assert_eq!(s.label_height, 152);
    assert_eq!(s.print_density, 8);
    assert_eq!(s.print_speed, 6);
}

#[test]
fn label_program() {
    let p = ZebraPrinter::new(PrinterSettings::default());
    let zpl = p.generate_zpl("ORTX123", Some("Ortopedi"), "2024-05-01");
    assert_eq!(
        zpl,
        "^XA\n^MMT\n^PW203\n^LL152\n^LS0\n^FT20,40^A0N,25,25^FDOrtopedi^FS\n^FT20,80^BCN,60,Y,N,N\n^FDORTX123^FS\n^FT20,160^A0N,20,20^FDORTX123^FS\n^FT20,185^A0N,15,15^FD2024-05-01^FS\n^XZ\n"
    );
    let zpl = p.generate_zpl("X1", None, "d");
    assert!(zpl.contains("^FDSurgical Inventory^FS"));
}

#[test]
fn batch_and_test_programs() {
    let mut s = PrinterSettings::default();
    s.label_width = 0;
    s.label_height = 1000;
    let p = ZebraPrinter::new(s);
    assert_eq!(p.batch_config_zpl(12), "^XA\n^PQ12,0,1,Y\n^MD8\n^PR6\n^XZ\n");
    assert_eq!(
        p.test_label_zpl("2024-05-01 10:00"),
        "^XA\n^PW0\n^LL1000\n^FT20,40^A0N,25,25^FDTest Label^FS\n^FT20,80^BCN,60,Y,N,N\n^FDTEST123^FS\n^FT20,160^A0N,20,20^FDTEST123^FS\n^FT20,185^A0N,15,15^FD2024-05-01 10:00^FS\n^XZ\n"
    );
}

#[test]
fn printer_addresses() {
    assert_eq!(
        discover_zebra_printers(),
        vec!["192.168.1.100".to_string(), "192.168.1.101".to_string(), "192.168.1.102".to_string()]
    );
}
