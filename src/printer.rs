use vstd::prelude::*;
use crate::text::decimal_text;
use crate::text::decimal;

verus! {

/// Network printer settings; sizes are in dots.
pub struct PrinterSettings {
    pub ip_address: String,
    pub port: u16,
    pub label_width: u16,
    pub label_height: u16,
    /// 0 to 30.
    pub print_density: u8,
    /// 1 to 14.
    pub print_speed: u8,
}

impl Default for PrinterSettings {
    fn default() -> (r: PrinterSettings)
        ensures
            r.ip_address@ == "192.168.1.100"@,
            r.port == 9100,
            r.label_width == 203,
            r.label_height == 152,
            r.print_density == 8,
            r.print_speed == 6,
    {
        PrinterSettings {
            ip_address: "192.168.1.100".to_string(),
            port: 9100,
            label_width: 203,
            label_height: 152,
            print_density: 8,
            print_speed: 6,
        }
    }
}

/// Department line printed when a label has no department.
pub open spec fn label_heading(department: Option<Seq<char>>) -> Seq<char> {
    match department {
        Some(d) => d,
        None => "Surgical Inventory"@,
    }
}

/// The ZPL program of one barcode label.
pub open spec fn label_zpl(
    width: u16,
    height: u16,
    heading: Seq<char>,
    barcode: Seq<char>,
    date: Seq<char>,
) -> Seq<char> {
    "^XA\n^MMT\n^PW"@ + decimal(width as nat) + "\n^LL"@ + decimal(height as nat)
        + "\n^LS0\n^FT20,40^A0N,25,25^FD"@ + heading + "^FS\n^FT20,80^BCN,60,Y,N,N\n^FD"@ + barcode
        + "^FS\n^FT20,160^A0N,20,20^FD"@ + barcode + "^FS\n^FT20,185^A0N,15,15^FD"@ + date
        + "^FS\n^XZ\n"@
}

/// The ZPL program that sets quantity, density and speed before a batch.
pub open spec fn batch_zpl(count: nat, density: u8, speed: u8) -> Seq<char> {
    "^XA\n^PQ"@ + decimal(count) + ",0,1,Y\n^MD"@ + decimal(density as nat) + "\n^PR"@
        + decimal(speed as nat) + "\n^XZ\n"@
}

/// The ZPL program of the test label.
pub open spec fn test_zpl(width: u16, height: u16, stamp: Seq<char>) -> Seq<char> {
    "^XA\n^PW"@ + decimal(width as nat) + "\n^LL"@ + decimal(height as nat)
        + "\n^FT20,40^A0N,25,25^FDTest Label^FS\n^FT20,80^BCN,60,Y,N,N\n^FDTEST123^FS\n^FT20,160^A0N,20,20^FDTEST123^FS\n^FT20,185^A0N,15,15^FD"@
        + stamp + "^FS\n^XZ\n"@
}

/// Label printer speaking ZPL over a raw TCP port.
pub struct ZebraPrinter {
    pub settings: PrinterSettings,
}

impl ZebraPrinter {
    pub fn new(settings: PrinterSettings) -> (r: ZebraPrinter)
        ensures
            r.settings == settings,
    {
        ZebraPrinter { settings }
    }

    /// The label for `barcode`: department (or a generic heading), the barcode
    /// as Code 128 and as text, and the `date` given.
    pub fn generate_zpl(&self, barcode: &str, department: Option<&str>, date: &str) -> (r: String)
        ensures
            r@ == label_zpl(
                self.settings.label_width,
                self.settings.label_height,
                label_heading(match department {
                    Some(d) => Some(d@),
                    None => None,
                }),
                barcode@,
                date@,
            ),
    {
        let heading = match department {
            Some(d) => d,
            None => "Surgical Inventory",
        };
        let mut r = "^XA\n^MMT\n^PW".to_string();
        r.append(decimal_text(self.settings.label_width as u64).as_str());
        r.append("\n^LL");
        r.append(decimal_text(self.settings.label_height as u64).as_str());
        r.append("\n^LS0\n^FT20,40^A0N,25,25^FD");
        r.append(heading);
        r.append("^FS\n^FT20,80^BCN,60,Y,N,N\n^FD");
        r.append(barcode);
        r.append("^FS\n^FT20,160^A0N,20,20^FD");
        r.append(barcode);
        r.append("^FS\n^FT20,185^A0N,15,15^FD");
        r.append(date);
        r.append("^FS\n^XZ\n");
        r
    }

    /// The settings sent before a batch of `count` labels.
    pub fn batch_config_zpl(&self, count: usize) -> (r: String)
        ensures
            r@ == batch_zpl(count as nat, self.settings.print_density, self.settings.print_speed),
    {
        let mut r = "^XA\n^PQ".to_string();
        r.append(decimal_text(count as u64).as_str());
        r.append(",0,1,Y\n^MD");
        r.append(decimal_text(self.settings.print_density as u64).as_str());
        r.append("\n^PR");
        r.append(decimal_text(self.settings.print_speed as u64).as_str());
        r.append("\n^XZ\n");
        r
    }

    /// The test label, stamped with `stamp`.
    pub fn test_label_zpl(&self, stamp: &str) -> (r: String)
        ensures
            r@ == test_zpl(self.settings.label_width, self.settings.label_height, stamp@),
    {
        let mut r = "^XA\n^PW".to_string();
        r.append(decimal_text(self.settings.label_width as u64).as_str());
        r.append("\n^LL");
        r.append(decimal_text(self.settings.label_height as u64).as_str());
        r.append(
            "\n^FT20,40^A0N,25,25^FDTest Label^FS\n^FT20,80^BCN,60,Y,N,N\n^FDTEST123^FS\n^FT20,160^A0N,20,20^FDTEST123^FS\n^FT20,185^A0N,15,15^FD",
        );
        r.append(stamp);
        r.append("^FS\n^XZ\n");
        r
    }
}

/// The addresses tried for printers: a fixed list on the local network.
pub fn discover_zebra_printers() -> (r: Vec<String>)
    ensures
        r.len() == 3,
        r@[0]@ == "192.168.1.100"@,
        r@[1]@ == "192.168.1.101"@,
        r@[2]@ == "192.168.1.102"@,
{
    let mut r: Vec<String> = Vec::new();
    r.push("192.168.1.100".to_string());
    r.push("192.168.1.101".to_string());
    r.push("192.168.1.102".to_string());
    r
}

} // verus!
