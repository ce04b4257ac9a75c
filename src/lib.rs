//! Check-in / check-out ledger for scanned inventory: barcode segmentation from
//! key and serial input, scan sessions, department resolution, the transaction
//! log with its derived "checked out" view, and overdue alerts.

// Text, number and time primitives.
pub mod text;
pub mod timestamp;

// Department resolution and the transaction ledger.
pub mod department;
pub mod logger;

// Input segmentation and scan sessions.
pub mod keys;
pub mod scanner;
pub mod serial;

// Reports.
pub mod alert;

// Labels, records and presentation details.
pub mod printer;
pub mod records;
pub mod theme;
