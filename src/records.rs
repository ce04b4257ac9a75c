use vstd::prelude::*;

verus! {

/// One stored setting.
pub struct Settings {
    pub key: String,
    pub value: String,
}

/// One entry of the managed inventory catalogue.
pub struct InventoryItem {
    pub barcode: String,
    pub department: Option<String>,
    pub description: Option<String>,
}

} // verus!
