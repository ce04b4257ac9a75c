use vstd::prelude::*;
use crate::text::{decode_lossy, trim_of, trim_text, utf8_lossy_of};

verus! {

/// Bytes read from the serial port in one poll at most.
pub const SERIAL_CHUNK: usize = 256;

/// Milliseconds between two polls of the serial port.
pub const SERIAL_POLL_MS: u64 = 50;

/// The token in one chunk read from a serial scanner: the bytes decoded as
/// UTF-8 (invalid sequences replaced), trimmed; `None` when nothing is left.
/// A serial scanner is a dedicated device, so its tokens need no session to
/// tell them from typing; they go on to the ledger's scan, which refuses a
/// barcode without a department as it does for every other source.
pub fn serial_token(chunk: &[u8]) -> (r: Option<String>)
    ensures
        match r {
            Some(t) => t@ == trim_of(utf8_lossy_of(chunk@)) && t@.len() > 0,
            None => trim_of(utf8_lossy_of(chunk@)).len() == 0,
        },
{
    let text = decode_lossy(chunk);
    let token = trim_text(text.as_str());
    if token.as_str().unicode_len() == 0 {
        None
    } else {
        Some(token)
    }
}

} // verus!
