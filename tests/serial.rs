use harrys_lilla_lager::serial::serial_token;

#[test]
fn serial_chunk_is_trimmed() {
    assert_eq!(serial_token(b"  ORTX123\r\n"), Some("ORTX123".to_string()));
    assert_eq!(serial_token(b"ORTX 1"), Some("ORTX 1".to_string()));
}

#[test]
fn blank_serial_chunk_gives_nothing() {
    assert_eq!(serial_token(b"\r\n \t"), None);
    assert_eq!(serial_token(b""), None);
}

#[test]
fn invalid_utf8_is_replaced() {
    assert_eq!(serial_token(&[b'A', 0xFF, b'B', b'\n']), Some("A\u{FFFD}B".to_string()));
    assert_eq!(serial_token("KÄKX1\n".as_bytes()), Some("KÄKX1".to_string()));
}
