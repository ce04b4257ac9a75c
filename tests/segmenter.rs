use harrys_lilla_lager::department::DepartmentMapping;
use harrys_lilla_lager::keys::{key_to_char, Key};
use harrys_lilla_lager::logger::{Action, Logger};
use harrys_lilla_lager::scanner::{KeyInput, KeySegmenter, Scanner, SegmentEvent};

fn mappings() -> Vec<DepartmentMapping> {
    vec![DepartmentMapping { prefix: "ORTX".to_string(), department: "Ortopedi".to_string() }]
}

/// Types `text` one character every `gap` ms from `start`, then a terminator
/// `gap` ms later; returns every event and the time of the terminator.
fn type_token(
    seg: &mut KeySegmenter,
    session: &mut Scanner,
    m: &Vec<DepartmentMapping>,
    text: &str,
    start: u64,
    gap: u64,
) -> (Vec<SegmentEvent>, u64) {
    let mut events = Vec::new();
    let mut t = start;
    for c in text.chars() {
        events.extend(seg.handle_input(session, m, KeyInput::Char(c), t));
        t += gap;
    }
    events.extend(seg.handle_input(session, m, KeyInput::Terminator, t));
    (events, t)
}

fn accepted(events: &[SegmentEvent]) -> Vec<String> {
    events
        .iter()
        .filter_map(|e| match e {
            SegmentEvent::Accepted(s) => Some(s.clone()),
            _ => None,
        })
        .collect()
}

#[test]
fn trigger_then_item_is_forwarded() {
    let m = mappings();
    let mut seg = KeySegmenter::new();
    let mut session = Scanner::new();
    let mut ledger = Logger::new(mappings(), Vec::new());
    let (events, t) = type_token(&mut seg, &mut session, &m, "SCAN_START", 5000, 150);
    assert!(matches!(events.as_slice(), [SegmentEvent::SessionStarted]));
    assert!(session.is_scanning);
    let (events, t2) = type_token(&mut seg, &mut session, &m, "ORTX123", t + 1000, 150);
    let tokens = accepted(&events);
    assert_eq!(tokens, vec!["ORTX123".to_string()]);
    let a = ledger.process_barcode_scan(&tokens[0], 0).unwrap();
    assert_eq!(a.action, Action::CheckOut);
    assert_eq!(a.department, Some("Ortopedi".to_string()));
    assert!(session.is_scanning);
    assert_eq!(session.last_input, t2);
}

#[test]
fn slow_typing_outside_session_is_dropped() {
    let m = mappings();
    let mut seg = KeySegmenter::new();
    let mut session = Scanner::new();
    let (events, _) = type_token(&mut seg, &mut session, &m, "ORTX999", 1000, 150);
    assert!(events.is_empty());
    assert!(!session.is_scanning);
    assert!(!seg.burst_detected);
    assert!(seg.char_buffer.is_empty());
}

#[test]
fn fast_burst_outside_session_is_forwarded() {
    let m = mappings();
    let mut seg = KeySegmenter::new();
    let mut session = Scanner::new();
    let (events, _) = type_token(&mut seg, &mut session, &m, "ORTX777", 1000, 20);
    assert_eq!(accepted(&events), vec!["ORTX777".to_string()]);
    assert!(!seg.burst_detected);
    assert!(!session.is_scanning);
}

#[test]
fn burst_without_department_is_rejected() {
    let m = mappings();
    let mut seg = KeySegmenter::new();
    let mut session = Scanner::new();
    let (events, _) = type_token(&mut seg, &mut session, &m, "HELLO12", 1000, 20);
    assert!(matches!(events.as_slice(), [SegmentEvent::Rejected(s)] if s == "HELLO12"));
}

#[test]
fn pause_discards_earlier_characters() {
    let m = mappings();
    let mut seg = KeySegmenter::new();
    let mut session = Scanner::new();
    session.start_manual_session(0);
    for (i, c) in "ABC".chars().enumerate() {
        seg.handle_input(&mut session, &m, KeyInput::Char(c), 100 + 20 * i as u64);
    }
    // More than a second later, a new token is typed.
    let (events, _) = type_token(&mut seg, &mut session, &m, "ORTX5", 1500, 20);
    assert_eq!(accepted(&events), vec!["ORTX5".to_string()]);
}

#[test]
fn pause_before_terminator_yields_nothing() {
    let m = mappings();
    let mut seg = KeySegmenter::new();
    let mut session = Scanner::new();
    session.start_manual_session(0);
    for (i, c) in "ORTX1".chars().enumerate() {
        seg.handle_input(&mut session, &m, KeyInput::Char(c), 100 + 20 * i as u64);
    }
    let events = seg.handle_input(&mut session, &m, KeyInput::Terminator, 1300);
    assert!(events.is_empty());
    assert!(seg.char_buffer.is_empty());
}

#[test]
fn session_times_out_on_next_key() {
    let m = mappings();
    let mut seg = KeySegmenter::new();
    let mut session = Scanner::new();
    session.start_manual_session(1000);
    let events = seg.handle_input(&mut session, &m, KeyInput::Other, 11000);
    assert!(events.is_empty());
    assert!(session.is_scanning);
    let events = seg.handle_input(&mut session, &m, KeyInput::Other, 11001);
    assert!(matches!(events.as_slice(), [SegmentEvent::SessionEnded]));
    assert!(!session.is_scanning);
}

#[test]
fn trigger_matches_without_case_and_spaces() {
    let m = mappings();
    let mut seg = KeySegmenter::new();
    let mut session = Scanner::new();
    let (events, _) = type_token(&mut seg, &mut session, &m, " scan_start ", 100, 150);
    assert!(matches!(events.as_slice(), [SegmentEvent::SessionStarted]));
}

#[test]
fn trimmed_token_in_session() {
    let m = mappings();
    let mut seg = KeySegmenter::new();
    let mut session = Scanner::new();
    session.start_manual_session(0);
    let (events, _) = type_token(&mut seg, &mut session, &m, "  ORTX8 ", 100, 150);
    assert_eq!(accepted(&events), vec!["ORTX8".to_string()]);
    let (events, _) = type_token(&mut seg, &mut session, &m, "   ", 2000, 150);
    assert!(events.is_empty());
}

#[test]
fn stop_session_drops_tokens() {
    let m = mappings();
    let mut seg = KeySegmenter::new();
    let mut session = Scanner::new();
    session.start_manual_session(0);
    session.stop_session();
    let (events, _) = type_token(&mut seg, &mut session, &m, "ORTX1", 100, 150);
    assert!(events.is_empty());
}

#[test]
fn keys_type_characters() {
    assert_eq!(key_to_char(Key::KeyA), Some('a'));
    assert_eq!(key_to_char(Key::Num7), Some('7'));
    assert_eq!(key_to_char(Key::BackSlash), Some('\\'));
    assert_eq!(key_to_char(Key::Quote), Some('\''));
    assert_eq!(key_to_char(Key::Return), None);
    assert_eq!(key_to_char(Key::Other), None);
}

#[test]
fn keys_drive_the_segmenter() {
    let m = mappings();
    let mut seg = KeySegmenter::new();
    let mut session = Scanner::new();
    session.start_manual_session(0);
    let keys = [Key::KeyO, Key::KeyR, Key::KeyT, Key::KeyX, Key::Num4, Key::Return];
    let mut events = Vec::new();
    for (i, k) in keys.iter().enumerate() {
        events.extend(seg.handle_key(&mut session, &m, *k, 100 + 150 * i as u64));
    }
    assert_eq!(accepted(&events), vec!["ortx4".to_string()]);
    // Num0 ends a barcode as well.
    let r = seg.handle_key(&mut session, &m, Key::KeyO, 2000);
    assert!(r.is_empty());
    let r = seg.handle_key(&mut session, &m, Key::Num0, 2100);
    assert!(matches!(r.as_slice(), [SegmentEvent::Rejected(s)] if s == "o"));
}

#[test]
fn default_session() {
    let s = Scanner::default();
    assert!(!s.is_scanning);
    assert_eq!(s.trigger_barcode, "SCAN_START");
    assert_eq!(s.session_timeout_ms, 10000);
}
