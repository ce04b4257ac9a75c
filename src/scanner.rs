use vstd::prelude::*;
use crate::department::{DepartmentMapping, department_of, has_valid_department_prefix};
use crate::keys::{Key, key_char, is_terminator, key_to_char, ends_barcode};
use crate::text::{trim_of, trim_text, same_text, to_upper, upper_of};

verus! {

/// A session ends when no barcode has been accepted for this long.
pub const SESSION_TIMEOUT_MS: u64 = 10000;

/// Characters closer together than this may be a scanner's burst.
pub const BURST_GAP_MS: u64 = 100;

/// A burst is only recognised once the buffer holds more than this many characters.
pub const BURST_MIN_CHARS: usize = 2;

/// A pause longer than this between characters ends a burst.
pub const BURST_RESET_MS: u64 = 500;

/// Buffered characters older than this are abandoned.
pub const IDLE_RESET_MS: u64 = 1000;

/// Milliseconds from `since` to `now`; zero if `now` is earlier.
pub open spec fn elapsed(now: u64, since: u64) -> int {
    if now >= since { now - since } else { 0 }
}

fn elapsed_ms(now: u64, since: u64) -> (r: u64)
    ensures
        r == elapsed(now, since),
{
    if now >= since { now - since } else { 0 }
}

/// The scan session: whether it is armed, when it was last refreshed, and the
/// token that arms it. Times are milliseconds on a monotonic clock.
pub struct Scanner {
    pub last_input: u64,
    pub is_scanning: bool,
    pub trigger_barcode: String,
    pub session_timeout_ms: u64,
}

impl Scanner {
    /// An idle session armed by `SCAN_START`, with the standard timeout.
    pub fn new() -> (r: Scanner)
        ensures
            !r.is_scanning,
            r.last_input == 0,
            r.trigger_barcode@ == "SCAN_START"@,
            r.session_timeout_ms == SESSION_TIMEOUT_MS,
    {
        Scanner {
            last_input: 0,
            is_scanning: false,
            trigger_barcode: "SCAN_START".to_string(),
            session_timeout_ms: SESSION_TIMEOUT_MS,
        }
    }

    /// Arms the session by hand at `now`.
    pub fn start_manual_session(&mut self, now: u64)
        ensures
            final(self).is_scanning,
            final(self).last_input == now,
            final(self).trigger_barcode == old(self).trigger_barcode,
            final(self).session_timeout_ms == old(self).session_timeout_ms,
    {
        self.is_scanning = true;
        self.last_input = now;
    }

    /// Ends the session by hand.
    pub fn stop_session(&mut self)
        ensures
            !final(self).is_scanning,
            final(self).last_input == old(self).last_input,
            final(self).trigger_barcode == old(self).trigger_barcode,
            final(self).session_timeout_ms == old(self).session_timeout_ms,
    {
        self.is_scanning = false;
    }

    /// Ends an armed session whose timeout has passed at `now`; says whether it did.
    pub fn check_timeout(&mut self, now: u64) -> (ended: bool)
        ensures
            ended == expires(*old(self), now),
            final(self).is_scanning == (old(self).is_scanning && !ended),
            final(self).last_input == old(self).last_input,
            final(self).trigger_barcode == old(self).trigger_barcode,
            final(self).session_timeout_ms == old(self).session_timeout_ms,
    {
        if self.is_scanning && elapsed_ms(now, self.last_input) > self.session_timeout_ms {
            self.is_scanning = false;
            true
        } else {
            false
        }
    }
}

impl Default for Scanner {
    fn default() -> (r: Scanner)
        ensures
            !r.is_scanning,
            r.last_input == 0,
            r.trigger_barcode@ == "SCAN_START"@,
            r.session_timeout_ms == SESSION_TIMEOUT_MS,
    {
        Scanner::new()
    }
}

/// The armed session has been idle past its timeout at `now`.
pub open spec fn expires(s: Scanner, now: u64) -> bool {
    s.is_scanning && elapsed(now, s.last_input) > s.session_timeout_ms
}

/// A key press as the segmenter sees it.
#[derive(Debug, Clone, Copy, PartialEq, Eq, Structural)]
pub enum KeyInput {
    /// A key that types this character.
    Char(char),
    /// A key that ends a barcode.
    Terminator,
    /// Any other key.
    Other,
}

pub open spec fn input_of(key: Key) -> KeyInput {
    if is_terminator(key) {
        KeyInput::Terminator
    } else {
        match key_char(key) {
            Some(c) => KeyInput::Char(c),
            None => KeyInput::Other,
        }
    }
}

/// How the segmenter reads a key.
pub fn classify(key: Key) -> (r: KeyInput)
    ensures
        r == input_of(key),
{
    if ends_barcode(key) {
        KeyInput::Terminator
    } else {
        match key_to_char(key) {
            Some(c) => KeyInput::Char(c),
            None => KeyInput::Other,
        }
    }
}

/// What the segmenter reports.
pub enum SegmentEvent {
    SessionStarted,
    SessionEnded,
    /// A token in session (or in a burst) with a department: it goes to the ledger.
    Accepted(String),
    /// A token in session (or in a burst) without a department: dropped.
    Rejected(String),
}

/// The model of a [`SegmentEvent`].
pub enum Notice {
    SessionStarted,
    SessionEnded,
    Accepted(Seq<char>),
    Rejected(Seq<char>),
}

impl View for SegmentEvent {
    type V = Notice;

    open spec fn view(&self) -> Notice {
        match self {
            SegmentEvent::SessionStarted => Notice::SessionStarted,
            SegmentEvent::SessionEnded => Notice::SessionEnded,
            SegmentEvent::Accepted(s) => Notice::Accepted(s@),
            SegmentEvent::Rejected(s) => Notice::Rejected(s@),
        }
    }
}

pub open spec fn notices(v: Seq<SegmentEvent>) -> Seq<Notice> {
    v.map_values(|e: SegmentEvent| e@)
}

/// The state that a token or a key leaves behind, and what it reports.
pub struct Outcome {
    pub buffer: Seq<char>,
    pub last_char: u64,
    pub burst: bool,
    pub scanning: bool,
    pub last_input: u64,
    pub events: Seq<Notice>,
}

/// What a complete token does. An empty token does nothing; the trigger
/// (compared case-insensitively) arms or refreshes the session; in session or
/// in a burst the token is accepted if it has a department and rejected if
/// not, the burst ends and an armed session is refreshed; outside both it is
/// dropped.
pub open spec fn token_outcome(
    seg: KeySegmenter,
    scanning: bool,
    last_input: u64,
    trigger: Seq<char>,
    mappings: Seq<DepartmentMapping>,
    token: Seq<char>,
    now: u64,
) -> Outcome {
    let same = Outcome {
        buffer: seg.char_buffer@,
        last_char: seg.last_char_time,
        burst: seg.burst_detected,
        scanning,
        last_input,
        events: seq![],
    };
    if token.len() == 0 {
        same
    } else if upper_of(token) == upper_of(trigger) {
        Outcome { scanning: true, last_input: now, events: seq![Notice::SessionStarted], ..same }
    } else if scanning || seg.burst_detected {
        Outcome {
            burst: false,
            last_input: if scanning { now } else { last_input },
            events: seq![
                if department_of(mappings, token).is_some() {
                    Notice::Accepted(token)
                } else {
                    Notice::Rejected(token)
                },
            ],
            ..same
        }
    } else {
        same
    }
}

/// Whether a character that arrives `gap` ms after the previous one, onto a
/// buffer of `len` characters, leaves a burst behind.
pub open spec fn burst_after(burst: bool, len: nat, gap: int) -> bool {
    if gap > BURST_RESET_MS {
        false
    } else if gap < BURST_GAP_MS && len > BURST_MIN_CHARS {
        true
    } else {
        burst
    }
}

/// What one key press at `now` does. First an armed session that has timed out ends;
/// then buffered characters older than the idle limit are dropped, with the
/// burst. A terminator then ends the token: the buffer, trimmed, is handled as
/// in [`token_outcome`] and the buffer empties. A character is appended and may
/// start or end a burst. Other keys change nothing more.
pub open spec fn key_outcome(
    seg: KeySegmenter,
    session: Scanner,
    mappings: Seq<DepartmentMapping>,
    input: KeyInput,
    now: u64,
) -> Outcome {
    let expired = expires(session, now);
    let scanning = session.is_scanning && !expired;
    let ended = if expired { seq![Notice::SessionEnded] } else { seq![] };
    let stale = seg.char_buffer@.len() > 0 && elapsed(now, seg.last_char_time) > IDLE_RESET_MS;
    let buffer = if stale { Seq::empty() } else { seg.char_buffer@ };
    let burst = seg.burst_detected && !stale;
    if input == KeyInput::Terminator {
        let token = if buffer.len() == 0 { Seq::empty() } else { trim_of(buffer) };
        let o = token_outcome(
            KeySegmenter { burst_detected: burst, ..seg },
            scanning,
            session.last_input,
            session.trigger_barcode@,
            mappings,
            token,
            now,
        );
        Outcome { buffer: Seq::empty(), events: ended + o.events, ..o }
    } else {
        let base = Outcome {
            buffer,
            last_char: seg.last_char_time,
            burst,
            scanning,
            last_input: session.last_input,
            events: ended,
        };
        match input {
            KeyInput::Char(c) => Outcome {
                buffer: buffer.push(c),
                last_char: now,
                burst: burst_after(burst, buffer.len(), elapsed(now, seg.last_char_time)),
                ..base
            },
            _ => base,
        }
    }
}

/// Rebuilds barcode tokens from single key presses, telling a scanner's fast
/// bursts from typing by the gaps between characters.
pub struct KeySegmenter {
    pub char_buffer: String,
    pub last_char_time: u64,
    pub burst_detected: bool,
}

impl KeySegmenter {
    /// An empty buffer, no burst.
    pub fn new() -> (r: KeySegmenter)
        ensures
            r.char_buffer@ == Seq::<char>::empty(),
            r.last_char_time == 0,
            !r.burst_detected,
    {
        KeySegmenter { char_buffer: String::new(), last_char_time: 0, burst_detected: false }
    }

    /// Handles a complete, trimmed token at `now` against the session and the
    /// department table.
    pub fn on_token(
        &mut self,
        session: &mut Scanner,
        mappings: &Vec<DepartmentMapping>,
        token: &str,
        now: u64,
    ) -> (r: Vec<SegmentEvent>)
        ensures
            ({
                let o = token_outcome(
                    *old(self),
                    old(session).is_scanning,
                    old(session).last_input,
                    old(session).trigger_barcode@,
                    mappings@,
                    token@,
                    now,
                );
                &&& final(self).char_buffer@ == o.buffer
                &&& final(self).last_char_time == o.last_char
                &&& final(self).burst_detected == o.burst
                &&& final(session).is_scanning == o.scanning
                &&& final(session).last_input == o.last_input
                &&& notices(r@) == o.events
            }),
            final(session).trigger_barcode == old(session).trigger_barcode,
            final(session).session_timeout_ms == old(session).session_timeout_ms,
    {
        let mut r: Vec<SegmentEvent> = Vec::new();
        if token.unicode_len() == 0 {
        } else if same_text(to_upper(token).as_str(), to_upper(session.trigger_barcode.as_str()).as_str()) {
            session.is_scanning = true;
            session.last_input = now;
            r.push(SegmentEvent::SessionStarted);
        } else if session.is_scanning || self.burst_detected {
            if has_valid_department_prefix(mappings, token) {
                r.push(SegmentEvent::Accepted(token.to_string()));
            } else {
                r.push(SegmentEvent::Rejected(token.to_string()));
            }
            self.burst_detected = false;
            if session.is_scanning {
                session.last_input = now;
            }
        }
        proof {
            assert(notices(r@) =~= token_outcome(
                *old(self),
                old(session).is_scanning,
                old(session).last_input,
                old(session).trigger_barcode@,
                mappings@,
                token@,
                now,
            ).events);
        }
        r
    }

    /// Handles one key press at `now`; see [`key_outcome`].
    pub fn handle_key(
        &mut self,
        session: &mut Scanner,
        mappings: &Vec<DepartmentMapping>,
        key: Key,
        now: u64,
    ) -> (r: Vec<SegmentEvent>)
        ensures
            ({
                let o = key_outcome(*old(self), *old(session), mappings@, input_of(key), now);
                &&& final(self).char_buffer@ == o.buffer
                &&& final(self).last_char_time == o.last_char
                &&& final(self).burst_detected == o.burst
                &&& final(session).is_scanning == o.scanning
                &&& final(session).last_input == o.last_input
                &&& notices(r@) == o.events
            }),
            final(session).trigger_barcode == old(session).trigger_barcode,
            final(session).session_timeout_ms == old(session).session_timeout_ms,
    {
        let input = classify(key);
        self.handle_input(session, mappings, input, now)
    }

    /// Handles one key press, already read as a [`KeyInput`], at `now`; see
    /// [`key_outcome`].
    pub fn handle_input(
        &mut self,
        session: &mut Scanner,
        mappings: &Vec<DepartmentMapping>,
        input: KeyInput,
        now: u64,
    ) -> (r: Vec<SegmentEvent>)
        ensures
            ({
                let o = key_outcome(*old(self), *old(session), mappings@, input, now);
                &&& final(self).char_buffer@ == o.buffer
                &&& final(self).last_char_time == o.last_char
                &&& final(self).burst_detected == o.burst
                &&& final(session).is_scanning == o.scanning
                &&& final(session).last_input == o.last_input
                &&& notices(r@) == o.events
            }),
            final(session).trigger_barcode == old(session).trigger_barcode,
            final(session).session_timeout_ms == old(session).session_timeout_ms,
    {
        let mut events: Vec<SegmentEvent> = Vec::new();
        if session.check_timeout(now) {
            events.push(SegmentEvent::SessionEnded);
        }
        let gap = elapsed_ms(now, self.last_char_time);
        if self.char_buffer.as_str().unicode_len() > 0 && gap > IDLE_RESET_MS {
            self.char_buffer = String::new();
            self.burst_detected = false;
        }
        let ghost ended = notices(events@);
        if input == KeyInput::Terminator {
            let token = if self.char_buffer.as_str().unicode_len() == 0 {
                String::new()
            } else {
                trim_text(self.char_buffer.as_str())
            };
            self.char_buffer = String::new();
            let mut more = self.on_token(session, mappings, token.as_str(), now);
            events.append(&mut more);
            proof {
                assert(self.char_buffer@ =~= Seq::<char>::empty());
            }
        } else {
            match input {
                KeyInput::Char(c) => {
                    if gap < BURST_GAP_MS && self.char_buffer.as_str().unicode_len() > BURST_MIN_CHARS {
                        self.burst_detected = true;
                    }
                    self.char_buffer.push(c);
                    self.last_char_time = now;
                    if gap > BURST_RESET_MS {
                        self.burst_detected = false;
                    }
                },
                _ => {},
            }
        }
        proof {
            assert(notices(events@) =~= key_outcome(*old(self), *old(session), mappings@, input, now).events);
        }
        events
    }
}

/// After a pause longer than the idle limit, nothing typed before it reaches a
/// token: a terminator reports no token, a character starts a new buffer, and
/// any other key leaves the buffer empty.
pub proof fn lemma_pause_discards_buffer(
    seg: KeySegmenter,
    session: Scanner,
    mappings: Seq<DepartmentMapping>,
    input: KeyInput,
    now: u64,
)
    requires
        elapsed(now, seg.last_char_time) > IDLE_RESET_MS,
    ensures
        ({
            let o = key_outcome(seg, session, mappings, input, now);
            &&& input == KeyInput::Terminator ==> o.events == (if expires(session, now) {
                seq![Notice::SessionEnded]
            } else {
                seq![]
            })
            &&& input != KeyInput::Terminator ==> o.buffer == match input {
                KeyInput::Char(c) => seq![c],
                _ => Seq::<char>::empty(),
            }
        }),
{
    let o = key_outcome(seg, session, mappings, input, now);
    if input == KeyInput::Terminator {
        let ended: Seq<Notice> = if expires(session, now) { seq![Notice::SessionEnded] } else { seq![] };
        assert(o.events =~= ended);
    } else {
        match input {
            KeyInput::Char(c) => {
                assert(seg.char_buffer@.len() == 0 ==> seg.char_buffer@ =~= Seq::<char>::empty());
                assert(o.buffer =~= seq![c]);
            },
            _ => {
                assert(seg.char_buffer@.len() == 0 ==> seg.char_buffer@ =~= Seq::<char>::empty());
            },
        }
    }
}

} // verus!
