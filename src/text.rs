use vstd::prelude::*;

verus! {

/// The upper-case form of a text, as the standard library's Unicode case mapping
/// gives it.
pub uninterp spec fn upper_of(s: Seq<char>) -> Seq<char>;

/// A character with the Unicode White_Space property.
pub open spec fn is_white_space(c: char) -> bool {
    let u = c as u32;
    ||| 0x9 <= u <= 0xD
    ||| u == 0x20
    ||| u == 0x85
    ||| u == 0xA0
    ||| u == 0x1680
    ||| 0x2000 <= u <= 0x200A
    ||| u == 0x2028
    ||| u == 0x2029
    ||| u == 0x202F
    ||| u == 0x205F
    ||| u == 0x3000
}

/// The text without its leading white space.
pub open spec fn trim_start_of(s: Seq<char>) -> Seq<char>
    decreases s.len(),
{
    if s.len() > 0 && is_white_space(s[0]) {
        trim_start_of(s.drop_first())
    } else {
        s
    }
}

/// The text without its trailing white space.
pub open spec fn trim_end_of(s: Seq<char>) -> Seq<char>
    decreases s.len(),
{
    if s.len() > 0 && is_white_space(s.last()) {
        trim_end_of(s.drop_last())
    } else {
        s
    }
}

/// The text with leading and trailing white space removed.
pub open spec fn trim_of(s: Seq<char>) -> Seq<char> {
    trim_end_of(trim_start_of(s))
}

/// The text that lossy UTF-8 decoding makes of some bytes (invalid sequences
/// become U+FFFD).
pub uninterp spec fn utf8_lossy_of(b: Seq<u8>) -> Seq<char>;

/// Relies on `str::to_uppercase`: the result depends on the characters alone.
#[verifier::external_body]
pub(crate) fn to_upper(s: &str) -> (r: String)
    ensures
        r@ == upper_of(s@),
{
    s.to_uppercase()
}

/// A text that neither starts nor ends with white space is its own trim.
pub proof fn lemma_trim_keeps(s: Seq<char>)
    requires
        s.len() > 0 ==> !is_white_space(s[0]) && !is_white_space(s.last()),
    ensures
        trim_of(s) == s,
{
}

/// Relies on `str::trim`: removes leading and trailing characters with the
/// Unicode White_Space property.
#[verifier::external_body]
pub(crate) fn trim_text(s: &str) -> (r: String)
    ensures
        r@ == trim_of(s@),
{
    s.trim().to_string()
}

/// Relies on `String::from_utf8_lossy`: the result depends on the bytes alone.
#[verifier::external_body]
pub(crate) fn decode_lossy(b: &[u8]) -> (r: String)
    ensures
        r@ == utf8_lossy_of(b@),
{
    String::from_utf8_lossy(b).into_owned()
}

/// Relies on `String::push`: appends one character.
pub assume_specification[ String::push ](s: &mut String, ch: char)
    ensures
        final(s)@ == old(s)@.push(ch),
;

/// Value of a non-empty run of ASCII decimal digits.
pub open spec fn decimal_value(d: Seq<char>) -> int
    decreases d.len(),
{
    if d.len() == 0 {
        0
    } else {
        decimal_value(d.drop_last()) * 10 + (d.last() as int - '0' as int)
    }
}

pub open spec fn is_decimal(d: Seq<char>) -> bool {
    d.len() > 0 && forall|i: int| 0 <= i < d.len() ==> '0' <= #[trigger] d[i] <= '9'
}

/// What `i64::from_str` accepts: an optional sign, then one or more decimal
/// digits, with a value in range.
pub open spec fn parsed_i64(s: Seq<char>) -> Option<i64> {
    let neg = s.len() > 0 && s[0] == '-';
    let digits = if s.len() > 0 && (s[0] == '-' || s[0] == '+') {
        s.drop_first()
    } else {
        s
    };
    let v = if neg {
        -decimal_value(digits)
    } else {
        decimal_value(digits)
    };
    if is_decimal(digits) && i64::MIN <= v <= i64::MAX {
        Some(v as i64)
    } else {
        None
    }
}

/// Relies on `str::parse::<i64>`: an optional sign and decimal digits, nothing else.
#[verifier::external_body]
pub(crate) fn parse_i64(s: &str) -> (r: Option<i64>)
    ensures
        r == parsed_i64(s@),
{
    s.parse::<i64>().ok()
}

/// Whether `p` is a prefix of `s`, character by character.
pub fn starts_with(s: &str, p: &str) -> (r: bool)
    ensures
        r == p@.is_prefix_of(s@),
{
    let sl = s.unicode_len();
    let pl = p.unicode_len();
    if pl > sl {
        return false;
    }
    let mut i: usize = 0;
    while i < pl
        invariant
            pl == p@.len(),
            sl == s@.len(),
            pl <= sl,
            i <= pl,
            forall|k: int| 0 <= k < i ==> p@[k] == s@[k],
        decreases pl - i,
    {
        if p.get_char(i) != s.get_char(i) {
            return false;
        }
        i = i + 1;
    }
    assert(p@ =~= s@.subrange(0, p@.len() as int));
    true
}

/// The decimal digits of `n`, without leading zeros.
pub open spec fn decimal(n: nat) -> Seq<char>
    decreases n,
{
    if n < 10 {
        seq![digit_char(n)]
    } else {
        decimal(n / 10).push(digit_char(n % 10))
    }
}

pub open spec fn digit_char(d: nat) -> char {
    if d == 0 { '0' } else if d == 1 { '1' } else if d == 2 { '2' } else if d == 3 { '3' }
    else if d == 4 { '4' } else if d == 5 { '5' } else if d == 6 { '6' } else if d == 7 { '7' }
    else if d == 8 { '8' } else { '9' }
}

fn digit(d: u64) -> (c: char)
    requires
        d < 10,
    ensures
        c == digit_char(d as nat),
{
    if d == 0 { '0' } else if d == 1 { '1' } else if d == 2 { '2' } else if d == 3 { '3' }
    else if d == 4 { '4' } else if d == 5 { '5' } else if d == 6 { '6' } else if d == 7 { '7' }
    else if d == 8 { '8' } else { '9' }
}

/// `n` written in decimal.
pub fn decimal_text(n: u64) -> (r: String)
    ensures
        r@ == decimal(n as nat),
    decreases n,
{
    let c = digit(n % 10);
    if n < 10 {
        let mut r = String::new();
        r.push(c);
        r
    } else {
        let mut r = decimal_text(n / 10);
        r.push(c);
        r
    }
}

/// Whether two texts hold the same characters.
pub fn same_text(a: &str, b: &str) -> (r: bool)
    ensures
        r == (a@ == b@),
{
    if a.unicode_len() != b.unicode_len() {
        return false;
    }
    let r = starts_with(a, b);
    proof {
        if r {
            assert(a@ =~= b@);
        }
    }
    r
}

} // verus!
