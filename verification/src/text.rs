//! Text helpers: character access, substring search, ordering of
//! strings, short identifiers and hexadecimal encoding.

use vstd::prelude::*;
use vstd::string::StrSliceExecFns;

verus! {

/// `needle` occurs in `hay` as a run of consecutive characters.
pub open spec fn seq_contains_run(hay: Seq<char>, needle: Seq<char>) -> bool {
    exists|i: int|
        0 <= i && i + needle.len() <= hay.len() && #[trigger] hay.subrange(i, i + needle.len())
            == needle
}

/// Lexicographic order on characters by code point, which for UTF-8 text
/// is the order of the bytes as well.
pub open spec fn lex_le(a: Seq<char>, b: Seq<char>) -> bool
    decreases a.len(),
{
    if a.len() == 0 {
        true
    } else if b.len() == 0 {
        false
    } else if (a[0] as int) < (b[0] as int) {
        true
    } else if (a[0] as int) > (b[0] as int) {
        false
    } else {
        lex_le(a.drop_first(), b.drop_first())
    }
}

/// The characters of `s`, one by one.
pub fn chars_of(s: &str) -> (v: Vec<char>)
    ensures
        v@ == s@,
{
    let n: usize = s.unicode_len();
    let mut v: Vec<char> = Vec::new();
    let mut i: usize = 0;
    while i < n
        invariant
            n == s@.len(),
            i <= n,
            v@ == s@.take(i as int),
        decreases n - i,
    {
        let c = s.get_char(i);
        v.push(c);
        i = i + 1;
        assert(v@ =~= s@.take(i as int));
    }
    assert(s@.take(n as int) =~= s@);
    v
}

fn run_at(hay: &Vec<char>, needle: &Vec<char>, start: usize) -> (b: bool)
    requires
        start + needle.len() <= hay.len(),
    ensures
        b == (hay@.subrange(start as int, start + needle.len()) == needle@),
{
    let mut k: usize = 0;
    while k < needle.len()
        invariant
            start + needle.len() <= hay.len(),
            k <= needle.len(),
            forall|j: int| 0 <= j < k ==> hay@[start + j] == needle@[j],
        decreases needle.len() - k,
    {
        if hay[start + k] != needle[k] {
            assert(hay@.subrange(start as int, start + needle.len())[k as int] != needle@[k as int]);
            return false;
        }
        k = k + 1;
    }
    assert(hay@.subrange(start as int, start + needle.len()) =~= needle@);
    true
}

/// Whether `needle` occurs in `hay` (an empty needle always does).
pub fn str_contains(hay: &str, needle: &str) -> (b: bool)
    ensures
        b == seq_contains_run(hay@, needle@),
{
    let h = chars_of(hay);
    let n = chars_of(needle);
    if n.len() == 0 {
        assert(needle@.len() == 0);
        assert(hay@.subrange(0int, 0int + needle@.len()) =~= needle@);
        return true;
    }
    if n.len() > h.len() {
        return false;
    }
    let last: usize = h.len() - n.len();
    let mut i: usize = 0;
    while i <= last
        invariant
            h@ == hay@,
            n@ == needle@,
            last + n.len() == h.len(),
            n.len() > 0,
            i <= last + 1,
            forall|j: int| 0 <= j < i ==> #[trigger] h@.subrange(j, j + n.len()) != n@,
        decreases last + 1 - i,
    {
        if run_at(&h, &n, i) {
            return true;
        }
        i = i + 1;
    }
    assert forall|j: int| 0 <= j && j + needle@.len() <= hay@.len() implies #[trigger] hay@.subrange(
        j,
        j + needle@.len(),
    ) != needle@ by {
        assert(j < i);
    }
    false
}

/// Whether `a` comes at or before `b` in the order of `lex_le`.
pub fn chars_le(a: &Vec<char>, b: &Vec<char>) -> (r: bool)
    ensures
        r == lex_le(a@, b@),
{
    let mut i: usize = 0;
    assert(a@.skip(0) =~= a@ && b@.skip(0) =~= b@);
    while i < a.len() && i < b.len()
        invariant
            i <= a.len(),
            i <= b.len(),
            forall|j: int| 0 <= j < i ==> a@[j] == b@[j],
            lex_le(a@, b@) == lex_le(a@.skip(i as int), b@.skip(i as int)),
        decreases a.len() - i,
    {
        if a[i] < b[i] {
            return true;
        }
        if a[i] > b[i] {
            return false;
        }
        assert(a@[i as int] == b@[i as int]);
        assert(a@.skip(i as int).drop_first() =~= a@.skip(i + 1));
        assert(b@.skip(i as int).drop_first() =~= b@.skip(i + 1));
        i = i + 1;
    }
    i == a.len()
}

/// Whether `a` comes at or before `b` in the order of `lex_le`.
pub fn str_le(a: &str, b: &str) -> (r: bool)
    ensures
        r == lex_le(a@, b@),
{
    let x = chars_of(a);
    let y = chars_of(b);
    chars_le(&x, &y)
}

/// The first sixteen characters of a trace id (all of it when shorter),
/// as the trace list shows it.
pub fn short_trace_id(trace_id: &str) -> (r: String)
    ensures
        r@ == trace_id@.take(if trace_id@.len() < 16 { trace_id@.len() as int } else { 16 }),
{
    let n: usize = trace_id.unicode_len();
    let k: usize = if n < 16 {
        n
    } else {
        16
    };
    let part = trace_id.substring_char(0, k);
    assert(trace_id@.subrange(0, k as int) =~= trace_id@.take(k as int));
    part.to_owned()
}

/// The lowercase hexadecimal digit for a value below sixteen.
pub open spec fn hex_digit(v: int) -> char {
    if v < 10 {
        (('0' as int) + v) as char
    } else {
        (('a' as int) + v - 10) as char
    }
}

/// Lowercase hexadecimal text of `bytes`: two digits per byte, the high
/// half first.
pub open spec fn hex_text(bytes: Seq<u8>) -> Seq<char>
    decreases bytes.len(),
{
    if bytes.len() == 0 {
        Seq::empty()
    } else {
        hex_text(bytes.drop_last()) + seq![
            hex_digit(bytes.last() as int / 16),
            hex_digit(bytes.last() as int % 16),
        ]
    }
}

/// `hex::encode`: the claim is that it writes each byte as two lowercase
/// hexadecimal digits, the high half first, in the order of the bytes.
#[verifier::external_body]
pub(crate) fn hex_encode(bytes: &[u8]) -> (r: String)
    ensures
        r@ == hex_text(bytes@),
{
    hex::encode(bytes)
}

/// The decimal digit for a value below ten.
pub open spec fn decimal_digit(v: int) -> char {
    (('0' as int) + v) as char
}

/// `h:m:s` written as `HH:MM:SS`, each part as two decimal digits.
pub open spec fn clock_chars(h: int, m: int, s: int) -> Seq<char> {
    seq![
        decimal_digit(h / 10), decimal_digit(h % 10), ':',
        decimal_digit(m / 10), decimal_digit(m % 10), ':',
        decimal_digit(s / 10), decimal_digit(s % 10),
    ]
}

/// The most characters a string built here by `push_char` may hold.
pub const MAX_TEXT_CHARS: usize = 0x0fff_ffff;

/// `String::push`: std documents that it appends the character to the end
/// of the string. The bound keeps the string's bytes (at most four a
/// character), and the capacity that growing doubles, below `isize::MAX`
/// on any platform, where the allocation would panic.
#[verifier::external_body]
pub(crate) fn push_char(s: &mut String, c: char)
    requires
        old(s)@.len() < MAX_TEXT_CHARS,
    ensures
        final(s)@ == old(s)@.push(c),
{
    s.push(c)
}

/// The local wall-clock hour, minute and second of a timestamp: jiff's
/// `Timestamp::from_nanosecond`, `to_zoned` in the system time zone, then
/// `hour`, `minute` and `second`. Every `u64` count of nanoseconds lies
/// inside jiff's timestamp range, so the conversion always succeeds, and
/// jiff keeps hours below 24 and minutes and seconds below 60. Which hour
/// it is depends on the machine's time zone, so no clause says which.
#[verifier::external_body]
fn local_clock(unix_nano: u64) -> (r: Option<(u8, u8, u8)>)
    ensures
        r is Some,
        r.unwrap().0 < 24,
        r.unwrap().1 < 60,
        r.unwrap().2 < 60,
{
    match jiff::Timestamp::from_nanosecond(unix_nano as i128) {
        Ok(ts) => {
            let zoned = ts.to_zoned(jiff::tz::TimeZone::system());
            Some((zoned.hour() as u8, zoned.minute() as u8, zoned.second() as u8))
        },
        Err(_) => None,
    }
}

fn digit(v: u8) -> (c: char)
    requires
        v < 10,
    ensures
        c == decimal_digit(v as int),
{
    match v {
        0 => '0',
        1 => '1',
        2 => '2',
        3 => '3',
        4 => '4',
        5 => '5',
        6 => '6',
        7 => '7',
        8 => '8',
        _ => '9',
    }
}

/// The time `h:m:s` as `HH:MM:SS`, each part zero padded to two digits.
pub fn clock_text(h: u8, m: u8, s: u8) -> (t: String)
    requires
        h < 100,
        m < 100,
        s < 100,
    ensures
        t@ == clock_chars(h as int, m as int, s as int),
{
    let mut t = String::new();
    push_char(&mut t, digit(h / 10));
    push_char(&mut t, digit(h % 10));
    push_char(&mut t, ':');
    push_char(&mut t, digit(m / 10));
    push_char(&mut t, digit(m % 10));
    push_char(&mut t, ':');
    push_char(&mut t, digit(s / 10));
    push_char(&mut t, digit(s % 10));
    assert(t@ =~= clock_chars(h as int, m as int, s as int));
    t
}

/// The local wall-clock time of a timestamp as `HH:MM:SS`, or `-` for the
/// zero timestamp.
pub fn format_start_time(unix_nano: u64) -> (t: String)
    ensures
        unix_nano == 0 ==> t@ == "-"@,
        unix_nano != 0 ==> exists|h: int, m: int, s: int|
            0 <= h < 24 && 0 <= m < 60 && 0 <= s < 60 && t@ == #[trigger] clock_chars(h, m, s),
{
    if unix_nano == 0 {
        return "-".to_owned();
    }
    match local_clock(unix_nano) {
        Some((h, m, s)) => clock_text(h, m, s),
        None => "-".to_owned(),
    }
}

/// Of any two texts, one comes at or before the other.
pub proof fn lemma_lex_total(a: Seq<char>, b: Seq<char>)
    ensures
        lex_le(a, b) || lex_le(b, a),
    decreases a.len(),
{
    if a.len() > 0 && b.len() > 0 && a[0] == b[0] {
        lemma_lex_total(a.drop_first(), b.drop_first());
    }
}

/// The text order is transitive.
pub proof fn lemma_lex_trans(a: Seq<char>, b: Seq<char>, c: Seq<char>)
    requires
        lex_le(a, b),
        lex_le(b, c),
    ensures
        lex_le(a, c),
    decreases a.len(),
{
    if a.len() > 0 && b.len() > 0 && c.len() > 0 && a[0] == b[0] && b[0] == c[0] {
        lemma_lex_trans(a.drop_first(), b.drop_first(), c.drop_first());
    }
}

} // verus!
