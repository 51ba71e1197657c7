//! Parsing of the text fields of GTFS records: ids, clock times and dates.

use vstd::prelude::*;

use vstd::string::StringSliceAdditionalSpecFns;
use vstd::utf8::{encode_utf8, is_ascii_chars, is_ascii_chars_encode_utf8, is_char_boundary};

use crate::structs::Date;


verus! {

/// Why a field could not be read.
#[derive(Clone, Copy, Debug, PartialEq, Eq, Structural)]
pub enum FieldError {
    /// The text is not an unsigned decimal number in range.
    InvalidNumber,
}

/// `b` is an ASCII decimal digit.
pub open spec fn is_digit(b: u8) -> bool {
    48 <= b <= 57
}

/// The number that the decimal digits `s` spell.
pub open spec fn digits_value(s: Seq<u8>) -> nat
    decreases s.len(),
{
    if s.len() == 0 {
        0
    } else {
        digits_value(s.drop_last()) * 10 + (s.last() - 48) as nat
    }
}

/// The digits of a number's text: the text without one leading `+`.
pub open spec fn number_digits(s: Seq<u8>) -> Seq<u8> {
    if s.len() > 0 && s[0] == 43 {
        s.drop_first()
    } else {
        s
    }
}

/// What reading `s` as an unsigned decimal number no larger than `max`
/// gives (as Rust's `str::parse` of an unsigned integer type reads it): an
/// optional `+`, then one or more ASCII digits.
pub open spec fn parse_unsigned(s: Seq<u8>, max: nat) -> Option<nat> {
    let d = number_digits(s);
    if d.len() > 0 && (forall|i: int| 0 <= i < d.len() ==> is_digit(#[trigger] d[i]))
        && digits_value(d) <= max {
        Some(digits_value(d))
    } else {
        None
    }
}

proof fn lemma_digits_value_grows(s: Seq<u8>, i: int)
    requires
        0 <= i <= s.len(),
    ensures
        digits_value(s.take(i)) <= digits_value(s),
    decreases s.len() - i,
{
    if i < s.len() {
        lemma_digits_value_grows(s, i + 1);
        assert(s.take(i + 1).drop_last() =~= s.take(i));
    } else {
        assert(s.take(i) =~= s);
    }
}

/// Reads `bytes[start..end]` as an unsigned decimal number no larger than `max`.
pub fn parse_unsigned_bytes(bytes: &[u8], start: usize, end: usize, max: u32) -> (r: Option<u32>)
    requires
        start <= end <= bytes@.len(),
    ensures
        r matches Some(v) ==> parse_unsigned(bytes@.subrange(start as int, end as int), max as nat)
            == Some(v as nat),
        r is None ==> parse_unsigned(bytes@.subrange(start as int, end as int), max as nat) is None,
{
    let ghost s = bytes@.subrange(start as int, end as int);
    let mut first = start;
    if start < end && bytes[start] == 43 {
        first = start + 1;
    }
    let ghost d = bytes@.subrange(first as int, end as int);
    proof {
        assert(d =~= number_digits(s));
    }
    if first == end {
        proof {
            assert(number_digits(s).len() == 0);
        }
        return None;
    }
    let mut value: u64 = 0;
    let mut i = first;
    while i < end
        invariant
            start <= first <= i <= end <= bytes@.len(),
            d == bytes@.subrange(first as int, end as int),
            s == bytes@.subrange(start as int, end as int),
            d == number_digits(s),
            forall|k: int| 0 <= k < i - first ==> is_digit(#[trigger] d[k]),
            value == digits_value(d.take(i - first)),
            value <= max,
        decreases end - i,
    {
        let b = bytes[i];
        if b < 48 || b > 57 {
            proof {
                assert(!is_digit(d[i - first]));
                assert(number_digits(s) == d);
                assert(!(forall|k: int| 0 <= k < d.len() ==> is_digit(#[trigger] d[k])));
            }
            return None;
        }
        let next = value * 10 + (b - 48) as u64;
        proof {
            let t = d.take(i - first + 1);
            assert(t.drop_last() =~= d.take(i - first));
            assert(t.last() == b);
            assert(digits_value(t) == next);
        }
        if next > max as u64 {
            proof {
                lemma_digits_value_grows(d, i - first + 1);
            }
            return None;
        }
        value = next;
        i = i + 1;
    }
    proof {
        assert(d.take(i - first) =~= d);
    }
    Some(value as u32)
}

/// Reads a whole text as a `u32` (as `str::parse::<u32>` reads it).
pub fn parse_u32(text: &str) -> (r: Result<u32, FieldError>)
    ensures
        match parse_unsigned(text.spec_bytes(), u32::MAX as nat) {
            Some(v) => r == Ok::<u32, FieldError>(v as u32),
            None => r == Err::<u32, FieldError>(FieldError::InvalidNumber),
        },
{
    let bytes = text.as_bytes();
    proof {
        assert(bytes@.subrange(0, bytes@.len() as int) =~= bytes@);
    }
    match parse_unsigned_bytes(bytes, 0, bytes.len(), u32::MAX) {
        Some(v) => Ok(v),
        None => Err(FieldError::InvalidNumber),
    }
}

/// Reads a whole text as a `u32`, or gives 0 when it is no such number
/// (for optional numeric columns).
pub fn parse_u32_or_zero(text: &str) -> (r: u32)
    ensures
        r == match parse_unsigned(text.spec_bytes(), u32::MAX as nat) {
            Some(v) => v as u32,
            None => 0u32,
        },
{
    match parse_u32(text) {
        Ok(v) => v,
        Err(_) => 0,
    }
}

/// The date that a `YYYYMMDD` text spells, read from its bytes: year from
/// bytes 0..4, month from 4..6 and day from 6..8.
pub open spec fn date_of(b: Seq<u8>) -> Option<Date> {
    let y = parse_unsigned(b.subrange(0, 4), u32::MAX as nat);
    let m = parse_unsigned(b.subrange(4, 6), u8::MAX as nat);
    let d = parse_unsigned(b.subrange(6, 8), u8::MAX as nat);
    if y is Some && m is Some && d is Some {
        Some(Date { year: y->0 as u32, month: m->0 as u8, day: d->0 as u8 })
    } else {
        None
    }
}

impl Date {
    /// parses YYYYMMDD date string into Date struct
    pub fn parse_date_string(date_str: &str) -> (r: Result<Date, FieldError>)
        requires
            date_str.spec_bytes().len() >= 8,
            is_char_boundary(date_str.spec_bytes(), 4),
            is_char_boundary(date_str.spec_bytes(), 6),
            is_char_boundary(date_str.spec_bytes(), 8),
        ensures
            match date_of(date_str.spec_bytes()) {
                Some(d) => r == Ok::<Date, FieldError>(d),
                None => r == Err::<Date, FieldError>(FieldError::InvalidNumber),
            },
    {
        let bytes = date_str.as_bytes();
        let year = match parse_unsigned_bytes(bytes, 0, 4, u32::MAX) {
            Some(v) => v,
            None => {
                return Err(FieldError::InvalidNumber);
            },
        };
        let month = match parse_unsigned_bytes(bytes, 4, 6, 255) {
            Some(v) => v,
            None => {
                return Err(FieldError::InvalidNumber);
            },
        };
        let day = match parse_unsigned_bytes(bytes, 6, 8, 255) {
            Some(v) => v,
            None => {
                return Err(FieldError::InvalidNumber);
            },
        };
        Ok(Date { year, month: month as u8, day: day as u8 })
    }
}

/// Number of bytes of `s` equal to `b`.
pub open spec fn count_byte(s: Seq<u8>, b: u8) -> nat
    decreases s.len(),
{
    if s.len() == 0 {
        0
    } else {
        count_byte(s.drop_last(), b) + if s.last() == b {
            1nat
        } else {
            0nat
        }
    }
}

/// Index of the first byte of `s` equal to `b`, or the length of `s` when
/// there is none.
pub open spec fn index_of_byte(s: Seq<u8>, b: u8) -> int
    decreases s.len(),
{
    if s.len() == 0 {
        0
    } else if index_of_byte(s.drop_last(), b) < s.len() - 1 {
        index_of_byte(s.drop_last(), b)
    } else if s.last() == b {
        s.len() - 1
    } else {
        s.len() as int
    }
}

proof fn lemma_index_of_byte(s: Seq<u8>, b: u8, i: int)
    requires
        0 <= i <= s.len(),
        forall|k: int| 0 <= k < i ==> s[k] != b,
        i < s.len() ==> s[i] == b,
    ensures
        index_of_byte(s, b) == i,
    decreases s.len(),
{
    if s.len() > 0 {
        let t = s.drop_last();
        if i < s.len() - 1 {
            lemma_index_of_byte(t, b, i);
        } else {
            lemma_index_of_byte(t, b, t.len() as int);
        }
    }
}

proof fn lemma_index_of_byte_props(s: Seq<u8>, b: u8)
    ensures
        0 <= index_of_byte(s, b) <= s.len(),
        forall|k: int| 0 <= k < index_of_byte(s, b) ==> s[k] != b,
        index_of_byte(s, b) < s.len() ==> s[index_of_byte(s, b)] == b,
    decreases s.len(),
{
    if s.len() > 0 {
        let t = s.drop_last();
        lemma_index_of_byte_props(t, b);
        assert forall|k: int| 0 <= k < index_of_byte(s, b) implies s[k] != b by {
            if k < t.len() {
                assert(t[k] == s[k]);
            }
        }
    }
}

proof fn lemma_count_concat(a: Seq<u8>, c: Seq<u8>, b: u8)
    ensures
        count_byte(a + c, b) == count_byte(a, b) + count_byte(c, b),
    decreases c.len(),
{
    if c.len() == 0 {
        assert(a + c =~= a);
    } else {
        lemma_count_concat(a, c.drop_last(), b);
        assert((a + c).drop_last() =~= a + c.drop_last());
    }
}

proof fn lemma_count_absent(s: Seq<u8>, b: u8)
    requires
        forall|k: int| 0 <= k < s.len() ==> s[k] != b,
    ensures
        count_byte(s, b) == 0,
    decreases s.len(),
{
    if s.len() > 0 {
        lemma_count_absent(s.drop_last(), b);
    }
}

/// A text with exactly one separator `b` has it before its end, and what
/// follows holds no separator; with two, the part after the first holds
/// exactly one.
proof fn lemma_separator_split(s: Seq<u8>, b: u8)
    requires
        count_byte(s, b) > 0,
    ensures
        index_of_byte(s, b) < s.len(),
        count_byte(s.skip(index_of_byte(s, b) + 1), b) + 1 == count_byte(s, b),
{
    lemma_index_of_byte_props(s, b);
    let i = index_of_byte(s, b);
    if i == s.len() {
        lemma_count_absent(s, b);
    } else {
        let pre = s.take(i);
        let rest = s.skip(i + 1);
        lemma_count_absent(pre, b);
        let one = seq![b];
        assert(s =~= pre + (one + rest));
        lemma_count_concat(pre, one + rest, b);
        lemma_count_concat(one, rest, b);
        assert(one.drop_last() =~= Seq::<u8>::empty());
        assert(count_byte(Seq::<u8>::empty(), b) == 0);
        assert(count_byte(one, b) == 1);
        assert(count_byte(s, b) == count_byte(pre, b) + count_byte(one + rest, b));
    }
}

proof fn lemma_two_separators(s: Seq<u8>, b: u8)
    requires
        count_byte(s, b) == 2,
    ensures
        index_of_byte(s, b) < s.len(),
        index_of_byte(s.skip(index_of_byte(s, b) + 1), b) < s.skip(index_of_byte(s, b) + 1).len(),
{
    lemma_separator_split(s, b);
    lemma_separator_split(s.skip(index_of_byte(s, b) + 1), b);
}

/// The three `:`-separated parts of a clock text with exactly two colons.
pub open spec fn clock_parts(s: Seq<u8>) -> (Seq<u8>, Seq<u8>, Seq<u8>) {
    let i = index_of_byte(s, 58);
    let rest = s.skip(i + 1);
    let j = index_of_byte(rest, 58);
    (s.take(i), rest.take(j), rest.skip(j + 1))
}

/// The hours, minutes and seconds that a `hh:mm:ss` text spells, when each
/// part reads as a `u32`.
pub open spec fn clock_fields(s: Seq<u8>) -> Option<(nat, nat, nat)> {
    let p = clock_parts(s);
    let h = parse_unsigned(p.0, u32::MAX as nat);
    let m = parse_unsigned(p.1, u32::MAX as nat);
    let sec = parse_unsigned(p.2, u32::MAX as nat);
    if h is Some && m is Some && sec is Some {
        Some((h->0, m->0, sec->0))
    } else {
        None
    }
}

/// Seconds since midnight of a clock time.
pub open spec fn clock_seconds(f: (nat, nat, nat)) -> nat {
    f.0 * 3600 + f.1 * 60 + f.2
}

/// First index at or after `from` where `bytes` holds `b`, or the length.
fn find_byte(bytes: &[u8], from: usize, b: u8) -> (r: usize)
    requires
        from <= bytes@.len(),
    ensures
        r == from + index_of_byte(bytes@.subrange(from as int, bytes@.len() as int), b),
        from <= r <= bytes@.len(),
{
    let n = bytes.len();
    let mut i = from;
    while i < n && bytes[i] != b
        invariant
            n == bytes@.len(),
            from <= i <= n,
            forall|k: int| from <= k < i ==> bytes@[k] != b,
        decreases n - i,
    {
        i = i + 1;
    }
    proof {
        let t = bytes@.subrange(from as int, n as int);
        assert forall|k: int| 0 <= k < i - from implies t[k] != b by {
            assert(t[k] == bytes@[from + k]);
        }
        lemma_index_of_byte(t, b, i - from);
    }
    i
}

/// The hours, minutes and seconds of a clock text with exactly two colons,
/// when each part reads as a `u32`.
fn clock_parts_of(bytes: &[u8]) -> (r: Option<(u32, u32, u32)>)
    requires
        count_byte(bytes@, 58) == 2,
    ensures
        match clock_fields(bytes@) {
            Some(f) => r matches Some(t) && t.0 == f.0 && t.1 == f.1 && t.2 == f.2,
            None => r is None,
        },
{
    let ghost s = bytes@;
    let n = bytes.len();
    let i = find_byte(bytes, 0, 58);
    proof {
        assert(s.subrange(0, n as int) =~= s);
    }
    let j = if i < n {
        find_byte(bytes, i + 1, 58)
    } else {
        n
    };
    proof {
        let p = clock_parts(s);
        assert(p.0 =~= s.subrange(0, i as int));
        lemma_two_separators(s, 58);
        assert(s.skip(i + 1) =~= s.subrange(i + 1, n as int));
        assert(p.1 =~= s.subrange(i + 1, j as int));
        assert(p.2 =~= s.subrange(j + 1, n as int));
    }
    let start_sec = if j < n {
        j + 1
    } else {
        n
    };
    let hours = parse_unsigned_bytes(bytes, 0, i, u32::MAX);
    let minutes = if i < n {
        parse_unsigned_bytes(bytes, i + 1, j, u32::MAX)
    } else {
        None
    };
    let seconds = parse_unsigned_bytes(bytes, start_sec, n, u32::MAX);
    match (hours, minutes, seconds) {
        (Some(h), Some(m), Some(sec)) => Some((h, m, sec)),
        _ => None,
    }
}

/// turns time in hh:mm:ss format into number of seconds since midnight
pub fn str_time_to_seconds(time_str: &str) -> (r: Result<u32, FieldError>)
    requires
        // parts should have ["hh", "mm", "ss"]
        count_byte(time_str.spec_bytes(), 58) == 2,
        clock_fields(time_str.spec_bytes()) matches Some(f) ==> clock_seconds(f) <= u32::MAX,
    ensures
        match clock_fields(time_str.spec_bytes()) {
            Some(f) => r == Ok::<u32, FieldError>(clock_seconds(f) as u32),
            None => r == Err::<u32, FieldError>(FieldError::InvalidNumber),
        },
{
    match clock_parts_of(time_str.as_bytes()) {
        Some((h, m, sec)) => Ok(h * 3600 + m * 60 + sec),
        None => Err(FieldError::InvalidNumber),
    }
}

/// A clock text that `str_time_to_seconds` can read: it has exactly two
/// colons, and when its three parts are numbers their time fits in a `u32`.
pub open spec fn clock_text_readable(s: Seq<u8>) -> bool {
    &&& count_byte(s, 58) == 2
    &&& clock_fields(s) matches Some(f) ==> clock_seconds(f) <= u32::MAX
}

/// Counts the bytes of `bytes` equal to `b`.
fn count_bytes(bytes: &[u8], b: u8) -> (r: usize)
    ensures
        r == count_byte(bytes@, b),
{
    let n = bytes.len();
    let mut count: usize = 0;
    for i in 0..n
        invariant
            n == bytes@.len(),
            count == count_byte(bytes@.take(i as int), b),
            count <= i,
    {
        proof {
            assert(bytes@.take(i + 1).drop_last() =~= bytes@.take(i as int));
        }
        if bytes[i] == b {
            count = count + 1;
        }
    }
    proof {
        assert(bytes@.take(n as int) =~= bytes@);
    }
    count
}

/// Tells whether `str_time_to_seconds` can read `time_str`.
pub fn is_clock_text_readable(time_str: &str) -> (r: bool)
    ensures
        r == clock_text_readable(time_str.spec_bytes()),
{
    let bytes = time_str.as_bytes();
    if count_bytes(bytes, 58) != 2 {
        return false;
    }
    match clock_parts_of(bytes) {
        Some((h, m, sec)) => (h as u64) * 3600 + (m as u64) * 60 + (sec as u64) <= u32::MAX as u64,
        None => true,
    }
}

/// A date text that `Date::parse_date_string` can cut: at least eight
/// bytes, with character boundaries after the year, the month and the day.
pub open spec fn date_text_cuttable(b: Seq<u8>) -> bool {
    &&& b.len() >= 8
    &&& is_char_boundary(b, 4)
    &&& is_char_boundary(b, 6)
    &&& is_char_boundary(b, 8)
}

/// Tells whether `Date::parse_date_string` can cut `date_str`.
pub fn is_date_text_cuttable(date_str: &str) -> (r: bool)
    ensures
        r == date_text_cuttable(date_str.spec_bytes()),
{
    proof {
        vstd::utf8::encode_utf8_valid_utf8(date_str@);
    }
    if date_str.as_bytes().len() < 8 {
        return false;
    }
    date_str.is_char_boundary(4) && date_str.is_char_boundary(6) && date_str.is_char_boundary(8)
}

/// The character of the decimal digit `d`.
pub open spec fn digit_char(d: nat) -> char {
    if d == 0 {
        '0'
    } else if d == 1 {
        '1'
    } else if d == 2 {
        '2'
    } else if d == 3 {
        '3'
    } else if d == 4 {
        '4'
    } else if d == 5 {
        '5'
    } else if d == 6 {
        '6'
    } else if d == 7 {
        '7'
    } else if d == 8 {
        '8'
    } else {
        '9'
    }
}

/// The decimal text of `n`, without leading zeros.
pub open spec fn decimal_text(n: nat) -> Seq<char>
    decreases n,
{
    if n < 10 {
        seq![digit_char(n)]
    } else {
        decimal_text(n / 10).push(digit_char(n % 10))
    }
}

/// The decimal text of `n`, padded with a leading zero to two characters.
pub open spec fn two_digit_text(n: nat) -> Seq<char> {
    if n < 10 {
        seq!['0', digit_char(n)]
    } else {
        decimal_text(n)
    }
}

/// The `hh:mm:ss` text of `time` seconds since midnight.
pub open spec fn clock_text(time: u32) -> Seq<char> {
    two_digit_text(time as nat / 3600) + seq![':'] + two_digit_text((time as nat % 3600) / 60)
        + seq![':'] + two_digit_text(time as nat % 60)
}

fn digit_str(d: u32) -> (r: &'static str)
    requires
        d < 10,
    ensures
        r@ == seq![digit_char(d as nat)],
{
    proof {
        reveal_strlit("0");
        reveal_strlit("1");
        reveal_strlit("2");
        reveal_strlit("3");
        reveal_strlit("4");
        reveal_strlit("5");
        reveal_strlit("6");
        reveal_strlit("7");
        reveal_strlit("8");
        reveal_strlit("9");
    }
    match d {
        0 => "0",
        1 => "1",
        2 => "2",
        3 => "3",
        4 => "4",
        5 => "5",
        6 => "6",
        7 => "7",
        8 => "8",
        _ => "9",
    }
}

fn push_decimal(text: &mut String, n: u32)
    ensures
        final(text)@ == old(text)@ + decimal_text(n as nat),
    decreases n,
{
    if n >= 10 {
        push_decimal(text, n / 10);
    }
    text.append(digit_str(n % 10));
    proof {
        if n >= 10 {
            assert(decimal_text(n as nat) == decimal_text(n as nat / 10).push(digit_char(n as nat % 10)));
        }
    }
    assert(final(text)@ =~= old(text)@ + decimal_text(n as nat));
}

fn push_two_digits(text: &mut String, n: u32)
    ensures
        final(text)@ == old(text)@ + two_digit_text(n as nat),
{
    if n < 10 {
        proof {
            reveal_strlit("0");
        }
        text.append("0");
    }
    push_decimal(text, n);
    proof {
        if n < 10 {
            assert(decimal_text(n as nat) == seq![digit_char(n as nat)]);
        }
    }
    assert(final(text)@ =~= old(text)@ + two_digit_text(n as nat));
}

/// turns time in seconds since midnight into hh:mm:ss format
pub fn seconds_to_str_time(time: &u32) -> (r: String)
    ensures
        r@ == clock_text(*time),
{
    let hours = *time / 3600;
    let minutes = (*time % 3600) / 60;
    let seconds = *time % 60;
    let mut text = String::new();
    push_two_digits(&mut text, hours);
    proof {
        reveal_strlit(":");
    }
    text.append(":");
    push_two_digits(&mut text, minutes);
    text.append(":");
    push_two_digits(&mut text, seconds);
    assert(text@ =~= clock_text(*time));
    text
}

/// The bytes of a text of ASCII characters, one per character.
spec fn ascii_bytes(cs: Seq<char>) -> Seq<u8> {
    Seq::new(cs.len(), |i: int| cs[i] as u8)
}

/// Every character of `cs` is a decimal digit.
spec fn all_digit_chars(cs: Seq<char>) -> bool {
    forall|i: int| 0 <= i < cs.len() ==> '0' <= #[trigger] cs[i] <= '9'
}

proof fn lemma_digit_char(d: nat)
    requires
        d < 10,
    ensures
        '0' <= digit_char(d) <= '9',
        digit_char(d) as u8 == 48 + d,
{
}

proof fn lemma_ascii_bytes_push(cs: Seq<char>, c: char)
    ensures
        ascii_bytes(cs.push(c)) == ascii_bytes(cs).push(c as u8),
{
    assert(ascii_bytes(cs.push(c)) =~= ascii_bytes(cs).push(c as u8));
}

proof fn lemma_decimal_text(n: nat)
    ensures
        all_digit_chars(decimal_text(n)),
        decimal_text(n).len() > 0,
        digits_value(ascii_bytes(decimal_text(n))) == n,
    decreases n,
{
    if n < 10 {
        lemma_digit_char(n);
        let b = ascii_bytes(decimal_text(n));
        assert(b.drop_last() =~= Seq::<u8>::empty());
        assert(digits_value(b.drop_last()) == 0);
        assert(b.last() == 48 + n);
        assert(digits_value(b) == digits_value(b.drop_last()) * 10 + (b.last() - 48) as nat);
    } else {
        lemma_decimal_text(n / 10);
        lemma_digit_char(n % 10);
        let t = decimal_text(n / 10);
        let c = digit_char(n % 10);
        lemma_ascii_bytes_push(t, c);
        let b = ascii_bytes(t).push(c as u8);
        assert(b.drop_last() =~= ascii_bytes(t));
        assert(b.last() == 48 + n % 10);
        assert(digits_value(b) == digits_value(b.drop_last()) * 10 + (b.last() - 48) as nat);
        assert(digits_value(b) == (n / 10) * 10 + n % 10);
        assert forall|i: int| 0 <= i < t.push(c).len() implies '0' <= #[trigger] t.push(c)[i] <= '9' by {
            if i < t.len() {
                assert(t.push(c)[i] == t[i]);
            }
        }
    }
}

proof fn lemma_two_digit_text(n: nat)
    ensures
        all_digit_chars(two_digit_text(n)),
        two_digit_text(n).len() > 0,
        digits_value(ascii_bytes(two_digit_text(n))) == n,
{
    if n < 10 {
        lemma_digit_char(n);
        let b = ascii_bytes(two_digit_text(n));
        let z = b.drop_last();
        assert(z.drop_last() =~= Seq::<u8>::empty());
        assert(digits_value(z.drop_last()) == 0);
        assert(z.last() == 48);
        assert(digits_value(z) == digits_value(z.drop_last()) * 10 + (z.last() - 48) as nat);
        assert(digits_value(z) == 0);
        assert(b.last() == 48 + n);
        assert(digits_value(b) == digits_value(z) * 10 + (b.last() - 48) as nat);
    } else {
        lemma_decimal_text(n);
    }
}

/// The digits of a number's text read back as that number.
proof fn lemma_parse_digit_text(cs: Seq<char>)
    requires
        all_digit_chars(cs),
        cs.len() > 0,
        digits_value(ascii_bytes(cs)) <= u32::MAX,
    ensures
        parse_unsigned(ascii_bytes(cs), u32::MAX as nat) == Some(digits_value(ascii_bytes(cs))),
{
    let b = ascii_bytes(cs);
    assert('0' <= cs[0] <= '9');
    assert(number_digits(b) == b);
    assert forall|i: int| 0 <= i < b.len() implies is_digit(#[trigger] b[i]) by {
        assert('0' <= cs[i] <= '9');
    }
}

proof fn lemma_no_colon(b: Seq<u8>, cs: Seq<char>)
    requires
        all_digit_chars(cs),
        b == ascii_bytes(cs),
    ensures
        forall|k: int| 0 <= k < b.len() ==> b[k] != 58,
        count_byte(b, 58) == 0,
{
    assert forall|k: int| 0 <= k < b.len() implies b[k] != 58 by {
        assert('0' <= cs[k] <= '9');
    }
    lemma_count_absent(b, 58);
}

/// The bytes of a clock text are those of its three digit parts with a
/// colon between each.
proof fn lemma_clock_bytes(th: Seq<char>, tm: Seq<char>, ts: Seq<char>)
    requires
        all_digit_chars(th),
        all_digit_chars(tm),
        all_digit_chars(ts),
    ensures
        encode_utf8(th + seq![':'] + tm + seq![':'] + ts) == ascii_bytes(th) + seq![58u8] + ascii_bytes(tm)
            + seq![58u8] + ascii_bytes(ts),
{
    let text = th + seq![':'] + tm + seq![':'] + ts;
    assert forall|i: int| 0 <= i < text.len() implies '\0' <= #[trigger] text[i] <= '\u{7f}' by {
        if i < th.len() {
            assert(text[i] == th[i]);
        } else if i == th.len() {
        } else if i < th.len() + 1 + tm.len() {
            assert(text[i] == tm[i - th.len() - 1]);
        } else if i == th.len() + 1 + tm.len() {
        } else {
            assert(text[i] == ts[i - th.len() - 2 - tm.len()]);
        }
    }
    assert(is_ascii_chars(text));
    is_ascii_chars_encode_utf8(text);
    assert(encode_utf8(text) =~= ascii_bytes(th) + seq![58u8] + ascii_bytes(tm) + seq![58u8] + ascii_bytes(ts));
}

/// Three colon-free parts joined by two colons split back into the same parts.
proof fn lemma_clock_parts_split(bh: Seq<u8>, bm: Seq<u8>, bs: Seq<u8>)
    requires
        forall|k: int| 0 <= k < bh.len() ==> bh[k] != 58,
        forall|k: int| 0 <= k < bm.len() ==> bm[k] != 58,
        count_byte(bh, 58) == 0,
        count_byte(bm, 58) == 0,
        count_byte(bs, 58) == 0,
    ensures
        clock_parts(bh + seq![58u8] + bm + seq![58u8] + bs) == (bh, bm, bs),
        count_byte(bh + seq![58u8] + bm + seq![58u8] + bs, 58) == 2,
{
    let colon = seq![58u8];
    let b = bh + colon + bm + colon + bs;
    lemma_index_of_byte(b, 58, bh.len() as int);
    let rest = b.skip(bh.len() as int + 1);
    assert(rest =~= bm + colon + bs);
    lemma_index_of_byte(rest, 58, bm.len() as int);
    let p = clock_parts(b);
    assert(p.0 =~= bh);
    assert(p.1 =~= bm);
    assert(p.2 =~= bs);
    assert(colon.drop_last() =~= Seq::<u8>::empty());
    assert(count_byte(Seq::<u8>::empty(), 58) == 0);
    assert(count_byte(colon, 58) == 1);
    lemma_count_concat(bh, colon, 58);
    lemma_count_concat(bh + colon, bm, 58);
    lemma_count_concat(bh + colon + bm, colon, 58);
    lemma_count_concat(bh + colon + bm + colon, bs, 58);
}

/// A time written by `seconds_to_str_time` reads back as the same time with
/// `str_time_to_seconds`: its text has exactly two colons, its three parts
/// read as hours, minutes and seconds, and these add up to `t`.
pub proof fn clock_text_reads_back(t: u32)
    ensures
        count_byte(encode_utf8(clock_text(t)), 58) == 2,
        clock_fields(encode_utf8(clock_text(t))) == Some(
            ((t / 3600) as nat, ((t % 3600) / 60) as nat, (t % 60) as nat),
        ),
        clock_seconds(clock_fields(encode_utf8(clock_text(t)))->0) == t,
{
    let h = (t / 3600) as nat;
    let m = ((t % 3600) / 60) as nat;
    let sec = (t % 60) as nat;
    let th = two_digit_text(h);
    let tm = two_digit_text(m);
    let ts = two_digit_text(sec);
    lemma_two_digit_text(h);
    lemma_two_digit_text(m);
    lemma_two_digit_text(sec);
    assert(clock_text(t) == th + seq![':'] + tm + seq![':'] + ts);
    lemma_clock_bytes(th, tm, ts);
    let bh = ascii_bytes(th);
    let bm = ascii_bytes(tm);
    let bs = ascii_bytes(ts);
    lemma_no_colon(bh, th);
    lemma_no_colon(bm, tm);
    lemma_no_colon(bs, ts);
    lemma_clock_parts_split(bh, bm, bs);
    lemma_parse_digit_text(th);
    lemma_parse_digit_text(tm);
    lemma_parse_digit_text(ts);
    assert(h * 3600 + m * 60 + sec == t);
}

/// Index of the last byte of `s` equal to `b`, or -1 when there is none.
pub open spec fn last_index_of_byte(s: Seq<u8>, b: u8) -> int
    decreases s.len(),
{
    if s.len() == 0 {
        -1
    } else if s.last() == b {
        s.len() - 1
    } else {
        last_index_of_byte(s.drop_last(), b)
    }
}

/// The number part of an id text: what follows its last `:`, or the whole
/// text when it has none ("600737" and "stoparea:600737" both give
/// "600737").
pub open spec fn id_digits(s: Seq<u8>) -> Seq<u8> {
    s.skip(last_index_of_byte(s, 58) + 1)
}

/// The id that an id text reads as: its number part as a `u32`.
pub open spec fn id_of(s: Seq<u8>) -> Option<nat> {
    parse_unsigned(id_digits(s), u32::MAX as nat)
}

/// The index just after the last `:` of `bytes`, or 0 when it has none.
fn after_last_colon(bytes: &[u8]) -> (r: usize)
    ensures
        r == last_index_of_byte(bytes@, 58) + 1,
        r <= bytes@.len(),
{
    let mut i = bytes.len();
    assert(bytes@.take(i as int) =~= bytes@);
    while i > 0
        invariant
            i <= bytes@.len(),
            last_index_of_byte(bytes@, 58) == last_index_of_byte(bytes@.take(i as int), 58),
        decreases i,
    {
        let ghost t = bytes@.take(i as int);
        assert(t.last() == bytes@[i - 1]);
        if bytes[i - 1] == 58 {
            return i;
        }
        assert(t.drop_last() =~= bytes@.take(i - 1));
        i = i - 1;
    }
    0
}

/// Reads the id of an id text.
fn parse_id(text: &str) -> (r: Result<u32, FieldError>)
    ensures
        match id_of(text.spec_bytes()) {
            Some(v) => r == Ok::<u32, FieldError>(v as u32),
            None => r == Err::<u32, FieldError>(FieldError::InvalidNumber),
        },
{
    let bytes = text.as_bytes();
    let start = after_last_colon(bytes);
    proof {
        assert(bytes@.subrange(start as int, bytes@.len() as int) =~= id_digits(bytes@));
    }
    match parse_unsigned_bytes(bytes, start, bytes.len(), u32::MAX) {
        Some(v) => Ok(v),
        None => Err(FieldError::InvalidNumber),
    }
}

/// parses stop_id, handling both "600737" and "stoparea:600737" formats:
/// the id is the number after the last `:` (or the whole text)
pub fn parse_stop_id(stop_id_str: &str) -> (r: Result<u32, FieldError>)
    ensures
        match id_of(stop_id_str.spec_bytes()) {
            Some(v) => r == Ok::<u32, FieldError>(v as u32),
            None => r == Err::<u32, FieldError>(FieldError::InvalidNumber),
        },
{
    parse_id(stop_id_str)
}

/// parses route_id, handling both "600737" and "stoparea:600737" formats:
/// the id is the number after the last `:` (or the whole text)
pub fn parse_route_id(route_id_str: &str) -> (r: Result<u32, FieldError>)
    ensures
        match id_of(route_id_str.spec_bytes()) {
            Some(v) => r == Ok::<u32, FieldError>(v as u32),
            None => r == Err::<u32, FieldError>(FieldError::InvalidNumber),
        },
{
    parse_id(route_id_str)
}

} // verus!
