//! Calls into std and outside crates whose results Verus takes on trust.
use vstd::prelude::*;
use crate::text::ascii_lower;

verus! {

/// What `str::to_lowercase` makes of a string (full Unicode case mapping).
pub uninterp spec fn lower_of(s: Seq<char>) -> Seq<char>;

/// A lowercase hexadecimal digit, for `n` below 16.
pub open spec fn hex_digit(n: int) -> char {
    if n < 10 {
        if n == 0 { '0' } else if n == 1 { '1' } else if n == 2 { '2' } else if n == 3 { '3' }
        else if n == 4 { '4' } else if n == 5 { '5' } else if n == 6 { '6' } else if n == 7 { '7' }
        else if n == 8 { '8' } else { '9' }
    } else if n == 10 { 'a' } else if n == 11 { 'b' } else if n == 12 { 'c' } else if n == 13 { 'd' }
    else if n == 14 { 'e' } else { 'f' }
}

/// How a JSON string literal writes one character: `"` and `\` after a
/// backslash, the five short escapes, any other control character below
/// U+0020 as `\u00XX`, everything else as it is.
pub open spec fn json_escape(c: char) -> Seq<char> {
    if c == '"' {
        seq!['\\', '"']
    } else if c == '\\' {
        seq!['\\', '\\']
    } else if c == '\u{8}' {
        seq!['\\', 'b']
    } else if c == '\t' {
        seq!['\\', 't']
    } else if c == '\n' {
        seq!['\\', 'n']
    } else if c == '\u{c}' {
        seq!['\\', 'f']
    } else if c == '\r' {
        seq!['\\', 'r']
    } else if (c as u32) < 0x20 {
        seq!['\\', 'u', '0', '0', hex_digit(c as int / 16), hex_digit(c as int % 16)]
    } else {
        seq![c]
    }
}

/// The characters of `s`, each as a JSON string literal writes it.
pub open spec fn json_escaped(s: Seq<char>) -> Seq<char>
    decreases s.len(),
{
    if s.len() == 0 {
        Seq::empty()
    } else {
        json_escaped(s.drop_last()) + json_escape(s.last())
    }
}

/// A string as a JSON string literal: quoted, with its characters escaped.
pub open spec fn json_quoted(s: Seq<char>) -> Seq<char> {
    seq!['"'] + json_escaped(s) + seq!['"']
}

/// Relies on `str::to_lowercase`: the result depends on the characters alone,
/// and an ASCII text lowercases as ASCII letters do.
#[verifier::external_body]
pub(crate) fn lowercase(s: &str) -> (r: String)
    ensures
        r@ == lower_of(s@),
        (forall|i: int| 0 <= i < s@.len() ==> (s@[i] as u32) < 0x80) ==> r@ == ascii_lower(s@),
{
    s.to_lowercase()
}

/// Relies on `serde_json::to_string` on a `&str`, which writes the string as a
/// JSON string literal (`format_escaped_str` and its `ESCAPE` table) and
/// cannot fail for it.
#[verifier::external_body]
pub(crate) fn quote_json(s: &str) -> (r: String)
    ensures
        r@ == json_quoted(s@),
{
    match serde_json::to_string(s) {
        Ok(t) => t,
        Err(_) => String::new(),
    }
}

/// What chrono's `NaiveDateTime::parse_from_str` makes of a text and a format,
/// as the Unix seconds and the nanoseconds of that moment read as UTC.
pub uninterp spec fn naive_datetime_parse(s: Seq<char>, fmt: Seq<char>) -> Option<(i64, u32)>;

/// What chrono's `NaiveDate::parse_from_str` makes of a text and a format, as
/// the Unix seconds of that day's midnight UTC.
pub uninterp spec fn naive_date_parse(s: Seq<char>, fmt: Seq<char>) -> Option<i64>;

/// Whether chrono's `DateTime::<Utc>::from_timestamp` can represent a moment
/// this many seconds from the Unix epoch: its day, `secs.div_euclid(86_400)`
/// days after 1970-01-01, must be one that `NaiveDate::from_num_days_from_ce_opt`
/// accepts, up to the end of `NaiveDate::MAX` (+262142-12-31).
pub open spec fn timestamp_in_range(secs: int) -> bool {
    -8_334_601_228_800 <= secs <= 8_210_266_876_799
}

/// Relies on chrono's `NaiveDateTime::parse_from_str`; the parsed moment is
/// read as UTC and given as `timestamp()` and `timestamp_subsec_nanos()`.
#[verifier::external_body]
pub(crate) fn parse_datetime_with(s: &str, fmt: &str) -> (r: Option<(i64, u32)>)
    ensures
        r == naive_datetime_parse(s@, fmt@),
{
    match chrono::NaiveDateTime::parse_from_str(s, fmt) {
        Ok(naive) => {
            let utc = naive.and_utc();
            Some((utc.timestamp(), utc.timestamp_subsec_nanos()))
        },
        Err(_) => None,
    }
}

/// Relies on chrono's `NaiveDate::parse_from_str`; the day is taken at
/// midnight (`and_hms_opt(0, 0, 0)`, which exists for every day) read as UTC.
#[verifier::external_body]
pub(crate) fn parse_date_with(s: &str, fmt: &str) -> (r: Option<i64>)
    ensures
        r == naive_date_parse(s@, fmt@),
{
    match chrono::NaiveDate::parse_from_str(s, fmt) {
        Ok(day) => match day.and_hms_opt(0, 0, 0) {
            Some(midnight) => Some(midnight.and_utc().timestamp()),
            None => None,
        },
        Err(_) => None,
    }
}

/// Relies on chrono's `DateTime::from_timestamp`: with `nanos` below a second
/// it fails only where the day falls outside `NaiveDate::MIN ..= NaiveDate::MAX`,
/// and the moment it gives has exactly these seconds and nanoseconds.
#[verifier::external_body]
pub(crate) fn timestamp_moment(secs: i64, nanos: u32) -> (r: Option<(i64, u32)>)
    requires
        nanos < 1_000_000_000,
    ensures
        r is Some <==> timestamp_in_range(secs as int),
        r is Some ==> r->0 == (secs, nanos),
{
    match chrono::DateTime::from_timestamp(secs, nanos) {
        Some(moment) => Some((moment.timestamp(), moment.timestamp_subsec_nanos())),
        None => None,
    }
}

/// Whether the regex crate's `Regex::new` accepts a pattern.
pub uninterp spec fn regex_compiles(pattern: Seq<char>) -> bool;

/// Whether the regex crate's `Regex::is_match` finds a match of a pattern
/// anywhere in a text.
pub uninterp spec fn regex_finds(pattern: Seq<char>, haystack: Seq<char>) -> bool;

/// Relies on regex's `Regex::new` (an error for a pattern it refuses) and
/// `Regex::is_match` (a match anywhere in the text, not only the whole of it).
#[verifier::external_body]
pub(crate) fn regex_search(pattern: &str, haystack: &str) -> (r: Option<bool>)
    ensures
        r is Some <==> regex_compiles(pattern@),
        r is Some ==> r->0 == regex_finds(pattern@, haystack@),
{
    match regex::Regex::new(pattern) {
        Ok(re) => Some(re.is_match(haystack)),
        Err(_) => None,
    }
}

} // verus!
