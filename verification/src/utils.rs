use vstd::prelude::*;
use vstd::string::StrSliceExecFns;
use crate::text::is_control_char;
use crate::text::push_char;
use crate::text::trim_seq;
use crate::text::trim_str;

verus! {

// ---------------------------------------------------------------------------
// Filename sanitizer
// ---------------------------------------------------------------------------
/// A character that is unsafe in a path segment on common filesystems.
pub open spec fn forbidden_char(c: char) -> bool {
    c == '/' || c == '\\' || c == ':' || c == '*' || c == '?' || c == '"' || c == '<' || c == '>'
        || c == '|' || is_control_char(c)
}

/// A forbidden character becomes a hyphen; all others stay.
pub open spec fn replace_char(c: char) -> char {
    if forbidden_char(c) {
        '-'
    } else {
        c
    }
}

/// `replace_char`, applied to each character.
pub open spec fn replace_chars(s: Seq<char>) -> Seq<char> {
    s.map_values(|c: char| replace_char(c))
}

/// What the sanitizer produces: every forbidden character replaced by a
/// hyphen, then leading and trailing white space removed.
pub open spec fn sanitize_spec(s: Seq<char>) -> Seq<char> {
    trim_seq(replace_chars(s))
}

fn replaced_char(c: char) -> (r: char)
    ensures
        r == replace_char(c),
{
    let u = c as u32;
    if c == '/' || c == '\\' || c == ':' || c == '*' || c == '?' || c == '"' || c == '<' || c == '>'
        || c == '|' || u < 0x20 || (0x7F <= u && u <= 0x9F) {
        '-'
    } else {
        c
    }
}

/// Maps an arbitrary string to one safe for use as a path segment: each of
/// `/ \ : * ? " < > |` and every control character becomes a hyphen, and the
/// result is trimmed of leading and trailing white space.
pub fn sanitize_filename(name: &str) -> (r: String)
    ensures
        r@ == sanitize_spec(name@),
{
    let n = name.unicode_len();
    let mut replaced = String::new();
    let mut i: usize = 0;
    while i < n
        invariant
            i <= n,
            n == name@.len(),
            replaced@ == replace_chars(name@.take(i as int)),
        decreases n - i,
    {
        let c = replaced_char(name.get_char(i));
        push_char(&mut replaced, c);
        proof {
            assert(replace_chars(name@.take(i + 1)) =~= replace_chars(name@.take(i as int)).push(
                replace_char(name@[i as int])));
        }
        i = i + 1;
    }
    proof {
        assert(name@.take(n as int) =~= name@);
    }
    trim_str(replaced.as_str())
}

// ---------------------------------------------------------------------------
// Year-month extraction
// ---------------------------------------------------------------------------
/// An ASCII decimal digit.
pub open spec fn is_digit_char(c: char) -> bool {
    0x30 <= (c as u32) && (c as u32) <= 0x39
}

/// Whether the sequence begins with a zero-padded `YYYY-MM` pattern:
/// four digits, a hyphen, two digits.
pub open spec fn has_year_month_prefix(s: Seq<char>) -> bool {
    &&& s.len() >= 7
    &&& is_digit_char(s[0])
    &&& is_digit_char(s[1])
    &&& is_digit_char(s[2])
    &&& is_digit_char(s[3])
    &&& s[4] == '-'
    &&& is_digit_char(s[5])
    &&& is_digit_char(s[6])
}

fn ascii_digit(c: char) -> (r: bool)
    ensures
        r == is_digit_char(c),
{
    let u = c as u32;
    0x30 <= u && u <= 0x39
}

/// Extracts the `YYYY-MM` prefix of a timestamp string, when it has one.
pub fn extract_year_month(timestamp: &str) -> (r: Option<String>)
    ensures
        r is Some <==> has_year_month_prefix(timestamp@),
        r is Some ==> r.unwrap()@ == timestamp@.subrange(0, 7),
{
    let n = timestamp.unicode_len();
    if n < 7 {
        return None;
    }
    let ok = ascii_digit(timestamp.get_char(0)) && ascii_digit(timestamp.get_char(1)) && ascii_digit(
        timestamp.get_char(2),
    ) && ascii_digit(timestamp.get_char(3)) && timestamp.get_char(4) == '-' && ascii_digit(
        timestamp.get_char(5),
    ) && ascii_digit(timestamp.get_char(6));
    if ok {
        Some(timestamp.substring_char(0, 7).to_owned())
    } else {
        None
    }
}

/// The partition key of a raw timestamp: its leading `YYYY-MM`, or the
/// sentinel when no such prefix is present.
pub open spec fn partition_key_spec(s: Seq<char>) -> Seq<char> {
    if has_year_month_prefix(s) {
        s.subrange(0, 7)
    } else {
        "unknown"@
    }
}

/// The partition key of a raw timestamp, with the sentinel as fallback.
pub fn partition_key_of(timestamp: &str) -> (r: String)
    ensures
        r@ == partition_key_spec(timestamp@),
{
    match extract_year_month(timestamp) {
        Some(s) => s,
        None => "unknown".to_owned(),
    }
}

// ---------------------------------------------------------------------------
// Timestamp normalizer
// ---------------------------------------------------------------------------
/// The instant, in seconds from the Unix epoch, that
/// `chrono::DateTime::parse_from_rfc3339` reads from the string, when it
/// parses.
pub uninterp spec fn rfc3339_epoch(s: Seq<char>) -> Option<i64>;

/// The instant that `chrono::NaiveDateTime::parse_from_str` with the format
/// `%Y-%m-%dT%H:%M:%S` reads from the string, taken as UTC, when it parses.
pub uninterp spec fn datetime_t_epoch(s: Seq<char>) -> Option<i64>;

/// The instant that `chrono::NaiveDateTime::parse_from_str` with the format
/// `%Y-%m-%d %H:%M:%S` reads from the string, taken as UTC, when it parses.
pub uninterp spec fn datetime_space_epoch(s: Seq<char>) -> Option<i64>;

/// The instant that `chrono::NaiveDate::parse_from_str` with the format
/// `%Y-%m-%d` reads from the string, taken as midnight UTC, when it parses.
pub uninterp spec fn date_only_epoch(s: Seq<char>) -> Option<i64>;

/// The parser cascade: the supported encodings are tried in a fixed order
/// and the first that matches wins.
pub open spec fn parsed_epoch(s: Seq<char>) -> Option<i64> {
    if rfc3339_epoch(s) is Some {
        rfc3339_epoch(s)
    } else if datetime_t_epoch(s) is Some {
        datetime_t_epoch(s)
    } else if datetime_space_epoch(s) is Some {
        datetime_space_epoch(s)
    } else {
        date_only_epoch(s)
    }
}

/// Relies on `chrono::DateTime::parse_from_rfc3339`: it accepts exactly the
/// RFC 3339 date-time strings, and the parsed instant depends on the input
/// alone.
#[verifier::external_body]
fn parse_rfc3339(s: &str) -> (r: Option<i64>)
    ensures
        r == rfc3339_epoch(s@),
{
    match chrono::DateTime::parse_from_rfc3339(s) {
        Ok(dt) => Some(dt.timestamp()),
        Err(_) => None,
    }
}

/// Relies on `chrono::NaiveDateTime::parse_from_str` with the format
/// `%Y-%m-%dT%H:%M:%S`: which strings it accepts and the instant it reads
/// depend on the input alone.
#[verifier::external_body]
fn parse_datetime_t(s: &str) -> (r: Option<i64>)
    ensures
        r == datetime_t_epoch(s@),
{
    match chrono::NaiveDateTime::parse_from_str(s, "%Y-%m-%dT%H:%M:%S") {
        Ok(dt) => Some(dt.and_utc().timestamp()),
        Err(_) => None,
    }
}

/// Relies on `chrono::NaiveDateTime::parse_from_str` with the format
/// `%Y-%m-%d %H:%M:%S`: which strings it accepts and the instant it reads
/// depend on the input alone.
#[verifier::external_body]
fn parse_datetime_space(s: &str) -> (r: Option<i64>)
    ensures
        r == datetime_space_epoch(s@),
{
    match chrono::NaiveDateTime::parse_from_str(s, "%Y-%m-%d %H:%M:%S") {
        Ok(dt) => Some(dt.and_utc().timestamp()),
        Err(_) => None,
    }
}

/// Relies on `chrono::NaiveDate::parse_from_str` with the format `%Y-%m-%d`:
/// which strings it accepts and the date it reads depend on the input alone.
/// Midnight exists on every date, so `and_hms_opt(0, 0, 0)` is `Some`.
#[verifier::external_body]
fn parse_date_only(s: &str) -> (r: Option<i64>)
    ensures
        r == date_only_epoch(s@),
{
    match chrono::NaiveDate::parse_from_str(s, "%Y-%m-%d") {
        Ok(d) => match d.and_hms_opt(0, 0, 0) {
            Some(dt) => Some(dt.and_utc().timestamp()),
            None => None,
        },
        Err(_) => None,
    }
}

/// Relies on `chrono::DateTime::from_timestamp`, `with_timezone` with
/// `chrono::Local`, and `format` with `%Y-%m-%d %H:%M:%S %Z`: the text
/// depends on the machine's local time zone, so little is promised of it.
/// What holds whatever the zone: an instant between the Unix epoch and the
/// year 9890 keeps a four-digit year after any zone shift, `%Y`/`%m`/`%d`
/// zero-pad to four and two digits, and the format has nineteen characters
/// before the zone name — so the display opens with the local calendar date
/// and is at least that long.
#[verifier::external_body]
fn format_epoch_local(epoch: i64) -> (r: String)
    ensures
        0 <= epoch <= 250_000_000_000 ==> r@.len() >= 19 && has_year_month_prefix(r@),
{
    match chrono::DateTime::from_timestamp(epoch, 0) {
        Some(dt) => dt.with_timezone(&chrono::Local).format("%Y-%m-%d %H:%M:%S %Z").to_string(),
        None => String::new(),
    }
}

/// The parser cascade, executed: the supported encodings are tried in
/// order, and the instant of the first that matches is returned.
pub fn parse_timestamp_epoch(timestamp_str: &str) -> (r: Option<i64>)
    ensures
        r == parsed_epoch(timestamp_str@),
{
    if let Some(epoch) = parse_rfc3339(timestamp_str) {
        return Some(epoch);
    }
    if let Some(epoch) = parse_datetime_t(timestamp_str) {
        return Some(epoch);
    }
    if let Some(epoch) = parse_datetime_space(timestamp_str) {
        return Some(epoch);
    }
    parse_date_only(timestamp_str)
}

/// Normalizes a raw timestamp to a local-time display string. The empty
/// string stays empty; a string that none of the supported encodings
/// matches comes back verbatim; a string that parses is rendered in the
/// machine's local time zone, and for any instant between the Unix epoch
/// and the far future the rendering opens with the local calendar date, so
/// its partition key is a real year and month, never the sentinel.
pub fn format_timestamp_to_local(timestamp_str: &str) -> (r: String)
    ensures
        timestamp_str@.len() == 0 ==> r@ == Seq::<char>::empty(),
        timestamp_str@.len() > 0 && parsed_epoch(timestamp_str@) is None ==> r@ == timestamp_str@,
        (timestamp_str@.len() > 0 && parsed_epoch(timestamp_str@) is Some && 0 <= parsed_epoch(
            timestamp_str@,
        ).unwrap() <= 250_000_000_000) ==> (r@.len() >= 19 && has_year_month_prefix(r@)),
{
    if timestamp_str.is_empty() {
        proof {
            assert(timestamp_str@ =~= Seq::<char>::empty());
        }
        return String::new();
    }
    match parse_timestamp_epoch(timestamp_str) {
        Some(epoch) => format_epoch_local(epoch),
        None => timestamp_str.to_owned(),
    }
}

} // verus!
