//! The calls that this library makes into `std`'s Unicode tables, the `regex` crate, the
//! `html-to-markdown-rs` crate, `chrono`, `serde_json` and the system clock. Each `external_body`
//! function here makes one such call; its contract is believed, not proved. The few
//! functions without that mark pick the call's arguments and are verified.
use vstd::prelude::*;

verus! {

// ---------------------------------------------------------------------------
// Unicode case and character classes (std)
// ---------------------------------------------------------------------------

/// What `str::to_lowercase` gives for a string: its Unicode lowercase mapping, which is
/// context-sensitive (final sigma) and may change the length.
pub uninterp spec fn unicode_lowercase(s: Seq<char>) -> Seq<char>;

/// Calls `str::to_lowercase`; the result is named `unicode_lowercase` of the input.
#[verifier::external_body]
pub(crate) fn to_lowercase(s: &str) -> (r: String)
    ensures
        r@ == unicode_lowercase(s@),
{
    s.to_lowercase()
}

/// What `char::is_alphanumeric` says of a character: Unicode `Alphabetic` or `Numeric`.
pub uninterp spec fn char_is_alphanumeric(c: char) -> bool;

/// Calls `char::is_alphanumeric`; the result is named `char_is_alphanumeric`.
#[verifier::external_body]
pub(crate) fn is_alphanumeric(c: char) -> (b: bool)
    ensures
        b == char_is_alphanumeric(c),
{
    c.is_alphanumeric()
}

// ---------------------------------------------------------------------------
// Regular expressions (regex)
// ---------------------------------------------------------------------------

#[verifier::external_type_specification]
#[verifier::external_body]
pub struct ExRegex(regex::Regex);

#[verifier::external_type_specification]
#[verifier::external_body]
pub struct ExRegexError(regex::Error);

/// A compiled regular expression together with the source text it was compiled from.
/// Only `compile_pattern` builds one, so the two always agree.
pub(crate) struct TextPattern {
    source: String,
    compiled: regex::Regex,
}

impl View for TextPattern {
    type V = Seq<char>;

    /// The source text of the pattern.
    closed spec fn view(&self) -> Seq<char> {
        self.source@
    }
}

/// Whether `regex::Regex::new` accepts a pattern.
pub uninterp spec fn regex_compiles(pattern: Seq<char>) -> bool;

/// Calls `regex::Regex::new`. On success the pattern's view is the source text; it fails
/// exactly where `regex_compiles` says so.
#[verifier::external_body]
pub(crate) fn compile_pattern(source: &str) -> (r: Result<TextPattern, regex::Error>)
    ensures
        r is Ok <==> regex_compiles(source@),
        r matches Ok(p) ==> p@ == source@,
{
    match regex::Regex::new(source) {
        Ok(compiled) => Ok(TextPattern { source: source.to_string(), compiled }),
        Err(e) => Err(e),
    }
}

/// What `Regex::replace(text, "")` gives: `text` with its leftmost-first match of the
/// pattern removed.
pub uninterp spec fn regex_first_removed(pattern: Seq<char>, text: Seq<char>) -> Seq<char>;

/// Calls `regex::Regex::replace` with an empty replacement; the result is named
/// `regex_first_removed` of the pattern's source and the text.
#[verifier::external_body]
pub(crate) fn remove_first_match(p: &TextPattern, text: &str) -> (r: String)
    ensures
        r@ == regex_first_removed(p@, text@),
{
    p.compiled.replace(text, "").into_owned()
}

/// What `Regex::captures_iter(text)` yields, each match taken by its first capture group
/// (`None` where that group took no part in the match).
pub uninterp spec fn regex_group1(pattern: Seq<char>, text: Seq<char>) -> Seq<Option<Seq<char>>>;

/// The views of a vector of optional strings.
pub open spec fn opt_string_views(v: Seq<Option<String>>) -> Seq<Option<Seq<char>>> {
    v.map_values(|o: Option<String>| match o {
        Some(s) => Some(s@),
        None => None,
    })
}

/// Calls `regex::Regex::captures_iter` and reads group 1 of each match; the result is named
/// `regex_group1` of the pattern's source and the text.
#[verifier::external_body]
pub(crate) fn group1_matches(p: &TextPattern, text: &str) -> (r: Vec<Option<String>>)
    ensures
        opt_string_views(r@) == regex_group1(p@, text@),
{
    p.compiled.captures_iter(text).map(|c| c.get(1).map(|m| m.as_str().to_string())).collect()
}

// ---------------------------------------------------------------------------
// HTML to Markdown (html-to-markdown-rs)
// ---------------------------------------------------------------------------

#[verifier::external_type_specification]
#[verifier::external_body]
pub struct ExConversionError(html_to_markdown_rs::ConversionError);

/// What `html_to_markdown_rs::convert(html, None)` gives: `None` where it returns an error,
/// otherwise the `content` field of its result.
pub uninterp spec fn markdown_of(html: Seq<char>) -> Option<Option<Seq<char>>>;

/// Calls `html_to_markdown_rs::convert` with default options and hands back the converted
/// content; the result is named `markdown_of` of the input.
#[verifier::external_body]
pub(crate) fn html_to_markdown(html: &str) -> (r: Result<Option<String>, html_to_markdown_rs::ConversionError>)
    ensures
        match r {
            Ok(Some(s)) => markdown_of(html@) == Some(Some(s@)),
            Ok(None) => markdown_of(html@) == Some(None::<Seq<char>>),
            Err(_) => markdown_of(html@) is None,
        },
{
    html_to_markdown_rs::convert(html, None).map(|res| res.content)
}

// ---------------------------------------------------------------------------
// Dates (chrono)
// ---------------------------------------------------------------------------

/// The chrono format of an instant as `YYYY-MM-DDTHH:MM:SS`.
pub const ISO_DATETIME_FORMAT: &'static str = "%Y-%m-%dT%H:%M:%S";

/// The chrono format of a date as `YYYYMMDD`.
pub const COMPACT_DATE_FORMAT: &'static str = "%Y%m%d";

/// What `DateTime::from_timestamp(ts, 0)` gives, rendered in UTC with the chrono format
/// `fmt`; `None` where the timestamp is out of chrono's range.
pub uninterp spec fn utc_timestamp_text(ts: int, fmt: Seq<char>) -> Option<Seq<char>>;

/// Calls `chrono::DateTime::from_timestamp(ts, 0)` and renders the instant with
/// `DateTime::format(fmt)`; the result is named `utc_timestamp_text` of `ts` and `fmt`.
/// Only the two formats of this library are admitted, whose specifiers chrono documents,
/// so rendering cannot fail.
#[verifier::external_body]
pub(crate) fn format_utc_timestamp(ts: i64, fmt: &str) -> (r: Option<String>)
    requires
        fmt@ == ISO_DATETIME_FORMAT@ || fmt@ == COMPACT_DATE_FORMAT@,
    ensures
        match r {
            Some(s) => utc_timestamp_text(ts as int, fmt@) == Some(s@),
            None => utc_timestamp_text(ts as int, fmt@) is None,
        },
{
    chrono::DateTime::from_timestamp(ts, 0).map(|d| d.format(fmt).to_string())
}

/// The instant `ts` as `YYYY-MM-DDTHH:MM:SS` in UTC, where chrono can render it.
pub open spec fn iso_datetime_text(ts: int) -> Option<Seq<char>> {
    utc_timestamp_text(ts, ISO_DATETIME_FORMAT@)
}

/// The date of the instant `ts` as `YYYYMMDD` in UTC, where chrono can render it.
pub open spec fn compact_date_text(ts: int) -> Option<Seq<char>> {
    utc_timestamp_text(ts, COMPACT_DATE_FORMAT@)
}

/// Renders `ts` as `YYYY-MM-DDTHH:MM:SS` in UTC.
pub fn format_iso_datetime(ts: i64) -> (r: Option<String>)
    ensures
        match r {
            Some(s) => iso_datetime_text(ts as int) == Some(s@),
            None => iso_datetime_text(ts as int) is None,
        },
{
    format_utc_timestamp(ts, ISO_DATETIME_FORMAT)
}

/// Renders the date of `ts` as `YYYYMMDD` in UTC.
pub fn format_compact_date(ts: i64) -> (r: Option<String>)
    ensures
        match r {
            Some(s) => compact_date_text(ts as int) == Some(s@),
            None => compact_date_text(ts as int) is None,
        },
{
    format_utc_timestamp(ts, COMPACT_DATE_FORMAT)
}

/// What `NaiveDate::parse_from_str(text, fmt)` followed by `and_hms_opt(h, m, s)` in UTC
/// gives as a UNIX timestamp; `None` where the text is no date in that format or the time
/// does not exist.
pub uninterp spec fn date_time_timestamp(text: Seq<char>, fmt: Seq<char>, h: u32, m: u32, s: u32) -> Option<int>;

/// Calls `chrono::NaiveDate::parse_from_str(text, fmt)`, then `and_hms_opt(h, m, s)`, and
/// takes the UNIX timestamp of that time in UTC; the result is named `date_time_timestamp`
/// of the arguments. chrono's dates lie between the years -262143 and 262142 (its
/// `MIN_YEAR` and `MAX_YEAR`), so the timestamp lies within 8.4e12 seconds of the epoch.
#[verifier::external_body]
pub(crate) fn parse_date_at(text: &str, fmt: &str, h: u32, m: u32, s: u32) -> (r: Option<i64>)
    ensures
        match r {
            Some(t) => date_time_timestamp(text@, fmt@, h, m, s) == Some(t as int)
                && -8_400_000_000_000 <= t <= 8_400_000_000_000,
            None => date_time_timestamp(text@, fmt@, h, m, s) is None,
        },
{
    match chrono::NaiveDate::parse_from_str(text, fmt) {
        Ok(d) => match d.and_hms_opt(h, m, s) {
            Some(dt) => Some(dt.and_utc().timestamp()),
            None => None,
        },
        Err(_) => None,
    }
}

// ---------------------------------------------------------------------------
// JSON replies (serde_json)
// ---------------------------------------------------------------------------

/// Whether `serde_json::from_str::<serde_json::Value>` accepts the text.
pub uninterp spec fn json_parses(body: Seq<char>) -> bool;

/// Whether the text parses as JSON and `Value::pointer` finds a value at `pointer`.
pub uninterp spec fn json_has(body: Seq<char>, pointer: Seq<char>) -> bool;

/// The string that `Value::pointer` followed by `Value::as_str` finds in the parsed text;
/// `None` where the text does not parse, nothing is there, or it is no string.
pub uninterp spec fn json_str_at(body: Seq<char>, pointer: Seq<char>) -> Option<Seq<char>>;

/// The integer that `Value::pointer` followed by `Value::as_i64` finds in the parsed text.
pub uninterp spec fn json_i64_at(body: Seq<char>, pointer: Seq<char>) -> Option<i64>;

/// The integer that `Value::pointer` followed by `Value::as_u64` finds in the parsed text.
pub uninterp spec fn json_u64_at(body: Seq<char>, pointer: Seq<char>) -> Option<u64>;

/// The length of the array that `Value::pointer` followed by `Value::as_array` finds in the
/// parsed text.
pub uninterp spec fn json_array_len_at(body: Seq<char>, pointer: Seq<char>) -> Option<usize>;

/// Calls `serde_json::from_str::<serde_json::Value>`: whether the text is JSON; the result
/// is named `json_parses` of the text.
#[verifier::external_body]
pub(crate) fn json_is_valid(body: &str) -> (b: bool)
    ensures
        b == json_parses(body@),
{
    serde_json::from_str::<serde_json::Value>(body).is_ok()
}

/// Parses the text with `serde_json::from_str` and calls `Value::pointer`: whether a value
/// is there (named `json_has`); only text that parses has one.
#[verifier::external_body]
pub(crate) fn json_value_exists(body: &str, pointer: &str) -> (b: bool)
    ensures
        b == json_has(body@, pointer@),
        b ==> json_parses(body@),
{
    match serde_json::from_str::<serde_json::Value>(body) {
        Ok(v) => v.pointer(pointer).is_some(),
        Err(_) => false,
    }
}

/// Parses the text with `serde_json::from_str`, calls `Value::pointer` and `Value::as_str`:
/// the string there (named `json_str_at`); none where the text does not parse.
#[verifier::external_body]
pub(crate) fn json_str(body: &str, pointer: &str) -> (r: Option<String>)
    ensures
        match r {
            Some(t) => json_str_at(body@, pointer@) == Some(t@),
            None => json_str_at(body@, pointer@) is None,
        },
        !json_parses(body@) ==> r is None,
{
    match serde_json::from_str::<serde_json::Value>(body) {
        Ok(v) => v.pointer(pointer).and_then(serde_json::Value::as_str).map(String::from),
        Err(_) => None,
    }
}

/// Parses the text with `serde_json::from_str`, calls `Value::pointer` and `Value::as_i64`:
/// the integer there (named `json_i64_at`); none where the text does not parse.
#[verifier::external_body]
pub(crate) fn json_i64(body: &str, pointer: &str) -> (r: Option<i64>)
    ensures
        r == json_i64_at(body@, pointer@),
        !json_parses(body@) ==> r is None,
{
    match serde_json::from_str::<serde_json::Value>(body) {
        Ok(v) => v.pointer(pointer).and_then(serde_json::Value::as_i64),
        Err(_) => None,
    }
}

/// Parses the text with `serde_json::from_str`, calls `Value::pointer` and `Value::as_u64`:
/// the integer there (named `json_u64_at`); none where the text does not parse.
#[verifier::external_body]
pub(crate) fn json_u64(body: &str, pointer: &str) -> (r: Option<u64>)
    ensures
        r == json_u64_at(body@, pointer@),
        !json_parses(body@) ==> r is None,
{
    match serde_json::from_str::<serde_json::Value>(body) {
        Ok(v) => v.pointer(pointer).and_then(serde_json::Value::as_u64),
        Err(_) => None,
    }
}

/// Parses the text with `serde_json::from_str`, calls `Value::pointer` and
/// `Value::as_array`: the length of the array there (named `json_array_len_at`); none
/// where the text does not parse.
#[verifier::external_body]
pub(crate) fn json_array_len(body: &str, pointer: &str) -> (r: Option<usize>)
    ensures
        r == json_array_len_at(body@, pointer@),
        !json_parses(body@) ==> r is None,
{
    match serde_json::from_str::<serde_json::Value>(body) {
        Ok(v) => v.pointer(pointer).and_then(serde_json::Value::as_array).map(Vec::len),
        Err(_) => None,
    }
}

// ---------------------------------------------------------------------------
// The clock (std)
// ---------------------------------------------------------------------------

#[verifier::external_type_specification]
#[verifier::external_body]
pub struct ExSystemTime(std::time::SystemTime);

#[verifier::external_type_specification]
#[verifier::external_body]
pub struct ExSystemTimeError(std::time::SystemTimeError);

/// Calls `SystemTime::now`. Nothing is stated of the result: it depends on the clock.
#[verifier::external_body]
pub(crate) fn system_now() -> std::time::SystemTime {
    std::time::SystemTime::now()
}

/// Calls `SystemTime::duration_since` with the UNIX epoch: how long after the epoch `t`
/// lies, or an error where it lies before. Nothing is stated of the result: it depends on
/// the instant, which comes from the clock.
#[verifier::external_body]
pub(crate) fn since_unix_epoch(t: std::time::SystemTime) -> Result<
    core::time::Duration,
    std::time::SystemTimeError,
> {
    t.duration_since(std::time::UNIX_EPOCH)
}

/// Calls `Duration::as_secs`: the whole seconds of a duration. Nothing is stated of the
/// result: durations here come from the clock.
#[verifier::external_body]
pub(crate) fn whole_seconds(d: &core::time::Duration) -> u64 {
    d.as_secs()
}

}
