//! The calls into code that is not verified here: the document format's
//! crate and the regular-expression crate.
//!
//! Each function below has a body that Verus does not read and a contract
//! that it takes on trust. The doc comment of each says what is claimed of
//! the code that it calls.

use crate::literal::{boolean_text, integer_text, quoted_content};
use crate::value::{Date, Datetime, Offset, Time};
use std::str::FromStr;
use vstd::prelude::*;

verus! {

/// The date and time that the document format reads out of `text`, or
/// `None` where it reads none.
pub uninterp spec fn toml_datetime(text: Seq<char>) -> Option<Datetime>;

/// The literal that the document format writes for `datetime`.
pub uninterp spec fn toml_datetime_text(datetime: Datetime) -> Seq<char>;

/// The literal that the document format writes for the string `s`.
pub uninterp spec fn toml_string_text(s: Seq<char>) -> Seq<char>;

/// The characters of an optional string.
pub open spec fn option_text(r: Option<String>) -> Option<Seq<char>> {
    match r {
        Some(s) => Some(s@),
        None => None,
    }
}

/// The pattern of a quoted string: the whole text is a double quote, any
/// characters or none, and a double quote; the first group captures what
/// stands between the quotes.
pub open spec fn quoted_pattern() -> Seq<char> {
    "(?s)^\"(.*)\"$"@
}

/// Whether the document format writes the character `c` of a string as it
/// is: no control character, no double quote, no backslash.
pub open spec fn is_plain_char(c: char) -> bool {
    !(c <= '\u{1f}' || c == '\u{7f}' || c == '"' || c == '\\')
}

/// Whether the document format writes every character of `s` as it is.
pub open spec fn is_plain(s: Seq<char>) -> bool {
    forall|i: int| 0 <= i < s.len() ==> is_plain_char(#[trigger] s[i])
}

/// `s` between two double quotes.
pub open spec fn quoted(s: Seq<char>) -> Seq<char> {
    seq!['"'] + s + seq!['"']
}

/// `regex::Regex::new` on the pattern of a quoted string, then
/// `Regex::captures` on `text` and the first group of what it found.
///
/// Claimed of the regex crate: `^` and `$` match only at the two ends of the
/// text, under the flag `s` the `.` matches every character, a line feed as
/// well, and `*` asks for any number, none included. So the pattern matches
/// exactly the texts of two or more characters that begin and end with a
/// double quote, and its first group is then the text without its first and
/// its last character.
#[verifier::external_body]
pub(crate) fn regex_first_group(pattern: &str, text: &str) -> (r: Option<String>)
    requires
        pattern@ == quoted_pattern(),
    ensures
        option_text(r) == quoted_content(text@),
{
    let re = regex::Regex::new(pattern).ok()?;
    let found = re.captures(text)?;
    Some(found.get(1)?.as_str().to_string())
}

/// `toml::value::Datetime::from_str`, with the fields of what it returns
/// moved into a [`Datetime`].
///
/// Claimed of the toml crate: the outcome depends on `text` alone.
#[verifier::external_body]
pub(crate) fn toml_parse_datetime(text: &str) -> (r: Option<Datetime>)
    ensures
        r == toml_datetime(text@),
{
    let d = toml::value::Datetime::from_str(text).ok()?;
    Some(Datetime {
        date: d.date.map(|x| Date { year: x.year, month: x.month, day: x.day }),
        time: d.time.map(|x| Time { hour: x.hour, minute: x.minute, second: x.second, nanosecond: x.nanosecond }),
        offset: d.offset.map(|x| match x {
            toml::value::Offset::Z => Offset::Z,
            toml::value::Offset::Custom { hours, minutes } => Offset::Custom { hours, minutes },
        }),
    })
}

/// `toml::to_string` on a `toml::Value::Datetime` that holds the fields of
/// `datetime`.
///
/// Claimed of the toml crate: it reports no error, and what it writes
/// depends on the fields alone.
#[verifier::external_body]
pub(crate) fn toml_format_datetime(datetime: &Datetime) -> (r: Option<String>)
    ensures
        option_text(r) == Some(toml_datetime_text(*datetime)),
{
    let d = datetime;
    toml::to_string(&toml::Value::Datetime(toml::value::Datetime {
        date: d.date.map(|x| toml::value::Date { year: x.year, month: x.month, day: x.day }),
        time: d.time.map(|x| toml::value::Time { hour: x.hour, minute: x.minute, second: x.second, nanosecond: x.nanosecond }),
        offset: d.offset.map(|x| match x {
            Offset::Z => toml::value::Offset::Z,
            Offset::Custom { hours, minutes } => toml::value::Offset::Custom { hours, minutes },
        }),
    })).ok()
}

/// `toml::to_string` on a `toml::Value::String` that holds `s`.
///
/// Claimed of the toml crate: it reports no error, and what it writes
/// depends on `s` alone; and a string of which no character is a control
/// character, a double quote or a backslash is written as it is, between two
/// double quotes.
#[verifier::external_body]
pub(crate) fn toml_format_string(s: &str) -> (r: Option<String>)
    ensures
        option_text(r) == Some(toml_string_text(s@)),
        is_plain(s@) ==> option_text(r) == Some(quoted(s@)),
{
    toml::to_string(&toml::Value::String(s.to_string())).ok()
}

/// `toml::to_string` on a `toml::Value::Boolean` that holds `b`.
///
/// Claimed of the toml crate: it writes `true` or `false`, and reports no
/// error.
#[verifier::external_body]
pub(crate) fn toml_format_boolean(b: bool) -> (r: Option<String>)
    ensures
        option_text(r) == Some(boolean_text(b)),
{
    toml::to_string(&toml::Value::Boolean(b)).ok()
}

/// `toml::to_string` on a `toml::Value::Integer` that holds `i`.
///
/// Claimed of the toml crate: it writes the decimal digits of `i`, after a
/// `-` where `i` is negative, and reports no error.
#[verifier::external_body]
pub(crate) fn toml_format_integer(i: i64) -> (r: Option<String>)
    ensures
        option_text(r) == Some(integer_text(i as int)),
{
    toml::to_string(&toml::Value::Integer(i)).ok()
}

} // verus!
