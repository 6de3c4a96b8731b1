//! The value of a field: one of six kinds, each with a text form, and the
//! coercions between text and the typed kinds.

use crate::text::same_text;
use crate::values::date_format;
use crate::values::date_parsed;
use crate::values::date_text;
use crate::values::decimal_parsed;
use crate::values::decimal_text;
use crate::values::format_date;
use crate::values::format_decimal;
use crate::values::format_moment;
use crate::values::format_time;
use crate::values::log_date_format;
use crate::values::log_moment_format;
use crate::values::log_time_format;
use crate::values::moment_format;
use crate::values::moment_parsed;
use crate::values::moment_text;
use crate::values::parse_date;
use crate::values::parse_decimal;
use crate::values::parse_moment;
use crate::values::parse_time;
use crate::values::time_format;
use crate::values::time_parsed;
use crate::values::time_text;
use chrono::NaiveDate;
use chrono::NaiveDateTime;
use chrono::NaiveTime;
use rust_decimal::Decimal;
use std::borrow::Cow;
use vstd::prelude::*;
use vstd::std_specs::convert::FromSpecImpl;

verus! {

/// What a [`Datum`] stands for: the same six kinds, with text as a sequence
/// of characters.
pub enum Value {
    Boolean(bool),
    Number(Decimal),
    Date(NaiveDate),
    Time(NaiveTime),
    DateTime(NaiveDateTime),
    Text(Seq<char>),
}

/// The truth value that a text spells: `Y` or `y`, `N` or `n`, nothing else.
pub open spec fn bool_parsed(text: Seq<char>) -> Option<bool> {
    if text == "Y"@ || text == "y"@ {
        Some(true)
    } else if text == "N"@ || text == "n"@ {
        Some(false)
    } else {
        None
    }
}

/// The text of a truth value.
pub open spec fn bool_text(b: bool) -> Seq<char> {
    if b {
        "Y"@
    } else {
        "N"@
    }
}

impl Value {
    /// The text form: text as it is, the other kinds in their wire format.
    pub open spec fn text(self) -> Seq<char> {
        match self {
            Value::Boolean(b) => bool_text(b),
            Value::Number(n) => decimal_text(n),
            Value::Date(d) => date_text(d, date_format()),
            Value::Time(t) => time_text(t, time_format()),
            Value::DateTime(m) => moment_text(m, moment_format()),
            Value::Text(s) => s,
        }
    }

    /// The text form in a contest log: dates with hyphens, times to the
    /// minute, everything else as in [`Value::text`].
    pub open spec fn log_text(self) -> Seq<char> {
        match self {
            Value::Date(d) => date_text(d, log_date_format()),
            Value::Time(t) => time_text(t, log_time_format()),
            Value::DateTime(m) => moment_text(m, log_moment_format()),
            _ => self.text(),
        }
    }

    /// A truth value as it is, text that spells one, nothing else.
    pub open spec fn as_bool(self) -> Option<bool> {
        match self {
            Value::Boolean(b) => Some(b),
            Value::Text(s) => bool_parsed(s),
            _ => None,
        }
    }

    /// A number as it is, text that denotes one, nothing else.
    pub open spec fn as_number(self) -> Option<Decimal> {
        match self {
            Value::Number(n) => Some(n),
            Value::Text(s) => decimal_parsed(s),
            _ => None,
        }
    }

    /// A date as it is, text in the wire format of dates, nothing else.
    pub open spec fn as_date(self) -> Option<NaiveDate> {
        match self {
            Value::Date(d) => Some(d),
            Value::Text(s) => date_parsed(s, date_format()),
            _ => None,
        }
    }

    /// A time as it is, text in the wire format of times, nothing else.
    pub open spec fn as_time(self) -> Option<NaiveTime> {
        match self {
            Value::Time(t) => Some(t),
            Value::Text(s) => time_parsed(s, time_format()),
            _ => None,
        }
    }

    /// A date and time as it is, text in the combined format, nothing else.
    pub open spec fn as_datetime(self) -> Option<NaiveDateTime> {
        match self {
            Value::DateTime(m) => Some(m),
            Value::Text(s) => moment_parsed(s, moment_format()),
            _ => None,
        }
    }
}

/// Value for a field in a record.
///
/// Fields can carry a type in their tag. Without one they are strings. This
/// enum holds every typed value and offers coercions between them.
#[derive(Debug, PartialEq, Eq)]
pub enum Datum {
    /// Boolean value (type indicator `b`).
    Boolean(bool),
    /// Numeric value (type indicator `n`).
    Number(Decimal),
    /// Date value (type indicator `d`), written YYYYMMDD.
    Date(NaiveDate),
    /// Time value (type indicator `t`), written HHMMSS.
    Time(NaiveTime),
    /// Combined date and time value.
    DateTime(NaiveDateTime),
    /// String value (the default when no type indicator is present).
    String(String),
}

impl View for Datum {
    type V = Value;

    open spec fn view(&self) -> Value {
        match self {
            Datum::Boolean(b) => Value::Boolean(*b),
            Datum::Number(n) => Value::Number(*n),
            Datum::Date(d) => Value::Date(*d),
            Datum::Time(t) => Value::Time(*t),
            Datum::DateTime(m) => Value::DateTime(*m),
            Datum::String(s) => Value::Text(s@),
        }
    }
}

/// Reads a truth value from text: `Y`, `y`, `N` or `n`.
pub fn parse_bool(text: &str) -> (r: Option<bool>)
    ensures
        r == bool_parsed(text@),
{
    if same_text(text, "Y") || same_text(text, "y") {
        Some(true)
    } else if same_text(text, "N") || same_text(text, "n") {
        Some(false)
    } else {
        None
    }
}

impl Datum {
    /// Return a [bool] value or coerce a string thereto.
    ///
    /// Returns [None] if a string value fails to parse.
    pub fn as_bool(&self) -> (r: Option<bool>)
        ensures
            r == self@.as_bool(),
    {
        match self {
            Datum::Boolean(b) => Some(*b),
            Datum::String(s) => parse_bool(s.as_str()),
            _ => None,
        }
    }

    /// Return a numeric value as a [Decimal] or coerce a string thereto.
    ///
    /// Returns [None] if a string value fails to parse.
    pub fn as_number(&self) -> (r: Option<Decimal>)
        ensures
            r == self@.as_number(),
    {
        match self {
            Datum::Number(n) => Some(*n),
            Datum::String(s) => parse_decimal(s.as_str()),
            _ => None,
        }
    }

    /// Return a date value as a [NaiveDate] or coerce a string thereto.
    ///
    /// Returns [None] if a string value fails to parse.
    pub fn as_date(&self) -> (r: Option<NaiveDate>)
        ensures
            r == self@.as_date(),
    {
        match self {
            Datum::Date(d) => Some(*d),
            Datum::String(s) => parse_date(s.as_str(), "%Y%m%d"),
            _ => None,
        }
    }

    /// Return a time value as a [NaiveTime] or coerce a string thereto.
    ///
    /// Returns [None] if a string value fails to parse.
    pub fn as_time(&self) -> (r: Option<NaiveTime>)
        ensures
            r == self@.as_time(),
    {
        match self {
            Datum::Time(t) => Some(*t),
            Datum::String(s) => parse_time(s.as_str(), "%H%M%S"),
            _ => None,
        }
    }

    /// Return a datetime value as a [NaiveDateTime] or coerce a string thereto.
    ///
    /// Returns [None] if a string value fails to parse.
    pub fn as_datetime(&self) -> (r: Option<NaiveDateTime>)
        ensures
            r == self@.as_datetime(),
    {
        match self {
            Datum::DateTime(m) => Some(*m),
            Datum::String(s) => parse_moment(s.as_str(), "%Y%m%d %H%M%S"),
            _ => None,
        }
    }

    /// Coerce any datum to a string representation.
    ///
    /// String variants return borrowed data. All other types are returned in
    /// their wire format (boolean Y/N, date YYYYMMDD, time HHMMSS).
    pub fn as_str(&self) -> (r: Cow<'_, str>)
        ensures
            r@ == self@.text(),
    {
        match self {
            Datum::String(s) => Cow::Borrowed(s.as_str()),
            Datum::Boolean(b) => Cow::Borrowed(
                if *b {
                    "Y"
                } else {
                    "N"
                },
            ),
            Datum::Number(n) => Cow::Owned(format_decimal(n)),
            Datum::Date(d) => Cow::Owned(format_date(d, "%Y%m%d")),
            Datum::Time(t) => Cow::Owned(format_time(t, "%H%M%S")),
            Datum::DateTime(m) => Cow::Owned(format_moment(m, "%Y%m%d %H%M%S")),
        }
    }
}

impl Datum {
    /// The datum as it stands in a Cabrillo log: a date as YYYY-MM-DD, a time
    /// as HHMM, everything else as [`Datum::as_str`] gives it.
    pub fn to_cabrillo(&self) -> (r: String)
        ensures
            r@ == self@.log_text(),
    {
        match self {
            Datum::String(s) => s.clone(),
            Datum::Boolean(b) => if *b {
                "Y".to_owned()
            } else {
                "N".to_owned()
            },
            Datum::Number(n) => format_decimal(n),
            Datum::Date(d) => format_date(d, "%Y-%m-%d"),
            Datum::Time(t) => format_time(t, "%H%M"),
            Datum::DateTime(m) => format_moment(m, "%Y-%m-%d %H%M"),
        }
    }
}

impl Clone for Datum {
    fn clone(&self) -> (r: Self)
        ensures
            r == *self,
    {
        match self {
            Datum::Boolean(b) => Datum::Boolean(*b),
            Datum::Number(n) => Datum::Number(*n),
            Datum::Date(d) => Datum::Date(*d),
            Datum::Time(t) => Datum::Time(*t),
            Datum::DateTime(m) => Datum::DateTime(*m),
            Datum::String(s) => Datum::String(s.clone()),
        }
    }
}

impl<'a> From<&'a str> for Datum {
    fn from(value: &'a str) -> (r: Self)
        ensures
            r@ == Value::Text(value@),
    {
        Datum::String(value.to_owned())
    }
}

impl<'a> FromSpecImpl<&'a str> for Datum {
    open spec fn obeys_from_spec() -> bool {
        false
    }

    closed spec fn from_spec(value: &'a str) -> Self {
        arbitrary()
    }
}

impl From<String> for Datum {
    fn from(value: String) -> (r: Self) {
        Datum::String(value)
    }
}

impl FromSpecImpl<String> for Datum {
    open spec fn obeys_from_spec() -> bool {
        true
    }

    open spec fn from_spec(value: String) -> Self {
        Datum::String(value)
    }
}

impl From<bool> for Datum {
    fn from(value: bool) -> (r: Self) {
        Datum::Boolean(value)
    }
}

impl FromSpecImpl<bool> for Datum {
    open spec fn obeys_from_spec() -> bool {
        true
    }

    open spec fn from_spec(value: bool) -> Self {
        Datum::Boolean(value)
    }
}

impl From<Decimal> for Datum {
    fn from(value: Decimal) -> (r: Self) {
        Datum::Number(value)
    }
}

impl FromSpecImpl<Decimal> for Datum {
    open spec fn obeys_from_spec() -> bool {
        true
    }

    open spec fn from_spec(value: Decimal) -> Self {
        Datum::Number(value)
    }
}

impl From<NaiveDate> for Datum {
    fn from(value: NaiveDate) -> (r: Self) {
        Datum::Date(value)
    }
}

impl FromSpecImpl<NaiveDate> for Datum {
    open spec fn obeys_from_spec() -> bool {
        true
    }

    open spec fn from_spec(value: NaiveDate) -> Self {
        Datum::Date(value)
    }
}

impl From<NaiveTime> for Datum {
    fn from(value: NaiveTime) -> (r: Self) {
        Datum::Time(value)
    }
}

impl FromSpecImpl<NaiveTime> for Datum {
    open spec fn obeys_from_spec() -> bool {
        true
    }

    open spec fn from_spec(value: NaiveTime) -> Self {
        Datum::Time(value)
    }
}

impl From<NaiveDateTime> for Datum {
    fn from(value: NaiveDateTime) -> (r: Self) {
        Datum::DateTime(value)
    }
}

impl FromSpecImpl<NaiveDateTime> for Datum {
    open spec fn obeys_from_spec() -> bool {
        true
    }

    open spec fn from_spec(value: NaiveDateTime) -> Self {
        Datum::DateTime(value)
    }
}

} // verus!
