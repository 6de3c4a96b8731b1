//! Numbers, dates and times. The library carries them as the `rust_decimal`
//! and `chrono` crates hold them, and reads and writes their text through
//! those crates.

use chrono::Days;
use chrono::NaiveDate;
use chrono::NaiveDateTime;
use chrono::NaiveTime;
use rust_decimal::Decimal;
use std::str::FromStr;
use vstd::prelude::*;

verus! {

/// `rust_decimal::Decimal`: a decimal number. Nothing is known of its inside.
#[verifier::external_type_specification]
#[verifier::external_body]
pub struct ExDecimal(rust_decimal::Decimal);

/// `chrono::NaiveDate`: a calendar date. Nothing is known of its inside.
#[verifier::external_type_specification]
#[verifier::external_body]
pub struct ExNaiveDate(chrono::NaiveDate);

/// `chrono::NaiveTime`: a time of day. Nothing is known of its inside.
#[verifier::external_type_specification]
#[verifier::external_body]
pub struct ExNaiveTime(chrono::NaiveTime);

/// `chrono::NaiveDateTime`: a date and a time of day. Nothing is known of its inside.
#[verifier::external_type_specification]
#[verifier::external_body]
pub struct ExNaiveDateTime(chrono::NaiveDateTime);

/// The number that `Decimal::from_str` reads from a text, if it reads one.
pub uninterp spec fn decimal_parsed(text: Seq<char>) -> Option<Decimal>;

/// The text that `Decimal` displays as.
pub uninterp spec fn decimal_text(number: Decimal) -> Seq<char>;

/// The date that `NaiveDate::parse_from_str` reads from a text under a format.
pub uninterp spec fn date_parsed(text: Seq<char>, format: Seq<char>) -> Option<NaiveDate>;

/// The text that `NaiveDate::format` gives a date under a format.
pub uninterp spec fn date_text(date: NaiveDate, format: Seq<char>) -> Seq<char>;

/// The time that `NaiveTime::parse_from_str` reads from a text under a format.
pub uninterp spec fn time_parsed(text: Seq<char>, format: Seq<char>) -> Option<NaiveTime>;

/// The text that `NaiveTime::format` gives a time under a format.
pub uninterp spec fn time_text(time: NaiveTime, format: Seq<char>) -> Seq<char>;

/// The moment that `NaiveDateTime::parse_from_str` reads from a text under a format.
pub uninterp spec fn moment_parsed(text: Seq<char>, format: Seq<char>) -> Option<NaiveDateTime>;

/// The text that `NaiveDateTime::format` gives a moment under a format.
pub uninterp spec fn moment_text(moment: NaiveDateTime, format: Seq<char>) -> Seq<char>;

/// The format of a date on the wire: year, month, day, as digits.
pub open spec fn date_format() -> Seq<char> {
    "%Y%m%d"@
}

/// The format of a time on the wire: hour, minute, second, as digits.
pub open spec fn time_format() -> Seq<char> {
    "%H%M%S"@
}

/// The format of a date and time together: the two above, one space between.
pub open spec fn moment_format() -> Seq<char> {
    "%Y%m%d %H%M%S"@
}

/// The format of a date in a contest log: year, month and day with hyphens.
pub open spec fn log_date_format() -> Seq<char> {
    "%Y-%m-%d"@
}

/// The format of a time in a contest log: hour and minute.
pub open spec fn log_time_format() -> Seq<char> {
    "%H%M"@
}

/// The format of a date and time together in a contest log.
pub open spec fn log_moment_format() -> Seq<char> {
    "%Y-%m-%d %H%M"@
}

/// `Decimal::from_str`: the number a text denotes, `None` where it denotes none.
/// The result depends on the text alone.
#[verifier::external_body]
pub(crate) fn parse_decimal(text: &str) -> (r: Option<Decimal>)
    ensures
        r == decimal_parsed(text@),
{
    Decimal::from_str(text).ok()
}

/// `Decimal`'s `Display`, through `to_string`: the number as decimal text.
#[verifier::external_body]
pub(crate) fn format_decimal(number: &Decimal) -> (r: String)
    ensures
        r@ == decimal_text(*number),
{
    number.to_string()
}

/// `NaiveDate::parse_from_str`: the date a text denotes under `format`,
/// `None` where the text does not match it.
#[verifier::external_body]
pub(crate) fn parse_date(text: &str, format: &str) -> (r: Option<NaiveDate>)
    ensures
        r == date_parsed(text@, format@),
{
    NaiveDate::parse_from_str(text, format).ok()
}

/// `NaiveDate::format`, written out: the date as text under `format`.
/// Writing fails on a format that asks a date for what it lacks, so only
/// the two formats of dates are admitted.
#[verifier::external_body]
pub(crate) fn format_date(date: &NaiveDate, format: &str) -> (r: String)
    requires
        format@ == date_format() || format@ == log_date_format(),
    ensures
        r@ == date_text(*date, format@),
{
    date.format(format).to_string()
}

/// `NaiveTime::parse_from_str`: the time a text denotes under `format`,
/// `None` where the text does not match it.
#[verifier::external_body]
pub(crate) fn parse_time(text: &str, format: &str) -> (r: Option<NaiveTime>)
    ensures
        r == time_parsed(text@, format@),
{
    NaiveTime::parse_from_str(text, format).ok()
}

/// `NaiveTime::format`, written out: the time as text under `format`.
/// Only the two formats of times are admitted, as for dates.
#[verifier::external_body]
pub(crate) fn format_time(time: &NaiveTime, format: &str) -> (r: String)
    requires
        format@ == time_format() || format@ == log_time_format(),
    ensures
        r@ == time_text(*time, format@),
{
    time.format(format).to_string()
}

/// `NaiveDateTime::parse_from_str`: the moment a text denotes under `format`,
/// `None` where the text does not match it.
#[verifier::external_body]
pub(crate) fn parse_moment(text: &str, format: &str) -> (r: Option<NaiveDateTime>)
    ensures
        r == moment_parsed(text@, format@),
{
    NaiveDateTime::parse_from_str(text, format).ok()
}

/// `NaiveDateTime::format`, written out: the moment as text under `format`.
/// Only the two combined formats are admitted.
#[verifier::external_body]
pub(crate) fn format_moment(moment: &NaiveDateTime, format: &str) -> (r: String)
    requires
        format@ == moment_format() || format@ == log_moment_format(),
    ensures
        r@ == moment_text(*moment, format@),
{
    moment.format(format).to_string()
}

/// The moment that `NaiveDateTime::new` makes of a date and a time.
pub uninterp spec fn moment_of(date: NaiveDate, time: NaiveTime) -> NaiveDateTime;

/// Whether one time is earlier than another, as `NaiveTime` orders them.
pub uninterp spec fn time_before(a: NaiveTime, b: NaiveTime) -> bool;

/// The date that `NaiveDate::checked_add_days` gives: so many days later,
/// if the calendar reaches that far.
pub uninterp spec fn date_plus(date: NaiveDate, days: u64) -> Option<NaiveDate>;

/// `NaiveDateTime::new`: the moment at a time of day on a date.
#[verifier::external_body]
pub(crate) fn moment_new(date: NaiveDate, time: NaiveTime) -> (r: NaiveDateTime)
    ensures
        r == moment_of(date, time),
{
    NaiveDateTime::new(date, time)
}

/// `NaiveTime`'s `<`: whether `a` is earlier in the day than `b`.
#[verifier::external_body]
pub(crate) fn time_earlier(a: &NaiveTime, b: &NaiveTime) -> (r: bool)
    ensures
        r == time_before(*a, *b),
{
    a < b
}

/// `NaiveDate::checked_add_days`: the date `days` days later, `None` where
/// it would be out of range.
#[verifier::external_body]
pub(crate) fn date_add_days(date: NaiveDate, days: u64) -> (r: Option<NaiveDate>)
    ensures
        r == date_plus(date, days),
{
    date.checked_add_days(Days::new(days))
}

} // verus!
