//! Optional transformations of records: derived fields and exclusions.

use crate::cistring::name_key;
use crate::cistring::same_name;
use crate::datum::Datum;
use crate::datum::Value;
use crate::error::Error;
use crate::record::lookup;
use crate::record::Record;
use crate::record::RecordView;
use crate::text::char_is_letter;
use crate::text::char_is_upper;
use crate::text::letter_char;
use crate::text::text_upper;
use crate::text::upper_char;
use crate::text::upper_text;
use crate::values::date_add_days;
use crate::values::date_plus;
use crate::values::moment_new;
use crate::values::moment_of;
use crate::values::time_before;
use crate::values::time_earlier;
use chrono::NaiveDate;
use chrono::NaiveTime;
use std::borrow::Cow;
use vstd::prelude::*;
use vstd::string::StrSliceExecFns;

verus! {

/// A record with one more field, unless it has a field of that name, in
/// whatever letter case: then the record as it is.
pub open spec fn with_field(record: RecordView, name: Seq<char>, value: Value) -> RecordView {
    if lookup(record.fields, name) is Some {
        record
    } else {
        RecordView { header: record.header, fields: record.fields.push((name, value)) }
    }
}

/// Adds a field and passes over the refusal of a duplicate.
fn offer(record: &mut Record, name: &str, value: Datum)
    ensures
        final(record)@ == with_field(old(record)@, name@, value@),
{
    let _ = record.insert_field(name.to_owned(), value);
}

/// The text of a datum, owned.
fn text_of(value: &Datum) -> (r: String)
    ensures
        r@ == value@.text(),
{
    match value.as_str() {
        Cow::Borrowed(b) => b.to_owned(),
        Cow::Owned(o) => o,
    }
}

/// A band as it is where every character is upper case or no letter, else
/// in upper case.
pub open spec fn band_text(text: Seq<char>) -> Seq<char> {
    if forall|i: int|
        0 <= i < text.len() ==> upper_char(#[trigger] text[i]) || !letter_char(text[i]) {
        text
    } else {
        upper_text(text)
    }
}

/// A record with the field `:band`: the band in upper case. Without a
/// field `band` the record stays as it is.
pub open spec fn band_normalized(record: RecordView) -> RecordView {
    match lookup(record.fields, "band"@) {
        Some(band) => with_field(record, ":band"@, Value::Text(band_text(band.text()))),
        None => record,
    }
}

/// Normalize band field to uppercase, as the field `:band`.
pub fn normalize_band(record: &mut Record)
    ensures
        final(record)@ == band_normalized(old(record)@),
{
    let band = match record.get("band") {
        Some(b) => text_of(b),
        None => {
            return ;
        },
    };
    let text = band.as_str();
    let n: usize = text.unicode_len();
    let mut i: usize = 0;
    let mut plain: bool = true;
    while i < n && plain
        invariant
            i <= n,
            n == text@.len(),
            plain ==> forall|j: int|
                0 <= j < i ==> upper_char(#[trigger] text@[j]) || !letter_char(text@[j]),
            !plain ==> exists|j: int|
                0 <= j < text@.len() && !(upper_char(#[trigger] text@[j]) || !letter_char(
                    text@[j],
                )),
        decreases n - i + if plain { 1int } else { 0int },
    {
        let c = text.get_char(i);
        if char_is_upper(c) || !char_is_letter(c) {
            i += 1;
        } else {
            plain = false;
        }
    }
    let upper = if plain {
        band.clone()
    } else {
        text_upper(text)
    };
    offer(record, ":band", Datum::String(upper));
}

/// The mode of a record: the first of its fields `mode`, `app_lotw_mode`
/// and `app_lotw_modegroup` that it has.
pub open spec fn source_mode(record: RecordView) -> Option<Value> {
    match lookup(record.fields, "mode"@) {
        Some(m) => Some(m),
        None => match lookup(record.fields, "app_lotw_mode"@) {
            Some(m) => Some(m),
            None => lookup(record.fields, "app_lotw_modegroup"@),
        },
    }
}

/// Whether a submode of MFSK counts as a mode of its own: FT4 and Q65, in
/// whatever letter case.
pub open spec fn promoted(sub: Seq<char>) -> bool {
    name_key(sub) == name_key("FT4"@) || name_key(sub) == name_key("Q65"@)
}

/// The mode to record: the submode where the mode is MFSK and the submode
/// is promoted, else the mode.
pub open spec fn chosen_mode(mode: Seq<char>, sub: Option<Value>) -> Seq<char> {
    match sub {
        Some(s) => if name_key(mode) == name_key("MFSK"@) && promoted(s.text()) {
            s.text()
        } else {
            mode
        },
        None => mode,
    }
}

/// A record with the field `:mode`. Without a mode the record stays as it
/// is.
pub open spec fn mode_normalized(record: RecordView) -> RecordView {
    match source_mode(record) {
        Some(m) => with_field(
            record,
            ":mode"@,
            Value::Text(chosen_mode(m.text(), lookup(record.fields, "submode"@))),
        ),
        None => record,
    }
}

/// Normalize mode field from multiple possible source fields.
///
/// Coalesce mode from `mode`, `app_lotw_mode`, or `app_lotw_modegroup`
/// fields, and promote to full modes the modes that LOTW considers submodes
/// of MFSK (i.e. FT4, Q65). The result is the field `:mode`.
pub fn normalize_mode(record: &mut Record)
    ensures
        final(record)@ == mode_normalized(old(record)@),
{
    let found = match record.get("mode") {
        Some(m) => Some(m),
        None => match record.get("app_lotw_mode") {
            Some(m) => Some(m),
            None => record.get("app_lotw_modegroup"),
        },
    };
    let mode = match found {
        Some(m) => text_of(m),
        None => {
            return ;
        },
    };
    let chosen = match record.get("submode") {
        Some(s) => {
            let sub = text_of(s);
            if same_name(mode.as_str(), "MFSK") && (same_name(sub.as_str(), "FT4") || same_name(
                sub.as_str(),
                "Q65",
            )) {
                sub
            } else {
                mode
            }
        },
        None => mode,
    };
    offer(record, ":mode", Datum::String(chosen));
}

/// The date of a field, if the record has the field and it holds or spells
/// a date.
pub open spec fn date_of(record: RecordView, name: Seq<char>) -> Option<NaiveDate> {
    match lookup(record.fields, name) {
        Some(v) => v.as_date(),
        None => None,
    }
}

/// The time of a field, if the record has the field and it holds or spells
/// a time.
pub open spec fn time_of(record: RecordView, name: Seq<char>) -> Option<NaiveTime> {
    match lookup(record.fields, name) {
        Some(v) => v.as_time(),
        None => None,
    }
}

/// The day on which a contact ended: the date of `qso_date_off` if the
/// record has it; else the day it began, or the day after where it ended
/// at an earlier time of day than it began. `None` where that day is out
/// of the calendar's range.
pub open spec fn closing_day(
    date: NaiveDate,
    date_off: Option<NaiveDate>,
    time_on: NaiveTime,
    time_off: NaiveTime,
) -> Option<NaiveDate> {
    match date_off {
        Some(d) => Some(d),
        None => if time_before(time_off, time_on) {
            date_plus(date, 1)
        } else {
            Some(date)
        },
    }
}

/// Whether the day on which the contact ended can be told: always, but
/// where it is the day after the last of the calendar.
pub open spec fn times_in_range(record: RecordView) -> bool {
    match (date_of(record, "qso_date"@), time_of(record, "time_on"@), time_of(
        record,
        "time_off"@,
    )) {
        (Some(date), Some(time_on), Some(time_off)) => closing_day(
            date,
            date_of(record, "qso_date_off"@),
            time_on,
            time_off,
        ) is Some,
        _ => true,
    }
}

/// A record with the fields `:time_on` and `:time_off`: the moments at
/// which the contact began and ended. Without a date and a time to begin
/// with, the record stays as it is; without a time to end with it gets
/// `:time_on` alone.
pub open spec fn times_normalized(record: RecordView) -> RecordView {
    match (date_of(record, "qso_date"@), time_of(record, "time_on"@)) {
        (Some(date), Some(time_on)) => {
            let began = with_field(
                record,
                ":time_on"@,
                Value::DateTime(moment_of(date, time_on)),
            );
            match time_of(record, "time_off"@) {
                Some(time_off) => match closing_day(
                    date,
                    date_of(record, "qso_date_off"@),
                    time_on,
                    time_off,
                ) {
                    Some(day) => with_field(
                        began,
                        ":time_off"@,
                        Value::DateTime(moment_of(day, time_off)),
                    ),
                    None => began,
                },
                None => began,
            }
        },
        _ => record,
    }
}

fn field_date(record: &Record, name: &str) -> (r: Option<NaiveDate>)
    ensures
        r == date_of(record@, name@),
{
    match record.get(name) {
        Some(v) => v.as_date(),
        None => None,
    }
}

fn field_time(record: &Record, name: &str) -> (r: Option<NaiveTime>)
    ensures
        r == time_of(record@, name@),
{
    match record.get(name) {
        Some(v) => v.as_time(),
        None => None,
    }
}

/// Whether the day on which the contact ended can be told.
/// [`normalize_times`] asks for it.
pub fn times_fit(record: &Record) -> (r: bool)
    ensures
        r == times_in_range(record@),
{
    let date = field_date(record, "qso_date");
    let time_on = field_time(record, "time_on");
    let time_off = field_time(record, "time_off");
    match (date, time_on, time_off) {
        (Some(date), Some(time_on), Some(time_off)) => {
            match field_date(record, "qso_date_off") {
                Some(_) => true,
                None => !time_earlier(&time_off, &time_on) || date_add_days(date, 1).is_some(),
            }
        },
        _ => true,
    }
}

/// Normalize date and time fields from multiple possible source fields into
/// combined datetime values.
///
/// Create `:time_on` and `:time_off` fields from separate date/time
/// components. Handle date crossing when time_off is earlier than time_on.
pub fn normalize_times(record: &mut Record)
    requires
        times_in_range(old(record)@),
    ensures
        final(record)@ == times_normalized(old(record)@),
{
    let date = field_date(record, "qso_date");
    let date_off = field_date(record, "qso_date_off");
    let time_on = field_time(record, "time_on");
    let time_off = field_time(record, "time_off");
    match (date, time_on) {
        (Some(date), Some(time_on)) => {
            offer(record, ":time_on", Datum::DateTime(moment_new(date, time_on)));
            match time_off {
                Some(time_off) => {
                    let day = match date_off {
                        Some(d) => d,
                        None => if time_earlier(&time_off, &time_on) {
                            match date_add_days(date, 1) {
                                Some(d) => d,
                                None => date,
                            }
                        } else {
                            date
                        },
                    };
                    offer(record, ":time_off", Datum::DateTime(moment_new(day, time_off)));
                },
                None => {},
            }
        },
        _ => {},
    }
}

/// [`normalize_times`] where the day on which the contact ended can be
/// told; else the record stays as it is and `false` is returned.
pub fn try_normalize_times(record: &mut Record) -> (done: bool)
    ensures
        done == times_in_range(old(record)@),
        done ==> final(record)@ == times_normalized(old(record)@),
        !done ==> final(record)@ == old(record)@,
{
    if times_fit(record) {
        normalize_times(record);
        true
    } else {
        false
    }
}

/// A change that a stream adapter makes to each record.
pub trait Transform {
    /// Whether `after` is what the change makes of `before`.
    spec fn changes(&self, before: RecordView, after: RecordView) -> bool;

    /// Change one record in place.
    fn apply(&mut self, record: &mut Record)
        ensures
            old(self).changes(old(record)@, final(record)@),
    ;
}

/// A test by which a stream adapter keeps or drops each record.
pub trait Predicate {
    /// Whether a record is kept.
    spec fn keeps(&self, record: RecordView) -> bool;

    /// Test one record.
    fn keep(&mut self, record: &Record) -> (r: bool)
        ensures
            r == old(self).keeps(record@),
    ;
}

/// Stream adapter that applies an in-place transformation to each record.
pub struct Normalize<F> {
    f: F,
}

impl<F: Transform> Normalize<F> {
    /// The transformation.
    pub closed spec fn inner(&self) -> F {
        self.f
    }

    /// Make an adapter of a transformation.
    pub fn new(f: F) -> (r: Self)
        ensures
            r.inner() == f,
    {
        Normalize { f }
    }

    /// Take one item of the stream: a record is changed and passed on, an
    /// error is passed on as it is.
    pub fn process(&mut self, item: Result<Record, Error>) -> (r: Result<Record, Error>)
        ensures
            match item {
                Ok(record) => r matches Ok(after) && old(self).inner().changes(record@, after@),
                Err(e) => r == Err::<Record, Error>(e),
            },
    {
        match item {
            Ok(record) => {
                let mut record = record;
                self.f.apply(&mut record);
                Ok(record)
            },
            Err(e) => Err(e),
        }
    }
}

/// Stream adapter that yields or removes records based on a predicate.
pub struct Filter<F> {
    f: F,
}

impl<F: Predicate> Filter<F> {
    /// The predicate.
    pub closed spec fn inner(&self) -> F {
        self.f
    }

    /// Make an adapter of a predicate.
    pub fn new(f: F) -> (r: Self)
        ensures
            r.inner() == f,
    {
        Filter { f }
    }

    /// Take one item of the stream: a record is passed on if the predicate
    /// keeps it and dropped if not, an error is passed on as it is. `None`
    /// asks for the next item.
    pub fn process(&mut self, item: Result<Record, Error>) -> (r: Option<Result<Record, Error>>)
        ensures
            match item {
                Ok(record) => if old(self).inner().keeps(record@) {
                    r == Some(Ok::<Record, Error>(record))
                } else {
                    r is None
                },
                Err(e) => r == Some(Err::<Record, Error>(e)),
            },
    {
        match item {
            Ok(record) => {
                if self.f.keep(&record) {
                    Some(Ok(record))
                } else {
                    None
                }
            },
            Err(e) => Some(Err(e)),
        }
    }
}

/// The transformation of [`try_normalize_times`].
pub struct Times;

impl Transform for Times {
    open spec fn changes(&self, before: RecordView, after: RecordView) -> bool {
        after == if times_in_range(before) {
            times_normalized(before)
        } else {
            before
        }
    }

    fn apply(&mut self, record: &mut Record) {
        let _ = try_normalize_times(record);
    }
}

/// The transformation of [`normalize_mode`].
pub struct Mode;

impl Transform for Mode {
    open spec fn changes(&self, before: RecordView, after: RecordView) -> bool {
        after == mode_normalized(before)
    }

    fn apply(&mut self, record: &mut Record) {
        normalize_mode(record);
    }
}

/// The transformation of [`normalize_band`].
pub struct Band;

impl Transform for Band {
    open spec fn changes(&self, before: RecordView, after: RecordView) -> bool {
        after == band_normalized(before)
    }

    fn apply(&mut self, record: &mut Record) {
        normalize_band(record);
    }
}

/// The predicate that drops header records.
pub struct Headers;

impl Predicate for Headers {
    open spec fn keeps(&self, record: RecordView) -> bool {
        !record.header
    }

    fn keep(&mut self, record: &Record) -> (r: bool) {
        !record.is_header()
    }
}

/// Exclude header records from the stream.
pub fn exclude_header() -> (r: Filter<Headers>)
    ensures
        r.inner() == Headers,
{
    Filter::new(Headers)
}

/// Whether a callsign is one of a list, in whatever letter case.
pub open spec fn listed(calls: Seq<Seq<char>>, call: Seq<char>) -> bool {
    exists|i: int| 0 <= i < calls.len() && name_key(#[trigger] calls[i]) == name_key(call)
}

/// The predicate that drops the records of listed callsigns.
pub struct Callsigns {
    excluded: Vec<String>,
}

impl View for Callsigns {
    type V = Seq<Seq<char>>;

    closed spec fn view(&self) -> Seq<Seq<char>> {
        self.excluded@.map_values(|s: String| s@)
    }
}

impl Predicate for Callsigns {
    open spec fn keeps(&self, record: RecordView) -> bool {
        match lookup(record.fields, "call"@) {
            Some(call) => !listed(self@, call.text()),
            None => true,
        }
    }

    fn keep(&mut self, record: &Record) -> (r: bool) {
        let call = match record.get("call") {
            Some(c) => text_of(c),
            None => {
                return true;
            },
        };
        let mut i: usize = 0;
        while i < self.excluded.len()
            invariant
                i <= self.excluded.len(),
                *self == *old(self),
                lookup(record@.fields, "call"@) matches Some(v) && v.text() == call@,
                forall|j: int| 0 <= j < i ==> name_key(#[trigger] self@[j]) != name_key(call@),
            decreases self.excluded.len() - i,
        {
            if same_name(self.excluded[i].as_str(), call.as_str()) {
                assert(name_key(self@[i as int]) == name_key(call@));
                assert(listed(old(self)@, call@));
                return false;
            }
            i += 1;
        }
        true
    }
}

/// Exclude records matching specified callsigns.
///
/// Case-insensitive comparison. Records without a `call` field pass
/// through.
pub fn exclude_callsigns(callsigns: &[&str]) -> (r: Filter<Callsigns>)
    ensures
        r.inner()@ == callsigns@.map_values(|c: &str| upper_text(c@)),
{
    let mut excluded: Vec<String> = Vec::new();
    let mut i: usize = 0;
    while i < callsigns.len()
        invariant
            i <= callsigns.len(),
            excluded@.len() == i,
            forall|j: int| 0 <= j < i ==> (#[trigger] excluded@[j])@ == upper_text(callsigns@[j]@),
        decreases callsigns.len() - i,
    {
        excluded.push(text_upper(callsigns[i]));
        i += 1;
    }
    let set = Callsigns { excluded };
    assert(set@ =~= callsigns@.map_values(|c: &str| upper_text(c@)));
    Filter::new(set)
}

} // verus!
