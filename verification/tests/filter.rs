use adif::filter::exclude_callsigns;
use adif::filter::exclude_header;
use adif::filter::normalize_band;
use adif::filter::normalize_mode;
use adif::filter::normalize_times;
use adif::filter::times_fit;
use adif::filter::try_normalize_times;
use adif::filter::Band;
use adif::filter::Filter;
use adif::filter::Mode;
use adif::filter::Normalize;
use adif::filter::Predicate;
use adif::filter::Times;
use adif::filter::Transform;
use adif::stream::read_records;
use adif::Datum;
use adif::Error;
use adif::Position;
use adif::Record;
use chrono::NaiveDate;
use chrono::NaiveDateTime;

fn dt(year: i32, month: u32, day: u32, hour: u32, min: u32, sec: u32) -> NaiveDateTime {
    NaiveDate::from_ymd_opt(year, month, day).unwrap().and_hms_opt(hour, min, sec).unwrap()
}

fn parse_many(adif: &str, ignore_partial: bool) -> Vec<Result<Record, Error>> {
    let (records, error) = read_records(&[adif.as_bytes()], ignore_partial);
    let mut items: Vec<Result<Record, Error>> = records.into_iter().map(Ok).collect();
    if let Some(e) = error {
        items.push(Err(e));
    }
    items
}

fn parse_one(adif: &str) -> Record {
    let mut items = parse_many(adif, true);
    assert_eq!(items.len(), 1);
    items.remove(0).unwrap()
}

fn parse_norm_mode(adif: &str) -> Record {
    Normalize::new(Mode).process(Ok(parse_one(adif))).unwrap()
}

fn parse_norm_band(adif: &str) -> Record {
    Normalize::new(Band).process(Ok(parse_one(adif))).unwrap()
}

fn filtered<F: Predicate>(adif: &str, ignore_partial: bool, mut filter: Filter<F>) -> Vec<Result<Record, Error>> {
    parse_many(adif, ignore_partial).into_iter().filter_map(|item| filter.process(item)).collect()
}

fn calls(items: &[Result<Record, Error>]) -> Vec<String> {
    items
        .iter()
        .map(|item| item.as_ref().unwrap().get("call").unwrap().as_str().into_owned())
        .collect()
}

fn partial_data(line: usize, column: usize, byte: usize) -> Error {
    Error::InvalidFormat {
        message: "partial data at end of stream".to_string(),
        position: Position { line, column, byte },
    }
}

fn assert_time_on_only(rec: &Record, expected_on: NaiveDateTime) {
    let time_on = rec.get(":time_on").unwrap().as_datetime().unwrap();
    assert_eq!(time_on, expected_on);
    assert!(rec.get(":time_off").is_none());
}

fn assert_both_times(rec: &Record, expected_on: NaiveDateTime, expected_off: NaiveDateTime) {
    let time_on = rec.get(":time_on").unwrap().as_datetime().unwrap();
    assert_eq!(time_on, expected_on);
    let time_off = rec.get(":time_off").unwrap().as_datetime().unwrap();
    assert_eq!(time_off, expected_off);
}

#[test]
fn test_normalize_mode_from_mode() {
    let record = parse_norm_mode("<mode:3>SSB<eor>");
    assert_eq!(record.get(":mode").unwrap().as_str(), "SSB");
}

#[test]
fn test_normalize_mode_from_app_lotw_mode() {
    let record = parse_norm_mode("<app_lotw_mode:3>FT8<eor>");
    assert_eq!(record.get(":mode").unwrap().as_str(), "FT8");
}

#[test]
fn test_normalize_mode_from_modegroup() {
    let record = parse_norm_mode("<app_lotw_modegroup:4>RTTY<eor>");
    assert_eq!(record.get(":mode").unwrap().as_str(), "RTTY");
}

#[test]
fn test_normalize_mode_precedence() {
    let record = parse_norm_mode("<mode:3>SSB<app_lotw_mode:3>FT8<eor>");
    assert_eq!(record.get(":mode").unwrap().as_str(), "SSB");
}

#[test]
fn test_normalize_mode_no_source() {
    let record = parse_norm_mode("<call:4>W1AW<eor>");
    assert!(record.get(":mode").is_none());
}

#[test]
fn normalize_mode_mfsk_with_ft4() {
    let record = parse_norm_mode("<mode:4>MFSK<submode:3>FT4<eor>");
    assert_eq!(record.get(":mode").unwrap().as_str(), "FT4");
}

#[test]
fn normalize_mode_mfsk_with_q65() {
    let record = parse_norm_mode("<mode:4>MFSK<submode:3>Q65<eor>");
    assert_eq!(record.get(":mode").unwrap().as_str(), "Q65");
}

#[test]
fn normalize_mode_mfsk_with_other_submode() {
    let record = parse_norm_mode("<mode:4>MFSK<submode:3>XXX<eor>");
    assert_eq!(record.get(":mode").unwrap().as_str(), "MFSK");
}

#[test]
fn normalize_mode_mfsk_no_submode() {
    let record = parse_norm_mode("<mode:4>MFSK<eor>");
    assert_eq!(record.get(":mode").unwrap().as_str(), "MFSK");
}

#[test]
fn normalize_mode_non_mfsk_with_submode() {
    let record = parse_norm_mode("<mode:3>SSB<submode:3>FT4<eor>");
    assert_eq!(record.get(":mode").unwrap().as_str(), "SSB");
}

#[test]
fn normalize_mode_case_insensitive() {
    let record = parse_norm_mode("<mode:4>mfsk<submode:3>ft4<eor>");
    assert_eq!(record.get(":mode").unwrap().as_str(), "ft4");
}

#[test]
fn normalize_mode_keeps_a_field_that_is_there() {
    let mut record = parse_one("<mode:3>FT8<eor>");
    record.insert(":MODE", "CW").unwrap();
    let before = record.clone();
    normalize_mode(&mut record);
    assert_eq!(record.fields(), before.fields());
    assert_eq!(record.get(":mode").unwrap().as_str(), "CW");
}

#[test]
fn normalize_band_uppercase() {
    let record = parse_norm_band("<band:3>20m<eor>");
    assert_eq!(record.get(":band").unwrap().as_str(), "20M");
}

#[test]
fn normalize_band_already_upper() {
    let record = parse_norm_band("<band:3>40M<eor>");
    assert_eq!(record.get(":band").unwrap().as_str(), "40M");
}

#[test]
fn normalize_band_no_band() {
    let record = parse_norm_band("<call:4>W1AW<eor>");
    assert!(record.get(":band").is_none());
}

#[test]
fn normalize_band_twice_changes_nothing_more() {
    let mut record = parse_one("<band:4>70cm<eor>");
    normalize_band(&mut record);
    let once = record.clone();
    normalize_band(&mut record);
    assert_eq!(record.fields(), once.fields());
    assert_eq!(record.fields(), vec![("band", &Datum::from("70cm")), (":band", &Datum::from("70CM"))]);
}

#[test]
fn normalize_times_builds_both_moments() {
    let text = "<qso_date:8:d>20231215<time_on:6:t>143000<eor>
         <qso_date:8>20231215<time_on:6>143000<eor>
         <qso_date:8>20231215<time_on:6>143000<time_off:6>153000<eor>
         <qso_date:8>20231215<time_on:6>233000<time_off:6>001500<eor>
         <qso_date:8>20231215<time_on:6>233000<qso_date_off:8>20231216<time_off:6>013000<eor>
         <qso_date:8>20231231<time_on:6>233000<qso_date_off:8>20240101<time_off:6>003000<eor>
         <qso_date:8>20231215<eor>";
    let mut adapter = Normalize::new(Times);
    let mut s: Vec<Record> = parse_many(text, true)
        .into_iter()
        .map(|item| adapter.process(item).unwrap())
        .collect();
    assert_eq!(s.len(), 7);

    let rec = s.remove(0);
    assert_time_on_only(&rec, dt(2023, 12, 15, 14, 30, 0));

    let rec = s.remove(0);
    assert_time_on_only(&rec, dt(2023, 12, 15, 14, 30, 0));

    let rec = s.remove(0);
    assert_both_times(&rec, dt(2023, 12, 15, 14, 30, 0), dt(2023, 12, 15, 15, 30, 0));

    let rec = s.remove(0);
    assert_both_times(&rec, dt(2023, 12, 15, 23, 30, 0), dt(2023, 12, 16, 0, 15, 0));

    let rec = s.remove(0);
    assert_both_times(&rec, dt(2023, 12, 15, 23, 30, 0), dt(2023, 12, 16, 1, 30, 0));

    let rec = s.remove(0);
    assert_both_times(&rec, dt(2023, 12, 31, 23, 30, 0), dt(2024, 1, 1, 0, 30, 0));

    let rec = s.remove(0);
    assert_eq!(
        rec.get("qso_date").unwrap().as_date().unwrap(),
        NaiveDate::from_ymd_opt(2023, 12, 15).unwrap()
    );
    assert!(rec.get("time_on").is_none());
    assert!(rec.get("time_off").is_none());
    assert!(rec.get(":time_on").is_none());
    assert!(rec.get(":time_off").is_none());
}

#[test]
fn normalize_times_keeps_fields_that_are_there() {
    let mut record = parse_one("<qso_date:8>20240101<time_on:6>120000<time_off:6>130000<eor>");
    record.insert(":time_on", "").unwrap();
    assert!(times_fit(&record));
    normalize_times(&mut record);
    assert_eq!(record.get(":time_on").unwrap(), &Datum::from(""));
    assert_eq!(record.get(":time_off").unwrap(), &Datum::DateTime(dt(2024, 1, 1, 13, 0, 0)));
    assert_eq!(record.len(), 5);
}

#[test]
fn normalize_times_stops_at_the_end_of_the_calendar() {
    let mut record = Record::new();
    record.insert("qso_date", NaiveDate::MAX).unwrap();
    record.insert("time_on", chrono::NaiveTime::from_hms_opt(23, 0, 0).unwrap()).unwrap();
    record.insert("time_off", chrono::NaiveTime::from_hms_opt(1, 0, 0).unwrap()).unwrap();
    assert!(!times_fit(&record));
    let before = record.clone();
    assert!(!try_normalize_times(&mut record));
    assert_eq!(record.fields(), before.fields());
    record.insert("qso_date_off", NaiveDate::MAX).unwrap();
    assert!(times_fit(&record));
    assert!(try_normalize_times(&mut record));
    assert_eq!(record.len(), 6);
    let mut times = Times;
    let mut again = before.clone();
    times.apply(&mut again);
    assert_eq!(again.fields(), before.fields());
}

#[test]
fn exclude_single_callsign() {
    let kept = filtered("<call:4>W1AW<eor><call:5>AB9BH<eor>", true, exclude_callsigns(&["W1AW"]));
    assert_eq!(calls(&kept), vec!["AB9BH"]);
}

#[test]
fn exclude_multiple_callsigns() {
    let kept = filtered(
        "<call:4>W1AW<eor><call:5>AB9BH<eor><call:4>W6RQ<eor>",
        true,
        exclude_callsigns(&["W1AW", "W6RQ"]),
    );
    assert_eq!(calls(&kept), vec!["AB9BH"]);
}

#[test]
fn exclude_callsigns_case_insensitive() {
    let kept = filtered("<call:4>W1AW<eor><call:5>AB9BH<eor>", true, exclude_callsigns(&["w1aw"]));
    assert_eq!(calls(&kept), vec!["AB9BH"]);
    let kept = filtered("<call:4>w1aw<eor><call:5>AB9BH<eor>", true, exclude_callsigns(&["W1aW"]));
    assert_eq!(calls(&kept), vec!["AB9BH"]);
}

#[test]
fn exclude_callsigns_no_match() {
    let kept = filtered("<call:4>W1AW<eor><call:5>AB9BH<eor>", true, exclude_callsigns(&["W6RQ"]));
    assert_eq!(calls(&kept), vec!["W1AW", "AB9BH"]);
}

#[test]
fn exclude_callsigns_missing_call() {
    let kept = filtered("<freq:6>14.070<eor><call:4>W1AW<eor>", true, exclude_callsigns(&["W1AW"]));
    assert_eq!(kept.len(), 1);
    assert!(kept[0].as_ref().unwrap().get("call").is_none());
}

#[test]
fn exclude_header_removes_header() {
    let kept = filtered(
        "<adifver:5>3.1.4<eoh><call:4>W1AW<eor><call:5>AB9BH<eor>",
        true,
        exclude_header(),
    );
    assert_eq!(calls(&kept), vec!["W1AW", "AB9BH"]);
}

#[test]
fn exclude_header_no_header() {
    let kept = filtered("<call:4>W1AW<eor><call:5>AB9BH<eor>", true, exclude_header());
    assert_eq!(calls(&kept), vec!["W1AW", "AB9BH"]);
}

#[test]
fn filter_error_passthrough() {
    let mut kept = filtered(
        "<call:4>W1AW<eor><call:5>AB9BH<eor><bad",
        false,
        exclude_callsigns(&["W1AW"]),
    );
    assert_eq!(kept.len(), 2);
    assert_eq!(kept.remove(0).unwrap().get("call").unwrap().as_str(), "AB9BH");
    assert_eq!(kept.remove(0).unwrap_err(), partial_data(1, 36, 35));
}

#[test]
fn filter_end_of_stream() {
    let kept = filtered("<call:4>W1AW<eor>", true, exclude_callsigns(&[]));
    assert_eq!(calls(&kept), vec!["W1AW"]);
}

#[test]
fn normalize_passes_errors_on() {
    let mut adapter = Normalize::new(Band);
    assert_eq!(adapter.process(Err(partial_data(1, 2, 3))), Err(partial_data(1, 2, 3)));
}

#[test]
fn filter_normalize_mode_from_mode() {
    let mut record = parse_one("<mode:3>SSB<eor>");
    normalize_mode(&mut record);
    assert_eq!(record.get(":mode").unwrap().as_str(), "SSB");
}

#[test]
fn filter_normalize_mode_from_app_lotw_mode() {
    let mut record = parse_one("<app_lotw_mode:3>FT8<eor>");
    normalize_mode(&mut record);
    assert_eq!(record.get(":mode").unwrap().as_str(), "FT8");
}

#[test]
fn filter_normalize_mode_from_modegroup() {
    let mut record = parse_one("<app_lotw_modegroup:4>RTTY<eor>");
    normalize_mode(&mut record);
    assert_eq!(record.get(":mode").unwrap().as_str(), "RTTY");
}

#[test]
fn filter_normalize_mode_precedence() {
    let mut record = parse_one("<mode:3>SSB<app_lotw_mode:3>FT8<eor>");
    normalize_mode(&mut record);
    assert_eq!(record.get(":mode").unwrap().as_str(), "SSB");
}

#[test]
fn filter_normalize_mode_no_source() {
    let mut record = parse_one("<call:4>W1AW<eor>");
    normalize_mode(&mut record);
    assert!(record.get(":mode").is_none());
}

#[test]
fn trickle_exclude_callsigns() {
    let data = b"<call:4>W1AW<eor><call:5>AB9BH<eor><call:4>W6RQ<eor>";
    let pieces: Vec<&[u8]> = data.chunks(1).collect();
    let (records, error) = read_records(&pieces, true);
    assert_eq!(error, None);
    let mut filter = exclude_callsigns(&["W1AW", "W6RQ"]);
    let kept: Vec<Result<Record, Error>> =
        records.into_iter().filter_map(|r| filter.process(Ok(r))).collect();
    assert_eq!(calls(&kept), vec!["AB9BH"]);
}
