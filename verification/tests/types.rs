use adif::Datum;
use adif::Error;
use adif::Field;
use adif::Position;
use adif::Record;
use adif::Tag;
use chrono::NaiveDate;
use chrono::NaiveDateTime;
use chrono::NaiveTime;
use rust_decimal::Decimal;
use std::io;
use std::str::FromStr;

fn invalid_format(message: &str, line: usize, column: usize, byte: usize) -> Error {
    Error::InvalidFormat {
        message: message.to_string(),
        position: Position { line, column, byte },
    }
}

#[test]
fn tag_as_field_returns_some_for_field() {
    let field = Field::new("call", "W1AW");
    let tag = Tag::Field(field);
    assert!(tag.as_field().is_some());
    assert_eq!(tag.as_field().unwrap().name(), "call");
}

#[test]
fn tag_as_field_returns_none_for_eoh() {
    let tag = Tag::Eoh;
    assert!(tag.as_field().is_none());
}

#[test]
fn tag_as_field_returns_none_for_eor() {
    let tag = Tag::Eor;
    assert!(tag.as_field().is_none());
}

#[test]
fn tag_is_eoh_true_for_eoh() {
    let tag = Tag::Eoh;
    assert!(tag.is_eoh());
}

#[test]
fn tag_is_eoh_false_for_eor() {
    let tag = Tag::Eor;
    assert!(!tag.is_eoh());
}

#[test]
fn tag_is_eoh_false_for_field() {
    let field = Field::new("call", "W1AW");
    let tag = Tag::Field(field);
    assert!(!tag.is_eoh());
}

#[test]
fn tag_is_eor_true_for_eor() {
    let tag = Tag::Eor;
    assert!(tag.is_eor());
}

#[test]
fn tag_is_eor_false_for_eoh() {
    let tag = Tag::Eoh;
    assert!(!tag.is_eor());
}

#[test]
fn tag_is_eor_false_for_field() {
    let field = Field::new("call", "W1AW");
    let tag = Tag::Field(field);
    assert!(!tag.is_eor());
}

#[test]
fn as_bool_unsupported_types() {
    let d = Datum::Date(NaiveDate::from_ymd_opt(2024, 1, 1).unwrap());
    assert!(d.as_bool().is_none());

    let n = Datum::Number(Decimal::from(123));
    assert!(n.as_bool().is_none());

    let t = Datum::Time(NaiveTime::from_hms_opt(12, 30, 0).unwrap());
    assert!(t.as_bool().is_none());

    let s = Datum::String("abc".to_string());
    assert!(s.as_bool().is_none());
}

#[test]
fn as_number_unsupported_types() {
    let b = Datum::Boolean(true);
    assert!(b.as_number().is_none());

    let d = Datum::Date(NaiveDate::from_ymd_opt(2024, 1, 1).unwrap());
    assert!(d.as_number().is_none());

    let t = Datum::Time(NaiveTime::from_hms_opt(12, 30, 0).unwrap());
    assert!(t.as_number().is_none());
}

#[test]
fn as_date_unsupported_types() {
    let b = Datum::Boolean(false);
    assert!(b.as_date().is_none());

    let n = Datum::Number(Decimal::from(123));
    assert!(n.as_date().is_none());

    let t = Datum::Time(NaiveTime::from_hms_opt(12, 30, 0).unwrap());
    assert!(t.as_date().is_none());
}

#[test]
fn as_time_unsupported_types() {
    let d = Datum::Date(NaiveDate::from_ymd_opt(2024, 1, 1).unwrap());
    assert!(d.as_time().is_none());

    let b = Datum::Boolean(true);
    assert!(b.as_time().is_none());

    let n = Datum::Number(Decimal::from(456));
    assert!(n.as_time().is_none());
}

#[test]
fn as_datetime_unsupported_types() {
    let t = Datum::Time(NaiveTime::from_hms_opt(14, 30, 0).unwrap());
    assert!(t.as_datetime().is_none());

    let d = Datum::Date(NaiveDate::from_ymd_opt(2024, 1, 1).unwrap());
    assert!(d.as_datetime().is_none());

    let b = Datum::Boolean(false);
    assert!(b.as_datetime().is_none());
}

#[test]
fn error_eq_io_errors() {
    let e1 = Error::Io(io::Error::new(io::ErrorKind::NotFound, "test"));
    let e2 = Error::Io(io::Error::new(io::ErrorKind::NotFound, "test"));
    let e3 = Error::Io(io::Error::new(io::ErrorKind::PermissionDenied, "test"));

    assert_eq!(e1, e2);
    assert_ne!(e1, e3);
    assert_ne!(e1, invalid_format("msg", 1, 1, 0));
}

#[test]
fn position_display() {
    let pos = Position {
        line: 5,
        column: 12,
        byte: 42,
    };
    assert_eq!(pos.to_string(), "line 5, column 12 (byte 42)");
}

#[test]
fn into_fields() {
    let mut record = Record::new();
    record.insert("call", "W1AW").unwrap();
    record.insert("freq", Decimal::from(14)).unwrap();

    let fields: Vec<_> = record.into_fields();
    assert_eq!(fields.len(), 2);
    assert_eq!(fields[0].0, "call");
    assert_eq!(fields[0].1.as_str(), "W1AW");
    assert_eq!(fields[1].0, "freq");
    assert_eq!(fields[1].1.as_number().unwrap(), Decimal::from(14));
}

#[test]
fn as_str_roundtrip() {
    let b = true;
    let datum = Datum::Boolean(b);
    let s = datum.as_str();
    assert_eq!(s, "Y");
    assert_eq!(Datum::String(s.to_string()).as_bool().unwrap(), b);

    let b = false;
    let datum = Datum::Boolean(b);
    let s = datum.as_str();
    assert_eq!(s, "N");
    assert_eq!(Datum::String(s.to_string()).as_bool().unwrap(), b);

    let n = Decimal::from_str("14.070").unwrap();
    let datum = Datum::Number(n);
    let s = datum.as_str();
    assert_eq!(Datum::String(s.to_string()).as_number().unwrap(), n);

    let d = NaiveDate::from_ymd_opt(2023, 12, 15).unwrap();
    let datum = Datum::Date(d);
    let s = datum.as_str();
    assert_eq!(s, "20231215");
    assert_eq!(Datum::String(s.to_string()).as_date().unwrap(), d);

    let t = NaiveTime::from_hms_opt(14, 30, 0).unwrap();
    let datum = Datum::Time(t);
    let s = datum.as_str();
    assert_eq!(s, "143000");
    assert_eq!(Datum::String(s.to_string()).as_time().unwrap(), t);

    let dt = NaiveDateTime::new(d, t);
    let datum = Datum::DateTime(dt);
    let s = datum.as_str();
    assert_eq!(s, "20231215 143000");
    assert_eq!(Datum::String(s.to_string()).as_datetime().unwrap(), dt);

    let str = "hello world";
    let datum = Datum::String(str.to_string());
    let s = datum.as_str();
    assert_eq!(s, str);
}

#[test]
fn as_bool_reads_both_letter_cases() {
    assert_eq!(Datum::from("Y").as_bool(), Some(true));
    assert_eq!(Datum::from("y").as_bool(), Some(true));
    assert_eq!(Datum::from("N").as_bool(), Some(false));
    assert_eq!(Datum::from("n").as_bool(), Some(false));
    assert_eq!(Datum::from("YY").as_bool(), None);
    assert_eq!(Datum::from("").as_bool(), None);
    assert_eq!(Datum::from(true).as_bool(), Some(true));
}

#[test]
fn number_text_keeps_its_scale() {
    let n = Decimal::from_str("14.070").unwrap();
    assert_eq!(Datum::Number(n).as_str(), "14.070");
    assert_eq!(Datum::from("7.5").as_number(), Some(Decimal::from_str("7.5").unwrap()));
    assert_eq!(Datum::from("seven").as_number(), None);
}

#[test]
fn datum_from_each_kind() {
    let d = NaiveDate::from_ymd_opt(2024, 1, 15).unwrap();
    let t = NaiveTime::from_hms_opt(14, 30, 0).unwrap();
    assert_eq!(Datum::from("x"), Datum::String("x".to_string()));
    assert_eq!(Datum::from("x".to_string()), Datum::String("x".to_string()));
    assert_eq!(Datum::from(d), Datum::Date(d));
    assert_eq!(Datum::from(t), Datum::Time(t));
    assert_eq!(Datum::from(NaiveDateTime::new(d, t)), Datum::DateTime(NaiveDateTime::new(d, t)));
    assert_eq!(Datum::from(Decimal::from(3)), Datum::Number(Decimal::from(3)));
    assert_eq!(Datum::from(d).clone(), Datum::Date(d));
}

#[test]
fn record_keeps_insertion_order_and_finds_any_case() {
    let mut record = Record::new();
    record.insert("Call", "W1AW").unwrap();
    record.insert("freq", "14.074").unwrap();
    record.insert("MODE", "FT8").unwrap();
    assert!(!record.is_header());
    assert_eq!(record.len(), 3);
    let names: Vec<&str> = record.fields().iter().map(|(n, _)| *n).collect();
    assert_eq!(names, vec!["Call", "freq", "MODE"]);
    assert_eq!(record.get("CALL").unwrap().as_str(), "W1AW");
    assert_eq!(record.get("mode").unwrap().as_str(), "FT8");
    assert!(record.get("band").is_none());
    assert_eq!(record.field_at(1).unwrap().0, "freq");
    assert!(record.field_at(3).is_none());
}

#[test]
fn duplicate_insert_leaves_record_unmodified() {
    let mut record = Record::new_header();
    record.insert("call", "W1AW").unwrap();
    let before = record.clone();
    let err = record.insert("CALL", "AB9BH").unwrap_err();
    assert_eq!(record, before);
    assert_eq!(record.get("call").unwrap().as_str(), "W1AW");
    assert_eq!(record.len(), 1);
    match err {
        Error::DuplicateKey { key, record: held } => {
            assert_eq!(key, "CALL");
            assert_eq!(held, before);
            assert!(held.is_header());
        }
        other => panic!("expected a duplicate key, got {:?}", other),
    }
}

#[test]
fn records_compare_fields_in_any_order() {
    let mut a = Record::new();
    a.insert("call", "W1AW").unwrap();
    a.insert("mode", "CW").unwrap();
    let mut b = Record::new();
    b.insert("MODE", "CW").unwrap();
    b.insert("Call", "W1AW").unwrap();
    assert_eq!(a, b);
    let mut c = Record::new_header();
    c.insert("call", "W1AW").unwrap();
    c.insert("mode", "CW").unwrap();
    assert_ne!(a, c);
    assert_eq!(Record::default(), Record::new());
}

#[test]
fn errors_compare_by_kind_and_content() {
    assert_eq!(invalid_format("a", 1, 2, 3), invalid_format("a", 1, 2, 3));
    assert_ne!(invalid_format("a", 1, 2, 3), invalid_format("a", 1, 2, 4));
    assert_ne!(invalid_format("a", 1, 2, 3), invalid_format("b", 1, 2, 3));
    let out = Error::CannotOutput { typ: "DateTime", reason: "split into date and time fields" };
    let same = Error::CannotOutput { typ: "DateTime", reason: "split into date and time fields" };
    assert_eq!(out, same);
    assert_ne!(out, Error::CannotOutput { typ: "Date", reason: "split into date and time fields" });
    let d1 = Error::DuplicateKey { key: "call".to_string(), record: Record::new() };
    let d2 = Error::DuplicateKey { key: "call".to_string(), record: Record::new_header() };
    assert_ne!(d1, d2);
    assert_ne!(d1, out);
}

#[test]
fn field_parts() {
    let field = Field::from_parts("freq".to_string(), Datum::from("14.074"));
    assert_eq!(field.name(), "freq");
    assert_eq!(field.value(), &Datum::from("14.074"));
    assert_eq!(field.clone(), field);
    let (name, value) = field.into_parts();
    assert_eq!(name, "freq");
    assert_eq!(value.as_str(), "14.074");
}
