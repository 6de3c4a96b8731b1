use adif::Datum;
use adif::Error;
use adif::Field;
use adif::OutputTypes;
use adif::Record;
use adif::RecordSink;
use adif::RecordStream;
use adif::Tag;
use adif::TagEncoder;
use bytes::BytesMut;
use chrono::NaiveDate;
use chrono::NaiveTime;
use rust_decimal::Decimal;
use std::str::FromStr;

fn cannot_output(typ: &'static str, reason: &'static str) -> Error {
    Error::CannotOutput { typ, reason }
}

fn encode_tag(tag: Tag, types: OutputTypes) -> Vec<u8> {
    let mut buf = BytesMut::new();
    TagEncoder::with_types(types).encode(tag, &mut buf).unwrap();
    buf.to_vec()
}

fn encode_field(value: Datum, always: &str, only_non_string: &str, never: &str) {
    let field = Field::new("f", value);
    let out = encode_tag(Tag::Field(field.clone()), OutputTypes::Always);
    assert_eq!(out.as_slice(), always.as_bytes());
    let out = encode_tag(Tag::Field(field.clone()), OutputTypes::OnlyNonString);
    assert_eq!(out.as_slice(), only_non_string.as_bytes());
    let out = encode_tag(Tag::Field(field), OutputTypes::Never);
    assert_eq!(out.as_slice(), never.as_bytes());
}

fn encode_record(record: Record, types: OutputTypes) -> Vec<u8> {
    let mut buf = BytesMut::new();
    RecordSink::with_types(types).encode(record, &mut buf).unwrap();
    buf.to_vec()
}

fn decode_records(bytes: &[u8], ignore_partial: bool) -> Vec<Result<Record, Error>> {
    let mut stream = RecordStream::new(ignore_partial);
    let mut buf = BytesMut::from(bytes);
    let mut out = Vec::new();
    loop {
        match stream.decode(&mut buf) {
            Ok(Some(record)) => out.push(Ok(record)),
            Ok(None) => break,
            Err(e) => {
                out.push(Err(e));
                return out;
            }
        }
    }
    match stream.decode_eof(&mut buf) {
        Ok(Some(record)) => out.push(Ok(record)),
        Ok(None) => {}
        Err(e) => out.push(Err(e)),
    }
    out
}

#[test]
fn tag_sink() {
    let mut buf = BytesMut::new();
    let field = Field::new("call", "W1AW");
    TagEncoder::new().encode(Tag::Field(field), &mut buf).unwrap();
    assert_eq!(&buf[..], b"<call:4>W1AW");
}

#[test]
fn tag_sink_with_types() {
    let mut buf = BytesMut::new();
    let field = Field::new("call", "W1AW");
    TagEncoder::with_types(OutputTypes::Always).encode(Tag::Field(field), &mut buf).unwrap();
    assert_eq!(&buf[..], b"<call:4:s>W1AW");
}

#[test]
fn encode_eoh() {
    let output = encode_tag(Tag::Eoh, OutputTypes::Never);
    assert_eq!(output, b"<eoh>\n");
}

#[test]
fn encode_eor() {
    let output = encode_tag(Tag::Eor, OutputTypes::Never);
    assert_eq!(output, b"<eor>\n");
}

#[test]
fn encode_boolean() {
    encode_field(true.into(), "<f:1:b>Y", "<f:1:b>Y", "<f:1>Y");
    encode_field(false.into(), "<f:1:b>N", "<f:1:b>N", "<f:1>N");
}

#[test]
fn encode_number() {
    encode_field(
        Decimal::from_str("14.074").unwrap().into(),
        "<f:6:n>14.074",
        "<f:6:n>14.074",
        "<f:6>14.074",
    );
}

#[test]
fn encode_date() {
    encode_field(
        NaiveDate::from_ymd_opt(2024, 1, 15).unwrap().into(),
        "<f:8:d>20240115",
        "<f:8:d>20240115",
        "<f:8>20240115",
    );
}

#[test]
fn encode_time() {
    encode_field(
        NaiveTime::from_hms_opt(14, 30, 0).unwrap().into(),
        "<f:6:t>143000",
        "<f:6:t>143000",
        "<f:6>143000",
    );
}

#[test]
fn encode_string() {
    encode_field("foo".into(), "<f:3:s>foo", "<f:3>foo", "<f:3>foo");
}

#[test]
fn datetime_errors() {
    let field = Field::new(
        "timestamp",
        NaiveDate::from_ymd_opt(2024, 1, 15).unwrap().and_hms_opt(14, 30, 0).unwrap(),
    );
    let mut buf = BytesMut::new();
    let err = TagEncoder::new().encode(Tag::Field(field), &mut buf).unwrap_err();
    assert_eq!(err, cannot_output("DateTime", "split into date and time fields"));
}

#[test]
fn encode_datetime_field_fails() {
    let dt = NaiveDate::from_ymd_opt(2024, 1, 15).unwrap().and_hms_opt(14, 30, 45).unwrap();
    let field = Field::new("qso_datetime", dt);

    let mut buf = BytesMut::new();
    let err = TagEncoder::with_types(OutputTypes::Always)
        .encode(Tag::Field(field), &mut buf)
        .unwrap_err();
    assert_eq!(err, cannot_output("DateTime", "split into date and time fields"));
}

#[test]
fn record_sink_basic() {
    let mut record = Record::new();
    record.insert("call", "W1AW").unwrap();
    record.insert("freq", "14.074").unwrap();

    let buf = encode_record(record, OutputTypes::Never);

    let output = String::from_utf8(buf).unwrap();
    assert!(output.contains("<call:4>W1AW"));
    assert!(output.contains("<freq:6>14.074"));
    assert!(output.contains("<eor>\n"));
}

#[test]
fn record_sink_header() {
    let mut header = Record::new_header();
    header.insert("adifver", "3.1.4").unwrap();

    let buf = encode_record(header, OutputTypes::Never);

    let output = String::from_utf8(buf).unwrap();
    assert!(output.contains("<adifver:5>3.1.4"));
    assert!(output.contains("<eoh>\n"));
}

#[test]
fn header_bytes_are_exact() {
    let mut header = Record::new_header();
    header.insert("adifver", "3.1.4").unwrap();
    let mut buf = BytesMut::new();
    RecordSink::new().encode(header, &mut buf).unwrap();
    assert_eq!(&buf[..], b"<adifver:5>3.1.4<eoh>\n");
}

fn create_test_record(call: &str, date: &str, time: &str, freq: &str, mode: &str) -> Record {
    let mut record = Record::new();
    record.insert("call", call).unwrap();
    record.insert("qso_date", date).unwrap();
    record.insert("time_on", time).unwrap();
    record.insert("freq", Decimal::from_str(freq).unwrap()).unwrap();
    record.insert("mode", mode).unwrap();
    record
}

#[test]
fn record_field_order() {
    let record1 = create_test_record("W1AW", "20240115", "143000", "14.074", "FT8");
    let record2 = create_test_record("AB9BH", "20240115", "150000", "7.074", "FT8");

    let buf1 = encode_record(record1, OutputTypes::Never);
    let buf2 = encode_record(record2, OutputTypes::Never);

    let output1 = String::from_utf8(buf1).unwrap();
    let output2 = String::from_utf8(buf2).unwrap();

    let fields1: Vec<&str> = output1.split('<').skip(1).collect();
    let fields2: Vec<&str> = output2.split('<').skip(1).collect();

    assert_eq!(fields1.len(), fields2.len());
    for (f1, f2) in fields1.iter().zip(fields2.iter()) {
        let name1 = f1.split(':').next().unwrap();
        let name2 = f2.split(':').next().unwrap();
        assert_eq!(name1, name2);
    }
}

#[test]
fn record_roundtrip() {
    let mut record = Record::new();
    record.insert("call", "AB9BH").unwrap();
    record.insert("freq", Decimal::from_str("7.074").unwrap()).unwrap();

    let buf = encode_record(record.clone(), OutputTypes::OnlyNonString);

    let mut parsed = decode_records(&buf, true);
    assert_eq!(parsed.len(), 1);
    let parsed = parsed.remove(0).unwrap();

    assert_eq!(parsed.get("call").unwrap().as_str(), "AB9BH");
    assert_eq!(
        parsed.get("freq").unwrap().as_number().unwrap(),
        Decimal::from_str("7.074").unwrap()
    );
    assert_eq!(parsed, record);
}

#[test]
fn encode_record_with_all_types() {
    let mut record = Record::new();
    record.insert("call", "W1AW").unwrap();
    record.insert("qsl", true).unwrap();
    record.insert("freq", Decimal::from_str("14.074").unwrap()).unwrap();
    record.insert("qso_date", NaiveDate::from_ymd_opt(2024, 1, 15).unwrap()).unwrap();
    record.insert("time_on", NaiveTime::from_hms_opt(14, 30, 0).unwrap()).unwrap();

    let mut buf = BytesMut::new();
    RecordSink::new().encode(record, &mut buf).unwrap();

    let output = String::from_utf8(buf.to_vec()).unwrap();
    assert_eq!(
        output,
        "<call:4>W1AW<qsl:1>Y<freq:6>14.074<qso_date:8>20240115<time_on:6>143000<eor>\n"
    );
}

#[test]
fn encode_datetime_record_fails() {
    let dt = NaiveDate::from_ymd_opt(2024, 1, 15).unwrap().and_hms_opt(14, 30, 45).unwrap();
    let mut record = Record::new();
    record.insert("call", "W1AW").unwrap();
    record.insert("qso_datetime", dt).unwrap();

    let mut buf = BytesMut::new();
    let err = RecordSink::with_types(OutputTypes::Always).encode(record, &mut buf).unwrap_err();
    assert_eq!(err, cannot_output("DateTime", "split into date and time fields"));
}

#[test]
fn failed_field_stops_the_record() {
    let dt = NaiveDate::from_ymd_opt(2024, 1, 15).unwrap().and_hms_opt(14, 30, 45).unwrap();
    let mut record = Record::new();
    record.insert("call", "W1AW").unwrap();
    record.insert("when", dt).unwrap();
    record.insert("mode", "CW").unwrap();
    let mut buf = BytesMut::from(&b"x"[..]);
    assert!(RecordSink::new().encode(record, &mut buf).is_err());
    assert_eq!(&buf[..], b"x<call:4>W1AW<when:15");
}

#[test]
fn length_counts_bytes_not_characters() {
    let mut buf = BytesMut::new();
    let field = Field::new("name", "Andr\u{e9}");
    TagEncoder::new().encode_field(field.name(), field.value(), &mut buf).unwrap();
    assert_eq!(&buf[..], "<name:6>Andr\u{e9}".as_bytes());
    let mut long = BytesMut::new();
    let text = "0123456789".repeat(12);
    TagEncoder::new().encode_field("t", &Datum::from(text.as_str()), &mut long).unwrap();
    assert_eq!(&long[..8], b"<t:120>0");
}

#[test]
fn defaults_write_no_type() {
    assert_eq!(OutputTypes::default(), OutputTypes::Never);
    let mut buf = BytesMut::new();
    TagEncoder::default().encode(Tag::Field(Field::new("q", true)), &mut buf).unwrap();
    assert_eq!(&buf[..], b"<q:1>Y");
}

fn sample_records() -> Vec<Record> {
    let mut header = Record::new_header();
    header.insert("adifver", "3.1.4").unwrap();
    header.insert("note", " two\nlines <with> marks: ").unwrap();
    let mut first = Record::new();
    first.insert("call", "W1AW").unwrap();
    first.insert("qsl", false).unwrap();
    first.insert("freq", Decimal::from_str("-0.0140").unwrap()).unwrap();
    first.insert("qso_date", NaiveDate::from_ymd_opt(1999, 12, 31).unwrap()).unwrap();
    first.insert("time_on", NaiveTime::from_hms_opt(0, 0, 59).unwrap()).unwrap();
    let empty = Record::new();
    let mut last = Record::new();
    last.insert("Name", "Andr\u{e9}").unwrap();
    last.insert("blank", "").unwrap();
    vec![header, first, empty, last]
}

#[test]
fn roundtrip_typed() {
    for types in [OutputTypes::Always, OutputTypes::OnlyNonString] {
        let records = sample_records();
        let mut buf = BytesMut::new();
        let mut sink = RecordSink::with_types(types);
        for record in &records {
            sink.encode(record.clone(), &mut buf).unwrap();
        }
        let parsed = decode_records(&buf, false);
        assert_eq!(parsed.len(), records.len());
        for (got, want) in parsed.into_iter().zip(records) {
            let got = got.unwrap();
            assert_eq!(got.is_header(), want.is_header());
            assert_eq!(got.fields(), want.fields());
        }
    }
}

#[test]
fn roundtrip_untyped() {
    let records = sample_records();
    let mut buf = BytesMut::new();
    let mut sink = RecordSink::with_types(OutputTypes::Never);
    for record in &records {
        sink.encode(record.clone(), &mut buf).unwrap();
    }
    let parsed = decode_records(&buf, false);
    assert_eq!(parsed.len(), records.len());
    for (got, want) in parsed.into_iter().zip(records) {
        let got = got.unwrap();
        assert_eq!(got.is_header(), want.is_header());
        assert_eq!(got.len(), want.len());
        for (name, wanted) in want.fields() {
            let parsed = got.get(name).unwrap();
            match wanted {
                Datum::String(s) => assert_eq!(parsed.as_str().as_ref(), s),
                Datum::Boolean(b) => assert_eq!(parsed.as_bool().unwrap(), *b),
                Datum::Number(n) => assert_eq!(parsed.as_number().unwrap(), *n),
                Datum::Date(d) => assert_eq!(parsed.as_date().unwrap(), *d),
                Datum::Time(t) => assert_eq!(parsed.as_time().unwrap(), *t),
                Datum::DateTime(_) => unreachable!("no date and time in the samples"),
            }
        }
    }
}

#[test]
fn truncation_ends_cleanly_or_fails_at_a_tag() {
    let mut buf = BytesMut::new();
    let mut sink = RecordSink::with_types(OutputTypes::OnlyNonString);
    for record in sample_records() {
        sink.encode(record, &mut buf).unwrap();
    }
    let whole = buf.to_vec();
    for cut in 0..=whole.len() {
        let part = &whole[..cut];
        let items = decode_records(part, false);
        let errors: Vec<&Error> = items.iter().filter_map(|i| i.as_ref().err()).collect();
        assert!(errors.len() <= 1);
        if let Some(error) = errors.first() {
            assert!(items.last().unwrap().is_err());
            match error {
                Error::InvalidFormat { position, .. } => assert_eq!(part[position.byte], b'<'),
                other => panic!("expected a format error, got {:?}", other),
            }
        }
    }
}
