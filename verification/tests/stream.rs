use adif::stream::read_records;
use adif::stream::read_tags;
use adif::Datum;
use adif::Error;
use adif::Field;
use adif::Position;
use adif::Record;
use adif::Tag;

fn invalid_format(message: &str, line: usize, column: usize, byte: usize) -> Error {
    Error::InvalidFormat {
        message: message.to_string(),
        position: Position { line, column, byte },
    }
}

fn splits(data: &[u8], at: &[usize]) -> Vec<Vec<u8>> {
    let mut out = Vec::new();
    let mut from = 0;
    for &cut in at {
        out.push(data[from..cut].to_vec());
        from = cut;
    }
    out.push(data[from..].to_vec());
    out
}

#[test]
fn read_tags_of_a_whole_stream() {
    let (tags, error) = read_tags(&[b"log <call:4>W1AW <qsl:1:b>N<eor>\n"], false);
    assert_eq!(
        tags,
        vec![
            Tag::Field(Field::new("call", "W1AW")),
            Tag::Field(Field::new("qsl", false)),
            Tag::Eor,
        ]
    );
    assert_eq!(error, None);
}

#[test]
fn read_tags_is_the_same_for_every_split() {
    let data = b" a<x:2>\n\n<y:3:n>1.5\n<eoh> <z:1>\n  <bad:1:b>Z<eor>";
    let whole = read_tags(&[data], false);
    assert_eq!(whole.0.len(), 4);
    assert_eq!(whole.1, Some(invalid_format("bad:1:b", 5, 3, 34)));
    for i in 0..=data.len() {
        for j in i..=data.len() {
            let parts = splits(data, &[i, j]);
            let pieces: Vec<&[u8]> = parts.iter().map(|p| p.as_slice()).collect();
            assert_eq!(read_tags(&pieces, false), whole);
        }
    }
}

#[test]
fn read_tags_without_pieces() {
    assert_eq!(read_tags(&[], false), (vec![], None));
    assert_eq!(read_tags(&[b"", b""], false), (vec![], None));
}

#[test]
fn unfinished_tag_is_an_error_only_when_asked() {
    let pieces: [&[u8]; 2] = [b"<call:4>W1AW\n<fr", b"eq:6>14."];
    let (tags, error) = read_tags(&pieces, true);
    assert_eq!(tags.len(), 1);
    assert_eq!(error, None);
    let (tags, error) = read_tags(&pieces, false);
    assert_eq!(tags.len(), 1);
    assert_eq!(error, Some(invalid_format("partial data at end of stream", 2, 1, 13)));
}

#[test]
fn end_marker_drops_what_is_in_the_buffer() {
    let (tags, error) = read_tags(&[b"<a:1>1<APP_LoTW_EOF><b:1>2"], false);
    assert_eq!(tags, vec![Tag::Field(Field::new("a", "1"))]);
    assert_eq!(error, None);
    let (tags, error) = read_tags(&[b"<a:1>1<app_lotw_eof>", b"<b:1>2"], false);
    assert_eq!(tags.len(), 2);
    assert_eq!(error, None);
}

#[test]
fn read_records_stops_at_a_duplicate() {
    let data = b"<v:1>1<eoh><call:4>W1AW<mode:2>CW<CALL:2>AB<eor><x";
    let (records, error) = read_records(&[data], false);
    assert_eq!(records.len(), 1);
    assert!(records[0].is_header());
    let mut held = Record::new();
    held.insert("call", "W1AW").unwrap();
    held.insert("mode", "CW").unwrap();
    assert_eq!(error, Some(Error::DuplicateKey { key: "CALL".to_string(), record: held }));
}

#[test]
fn read_records_is_the_same_for_every_split() {
    let data = b"<v:1>1<eoh>\n<call:4>W1AW<f:2:n>14<eor>\n<call:4>K1A";
    let whole = read_records(&[data], false);
    assert_eq!(whole.0.len(), 2);
    assert_eq!(whole.0[1].get("F"), Some(&Datum::Number(14.into())));
    assert_eq!(whole.1, Some(invalid_format("partial data at end of stream", 3, 1, 39)));
    for i in 0..=data.len() {
        let parts = splits(data, &[i]);
        let pieces: Vec<&[u8]> = parts.iter().map(|p| p.as_slice()).collect();
        assert_eq!(read_records(&pieces, false), whole);
    }
}

#[test]
fn fields_behind_the_last_marker_make_no_record() {
    let (records, error) = read_records(&[b"<a:1>1<eor><b:1>2"], false);
    assert_eq!(records.len(), 1);
    assert_eq!(error, None);
}
