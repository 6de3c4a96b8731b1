//! Writing the Cabrillo contest log format.

use crate::buffer::buffer_bytes;
use crate::buffer::buffer_put;
use crate::record::lookup;
use crate::record::Entry;
use crate::record::Record;
use crate::record::RecordView;
use crate::text::text_upper;
use crate::text::upper_text;
use bytes::BytesMut;
use vstd::prelude::*;
use vstd::std_specs::cmp::PartialEqSpecImpl;
use vstd::utf8::encode_utf8;

verus! {

/// What a [`LogError`] stands for.
pub enum LogErrorView {
    MissingHeader,
    DuplicateHeader,
    MissingField(Seq<char>, RecordView),
}

/// Errors of writing a Cabrillo log.
#[derive(Debug)]
pub enum LogError {
    /// A contact or the end of the log came before the header.
    MissingHeader,
    /// A second header came.
    DuplicateHeader,
    /// A contact lacks a field that each line is to hold.
    MissingField {
        /// Name of the field
        field: String,
        /// The contact that lacks it
        record: Record,
    },
}

impl View for LogError {
    type V = LogErrorView;

    open spec fn view(&self) -> LogErrorView {
        match self {
            LogError::MissingHeader => LogErrorView::MissingHeader,
            LogError::DuplicateHeader => LogErrorView::DuplicateHeader,
            LogError::MissingField { field, record } => LogErrorView::MissingField(
                field@,
                record@,
            ),
        }
    }
}

impl PartialEq for LogError {
    fn eq(&self, other: &Self) -> (r: bool) {
        match (self, other) {
            (LogError::MissingHeader, LogError::MissingHeader) => true,
            (LogError::DuplicateHeader, LogError::DuplicateHeader) => true,
            (
                LogError::MissingField { field: fa, record: ra },
                LogError::MissingField { field: fb, record: rb },
            ) => *fa == *fb && *ra == *rb,
            _ => false,
        }
    }
}

impl PartialEqSpecImpl for LogError {
    open spec fn obeys_eq_spec() -> bool {
        true
    }

    open spec fn eq_spec(&self, other: &Self) -> bool {
        match (self, other) {
            (LogError::MissingHeader, LogError::MissingHeader) => true,
            (LogError::DuplicateHeader, LogError::DuplicateHeader) => true,
            (
                LogError::MissingField { field: fa, record: ra },
                LogError::MissingField { field: fb, record: rb },
            ) => fa@ == fb@ && ra.same_as(rb),
            _ => false,
        }
    }
}

/// What the encoder takes: a record, or the end of the log.
pub enum Item {
    Record(Record),
    Eof,
}

/// The line of one header field: the name in upper case, a colon and a
/// space, the value, a line feed.
pub open spec fn header_line(field: Entry) -> Seq<u8> {
    encode_utf8(upper_text(field.0)) + encode_utf8(": "@) + encode_utf8(field.1.log_text())
        + encode_utf8("\n"@)
}

/// The lines of some header fields, in order.
pub open spec fn header_lines(fields: Seq<Entry>) -> Seq<u8>
    decreases fields.len(),
{
    if fields.len() == 0 {
        Seq::empty()
    } else {
        header_lines(fields.drop_last()) + header_line(fields.last())
    }
}

/// The head of a log: the line that starts it and the lines of the header
/// fields.
pub open spec fn header_bytes(record: RecordView) -> Seq<u8> {
    encode_utf8("START-OF-LOG: 3.0\n"@) + header_lines(record.fields)
}

/// The values of a contact line as far as they are written, and the name
/// of the first wanted field that the contact lacks, if it lacks one.
pub struct Line {
    pub bytes: Seq<u8>,
    pub missing: Option<Seq<char>>,
}

/// The values of the wanted fields, in order, a space between each two, up
/// to the first that the contact lacks.
pub open spec fn line_values(wanted: Seq<Seq<char>>, record: RecordView) -> Line
    decreases wanted.len(),
{
    if wanted.len() == 0 {
        Line { bytes: Seq::empty(), missing: None }
    } else {
        let before = line_values(wanted.drop_last(), record);
        if before.missing is Some {
            before
        } else {
            match lookup(record.fields, wanted.last()) {
                None => Line { bytes: before.bytes, missing: Some(wanted.last()) },
                Some(v) => Line {
                    bytes: before.bytes + (if wanted.len() > 1 {
                        encode_utf8(" "@)
                    } else {
                        Seq::empty()
                    }) + encode_utf8(v.log_text()),
                    missing: None,
                },
            }
        }
    }
}

/// The line of a contact: `QSO: `, the values and a line feed; without the
/// line feed, and only as far as it was written, where a field is lacking.
pub open spec fn qso_bytes(wanted: Seq<Seq<char>>, record: RecordView) -> Seq<u8> {
    let line = line_values(wanted, record);
    encode_utf8("QSO: "@) + line.bytes + if line.missing is None {
        encode_utf8("\n"@)
    } else {
        Seq::empty()
    }
}

/// The line that ends a log.
pub open spec fn end_bytes() -> Seq<u8> {
    encode_utf8("END-OF-LOG:\n"@)
}

/// What the encoder does with an item: what it appends to the buffer.
pub open spec fn appended(started: bool, wanted: Seq<Seq<char>>, item: Item) -> Seq<u8> {
    match item {
        Item::Record(r) => if r@.header {
            if started {
                Seq::empty()
            } else {
                header_bytes(r@)
            }
        } else if started {
            qso_bytes(wanted, r@)
        } else {
            Seq::empty()
        },
        Item::Eof => if started {
            end_bytes()
        } else {
            Seq::empty()
        },
    }
}

/// What the encoder does with an item: what it returns. A header starts
/// the log, once; contacts and the end of the log ask for a log that has
/// started; a contact asks for each wanted field.
pub open spec fn answered(
    started: bool,
    wanted: Seq<Seq<char>>,
    item: Item,
    r: Result<(), LogError>,
) -> bool {
    match item {
        Item::Record(record) => if record@.header {
            if started {
                r matches Err(e) && e@ == LogErrorView::DuplicateHeader
            } else {
                r is Ok
            }
        } else if started {
            match line_values(wanted, record@).missing {
                Some(name) => r matches Err(e) && e@ == LogErrorView::MissingField(
                    name,
                    record@,
                ),
                None => r is Ok,
            }
        } else {
            r matches Err(e) && e@ == LogErrorView::MissingHeader
        },
        Item::Eof => if started {
            r is Ok
        } else {
            r matches Err(e) && e@ == LogErrorView::MissingHeader
        },
    }
}

/// Encoder of a Cabrillo log: a header, then one line for each contact with
/// the values of the wanted fields.
pub struct CabrilloEncoder {
    fields: Vec<String>,
    started: bool,
}

impl CabrilloEncoder {
    /// The names of the fields that each contact line holds, in order.
    pub closed spec fn wanted(&self) -> Seq<Seq<char>> {
        self.fields@.map_values(|s: String| s@)
    }

    /// Whether the header has been written.
    pub closed spec fn started(&self) -> bool {
        self.started
    }

    /// Create an encoder that writes the given fields of each contact.
    pub fn new(fields: Vec<String>) -> (r: Self)
        ensures
            r.wanted() == fields@.map_values(|s: String| s@),
            !r.started(),
    {
        CabrilloEncoder { fields, started: false }
    }

    fn encode_header(&mut self, r: Record, dst: &mut BytesMut) -> (out: Result<(), LogError>)
        requires
            r@.header,
        ensures
            answered(old(self).started(), old(self).wanted(), Item::Record(r), out),
            buffer_bytes(final(dst)) == buffer_bytes(old(dst)) + appended(
                old(self).started(),
                old(self).wanted(),
                Item::Record(r),
            ),
            final(self).wanted() == old(self).wanted(),
            final(self).started(),
    {
        let ghost before = buffer_bytes(dst);
        if self.started {
            assert(before + Seq::<u8>::empty() =~= before);
            return Err(LogError::DuplicateHeader);
        }
        self.started = true;
        buffer_put(dst, "START-OF-LOG: 3.0\n".as_bytes());
        let ghost begun = buffer_bytes(dst);
        let ghost fields = r@.fields;
        let n: usize = r.len();
        let mut i: usize = 0;
        assert(fields.take(0) =~= Seq::<Entry>::empty());
        assert(begun + header_lines(fields.take(0)) =~= begun);
        while i < n
            invariant
                i <= n,
                n == fields.len(),
                fields == r@.fields,
                buffer_bytes(dst) == begun + header_lines(fields.take(i as int)),
            decreases n - i,
        {
            let ghost sofar = buffer_bytes(dst);
            proof {
                assert(fields.take(i + 1).drop_last() =~= fields.take(i as int));
                assert(fields.take(i + 1).last() == fields[i as int]);
            }
            match r.field_at(i) {
                Some((name, value)) => {
                    let key = text_upper(name);
                    let val = value.to_cabrillo();
                    buffer_put(dst, key.as_str().as_bytes());
                    buffer_put(dst, ": ".as_bytes());
                    buffer_put(dst, val.as_str().as_bytes());
                    buffer_put(dst, "\n".as_bytes());
                    assert(buffer_bytes(dst) =~= sofar + header_line(fields[i as int]));
                    assert(sofar + header_line(fields[i as int]) =~= begun + header_lines(
                        fields.take(i + 1),
                    ));
                },
                None => {},
            }
            i += 1;
        }
        assert(fields.take(n as int) =~= fields);
        assert(buffer_bytes(dst) =~= before + header_bytes(r@));
        Ok(())
    }

    fn encode_qso(&self, r: Record, dst: &mut BytesMut) -> (out: Result<(), LogError>)
        requires
            !r@.header,
            self.started(),
        ensures
            answered(true, self.wanted(), Item::Record(r), out),
            buffer_bytes(final(dst)) == buffer_bytes(old(dst)) + appended(
                true,
                self.wanted(),
                Item::Record(r),
            ),
    {
        let ghost before = buffer_bytes(dst);
        let ghost wanted = self.wanted();
        buffer_put(dst, "QSO: ".as_bytes());
        let ghost begun = buffer_bytes(dst);
        let mut i: usize = 0;
        assert(wanted.take(0) =~= Seq::<Seq<char>>::empty());
        assert(begun + line_values(wanted.take(0), r@).bytes =~= begun);
        while i < self.fields.len()
            invariant
                i <= self.fields.len(),
                wanted == self.wanted(),
                wanted.len() == self.fields.len(),
                !r@.header,
                before == buffer_bytes(old(dst)),
                begun == before + encode_utf8("QSO: "@),
                line_values(wanted.take(i as int), r@).missing is None,
                buffer_bytes(dst) == begun + line_values(wanted.take(i as int), r@).bytes,
            decreases self.fields.len() - i,
        {
            let ghost sofar = buffer_bytes(dst);
            proof {
                assert(wanted.take(i + 1).drop_last() =~= wanted.take(i as int));
                assert(wanted.take(i + 1).last() == wanted[i as int]);
                assert(wanted[i as int] == self.fields@[i as int]@);
            }
            let f = &self.fields[i];
            let d = match r.get(f.as_str()) {
                Some(d) => d,
                None => {
                    proof {
                        let now = line_values(wanted.take(i + 1), r@);
                        assert(now.missing == Some(wanted[i as int]));
                        lemma_missing_stays(wanted, r@, i + 1);
                        assert(buffer_bytes(dst) =~= before + qso_bytes(wanted, r@));
                    }
                    return Err(LogError::MissingField { field: f.clone(), record: r.clone() });
                },
            };
            if i > 0 {
                buffer_put(dst, " ".as_bytes());
            }
            let v = d.to_cabrillo();
            buffer_put(dst, v.as_str().as_bytes());
            assert(buffer_bytes(dst) =~= begun + line_values(wanted.take(i + 1), r@).bytes);
            i += 1;
        }
        assert(wanted.take(i as int) =~= wanted);
        buffer_put(dst, "\n".as_bytes());
        assert(buffer_bytes(dst) =~= before + qso_bytes(wanted, r@));
        Ok(())
    }

    /// Write one item after what `dst` holds.
    pub fn encode(&mut self, item: Item, dst: &mut BytesMut) -> (r: Result<(), LogError>)
        ensures
            answered(old(self).started(), old(self).wanted(), item, r),
            buffer_bytes(final(dst)) == buffer_bytes(old(dst)) + appended(
                old(self).started(),
                old(self).wanted(),
                item,
            ),
            final(self).wanted() == old(self).wanted(),
            final(self).started() == (old(self).started() || (item matches Item::Record(record)
                && record@.header)),
    {
        let ghost before = buffer_bytes(dst);
        match item {
            Item::Record(r) => {
                if r.is_header() {
                    self.encode_header(r, dst)
                } else if !self.started {
                    assert(before + Seq::<u8>::empty() =~= before);
                    Err(LogError::MissingHeader)
                } else {
                    self.encode_qso(r, dst)
                }
            },
            Item::Eof => {
                if !self.started {
                    assert(before + Seq::<u8>::empty() =~= before);
                    return Err(LogError::MissingHeader);
                }
                buffer_put(dst, "END-OF-LOG:\n".as_bytes());
                Ok(())
            },
        }
    }
}

/// Once a wanted field is lacking, the fields after it change nothing.
proof fn lemma_missing_stays(wanted: Seq<Seq<char>>, record: RecordView, k: int)
    requires
        0 <= k <= wanted.len(),
        line_values(wanted.take(k), record).missing is Some,
    ensures
        line_values(wanted, record) == line_values(wanted.take(k), record),
    decreases wanted.len() - k,
{
    if k < wanted.len() {
        assert(wanted.take(k + 1).drop_last() =~= wanted.take(k));
        lemma_missing_stays(wanted, record, k + 1);
    } else {
        assert(wanted.take(k) =~= wanted);
    }
}

} // verus!
