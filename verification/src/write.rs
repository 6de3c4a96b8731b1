//! Writing tags and records into a byte buffer.

use crate::buffer::buffer_bytes;
use crate::buffer::buffer_put;
use crate::buffer::buffer_put_byte;
use crate::datum::Datum;
use crate::datum::Value;
use crate::error::Error;
use crate::error::ErrorView;
use crate::record::Entry;
use crate::record::Record;
use crate::record::RecordView;
use crate::record::Tag;
use crate::record::TagView;
use crate::text::decimal_chars;
use crate::text::format_length;
use bytes::BytesMut;
use std::borrow::Cow;
use vstd::prelude::*;
use vstd::utf8::encode_utf8;

verus! {

/// Configuration for type specifier output
#[derive(Debug, Clone, Copy, PartialEq, Eq, Structural)]
pub enum OutputTypes {
    /// Always include type specifiers for all fields
    Always,
    /// Only include type specifiers for non-string types
    OnlyNonString,
    /// Never include type specifiers
    Never,
}

impl Default for OutputTypes {
    fn default() -> (r: Self)
        ensures
            r == OutputTypes::Never,
    {
        OutputTypes::Never
    }
}

/// The type code that a value is written with under a policy, if any. A
/// date and time together has none: it cannot be written.
pub open spec fn indicator(types: OutputTypes, value: Value) -> Option<Seq<char>> {
    if types == OutputTypes::Never {
        None
    } else {
        match value {
            Value::Boolean(_) => Some("b"@),
            Value::Number(_) => Some("n"@),
            Value::Date(_) => Some("d"@),
            Value::Time(_) => Some("t"@),
            Value::DateTime(_) => None,
            Value::Text(_) => if types == OutputTypes::Always {
                Some("s"@)
            } else {
                None
            },
        }
    }
}

/// The beginning of a field tag: `<`, the name, `:` and the length of the
/// value in bytes.
pub open spec fn field_head(name: Seq<char>, value: Value) -> Seq<u8> {
    seq![0x3cu8] + encode_utf8(name) + seq![0x3au8] + encode_utf8(
        decimal_chars(encode_utf8(value.text()).len()),
    )
}

/// What follows the length: `:` and the type code where there is one, then
/// `>` and the value.
pub open spec fn field_tail(types: OutputTypes, value: Value) -> Seq<u8> {
    (match indicator(types, value) {
        Some(code) => seq![0x3au8] + encode_utf8(code),
        None => Seq::empty(),
    }) + seq![0x3eu8] + encode_utf8(value.text())
}

/// A field on the wire: `<name:length>value`, or `<name:length:code>value`.
pub open spec fn field_bytes(types: OutputTypes, name: Seq<char>, value: Value) -> Seq<u8> {
    field_head(name, value) + field_tail(types, value)
}

/// The end-of-header marker on the wire, with its line feed.
pub open spec fn eoh_bytes() -> Seq<u8> {
    encode_utf8("<eoh>\n"@)
}

/// The end-of-record marker on the wire, with its line feed.
pub open spec fn eor_bytes() -> Seq<u8> {
    encode_utf8("<eor>\n"@)
}

/// A tag on the wire. For a field that cannot be written, what is written
/// before the attempt fails.
pub open spec fn tag_bytes(types: OutputTypes, tag: TagView) -> Seq<u8> {
    match tag {
        TagView::Eoh => eoh_bytes(),
        TagView::Eor => eor_bytes(),
        TagView::Field(name, value) => if value is DateTime {
            field_head(name, value)
        } else {
            field_bytes(types, name, value)
        },
    }
}

/// The error of a value that cannot be written.
pub open spec fn cannot_output() -> ErrorView {
    ErrorView::CannotOutput("DateTime"@, "split into date and time fields"@)
}

/// What writing a value returns: the error of a date and time together,
/// success for every other value.
pub open spec fn wrote(value: Value, r: Result<(), Error>) -> bool {
    if value is DateTime {
        r matches Err(e) && e@ == cannot_output()
    } else {
        r is Ok
    }
}

/// What writing some fields one after the other leaves in the buffer, and
/// whether one of them failed. Fields after one that failed are not written.
pub struct Written {
    pub bytes: Seq<u8>,
    pub failed: bool,
}

/// Writing fields in order, up to and including the first that cannot be
/// written.
pub open spec fn fields_written(types: OutputTypes, fields: Seq<Entry>) -> Written
    decreases fields.len(),
{
    if fields.len() == 0 {
        Written { bytes: Seq::empty(), failed: false }
    } else {
        let before = fields_written(types, fields.drop_last());
        if before.failed {
            before
        } else {
            Written {
                bytes: before.bytes + tag_bytes(
                    types,
                    TagView::Field(fields.last().0, fields.last().1),
                ),
                failed: fields.last().1 is DateTime,
            }
        }
    }
}

/// A record on the wire: its fields in order, then the header marker or the
/// record marker. Where a field cannot be written, what is written before
/// the attempt fails.
pub open spec fn record_bytes(types: OutputTypes, record: RecordView) -> Seq<u8> {
    let fields = fields_written(types, record.fields);
    if fields.failed {
        fields.bytes
    } else if record.header {
        fields.bytes + eoh_bytes()
    } else {
        fields.bytes + eor_bytes()
    }
}

/// Encoder for writing individual tags to a byte buffer
#[derive(Debug)]
pub struct TagEncoder {
    types: OutputTypes,
}

impl Default for TagEncoder {
    fn default() -> (r: Self)
        ensures
            r.types() == OutputTypes::Never,
    {
        TagEncoder { types: OutputTypes::Never }
    }
}

impl TagEncoder {
    /// The policy on type specifiers.
    pub closed spec fn types(&self) -> OutputTypes {
        self.types
    }

    /// Create a new TagEncoder with default configuration: no type
    /// specifiers.
    pub fn new() -> (r: Self)
        ensures
            r.types() == OutputTypes::Never,
    {
        TagEncoder { types: OutputTypes::Never }
    }

    /// Create a new TagEncoder with specified type specifier behavior.
    pub fn with_types(types: OutputTypes) -> (r: Self)
        ensures
            r.types() == types,
    {
        TagEncoder { types }
    }

    /// The type code to write a value with, if any; an error for a value
    /// that cannot be written.
    fn type_indicator(&self, datum: &Datum) -> (r: Result<Option<&'static str>, Error>)
        ensures
            wrote(datum@, match r {
                Ok(_) => Ok(()),
                Err(e) => Err(e),
            }),
            r matches Ok(code) ==> indicator(self.types(), datum@) == (match code {
                Some(c) => Some(c@),
                None => None,
            }),
    {
        match datum {
            Datum::DateTime(_) => Err(
                Error::CannotOutput {
                    typ: "DateTime",
                    reason: "split into date and time fields",
                },
            ),
            Datum::Boolean(_) => match self.types {
                OutputTypes::Never => Ok(None),
                _ => Ok(Some("b")),
            },
            Datum::Number(_) => match self.types {
                OutputTypes::Never => Ok(None),
                _ => Ok(Some("n")),
            },
            Datum::Date(_) => match self.types {
                OutputTypes::Never => Ok(None),
                _ => Ok(Some("d")),
            },
            Datum::Time(_) => match self.types {
                OutputTypes::Never => Ok(None),
                _ => Ok(Some("t")),
            },
            Datum::String(_) => match self.types {
                OutputTypes::Always => Ok(Some("s")),
                _ => Ok(None),
            },
        }
    }

    fn encode_eoh(dst: &mut BytesMut)
        ensures
            buffer_bytes(final(dst)) == buffer_bytes(old(dst)) + eoh_bytes(),
    {
        buffer_put(dst, "<eoh>\n".as_bytes());
    }

    fn encode_eor(dst: &mut BytesMut)
        ensures
            buffer_bytes(final(dst)) == buffer_bytes(old(dst)) + eor_bytes(),
    {
        buffer_put(dst, "<eor>\n".as_bytes());
    }

    /// Write one field after what `dst` holds. A date and time together
    /// cannot be written: the attempt fails once the name and the length
    /// stand in the buffer.
    pub fn encode_field(&self, name: &str, value: &Datum, dst: &mut BytesMut) -> (r: Result<
        (),
        Error,
    >)
        ensures
            wrote(value@, r),
            buffer_bytes(final(dst)) == buffer_bytes(old(dst)) + tag_bytes(
                self.types(),
                TagView::Field(name@, value@),
            ),
    {
        let ghost before = buffer_bytes(dst);
        let s = value.as_str();
        let text: &str = match &s {
            Cow::Borrowed(b) => b,
            Cow::Owned(o) => o.as_str(),
        };
        buffer_put_byte(dst, 0x3c);
        buffer_put(dst, name.as_bytes());
        buffer_put_byte(dst, 0x3a);
        let digits = format_length(text.as_bytes().len());
        buffer_put(dst, digits.as_str().as_bytes());
        assert(buffer_bytes(dst) =~= before + field_head(name@, value@));
        match self.type_indicator(value) {
            Err(e) => {
                return Err(e);
            },
            Ok(Some(code)) => {
                buffer_put_byte(dst, 0x3a);
                buffer_put(dst, code.as_bytes());
            },
            Ok(None) => {},
        }
        buffer_put_byte(dst, 0x3e);
        buffer_put(dst, text.as_bytes());
        assert(buffer_bytes(dst) =~= before + field_bytes(self.types(), name@, value@));
        Ok(())
    }

    /// Write one tag after what `dst` holds.
    pub fn encode(&mut self, item: Tag, dst: &mut BytesMut) -> (r: Result<(), Error>)
        ensures
            final(self).types() == old(self).types(),
            match item@ {
                TagView::Field(_, value) => wrote(value, r),
                _ => r is Ok,
            },
            buffer_bytes(final(dst)) == buffer_bytes(old(dst)) + tag_bytes(
                old(self).types(),
                item@,
            ),
    {
        match item {
            Tag::Eoh => {
                Self::encode_eoh(dst);
                Ok(())
            },
            Tag::Eor => {
                Self::encode_eor(dst);
                Ok(())
            },
            Tag::Field(field) => self.encode_field(field.name(), field.value(), dst),
        }
    }
}

/// Encoder for writing whole records to a byte buffer
#[derive(Debug)]
pub struct RecordSink {
    encoder: TagEncoder,
}

impl RecordSink {
    /// The policy on type specifiers.
    pub closed spec fn types(&self) -> OutputTypes {
        self.encoder.types()
    }

    /// Create a new RecordSink with default configuration: no type
    /// specifiers.
    pub fn new() -> (r: Self)
        ensures
            r.types() == OutputTypes::Never,
    {
        RecordSink { encoder: TagEncoder::new() }
    }

    /// Create a new RecordSink with given type specifier behavior.
    pub fn with_types(types: OutputTypes) -> (r: Self)
        ensures
            r.types() == types,
    {
        RecordSink { encoder: TagEncoder::with_types(types) }
    }

    /// Write one record after what `dst` holds: its fields in order, then
    /// the marker. The first field that cannot be written fails the record,
    /// and nothing is written after it.
    pub fn encode(&mut self, item: Record, dst: &mut BytesMut) -> (r: Result<(), Error>)
        ensures
            final(self).types() == old(self).types(),
            r is Err <==> fields_written(old(self).types(), item@.fields).failed,
            r matches Err(e) ==> e@ == cannot_output(),
            buffer_bytes(final(dst)) == buffer_bytes(old(dst)) + record_bytes(
                old(self).types(),
                item@,
            ),
    {
        let ghost before = buffer_bytes(dst);
        let ghost types = self.types();
        let ghost fields = item@.fields;
        let n: usize = item.len();
        let mut i: usize = 0;
        assert(fields.take(0) =~= Seq::<Entry>::empty());
        while i < n
            invariant
                i <= n,
                n == fields.len(),
                fields == item@.fields,
                types == self.types(),
                types == old(self).types(),
                before == buffer_bytes(old(dst)),
                !fields_written(types, fields.take(i as int)).failed,
                buffer_bytes(dst) == before + fields_written(types, fields.take(i as int)).bytes,
            decreases n - i,
        {
            let ghost sofar = fields_written(types, fields.take(i as int));
            proof {
                assert(fields.take(i + 1).drop_last() =~= fields.take(i as int));
                assert(fields.take(i + 1).last() == fields[i as int]);
            }
            match item.field_at(i) {
                Some((name, value)) => {
                    match self.encoder.encode_field(name, value, dst) {
                        Ok(()) => {
                            assert(buffer_bytes(dst) =~= before + fields_written(
                                types,
                                fields.take(i + 1),
                            ).bytes);
                        },
                        Err(e) => {
                            proof {
                                let next = fields_written(types, fields.take(i + 1));
                                assert(next.failed);
                                assert(buffer_bytes(dst) =~= before + next.bytes);
                                lemma_failed_stays(types, fields, i + 1);
                            }
                            return Err(e);
                        },
                    }
                },
                None => {},
            }
            i += 1;
        }
        assert(fields.take(n as int) =~= fields);
        if item.is_header() {
            TagEncoder::encode_eoh(dst);
        } else {
            TagEncoder::encode_eor(dst);
        }
        assert(buffer_bytes(dst) =~= before + record_bytes(types, item@));
        Ok(())
    }
}

/// Once a field has failed, the fields after it change nothing.
proof fn lemma_failed_stays(types: OutputTypes, fields: Seq<Entry>, k: int)
    requires
        0 <= k <= fields.len(),
        fields_written(types, fields.take(k)).failed,
    ensures
        fields_written(types, fields) == fields_written(types, fields.take(k)),
    decreases fields.len() - k,
{
    if k < fields.len() {
        assert(fields.take(k + 1).drop_last() =~= fields.take(k));
        lemma_failed_stays(types, fields, k + 1);
    } else {
        assert(fields.take(k) =~= fields);
    }
}

} // verus!
