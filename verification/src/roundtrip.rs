//! What is written reads back: the proof that a record on the wire decodes
//! to the record it was written from.

use crate::datum::bool_parsed;
use crate::datum::bool_text;
use crate::datum::Value;
use crate::parse::eof_body;
use crate::parse::eoh_body;
use crate::parse::eor_body;
use crate::parse::header_of;
use crate::parse::scan;
use crate::parse::Scan;
use crate::record::TagView;
use crate::text::alike;
use crate::text::blanks;
use crate::text::folded;
use crate::stream::drain;
use crate::text::lemma_blanks_concat;
use crate::text::lemma_blanks_is;
use crate::write::eoh_bytes;
use crate::write::eor_bytes;
use crate::cistring::name_key;
use crate::parse::fresh;
use crate::record::distinct;
use crate::record::has_key;
use crate::record::index_of;
use crate::record::lemma_index_of;
use crate::record::lookup;
use crate::record::RecordView;
use crate::stream::assemble;
use crate::stream::lemma_scan_empty;
use crate::stream::read_whole;
use crate::stream::Assembled;
use crate::stream::Drained;
use crate::stream::Ending;
use crate::stream::Reading;
use crate::stream::Stop;
use crate::write::field_bytes;
use crate::write::record_bytes;
use crate::write::fields_written;
use crate::parse::kind_of;
use crate::parse::parts_of;
use crate::parse::typed;
use crate::parse::Header;
use crate::parse::Kind;
use crate::record::Entry;
use crate::text::lemma_ascii_bytes;
use crate::text::lemma_first_at_is;
use crate::text::lemma_length_reads_back;
use crate::text::decimal_chars;
use crate::text::lemma_decimal_chars;
use crate::text::lemma_decimal_digits;
use crate::values::date_format;
use crate::values::date_parsed;
use crate::values::date_text;
use crate::values::decimal_parsed;
use crate::values::decimal_text;
use crate::values::time_format;
use crate::values::time_parsed;
use crate::values::time_text;
use crate::write::indicator;
use crate::write::OutputTypes;
use vstd::prelude::*;
use vstd::utf8::decode_utf8;
use vstd::utf8::encode_utf8;
use vstd::utf8::encode_utf8_decode_utf8;
use vstd::utf8::encode_utf8_valid_utf8;
use vstd::utf8::is_ascii_chars;
use vstd::utf8::valid_utf8;

verus! {

/// No byte of `s` is `byte`.
pub open spec fn free_of(s: Seq<u8>, byte: u8) -> bool {
    forall|i: int| 0 <= i < s.len() ==> s[i] != byte
}

/// A name that a tag can carry: its bytes hold neither `:` nor `>`.
pub open spec fn plain_name(name: Seq<char>) -> bool {
    free_of(encode_utf8(name), 0x3a) && free_of(encode_utf8(name), 0x3e)
}

/// A value whose text denotes it: true of every truth value and every
/// text; of a number, a date or a time where reading its text gives it
/// back; never of a date and time together, which cannot be written.
pub open spec fn reads_back(value: Value) -> bool {
    match value {
        Value::Boolean(_) => true,
        Value::Number(n) => decimal_parsed(decimal_text(n)) == Some(n),
        Value::Date(d) => date_parsed(date_text(d, date_format()), date_format()) == Some(d),
        Value::Time(t) => time_parsed(time_text(t, time_format()), time_format()) == Some(t),
        Value::DateTime(_) => false,
        Value::Text(_) => true,
    }
}

/// A field that can be written and read back.
pub open spec fn writable(entry: Entry) -> bool {
    &&& plain_name(entry.0)
    &&& reads_back(entry.1)
    &&& encode_utf8(entry.1.text()).len() <= usize::MAX
}

/// The value that comes back for a value written under a policy: the
/// value itself where its type code is written or it is text, else its text.
pub open spec fn returned(types: OutputTypes, value: Value) -> Value {
    if indicator(types, value) is Some {
        value
    } else {
        Value::Text(value.text())
    }
}

/// A value read back stands for the value written: read through the
/// accessor of the written value's kind, it gives that value.
pub open spec fn stands_for(parsed: Value, written: Value) -> bool {
    match written {
        Value::Boolean(b) => parsed.as_bool() == Some(b),
        Value::Number(n) => parsed.as_number() == Some(n),
        Value::Date(d) => parsed.as_date() == Some(d),
        Value::Time(t) => parsed.as_time() == Some(t),
        Value::DateTime(_) => false,
        Value::Text(s) => parsed.text() == s,
    }
}

/// The text of a truth value spells it.
pub proof fn lemma_bool_reads_back(b: bool)
    ensures
        bool_parsed(bool_text(b)) == Some(b),
{
    reveal_strlit("Y");
    reveal_strlit("y");
    reveal_strlit("N");
    reveal_strlit("n");
    assert("N"@[0] != "Y"@[0]);
    assert("N"@[0] != "y"@[0]);
}

/// The kind that each written type code selects, and the one byte that the
/// code is on the wire.
pub proof fn lemma_codes()
    ensures
        kind_of(Some("b"@)) == Kind::Boolean,
        kind_of(Some("n"@)) == Kind::Number,
        kind_of(Some("d"@)) == Kind::Date,
        kind_of(Some("t"@)) == Kind::Time,
        kind_of(Some("s"@)) == Kind::Text,
        encode_utf8("b"@) =~= seq![0x62u8],
        encode_utf8("n"@) =~= seq![0x6eu8],
        encode_utf8("d"@) =~= seq![0x64u8],
        encode_utf8("t"@) =~= seq![0x74u8],
        encode_utf8("s"@) =~= seq![0x73u8],
{
    reveal_strlit("b");
    reveal_strlit("B");
    reveal_strlit("n");
    reveal_strlit("N");
    reveal_strlit("d");
    reveal_strlit("D");
    reveal_strlit("t");
    reveal_strlit("T");
    reveal_strlit("s");
    assert("b"@[0] != "n"@[0] && "b"@[0] != "N"@[0]);
    assert("d"@[0] != "n"@[0] && "d"@[0] != "N"@[0] && "d"@[0] != "b"@[0] && "d"@[0] != "B"@[0]);
    assert("t"@[0] != "n"@[0] && "t"@[0] != "N"@[0] && "t"@[0] != "b"@[0] && "t"@[0] != "B"@[0]
        && "t"@[0] != "d"@[0] && "t"@[0] != "D"@[0]);
    assert("s"@[0] != "n"@[0] && "s"@[0] != "N"@[0] && "s"@[0] != "b"@[0] && "s"@[0] != "B"@[0]
        && "s"@[0] != "d"@[0] && "s"@[0] != "D"@[0] && "s"@[0] != "t"@[0] && "s"@[0] != "T"@[0]);
    lemma_ascii_bytes("b"@);
    lemma_ascii_bytes("n"@);
    lemma_ascii_bytes("d"@);
    lemma_ascii_bytes("t"@);
    lemma_ascii_bytes("s"@);
}

/// A value written with its type code reads back as itself; one written
/// without reads back as its text. Either way what comes back stands for
/// the value.
pub proof fn lemma_value_reads_back(types: OutputTypes, value: Value)
    requires
        reads_back(value),
    ensures
        typed(kind_of(indicator(types, value)), value.text()) == Some(returned(types, value)),
        stands_for(returned(types, value), value),
{
    lemma_codes();
    match value {
        Value::Boolean(b) => {
            lemma_bool_reads_back(b);
        },
        _ => {},
    }
}

/// The type code as it stands in a tag: a colon and the code, or nothing.
pub open spec fn code_part(code: Option<Seq<char>>) -> Seq<u8> {
    match code {
        Some(c) => seq![0x3au8] + encode_utf8(c),
        None => Seq::empty(),
    }
}

/// The inside of a written field tag: name, colon, length, and the type
/// code where there is one.
pub open spec fn body_of(types: OutputTypes, name: Seq<char>, value: Value) -> Seq<u8> {
    encode_utf8(name) + seq![0x3au8] + encode_utf8(
        decimal_chars(encode_utf8(value.text()).len()),
    ) + code_part(indicator(types, value))
}

/// The type code of a written tag is one small letter.
proof fn lemma_code_part(types: OutputTypes, value: Value)
    ensures
        match indicator(types, value) {
            Some(c) => encode_utf8(c).len() == 1 && 0x61 <= encode_utf8(c)[0] <= 0x7a
                && valid_utf8(encode_utf8(c)) && decode_utf8(encode_utf8(c)) == c,
            None => true,
        },
{
    lemma_codes();
    match indicator(types, value) {
        Some(c) => {
            encode_utf8_valid_utf8(c);
            encode_utf8_decode_utf8(c);
        },
        None => {},
    }
}

/// The inside of a written field tag reads back as the name, the length of
/// the value and the type code. It holds no `>`, and a colon stands behind
/// the name.
pub proof fn lemma_header_reads_back(types: OutputTypes, name: Seq<char>, value: Value)
    requires
        plain_name(name),
        encode_utf8(value.text()).len() <= usize::MAX,
    ensures
        header_of(body_of(types, name, value)) == Some(
            Header {
                name,
                length: encode_utf8(value.text()).len() as int,
                code: indicator(types, value),
            },
        ),
        free_of(body_of(types, name, value), 0x3e),
        encode_utf8(name).len() < body_of(types, name, value).len(),
        body_of(types, name, value)[encode_utf8(name).len() as int] == 0x3a,
{
    let size = encode_utf8(value.text()).len();
    let n = encode_utf8(name);
    let d = encode_utf8(decimal_chars(size));
    let code = indicator(types, value);
    let c = code_part(code);
    let body = body_of(types, name, value);
    lemma_decimal_chars(size);
    lemma_decimal_digits(size);
    lemma_length_reads_back(size);
    lemma_code_part(types, value);
    encode_utf8_valid_utf8(name);
    encode_utf8_decode_utf8(name);
    assert forall|j: int| 0 <= j < d.len() implies d[j] != 0x3a && d[j] != 0x3e by {
        assert(crate::text::digit(d[j]));
    }
    assert(body =~= n + seq![0x3au8] + d + c);
    let c1 = n.len() as int;
    assert forall|j: int| 0 <= j < c1 implies body[j] != 0x3a by {
        assert(body[j] == n[j]);
    }
    lemma_first_at_is(body, 0x3a, c1);
    let rest = body.skip(c1 + 1);
    assert(rest =~= d + c);
    assert(body.take(c1) =~= n);
    match code {
        None => {
            assert(rest =~= d);
            lemma_first_at_is(rest, 0x3a, rest.len() as int);
            assert(parts_of(body) == Some((n, d, None::<Seq<u8>>)));
        },
        Some(text) => {
            let c2 = d.len() as int;
            assert forall|j: int| 0 <= j < c2 implies rest[j] != 0x3a by {
                assert(rest[j] == d[j]);
            }
            assert(rest[c2] == 0x3a);
            lemma_first_at_is(rest, 0x3a, c2);
            let last = rest.skip(c2 + 1);
            assert(last =~= encode_utf8(text));
            assert(rest.take(c2) =~= d);
            lemma_first_at_is(last, 0x3a, last.len() as int);
            assert(parts_of(body) == Some((n, d, Some(last))));
        },
    }
    assert forall|j: int| 0 <= j < body.len() implies body[j] != 0x3e by {
        if j < c1 {
            assert(body[j] == n[j]);
        } else if j > c1 && j < c1 + 1 + d.len() {
            assert(body[j] == d[j - c1 - 1]);
        }
    }
}

/// The bodies of the three markers hold no colon.
pub proof fn lemma_marker_bodies()
    ensures
        eoh_body() =~= seq![0x65u8, 0x6fu8, 0x68u8],
        eor_body() =~= seq![0x65u8, 0x6fu8, 0x72u8],
        free_of(eoh_body(), 0x3a),
        free_of(eor_body(), 0x3a),
        free_of(eof_body(), 0x3a),
{
    reveal_strlit("eoh");
    reveal_strlit("eor");
    reveal_strlit("app_lotw_eof");
    lemma_ascii_bytes("eoh"@);
    lemma_ascii_bytes("eor"@);
    let long = "app_lotw_eof"@;
    assert(is_ascii_chars(long)) by {
        assert forall|i: int| 0 <= i < long.len() implies '\0' <= #[trigger] long[i]
            <= '\u{7f}' by {
            assert(long.len() == 12);
            if i == 0 {
            } else if i == 1 {
            } else if i == 2 {
            } else if i == 3 {
            } else if i == 4 {
            } else if i == 5 {
            } else if i == 6 {
            } else if i == 7 {
            } else if i == 8 {
            } else if i == 9 {
            } else if i == 10 {
            } else {
            }
        }
    }
    lemma_ascii_bytes(long);
    let bytes = eof_body();
    assert forall|i: int| 0 <= i < bytes.len() implies bytes[i] != 0x3a by {
        assert(bytes[i] == long[i] as u8);
        if i == 0 {
        } else if i == 1 {
        } else if i == 2 {
        } else if i == 3 {
        } else if i == 4 {
        } else if i == 5 {
        } else if i == 6 {
        } else if i == 7 {
        } else if i == 8 {
        } else if i == 9 {
        } else if i == 10 {
        } else {
        }
    }
}

/// A tag body with a colon in it is none of the three markers.
pub proof fn lemma_colon_is_no_marker(body: Seq<u8>, k: int)
    requires
        0 <= k < body.len(),
        body[k] == 0x3a,
    ensures
        !alike(body, eoh_body()),
        !alike(body, eor_body()),
        !alike(body, eof_body()),
{
    lemma_marker_bodies();
    lemma_colon_differs(body, eoh_body(), k);
    lemma_colon_differs(body, eor_body(), k);
    lemma_colon_differs(body, eof_body(), k);
}

proof fn lemma_colon_differs(body: Seq<u8>, marker: Seq<u8>, k: int)
    requires
        0 <= k < body.len(),
        body[k] == 0x3a,
        free_of(marker, 0x3a),
    ensures
        !alike(body, marker),
{
    if alike(body, marker) {
        assert(folded(body).len() == folded(marker).len());
        assert(folded(body)[k] == folded(marker)[k]);
        assert(marker[k] != 0x3a);
    }
}

/// A written field, with whatever follows it, is found as the field it was
/// written from: the name, and the value that is returned for the value
/// under the policy. It takes its own bytes and the blanks behind them.
pub proof fn lemma_field_scans(types: OutputTypes, name: Seq<char>, value: Value, rest: Seq<u8>)
    requires
        writable((name, value)),
    ensures
        scan(field_bytes(types, name, value) + rest) == (Scan::Tag {
            skipped: 0,
            tag: TagView::Field(name, returned(types, value)),
            used: (field_bytes(types, name, value).len() + blanks(rest)) as int,
        }),
{
    reveal(scan);
    let body = body_of(types, name, value);
    let v = encode_utf8(value.text());
    let written = field_bytes(types, name, value);
    let all = written + rest;
    lemma_header_reads_back(types, name, value);
    lemma_value_reads_back(types, value);
    lemma_colon_is_no_marker(body, encode_utf8(name).len() as int);
    encode_utf8_valid_utf8(value.text());
    encode_utf8_decode_utf8(value.text());
    assert(written =~= seq![0x3cu8] + body + seq![0x3eu8] + v);
    lemma_first_at_is(all, 0x3c, 0);
    assert(all.skip(0) =~= all);
    let end = 1 + body.len() as int;
    assert forall|j: int| 0 <= j < end implies all[j] != 0x3e by {
        if j > 0 {
            assert(all[j] == body[j - 1]);
        }
    }
    lemma_first_at_is(all, 0x3e, end);
    assert(all.subrange(1, end) =~= body);
    let stop = end + 1 + v.len();
    assert(all.subrange(end + 1, stop) =~= v);
    assert(all.skip(stop) =~= rest);
}

/// The marker that closes a record: of a header or of a contact.
pub open spec fn marker_bytes(header: bool) -> Seq<u8> {
    if header {
        eoh_bytes()
    } else {
        eor_bytes()
    }
}

/// The tag that a marker is read as.
pub open spec fn marker_tag(header: bool) -> TagView {
    if header {
        TagView::Eoh
    } else {
        TagView::Eor
    }
}

/// A written marker, with whatever follows it, is found as that marker. It
/// takes its six bytes and the blanks behind them.
pub proof fn lemma_marker_scans(header: bool, rest: Seq<u8>)
    ensures
        marker_bytes(header).len() == 6,
        marker_bytes(header)[0] == 0x3c,
        scan(marker_bytes(header) + rest) == (Scan::Tag {
            skipped: 0,
            tag: marker_tag(header),
            used: (6 + blanks(rest)) as int,
        }),
{
    reveal(scan);
    reveal_strlit("<eoh>\n");
    reveal_strlit("<eor>\n");
    lemma_ascii_bytes("<eoh>\n"@);
    lemma_ascii_bytes("<eor>\n"@);
    lemma_marker_bodies();
    let written = marker_bytes(header);
    let all = written + rest;
    assert(written =~= seq![0x3cu8, 0x65u8, 0x6fu8, if header {
        0x68u8
    } else {
        0x72u8
    }, 0x3eu8, 0x0au8]);
    lemma_first_at_is(all, 0x3c, 0);
    assert(all.skip(0) =~= all);
    lemma_first_at_is(all, 0x3e, 4);
    assert(all.subrange(1, 4) =~= if header {
        eoh_body()
    } else {
        eor_body()
    });
    assert(!alike(eor_body(), eoh_body())) by {
        assert(folded(eor_body())[2] != folded(eoh_body())[2]);
    }
    assert(all.skip(5) =~= seq![0x0au8] + rest);
    lemma_blanks_concat(seq![0x0au8], rest);
    assert(blanks(seq![0x0au8]) == 1) by {
        lemma_blanks_is(seq![0x0au8], 1);
    }
}

/// The tags that the fields of a record are read as under a policy.
pub open spec fn field_tags(types: OutputTypes, fields: Seq<Entry>) -> Seq<TagView> {
    fields.map_values(|e: Entry| TagView::Field(e.0, returned(types, e.1)))
}

/// The fields that come back for the fields of a record under a policy.
pub open spec fn returned_fields(types: OutputTypes, fields: Seq<Entry>) -> Seq<Entry> {
    fields.map_values(|e: Entry| (e.0, returned(types, e.1)))
}

/// Every field of a list can be written and read back.
pub open spec fn all_writable(fields: Seq<Entry>) -> bool {
    forall|i: int| 0 <= i < fields.len() ==> writable(#[trigger] fields[i])
}

/// Fields that can all be written are written one after the other, the
/// first of them first.
pub proof fn lemma_fields_written(types: OutputTypes, fields: Seq<Entry>)
    requires
        all_writable(fields),
    ensures
        !fields_written(types, fields).failed,
        fields.len() > 0 ==> fields_written(types, fields).bytes == field_bytes(
            types,
            fields[0].0,
            fields[0].1,
        ) + fields_written(types, fields.skip(1)).bytes,
        fields.len() == 0 ==> fields_written(types, fields).bytes == Seq::<u8>::empty(),
    decreases fields.len(),
{
    if fields.len() > 0 {
        let front = fields.drop_last();
        assert(writable(fields.last()));
        assert forall|i: int| 0 <= i < front.len() implies writable(#[trigger] front[i]) by {
            assert(front[i] == fields[i]);
        }
        lemma_fields_written(types, front);
        if fields.len() == 1 {
            assert(fields.skip(1) =~= Seq::<Entry>::empty());
            assert(front =~= Seq::<Entry>::empty());
            let one = field_bytes(types, fields[0].0, fields[0].1);
            assert(Seq::<u8>::empty() + one =~= one + Seq::<u8>::empty());
        } else {
            let inner = fields.skip(1);
            assert forall|i: int| 0 <= i < inner.len() implies writable(#[trigger] inner[i]) by {
                assert(inner[i] == fields[i + 1]);
            }
            lemma_fields_written(types, inner);
            assert(inner.drop_last() =~= front.skip(1));
            assert(inner.last() == fields.last());
            assert(front[0] == fields[0]);
            let head = field_bytes(types, fields[0].0, fields[0].1);
            let middle = fields_written(types, front.skip(1)).bytes;
            let tail = field_bytes(types, fields.last().0, fields.last().1);
            assert((head + middle) + tail =~= head + (middle + tail));
        }
    }
}

/// A written field begins with `<`.
proof fn lemma_field_begins(types: OutputTypes, name: Seq<char>, value: Value)
    ensures
        field_bytes(types, name, value).len() > 0,
        field_bytes(types, name, value)[0] == 0x3c,
{
}

/// Written fields with a tag behind them begin with `<`.
proof fn lemma_written_begins(types: OutputTypes, fields: Seq<Entry>, rest: Seq<u8>)
    requires
        all_writable(fields),
        rest.len() > 0,
        rest[0] == 0x3c,
    ensures
        (fields_written(types, fields).bytes + rest)[0] == 0x3c,
{
    lemma_fields_written(types, fields);
    if fields.len() > 0 {
        lemma_field_begins(types, fields[0].0, fields[0].1);
    }
}

/// A written field with a tag behind it is read as the field it was written
/// from, and reading goes on with what is behind it.
proof fn lemma_field_then(types: OutputTypes, name: Seq<char>, value: Value, after: Seq<u8>)
    requires
        writable((name, value)),
        after.len() > 0,
        after[0] == 0x3c,
    ensures
        drain(field_bytes(types, name, value) + after).tags == seq![
            TagView::Field(name, returned(types, value)),
        ] + drain(after).tags,
        drain(field_bytes(types, name, value) + after).taken == field_bytes(
            types,
            name,
            value,
        ).len() + drain(after).taken,
        drain(field_bytes(types, name, value) + after).stop == drain(after).stop,
{
    let head = field_bytes(types, name, value);
    lemma_field_begins(types, name, value);
    lemma_blanks_is(after, 0);
    lemma_field_scans(types, name, value, after);
    assert((head + after).skip(head.len() as int) =~= after);
}

/// Written fields, with a tag behind them, are read as the fields they were
/// written from, and reading goes on with what is behind them.
pub proof fn lemma_fields_drain(types: OutputTypes, fields: Seq<Entry>, rest: Seq<u8>)
    requires
        all_writable(fields),
        rest.len() > 0,
        rest[0] == 0x3c,
    ensures
        drain(fields_written(types, fields).bytes + rest).tags == field_tags(types, fields)
            + drain(rest).tags,
        drain(fields_written(types, fields).bytes + rest).taken == fields_written(
            types,
            fields,
        ).bytes.len() + drain(rest).taken,
        drain(fields_written(types, fields).bytes + rest).stop == drain(rest).stop,
    decreases fields.len(),
{
    lemma_fields_written(types, fields);
    let written = fields_written(types, fields).bytes;
    if fields.len() == 0 {
        assert(written + rest =~= rest);
        assert(field_tags(types, fields) + drain(rest).tags =~= drain(rest).tags);
    } else {
        let inner = fields.skip(1);
        assert forall|i: int| 0 <= i < inner.len() implies writable(#[trigger] inner[i]) by {
            assert(inner[i] == fields[i + 1]);
        }
        assert(writable(fields[0]));
        let head = field_bytes(types, fields[0].0, fields[0].1);
        let after = fields_written(types, inner).bytes + rest;
        assert(written + rest =~= head + after);
        lemma_written_begins(types, inner, rest);
        lemma_field_then(types, fields[0].0, fields[0].1, after);
        lemma_fields_drain(types, inner, rest);
        let first = TagView::Field(fields[0].0, returned(types, fields[0].1));
        assert(field_tags(types, fields) =~= seq![first] + field_tags(types, inner));
        assert(seq![first] + (field_tags(types, inner) + drain(rest).tags) =~= (seq![first]
            + field_tags(types, inner)) + drain(rest).tags);
    }
}

/// The tags of some fields.
pub open spec fn tags_of(fields: Seq<Entry>) -> Seq<TagView> {
    fields.map_values(|e: Entry| TagView::Field(e.0, e.1))
}

/// Fields with names of their own, and a marker behind them, make one
/// record: what was in progress and the fields, in order.
pub proof fn lemma_assemble_fields(pending: RecordView, fields: Seq<Entry>, header: bool)
    requires
        distinct(pending.fields + fields),
    ensures
        assemble(pending, tags_of(fields) + seq![marker_tag(header)]) == (Assembled {
            records: seq![RecordView { header, fields: pending.fields + fields }],
            pending: fresh(),
            failed: None,
        }),
    decreases fields.len(),
{
    let tags = tags_of(fields) + seq![marker_tag(header)];
    let all = pending.fields + fields;
    if fields.len() == 0 {
        assert(tags.skip(1) =~= Seq::<TagView>::empty());
        assert(pending.fields + fields =~= pending.fields);
        let one = seq![RecordView { header, fields: pending.fields }];
        assert(one + Seq::<RecordView>::empty() =~= one);
        assert(tags[0] == marker_tag(header));
        let more = assemble(fresh(), tags.skip(1));
        assert(more == (Assembled { records: Seq::empty(), pending: fresh(), failed: None }));
        assert(assemble(pending, tags).records =~= one);
    } else {
        let first = fields[0];
        let k = pending.fields.len() as int;
        assert(tags[0] == TagView::Field(first.0, first.1));
        lemma_index_of(pending.fields, name_key(first.0));
        if has_key(pending.fields, name_key(first.0)) {
            let j = index_of(pending.fields, name_key(first.0)) as int;
            assert(all[j] == pending.fields[j]);
            assert(all[k] == first);
            assert(name_key(all[j].0) != name_key(all[k].0));
        }
        let next = RecordView { header: pending.header, fields: pending.fields.push(first) };
        assert(tags.skip(1) =~= tags_of(fields.skip(1)) + seq![marker_tag(header)]);
        assert(next.fields + fields.skip(1) =~= all);
        lemma_assemble_fields(next, fields.skip(1), header);
        assert(lookup(pending.fields, first.0) is None);
        assert(assemble(pending, tags) == assemble(next, tags.skip(1)));
    }
}

/// A written marker alone is read as that marker, and nothing is left.
proof fn lemma_marker_drains(header: bool)
    ensures
        marker_bytes(header).len() == 6,
        marker_bytes(header)[0] == 0x3c,
        drain(marker_bytes(header)) == (Drained {
            tags: seq![marker_tag(header)],
            taken: 6,
            stop: Stop::Wait,
        }),
{
    let close = marker_bytes(header);
    let none = Seq::<u8>::empty();
    lemma_marker_scans(header, none);
    assert(close + none =~= close);
    assert(close.skip(6) =~= none);
    lemma_scan_empty();
    lemma_blanks_is(none, 0);
    assert(drain(none) == (Drained { tags: Seq::empty(), taken: 0, stop: Stop::Wait }));
    assert(seq![marker_tag(header)] + Seq::<TagView>::empty() =~= seq![marker_tag(header)]);
}

/// A written record is read as the tags of its fields and its marker, to
/// the last byte and without error.
proof fn lemma_record_reads(types: OutputTypes, record: RecordView, strict: bool)
    requires
        all_writable(record.fields),
    ensures
        read_whole(record_bytes(types, record), strict) == (Reading {
            tags: field_tags(types, record.fields) + seq![marker_tag(record.header)],
            ending: Ending::Clean,
        }),
{
    let close = marker_bytes(record.header);
    lemma_fields_written(types, record.fields);
    lemma_marker_drains(record.header);
    lemma_fields_drain(types, record.fields, close);
    assert(record_bytes(types, record) == fields_written(types, record.fields).bytes + close);
}

/// What comes back for the fields of a record: the same names in the same
/// order, and for each value one that stands for it; the very values where
/// the policy writes type codes.
proof fn lemma_returned_fields(types: OutputTypes, fields: Seq<Entry>)
    requires
        distinct(fields),
        all_writable(fields),
    ensures
        distinct(returned_fields(types, fields)),
        returned_fields(types, fields).len() == fields.len(),
        forall|i: int|
            0 <= i < fields.len() ==> (#[trigger] returned_fields(types, fields)[i]).0
                == fields[i].0 && stands_for(returned_fields(types, fields)[i].1, fields[i].1),
        types != OutputTypes::Never ==> returned_fields(types, fields) == fields,
        field_tags(types, fields) == tags_of(returned_fields(types, fields)),
{
    let back = returned_fields(types, fields);
    assert(field_tags(types, fields) =~= tags_of(back));
    assert forall|i: int, j: int| 0 <= i < j < back.len() implies name_key(
        #[trigger] back[i].0,
    ) != name_key(#[trigger] back[j].0) by {
        assert(back[i].0 == fields[i].0);
        assert(back[j].0 == fields[j].0);
    }
    assert forall|i: int| 0 <= i < fields.len() implies (#[trigger] back[i]).0 == fields[i].0
        && stands_for(back[i].1, fields[i].1) by {
        assert(writable(fields[i]));
        lemma_value_reads_back(types, fields[i].1);
    }
    if types != OutputTypes::Never {
        assert forall|i: int| 0 <= i < back.len() implies back[i] == fields[i] by {
            assert(writable(fields[i]));
        }
        assert(back =~= fields);
    }
}

/// What is written reads back. A record whose fields can all be written,
/// written under any policy and read again, gives one record and no
/// error: a header if it was one, with the same names in the same order,
/// and for each value one that stands for it. Where the policy writes type
/// codes, the values come back as they were.
pub proof fn lemma_round_trip(types: OutputTypes, record: RecordView, strict: bool)
    requires
        distinct(record.fields),
        all_writable(record.fields),
    ensures
        ({
            let reading = read_whole(record_bytes(types, record), strict);
            let made = assemble(fresh(), reading.tags);
            let back = returned_fields(types, record.fields);
            &&& reading.ending is Clean
            &&& made.failed is None
            &&& made.pending == fresh()
            &&& made.records == seq![RecordView { header: record.header, fields: back }]
            &&& back.len() == record.fields.len()
            &&& forall|i: int|
                0 <= i < back.len() ==> (#[trigger] back[i]).0 == record.fields[i].0
                    && stands_for(back[i].1, record.fields[i].1)
            &&& types != OutputTypes::Never ==> back == record.fields
        }),
{
    let back = returned_fields(types, record.fields);
    lemma_record_reads(types, record, strict);
    lemma_returned_fields(types, record.fields);
    assert(fresh().fields + back =~= back);
    lemma_assemble_fields(fresh(), back, record.header);
}

} // verus!
