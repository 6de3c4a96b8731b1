//! Reading tags from a byte stream that arrives in pieces.

use crate::buffer::buffer_advance;
use crate::buffer::buffer_bytes;
use crate::buffer::buffer_len;
use crate::buffer::buffer_slice;
use crate::datum::bool_parsed;
use crate::datum::parse_bool;
use crate::datum::Datum;
use crate::datum::Value;
use crate::error::Error;
use crate::error::ErrorView;
use crate::error::Position;
use crate::record::inserted;
use crate::record::lookup;
use crate::record::Field;
use crate::record::Record;
use crate::record::RecordView;
use crate::record::Tag;
use crate::record::TagView;
use crate::text::alike;
use crate::text::blanks;
use crate::text::count_blanks;
use crate::text::eq_ignore_case;
use crate::text::find_byte;
use crate::text::first_at;
use crate::text::length_value;
use crate::text::lemma_blanks;
use crate::text::lemma_first_at;
use crate::text::lossy_text;
use crate::text::parse_length;
use crate::text::same_text;
use crate::text::text_lossy;
use crate::values::date_format;
use crate::values::date_parsed;
use crate::values::decimal_parsed;
use crate::values::parse_date;
use crate::values::parse_decimal;
use crate::values::parse_time;
use crate::values::time_format;
use crate::values::time_parsed;
use bytes::BytesMut;
use vstd::prelude::*;
use vstd::slice::slice_subrange;
use vstd::utf8::decode_utf8;
use vstd::utf8::encode_utf8;
use vstd::utf8::encode_utf8_decode_utf8;
use vstd::utf8::valid_utf8;

verus! {

/// A place in the stream: line and column count from one, bytes from zero.
pub struct Cursor {
    pub line: int,
    pub column: int,
    pub byte: int,
}

/// The place reached from `from` once `data` has been passed: a line feed
/// starts the next line at column one, any other byte moves one column on.
pub open spec fn moved(from: Cursor, data: Seq<u8>) -> Cursor
    decreases data.len(),
{
    if data.len() == 0 {
        from
    } else {
        let before = moved(from, data.drop_last());
        if data.last() == 0x0a {
            Cursor { line: before.line + 1, column: 1, byte: before.byte + 1 }
        } else {
            Cursor { line: before.line, column: before.column + 1, byte: before.byte + 1 }
        }
    }
}

/// A place as a [`Position`].
pub open spec fn place(at: Cursor) -> Position {
    Position { line: at.line as usize, column: at.column as usize, byte: at.byte as usize }
}

/// Passing `a` and then `b` reaches the place that passing both at once does.
pub proof fn lemma_moved_concat(from: Cursor, a: Seq<u8>, b: Seq<u8>)
    ensures
        moved(from, a + b) == moved(moved(from, a), b),
    decreases b.len(),
{
    if b.len() == 0 {
        assert(a + b =~= a);
    } else {
        lemma_moved_concat(from, a, b.drop_last());
        assert((a + b).drop_last() =~= a + b.drop_last());
    }
}

/// Every byte passed moves the place one byte on, and line and column by at
/// most one.
pub proof fn lemma_moved_bounds(from: Cursor, data: Seq<u8>)
    ensures
        moved(from, data).byte == from.byte + data.len(),
        from.line <= moved(from, data).line <= from.line + data.len(),
        1 <= from.column ==> 1 <= moved(from, data).column,
        0 <= from.column ==> moved(from, data).column <= from.column + data.len(),
    decreases data.len(),
{
    if data.len() > 0 {
        lemma_moved_bounds(from, data.drop_last());
    }
}

/// The kinds of value that a type code selects.
pub enum Kind {
    Number,
    Boolean,
    Date,
    Time,
    Text,
}

/// The kind that a type code selects: `n`, `b`, `d` or `t` in either letter
/// case; text for every other code and for none.
pub open spec fn kind_of(code: Option<Seq<char>>) -> Kind {
    match code {
        Some(c) => if c == "n"@ || c == "N"@ {
            Kind::Number
        } else if c == "b"@ || c == "B"@ {
            Kind::Boolean
        } else if c == "d"@ || c == "D"@ {
            Kind::Date
        } else if c == "t"@ || c == "T"@ {
            Kind::Time
        } else {
            Kind::Text
        },
        None => Kind::Text,
    }
}

/// The value that a text denotes as a given kind, if it denotes one.
pub open spec fn typed(kind: Kind, text: Seq<char>) -> Option<Value> {
    match kind {
        Kind::Number => match decimal_parsed(text) {
            Some(n) => Some(Value::Number(n)),
            None => None,
        },
        Kind::Boolean => match bool_parsed(text) {
            Some(b) => Some(Value::Boolean(b)),
            None => None,
        },
        Kind::Date => match date_parsed(text, date_format()) {
            Some(d) => Some(Value::Date(d)),
            None => None,
        },
        Kind::Time => match time_parsed(text, time_format()) {
            Some(t) => Some(Value::Time(t)),
            None => None,
        },
        Kind::Text => Some(Value::Text(text)),
    }
}

/// What the inside of a field tag says: the name, how many bytes of value
/// follow, and the type code if there is one.
pub struct Header {
    pub name: Seq<char>,
    pub length: int,
    pub code: Option<Seq<char>>,
}

/// The three parts of a tag body that colons divide, if they divide it into
/// two or three: name, length, and the type code where there is a third.
pub open spec fn parts_of(body: Seq<u8>) -> Option<(Seq<u8>, Seq<u8>, Option<Seq<u8>>)> {
    let c1 = first_at(body, 0x3a) as int;
    if c1 == body.len() {
        None
    } else {
        let rest = body.skip(c1 + 1);
        let c2 = first_at(rest, 0x3a) as int;
        if c2 == rest.len() {
            Some((body.take(c1), rest, None))
        } else {
            let last = rest.skip(c2 + 1);
            if first_at(last, 0x3a) < last.len() {
                None
            } else {
                Some((body.take(c1), rest.take(c2), Some(last)))
            }
        }
    }
}

/// The header that a tag body spells, if it spells one: two or three parts,
/// name and type code valid UTF-8, the length a decimal number.
pub open spec fn header_of(body: Seq<u8>) -> Option<Header> {
    match parts_of(body) {
        None => None,
        Some((name, length, code)) => if !valid_utf8(name) || length_value(length) is None || (code
            matches Some(c) && !valid_utf8(c)) {
            None
        } else {
            Some(
                Header {
                    name: decode_utf8(name),
                    length: length_value(length)->0 as int,
                    code: match code {
                        Some(c) => Some(decode_utf8(c)),
                        None => None,
                    },
                },
            )
        },
    }
}

/// The value that the bytes after a tag spell under the tag's type code:
/// valid UTF-8 that denotes a value of the kind.
pub open spec fn value_of(code: Option<Seq<char>>, bytes: Seq<u8>) -> Option<Value> {
    if valid_utf8(bytes) {
        typed(kind_of(code), decode_utf8(bytes))
    } else {
        None
    }
}

/// The body of the end-of-header marker.
pub open spec fn eoh_body() -> Seq<u8> {
    encode_utf8("eoh"@)
}

/// The body of the end-of-record marker.
pub open spec fn eor_body() -> Seq<u8> {
    encode_utf8("eor"@)
}

/// The body of the marker after which the rest of the input is dropped.
pub open spec fn eof_body() -> Seq<u8> {
    encode_utf8("app_lotw_eof"@)
}

/// What one look at the buffered bytes finds.
pub enum Scan {
    /// No whole tag yet. The `skipped` bytes before the first `<` are done
    /// with; a tag that has begun stays in the buffer.
    Wait { skipped: int },
    /// A tag, after `skipped` bytes of other text; the tag, its value and the
    /// blanks behind it take `used` bytes.
    Tag { skipped: int, tag: TagView, used: int },
    /// The marker that ends the input, after `skipped` bytes of other text;
    /// it takes all `used` bytes that follow.
    End { skipped: int, used: int },
    /// A malformed tag, after `skipped` bytes of other text. The tag stays
    /// in the buffer.
    Bad { skipped: int, message: Seq<char> },
}

impl Scan {
    /// How many bytes of other text stand before what was found.
    pub open spec fn skipped(self) -> int {
        match self {
            Scan::Wait { skipped } => skipped,
            Scan::Tag { skipped, .. } => skipped,
            Scan::End { skipped, .. } => skipped,
            Scan::Bad { skipped, .. } => skipped,
        }
    }

    /// How many bytes leave the buffer.
    pub open spec fn taken(self) -> int {
        match self {
            Scan::Wait { skipped } => skipped,
            Scan::Tag { skipped, used, .. } => skipped + used,
            Scan::End { skipped, used } => skipped + used,
            Scan::Bad { skipped, .. } => skipped,
        }
    }
}

/// What a tag that begins the bytes `rest` (from its `<` on) amounts to,
/// after `skipped` bytes of other text.
pub open spec fn scan_tag(skipped: int, rest: Seq<u8>) -> Scan {
    let end = first_at(rest, 0x3e) as int;
    if end == rest.len() {
        Scan::Wait { skipped }
    } else {
        let body = rest.subrange(1, end);
        let after = end + 1;
        if alike(body, eoh_body()) {
            Scan::Tag {
                skipped,
                tag: TagView::Eoh,
                used: after + blanks(rest.skip(after)),
            }
        } else if alike(body, eor_body()) {
            Scan::Tag {
                skipped,
                tag: TagView::Eor,
                used: after + blanks(rest.skip(after)),
            }
        } else if alike(body, eof_body()) {
            Scan::End { skipped, used: rest.len() as int }
        } else {
            match header_of(body) {
                None => Scan::Bad { skipped, message: lossy_text(body) },
                Some(h) => {
                    let stop = after + h.length;
                    if stop > rest.len() {
                        Scan::Wait { skipped }
                    } else {
                        match value_of(h.code, rest.subrange(after, stop)) {
                            None => Scan::Bad { skipped, message: lossy_text(body) },
                            Some(v) => Scan::Tag {
                                skipped,
                                tag: TagView::Field(h.name, v),
                                used: stop + blanks(rest.skip(stop)),
                            },
                        }
                    }
                },
            }
        }
    }
}

/// What one look at the buffered bytes finds: text before the first `<` is
/// passed over, and the tag that begins there is read if it is whole.
#[verifier::opaque]
pub open spec fn scan(buf: Seq<u8>) -> Scan {
    let begin = first_at(buf, 0x3c) as int;
    if begin == buf.len() {
        Scan::Wait { skipped: begin }
    } else {
        scan_tag(begin, buf.skip(begin))
    }
}

/// The message of the error that ends a stream with an unfinished tag.
pub open spec fn partial_message() -> Seq<char> {
    "partial data at end of stream"@
}

/// What a decoding step returns for what it found: the tag; nothing where
/// more bytes are needed or the input was ended; an error for a malformed
/// tag, at the place of its `<`; and, where `strict` asks for it, an error
/// for bytes left over when nothing more can be read, at their place.
pub open spec fn decoded(
    found: Scan,
    strict: bool,
    left: int,
    at: Cursor,
    r: Result<Option<Tag>, Error>,
) -> bool {
    match found {
        Scan::Tag { tag, .. } => r matches Ok(Some(t)) && t@ == tag,
        Scan::End { .. } => r matches Ok(None),
        Scan::Bad { message, .. } => r matches Err(e) && e@ == ErrorView::InvalidFormat(
            message,
            place(at),
        ),
        Scan::Wait { .. } => if strict && left > 0 {
            r matches Err(e) && e@ == ErrorView::InvalidFormat(partial_message(), place(at))
        } else {
            r matches Ok(None)
        },
    }
}

/// One decoding step as a whole: from the place `from` and the buffered
/// bytes `all`, what was found decides how many bytes leave the buffer, the
/// place moves over exactly those, and the result is as [`decoded`] says.
pub open spec fn stepped(
    from: Cursor,
    all: Seq<u8>,
    strict: bool,
    to: Cursor,
    left: Seq<u8>,
    r: Result<Option<Tag>, Error>,
) -> bool {
    let found = scan(all);
    &&& 0 <= found.taken() <= all.len()
    &&& left == all.skip(found.taken())
    &&& to == moved(from, all.take(found.taken()))
    &&& decoded(found, strict, left.len() as int, to, r)
}

/// Passing `first` bytes and then `second` more is passing both runs at once.
pub proof fn lemma_two_steps(from: Cursor, all: Seq<u8>, first: int, second: int)
    requires
        0 <= first,
        0 <= second,
        first + second <= all.len(),
    ensures
        moved(moved(from, all.take(first)), all.skip(first).take(second)) == moved(
            from,
            all.take(first + second),
        ),
        all.skip(first).skip(second) == all.skip(first + second),
{
    lemma_moved_concat(from, all.take(first), all.skip(first).take(second));
    assert(all.take(first) + all.skip(first).take(second) =~= all.take(first + second));
    assert(all.skip(first).skip(second) =~= all.skip(first + second));
}

/// A tag as the decoder finds it, or the end of the input.
enum ParserTag {
    Field(Field),
    Eoh,
    Eor,
    Eof,
}

/// Decoder for parsing individual tags from a byte stream.
#[derive(Debug)]
pub struct TagDecoder {
    ignore_partial: bool,
    consumed: usize,
    line: usize,
    column: usize,
}

impl TagDecoder {
    #[verifier::type_invariant]
    spec fn well_formed(&self) -> bool {
        self.line <= self.consumed + 1 && self.column <= self.consumed + 1
    }

    /// The place in the stream of the next byte in the buffer.
    pub closed spec fn cursor(&self) -> Cursor {
        Cursor { line: self.line as int, column: self.column as int, byte: self.consumed as int }
    }

    /// Whether an unfinished tag at the end of the input is passed over in
    /// silence.
    pub closed spec fn ignores_partial(&self) -> bool {
        self.ignore_partial
    }

    /// Whether the counters have room for `more` further bytes.
    pub open spec fn has_room(&self, more: int) -> bool {
        self.cursor().byte + more < usize::MAX
    }

    /// Create a decoder at the start of a stream: line one, column one.
    ///
    /// If `ignore_partial` is `true`, incomplete trailing data will be
    /// silently ignored. Set it to `false` to get an error in this
    /// situation. Either way, trailing whitespace is silently consumed
    /// and will not return an error.
    pub fn new(ignore_partial: bool) -> (r: Self)
        ensures
            r.cursor() == (Cursor { line: 1, column: 1, byte: 0 }),
            r.ignores_partial() == ignore_partial,
    {
        TagDecoder { ignore_partial, consumed: 0, line: 1, column: 1 }
    }

    /// The place in the stream of the next byte in the buffer.
    pub fn position(&self) -> (r: Position)
        ensures
            r == place(self.cursor()),
    {
        Position { line: self.line, column: self.column, byte: self.consumed }
    }

    /// Whether the counters have room for what `src` holds. Decoding asks
    /// for it.
    pub fn ready(&self, src: &BytesMut) -> (r: bool)
        ensures
            r == self.has_room(buffer_bytes(src).len() as int),
    {
        let n: usize = buffer_len(src);
        n < usize::MAX && self.consumed < usize::MAX - n
    }

    fn invalid_tag(&self, tag: &[u8]) -> (r: Error)
        ensures
            r@ == ErrorView::InvalidFormat(lossy_text(tag@), place(self.cursor())),
    {
        Error::InvalidFormat { message: text_lossy(tag), position: self.position() }
    }

    /// Move the place over `data`, counting lines and columns.
    pub fn advance_slice(&mut self, data: &[u8])
        requires
            old(self).has_room(data@.len() as int),
        ensures
            final(self).cursor() == moved(old(self).cursor(), data@),
            final(self).ignores_partial() == old(self).ignores_partial(),
    {
        proof {
            use_type_invariant(&*self);
        }
        let mut line: usize = self.line;
        let mut column: usize = self.column;
        let ghost start = self.cursor();
        let mut i: usize = 0;
        while i < data.len()
            invariant
                i <= data.len(),
                start.byte + data.len() < usize::MAX,
                start.line <= start.byte + 1,
                start.column <= start.byte + 1,
                moved(start, data@.take(i as int)) == (Cursor {
                    line: line as int,
                    column: column as int,
                    byte: start.byte + i,
                }),
                line <= start.byte + i + 1,
                column <= start.byte + i + 1,
            decreases data.len() - i,
        {
            proof {
                assert(data@.take(i + 1).drop_last() =~= data@.take(i as int));
            }
            if data[i] == 0x0a {
                line += 1;
                column = 1;
            } else {
                column += 1;
            }
            i += 1;
        }
        proof {
            assert(data@.take(i as int) =~= data@);
        }
        self.consumed = self.consumed + data.len();
        self.line = line;
        self.column = column;
    }

    /// Take `count` bytes from the buffer, and the blanks behind them where
    /// `skip_blanks` asks for it, moving the place over all of them.
    fn advance(&mut self, src: &mut BytesMut, count: usize, skip_blanks: bool)
        requires
            count <= buffer_bytes(old(src)).len(),
            old(self).has_room(buffer_bytes(old(src)).len() as int),
        ensures
            ({
                let all = buffer_bytes(old(src));
                let total = count + if skip_blanks {
                    blanks(all.skip(count as int)) as int
                } else {
                    0
                };
                &&& total <= all.len()
                &&& buffer_bytes(final(src)) == all.skip(total)
                &&& final(self).cursor() == moved(old(self).cursor(), all.take(total))
            }),
            final(self).ignores_partial() == old(self).ignores_partial(),
    {
        let ghost all = buffer_bytes(src);
        let ghost start = self.cursor();
        self.advance_slice(slice_subrange(buffer_slice(src), 0, count));
        buffer_advance(src, count);
        assert(all.subrange(0, count as int) =~= all.take(count as int));
        if skip_blanks {
            let blank: usize = count_blanks(buffer_slice(src), 0);
            proof {
                assert(all.skip(count as int).skip(0) =~= all.skip(count as int));
                lemma_moved_bounds(start, all.take(count as int));
            }
            self.advance_slice(slice_subrange(buffer_slice(src), 0, blank));
            buffer_advance(src, blank);
            proof {
                let tail = all.skip(count as int);
                assert(tail.subrange(0, blank as int) =~= tail.take(blank as int));
                assert(all.take(count as int) + tail.take(blank as int) =~= all.take(
                    count + blank,
                ));
                lemma_moved_concat(start, all.take(count as int), tail.take(blank as int));
                assert(tail.skip(blank as int) =~= all.skip(count + blank));
            }
        }
    }

    /// Read `data` as text, or fail with the error of the tag `tag`.
    pub fn as_str<'a>(&self, data: &'a [u8], tag: &[u8]) -> (r: Result<&'a str, Error>)
        ensures
            r is Ok <==> valid_utf8(data@),
            r matches Ok(s) ==> s@ == decode_utf8(data@),
            r matches Err(e) ==> e@ == ErrorView::InvalidFormat(
                lossy_text(tag@),
                place(self.cursor()),
            ),
    {
        match core::str::from_utf8(data) {
            Ok(s) => {
                proof {
                    encode_utf8_decode_utf8(s@);
                }
                Ok(s)
            },
            Err(_) => Err(self.invalid_tag(tag)),
        }
    }

    /// Read the text of a value as the kind that the type code asks for.
    fn parse_typed_value(&self, tag: &[u8], v: &str, typ: Option<&str>) -> (r: Result<
        Datum,
        Error,
    >)
        ensures
            ({
                let code = match typ {
                    Some(c) => Some(c@),
                    None => None,
                };
                match typed(kind_of(code), v@) {
                    Some(value) => r matches Ok(d) && d@ == value,
                    None => r matches Err(e) && e@ == ErrorView::InvalidFormat(
                        lossy_text(tag@),
                        place(self.cursor()),
                    ),
                }
            }),
    {
        match typ {
            Some(c) => {
                if same_text(c, "n") || same_text(c, "N") {
                    match parse_decimal(v) {
                        Some(n) => Ok(Datum::Number(n)),
                        None => Err(self.invalid_tag(tag)),
                    }
                } else if same_text(c, "b") || same_text(c, "B") {
                    match parse_bool(v) {
                        Some(b) => Ok(Datum::Boolean(b)),
                        None => Err(self.invalid_tag(tag)),
                    }
                } else if same_text(c, "d") || same_text(c, "D") {
                    match parse_date(v, "%Y%m%d") {
                        Some(d) => Ok(Datum::Date(d)),
                        None => Err(self.invalid_tag(tag)),
                    }
                } else if same_text(c, "t") || same_text(c, "T") {
                    match parse_time(v, "%H%M%S") {
                        Some(t) => Ok(Datum::Time(t)),
                        None => Err(self.invalid_tag(tag)),
                    }
                } else {
                    Ok(Datum::String(v.to_owned()))
                }
            },
            None => Ok(Datum::String(v.to_owned())),
        }
    }

    /// Read the inside of a field tag and the value behind it. `src` begins
    /// with the tag's `<`, `offset` is the place of its `>` and `tag` is
    /// what stands between them.
    fn parse_value(&self, src: &[u8], offset: usize, tag: &[u8]) -> (r: Result<
        Option<(String, Datum, usize)>,
        Error,
    >)
        requires
            offset < src@.len(),
        ensures
            match header_of(tag@) {
                None => r matches Err(e) && e@ == ErrorView::InvalidFormat(
                    lossy_text(tag@),
                    place(self.cursor()),
                ),
                Some(h) => {
                    let stop = offset + 1 + h.length;
                    if stop > src@.len() {
                        r matches Ok(None)
                    } else {
                        match value_of(h.code, src@.subrange(offset + 1, stop)) {
                            None => r matches Err(e) && e@ == ErrorView::InvalidFormat(
                                lossy_text(tag@),
                                place(self.cursor()),
                            ),
                            Some(v) => r matches Ok(Some(found)) && found.0@ == h.name
                                && found.1@ == v && found.2 == stop,
                        }
                    }
                },
            },
    {
        let size: usize = tag.len();
        let c1: usize = find_byte(tag, 0, 0x3a);
        assert(tag@.skip(0) =~= tag@);
        if c1 == size {
            return Err(self.invalid_tag(tag));
        }
        let c2: usize = find_byte(tag, c1 + 1, 0x3a);
        let ghost rest = tag@.skip(c1 + 1);
        let mut length_end: usize = size;
        let mut code: Option<&[u8]> = None;
        if c2 < size {
            let c3: usize = find_byte(tag, c2 + 1, 0x3a);
            assert(rest.skip(c2 - c1) =~= tag@.skip(c2 + 1));
            if c3 < size {
                return Err(self.invalid_tag(tag));
            }
            length_end = c2;
            code = Some(slice_subrange(tag, c2 + 1, size));
            assert(tag@.subrange(c2 + 1, size as int) =~= rest.skip(c2 - c1));
        }
        let name_bytes = slice_subrange(tag, 0, c1);
        let length_bytes = slice_subrange(tag, c1 + 1, length_end);
        proof {
            assert(name_bytes@ =~= tag@.take(c1 as int));
            if c2 < size {
                assert(length_bytes@ =~= rest.take(c2 - c1 - 1));
            } else {
                assert(length_bytes@ =~= rest);
            }
            assert(parts_of(tag@) == Some((name_bytes@, length_bytes@, match code {
                Some(c) => Some(c@),
                None => None,
            })));
        }
        let name = match self.as_str(name_bytes, tag) {
            Ok(s) => s,
            Err(e) => {
                return Err(e);
            },
        };
        let length: usize = match parse_length(length_bytes) {
            Some(n) => n,
            None => {
                return Err(self.invalid_tag(tag));
            },
        };
        let typ: Option<&str> = match code {
            Some(c) => match self.as_str(c, tag) {
                Ok(s) => Some(s),
                Err(e) => {
                    return Err(e);
                },
            },
            None => None,
        };
        proof {
            assert(header_of(tag@) == Some(
                Header {
                    name: name@,
                    length: length as int,
                    code: match typ {
                        Some(c) => Some(c@),
                        None => None,
                    },
                },
            ));
        }
        let total: usize = src.len();
        let begin: usize = offset + 1;
        let stop: usize = match begin.checked_add(length) {
            Some(n) => n,
            None => {
                return Ok(None);
            },
        };
        if stop > total {
            return Ok(None);
        }
        let text = match self.as_str(slice_subrange(src, begin, stop), tag) {
            Ok(s) => s,
            Err(e) => {
                return Err(e);
            },
        };
        match self.parse_typed_value(tag, text, typ) {
            Ok(value) => Ok(Some((name.to_owned(), value, stop))),
            Err(e) => Err(e),
        }
    }

    /// One look at the buffer: pass over text before the first `<`, and read
    /// the tag that begins there if it is whole.
    fn decode_inner(&mut self, src: &mut BytesMut) -> (r: Result<Option<ParserTag>, Error>)
        requires
            old(self).has_room(buffer_bytes(old(src)).len() as int),
        ensures
            ({
                let all = buffer_bytes(old(src));
                let found = scan(all);
                &&& 0 <= found.taken() <= all.len()
                &&& buffer_bytes(final(src)) == all.skip(found.taken())
                &&& final(self).cursor() == moved(old(self).cursor(), all.take(found.taken()))
                &&& match found {
                    Scan::Wait { .. } => r matches Ok(None),
                    Scan::End { .. } => r matches Ok(Some(ParserTag::Eof)),
                    Scan::Tag { tag, .. } => r matches Ok(Some(t)) && match t {
                        ParserTag::Field(f) => tag == TagView::Field(f@.0, f@.1),
                        ParserTag::Eoh => tag == TagView::Eoh,
                        ParserTag::Eor => tag == TagView::Eor,
                        ParserTag::Eof => false,
                    },
                    Scan::Bad { message, .. } => r matches Err(e) && e@
                        == ErrorView::InvalidFormat(message, place(final(self).cursor())),
                }
            }),
            final(self).ignores_partial() == old(self).ignores_partial(),
    {
        let ghost all = buffer_bytes(src);
        let ghost start = self.cursor();
        proof {
            reveal(scan);
        }
        let begin: usize = find_byte(buffer_slice(src), 0, 0x3c);
        assert(all.skip(0) =~= all);
        self.advance(src, begin, false);
        let ghost rest = all.skip(begin as int);
        let data = buffer_slice(src);
        if data.len() == 0 {
            return Ok(None);
        }
        let end: usize = find_byte(data, 0, 0x3e);
        assert(rest.skip(0) =~= rest);
        if end == data.len() {
            return Ok(None);
        }
        proof {
            lemma_moved_bounds(start, all.take(begin as int));
            lemma_first_at(all, 0x3c);
            lemma_first_at(rest, 0x3e);
            assert(rest[0] == all[begin as int]);
        }
        let body = slice_subrange(data, 1, end);
        let after: usize = end + 1;
        if eq_ignore_case(body, "eoh".as_bytes()) {
            self.advance(src, after, true);
            proof {
                lemma_two_steps(start, all, begin as int, after + blanks(rest.skip(after as int)));
            }
            return Ok(Some(ParserTag::Eoh));
        }
        if eq_ignore_case(body, "eor".as_bytes()) {
            self.advance(src, after, true);
            proof {
                lemma_two_steps(start, all, begin as int, after + blanks(rest.skip(after as int)));
            }
            return Ok(Some(ParserTag::Eor));
        }
        if eq_ignore_case(body, "app_lotw_eof".as_bytes()) {
            let size: usize = data.len();
            self.advance(src, size, true);
            proof {
                assert(rest.skip(size as int).len() == 0);
                lemma_two_steps(start, all, begin as int, size as int);
            }
            return Ok(Some(ParserTag::Eof));
        }
        match self.parse_value(data, end, body) {
            Err(e) => Err(e),
            Ok(None) => Ok(None),
            Ok(Some((name, value, stop))) => {
                let field = Field::from_parts(name, value);
                self.advance(src, stop, true);
                proof {
                    lemma_two_steps(
                        start,
                        all,
                        begin as int,
                        stop + blanks(rest.skip(stop as int)),
                    );
                }
                Ok(Some(ParserTag::Field(field)))
            },
        }
    }

    /// One decoding step. With `eof` set, bytes that are left in the buffer
    /// when no tag can be read are an error.
    pub fn decode_with(&mut self, src: &mut BytesMut, eof: bool) -> (r: Result<Option<Tag>, Error>)
        requires
            old(self).has_room(buffer_bytes(old(src)).len() as int),
        ensures
            stepped(
                old(self).cursor(),
                buffer_bytes(old(src)),
                eof,
                final(self).cursor(),
                buffer_bytes(final(src)),
                r,
            ),
            final(self).ignores_partial() == old(self).ignores_partial(),
    {
        match self.decode_inner(src) {
            Err(e) => Err(e),
            Ok(Some(ParserTag::Field(field))) => Ok(Some(Tag::Field(field))),
            Ok(Some(ParserTag::Eoh)) => Ok(Some(Tag::Eoh)),
            Ok(Some(ParserTag::Eor)) => Ok(Some(Tag::Eor)),
            Ok(Some(ParserTag::Eof)) => Ok(None),
            Ok(None) => {
                if eof && buffer_len(src) > 0 {
                    Err(
                        Error::InvalidFormat {
                            message: "partial data at end of stream".to_owned(),
                            position: self.position(),
                        },
                    )
                } else {
                    Ok(None)
                }
            },
        }
    }

    /// Read the next tag from `src` while more input may follow. `Ok(None)`
    /// asks for more bytes.
    pub fn decode(&mut self, src: &mut BytesMut) -> (r: Result<Option<Tag>, Error>)
        requires
            old(self).has_room(buffer_bytes(old(src)).len() as int),
        ensures
            stepped(
                old(self).cursor(),
                buffer_bytes(old(src)),
                false,
                final(self).cursor(),
                buffer_bytes(final(src)),
                r,
            ),
            final(self).ignores_partial() == old(self).ignores_partial(),
    {
        self.decode_with(src, false)
    }

    /// Read the next tag from `src` when no more input will follow. What is
    /// left of an unfinished tag is an error unless the decoder ignores it.
    pub fn decode_eof(&mut self, src: &mut BytesMut) -> (r: Result<Option<Tag>, Error>)
        requires
            old(self).has_room(buffer_bytes(old(src)).len() as int),
        ensures
            stepped(
                old(self).cursor(),
                buffer_bytes(old(src)),
                !old(self).ignores_partial(),
                final(self).cursor(),
                buffer_bytes(final(src)),
                r,
            ),
            final(self).ignores_partial() == old(self).ignores_partial(),
    {
        let strict: bool = !self.ignore_partial;
        self.decode_with(src, strict)
    }
}

impl Default for TagDecoder {
    fn default() -> (r: Self)
        ensures
            r.cursor() == (Cursor { line: 0, column: 0, byte: 0 }),
            !r.ignores_partial(),
    {
        TagDecoder { ignore_partial: false, consumed: 0, line: 0, column: 0 }
    }
}

/// What the aggregator does with one item of the tag stream. A field joins
/// the record in progress, or fails as a duplicate and leaves it as it
/// was; a marker hands the record out, as a header or not, and starts an
/// empty one; an error passes through and leaves the record as it was.
pub open spec fn accepted(
    before: RecordView,
    item: Result<Tag, Error>,
    after: RecordView,
    r: Option<Result<Record, Error>>,
) -> bool {
    match item {
        Ok(tag) => match tag@ {
            TagView::Field(name, value) => match r {
                None => inserted(before, name, value, after, Ok(())),
                Some(Err(e)) => inserted(before, name, value, after, Err(e)),
                Some(Ok(_)) => false,
            },
            TagView::Eoh => after == fresh() && (r matches Some(Ok(record)) && record@ == (
            RecordView { header: true, fields: before.fields })),
            TagView::Eor => after == fresh() && (r matches Some(Ok(record)) && record@ == (
            RecordView { header: false, fields: before.fields })),
        },
        Err(e) => after == before && r == Some(Err::<Record, Error>(e)),
    }
}

/// An empty record that is no header: what the aggregator starts from.
pub open spec fn fresh() -> RecordView {
    RecordView { header: false, fields: Seq::empty() }
}

/// What a run of decoding steps ends with.
pub enum Emitted {
    /// Nothing yet: more bytes are needed, or the input has ended.
    Nothing,
    /// A record that a marker closed.
    Record(RecordView),
    /// A field whose name the record in progress holds already.
    Duplicate(Seq<char>, RecordView),
    /// A malformed tag, or bytes left over at the end, at a place.
    Invalid(Seq<char>, Cursor),
}

/// A run of decoding steps: the record in progress after it, how many bytes
/// left the buffer, and what it ended with.
pub struct Gathered {
    pub pending: RecordView,
    pub taken: int,
    pub emitted: Emitted,
}

/// Reading tags from `buf` into the record in progress until one closes
/// the record, one fails, or none is whole. Fields join the record in the
/// order in which they stand.
pub open spec fn gather(pending: RecordView, from: Cursor, buf: Seq<u8>, strict: bool) -> Gathered
    decreases buf.len(),
{
    let found = scan(buf);
    let taken = found.taken();
    let to = moved(from, buf.take(taken));
    let rest = buf.skip(taken);
    match found {
        Scan::Tag { tag, .. } => match tag {
            TagView::Field(name, value) => if lookup(pending.fields, name) is Some {
                Gathered { pending, taken, emitted: Emitted::Duplicate(name, pending) }
            } else if 0 < taken <= buf.len() {
                let more = gather(
                    RecordView {
                        header: pending.header,
                        fields: pending.fields.push((name, value)),
                    },
                    to,
                    rest,
                    strict,
                );
                Gathered { pending: more.pending, taken: taken + more.taken, emitted: more.emitted }
            } else {
                Gathered { pending, taken, emitted: Emitted::Nothing }
            },
            TagView::Eoh => Gathered {
                pending: fresh(),
                taken,
                emitted: Emitted::Record(RecordView { header: true, fields: pending.fields }),
            },
            TagView::Eor => Gathered {
                pending: fresh(),
                taken,
                emitted: Emitted::Record(RecordView { header: false, fields: pending.fields }),
            },
        },
        Scan::End { .. } => Gathered { pending, taken, emitted: Emitted::Nothing },
        Scan::Bad { message, .. } => Gathered {
            pending,
            taken,
            emitted: Emitted::Invalid(message, to),
        },
        Scan::Wait { .. } => if strict && rest.len() > 0 {
            Gathered { pending, taken, emitted: Emitted::Invalid(partial_message(), to) }
        } else {
            Gathered { pending, taken, emitted: Emitted::Nothing }
        },
    }
}

/// What a run of decoding steps returns for what it ended with.
pub open spec fn gathered(emitted: Emitted, r: Result<Option<Record>, Error>) -> bool {
    match emitted {
        Emitted::Nothing => r matches Ok(None),
        Emitted::Record(record) => r matches Ok(Some(made)) && made@ == record,
        Emitted::Duplicate(name, record) => r matches Err(e) && e@ == ErrorView::DuplicateKey(
            name,
            record,
        ),
        Emitted::Invalid(message, at) => r matches Err(e) && e@ == ErrorView::InvalidFormat(
            message,
            place(at),
        ),
    }
}

/// What is found stands at the first `<`. A tag takes at least its two
/// brackets from the buffer, and no more than the buffer holds.
pub proof fn lemma_scan_bounds(buf: Seq<u8>)
    ensures
        scan(buf).skipped() == first_at(buf, 0x3c),
        0 <= scan(buf).skipped() <= scan(buf).taken() <= buf.len(),
        scan(buf) is Tag ==> scan(buf).taken() >= scan(buf).skipped() + 2,
        scan(buf) is Bad ==> scan(buf).skipped() < buf.len(),
        scan(buf) is End ==> scan(buf).taken() == buf.len(),
{
    reveal(scan);
    lemma_first_at(buf, 0x3c);
    let begin = first_at(buf, 0x3c) as int;
    if begin < buf.len() {
        let rest = buf.skip(begin);
        lemma_first_at(rest, 0x3e);
        let end = first_at(rest, 0x3e) as int;
        if end < rest.len() {
            assert(rest[0] == buf[begin]);
            let after = end + 1;
            lemma_blanks(rest.skip(after));
            let body = rest.subrange(1, end);
            match header_of(body) {
                Some(h) => {
                    let stop = after + h.length;
                    if stop <= rest.len() {
                        lemma_blanks(rest.skip(stop));
                    }
                },
                None => {},
            }
        }
    }
}

/// Aggregates tags into complete records.
#[derive(Debug)]
pub struct RecordStream {
    decoder: TagDecoder,
    record: Record,
}

impl RecordStream {
    /// The record in progress.
    pub closed spec fn pending(&self) -> RecordView {
        self.record@
    }

    /// The place in the stream of the next byte in the buffer.
    pub closed spec fn cursor(&self) -> Cursor {
        self.decoder.cursor()
    }

    /// Whether an unfinished tag at the end of the input is passed over in
    /// silence.
    pub closed spec fn ignores_partial(&self) -> bool {
        self.decoder.ignores_partial()
    }

    /// Whether the counters have room for `more` further bytes.
    pub open spec fn has_room(&self, more: int) -> bool {
        self.cursor().byte + more < usize::MAX
    }

    /// Create an aggregator at the start of a stream, with an empty record
    /// in progress.
    ///
    /// If `ignore_partial` is `true`, incomplete trailing data will be
    /// silently ignored. Set it to `false` to get an error in this
    /// situation.
    pub fn new(ignore_partial: bool) -> (r: Self)
        ensures
            r.pending() == fresh(),
            r.cursor() == (Cursor { line: 1, column: 1, byte: 0 }),
            r.ignores_partial() == ignore_partial,
    {
        RecordStream { decoder: TagDecoder::new(ignore_partial), record: Record::new() }
    }

    /// The place in the stream of the next byte in the buffer.
    pub fn position(&self) -> (r: Position)
        ensures
            r == place(self.cursor()),
    {
        self.decoder.position()
    }

    /// Whether the counters have room for what `src` holds. Decoding asks
    /// for it.
    pub fn ready(&self, src: &BytesMut) -> (r: bool)
        ensures
            r == self.has_room(buffer_bytes(src).len() as int),
    {
        self.decoder.ready(src)
    }

    /// Hand out the record in progress with the header flag `header`, and
    /// start an empty one.
    fn make(&mut self, header: bool) -> (r: Record)
        ensures
            r@ == (RecordView { header, fields: old(self).pending().fields }),
            final(self).pending() == fresh(),
            final(self).cursor() == old(self).cursor(),
            final(self).ignores_partial() == old(self).ignores_partial(),
    {
        let mut record = Record::new();
        std::mem::swap(&mut self.record, &mut record);
        record.set_header(header);
        record
    }

    /// Take one item of the tag stream. `None` asks for the next item;
    /// `Some` is the next item of the record stream.
    pub fn accept(&mut self, item: Result<Tag, Error>) -> (r: Option<Result<Record, Error>>)
        ensures
            accepted(old(self).pending(), item, final(self).pending(), r),
            final(self).cursor() == old(self).cursor(),
            final(self).ignores_partial() == old(self).ignores_partial(),
    {
        match item {
            Ok(Tag::Eoh) => Some(Ok(self.make(true))),
            Ok(Tag::Eor) => Some(Ok(self.make(false))),
            Ok(Tag::Field(field)) => {
                let (name, value) = field.into_parts();
                match self.record.insert_field(name, value) {
                    Ok(()) => None,
                    Err(e) => Some(Err(e)),
                }
            },
            Err(e) => Some(Err(e)),
        }
    }

    /// Read tags from `src` into the record in progress until a record is
    /// complete. With `eof` set, bytes that are left in the buffer when no
    /// tag can be read are an error.
    pub fn decode_with(&mut self, src: &mut BytesMut, eof: bool) -> (r: Result<
        Option<Record>,
        Error,
    >)
        requires
            old(self).has_room(buffer_bytes(old(src)).len() as int),
        ensures
            ran(
                old(self).pending(),
                old(self).cursor(),
                buffer_bytes(old(src)),
                eof,
                final(self).pending(),
                final(self).cursor(),
                buffer_bytes(final(src)),
                r,
            ),
            final(self).ignores_partial() == old(self).ignores_partial(),
    {
        let ghost all = buffer_bytes(src);
        let ghost first = self.pending();
        let ghost start = self.cursor();
        let ghost goal = gather(first, start, all, eof);
        let ghost mut done: int = 0;
        proof {
            assert(all.skip(0) =~= all);
            assert(all.take(0) =~= Seq::<u8>::empty());
        }
        loop
            invariant
                0 <= done <= all.len(),
                all == buffer_bytes(old(src)),
                first == old(self).pending(),
                start == old(self).cursor(),
                start.byte + all.len() < usize::MAX,
                buffer_bytes(src) == all.skip(done),
                self.cursor() == moved(start, all.take(done)),
                self.ignores_partial() == old(self).ignores_partial(),
                goal == gather(first, start, all, eof),
                ({
                    let now = gather(self.pending(), self.cursor(), all.skip(done), eof);
                    &&& goal.pending == now.pending
                    &&& goal.emitted == now.emitted
                    &&& goal.taken == done + now.taken
                }),
            decreases all.len() - done,
        {
            let ghost buf = buffer_bytes(src);
            let ghost here = self.cursor();
            proof {
                lemma_moved_bounds(start, all.take(done));
                lemma_scan_bounds(buf);
                lemma_two_steps(start, all, done, scan(buf).taken());
            }
            match self.decoder.decode_with(src, eof) {
                Ok(Some(tag)) => {
                    proof {
                        done = done + scan(buf).taken();
                    }
                    match self.accept(Ok(tag)) {
                        Some(Ok(record)) => {
                            return Ok(Some(record));
                        },
                        Some(Err(e)) => {
                            return Err(e);
                        },
                        None => {},
                    }
                },
                Ok(None) => {
                    return Ok(None);
                },
                Err(e) => {
                    return Err(e);
                },
            }
        }
    }

    /// Read the next record from `src` while more input may follow.
    /// `Ok(None)` asks for more bytes.
    pub fn decode(&mut self, src: &mut BytesMut) -> (r: Result<Option<Record>, Error>)
        requires
            old(self).has_room(buffer_bytes(old(src)).len() as int),
        ensures
            ran(
                old(self).pending(),
                old(self).cursor(),
                buffer_bytes(old(src)),
                false,
                final(self).pending(),
                final(self).cursor(),
                buffer_bytes(final(src)),
                r,
            ),
            final(self).ignores_partial() == old(self).ignores_partial(),
    {
        self.decode_with(src, false)
    }

    /// Read the next record from `src` when no more input will follow. What
    /// is left of an unfinished tag is an error unless it is to be ignored.
    pub fn decode_eof(&mut self, src: &mut BytesMut) -> (r: Result<Option<Record>, Error>)
        requires
            old(self).has_room(buffer_bytes(old(src)).len() as int),
        ensures
            ran(
                old(self).pending(),
                old(self).cursor(),
                buffer_bytes(old(src)),
                !old(self).ignores_partial(),
                final(self).pending(),
                final(self).cursor(),
                buffer_bytes(final(src)),
                r,
            ),
            final(self).ignores_partial() == old(self).ignores_partial(),
    {
        let strict: bool = !self.decoder.ignore_partial;
        self.decode_with(src, strict)
    }
}

/// A run of decoding steps as a whole: what [`gather`] says of the record
/// in progress, of the bytes that leave the buffer, of the place, and of
/// the result.
pub open spec fn ran(
    pending: RecordView,
    from: Cursor,
    all: Seq<u8>,
    strict: bool,
    after: RecordView,
    to: Cursor,
    left: Seq<u8>,
    r: Result<Option<Record>, Error>,
) -> bool {
    let run = gather(pending, from, all, strict);
    &&& 0 <= run.taken <= all.len()
    &&& after == run.pending
    &&& left == all.skip(run.taken)
    &&& to == moved(from, all.take(run.taken))
    &&& gathered(run.emitted, r)
}

} // verus!
