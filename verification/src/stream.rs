//! What reading a whole stream amounts to, however it arrives, and what
//! holds of it: the pieces in which it arrives do not matter, blanks between
//! tags do not matter, and an error always points at the start of a tag.

use crate::buffer::buffer_bytes;
use crate::buffer::buffer_new;
use crate::buffer::buffer_put;
use crate::error::Error;
use crate::error::ErrorView;
use crate::parse::fresh;
use crate::parse::gather;
use crate::parse::Emitted;
use crate::parse::header_of;
use crate::parse::RecordStream;
use crate::record::lookup;
use crate::record::Record;
use crate::record::RecordView;
use crate::parse::lemma_moved_bounds;
use crate::parse::lemma_moved_concat;
use crate::parse::lemma_two_steps;
use crate::parse::moved;
use crate::parse::place;
use crate::parse::Cursor;
use crate::parse::TagDecoder;
use crate::record::Tag;
use crate::parse::lemma_scan_bounds;
use crate::parse::partial_message;
use crate::parse::scan;
use crate::parse::scan_tag;
use crate::parse::Scan;
use crate::record::TagView;
use crate::text::blank;
use crate::text::blanks;
use crate::text::first_at;
use crate::text::lemma_blanks;
use crate::text::lemma_blanks_concat;
use crate::text::lemma_first_at;
use crate::text::lemma_first_at_concat;
use crate::text::lemma_first_at_skip;
use vstd::prelude::*;

verus! {

/// Why reading tags from a buffer stopped.
pub enum Stop {
    /// No whole tag is left: more bytes are needed.
    Wait,
    /// The marker that ends the input was read.
    End,
    /// A malformed tag, with the message of its error.
    Bad(Seq<char>),
}

/// Reading tags from a buffer until one step yields none: the tags in
/// order, how many bytes left the buffer, and why reading stopped.
pub struct Drained {
    pub tags: Seq<TagView>,
    pub taken: int,
    pub stop: Stop,
}

/// Decoding step after step on what the buffer holds.
pub open spec fn drain(buf: Seq<u8>) -> Drained
    decreases buf.len(),
{
    let found = scan(buf);
    match found {
        Scan::Tag { tag, .. } => if 0 < found.taken() <= buf.len() {
            let more = drain(buf.skip(found.taken()));
            Drained {
                tags: seq![tag] + more.tags,
                taken: found.taken() + more.taken,
                stop: more.stop,
            }
        } else {
            Drained { tags: Seq::empty(), taken: 0, stop: Stop::Wait }
        },
        Scan::Wait { skipped } => Drained { tags: Seq::empty(), taken: skipped, stop: Stop::Wait },
        Scan::End { .. } => Drained { tags: Seq::empty(), taken: found.taken(), stop: Stop::End },
        Scan::Bad { skipped, message } => Drained {
            tags: Seq::empty(),
            taken: skipped,
            stop: Stop::Bad(message),
        },
    }
}

/// How the reading of a stream ends: cleanly, or with one error at a byte
/// offset from the start of the stream.
pub enum Ending {
    Clean,
    Failed { message: Seq<char>, at: int },
}

/// The reading of a stream: its tags in order, and how it ended.
pub struct Reading {
    pub tags: Seq<TagView>,
    pub ending: Ending,
}

/// An ending, its offset counted from `by` bytes further back.
pub open spec fn later(ending: Ending, by: int) -> Ending {
    match ending {
        Ending::Clean => Ending::Clean,
        Ending::Failed { message, at } => Ending::Failed { message, at: by + at },
    }
}

/// Reading a stream that arrives in pieces. The buffer holds `held`; tags
/// are read from it until none is whole; then the next piece is appended
/// to what is left, and so on. A malformed tag ends the reading. When no
/// piece is left, bytes that remain in the buffer are an error if `strict`
/// asks for it.
pub open spec fn read(held: Seq<u8>, pieces: Seq<Seq<u8>>, strict: bool) -> Reading
    decreases pieces.len(),
{
    let now = drain(held);
    match now.stop {
        Stop::Bad(message) => Reading {
            tags: now.tags,
            ending: Ending::Failed { message, at: now.taken },
        },
        _ => if pieces.len() == 0 {
            Reading {
                tags: now.tags,
                ending: if strict && held.len() > now.taken {
                    Ending::Failed { message: partial_message(), at: now.taken }
                } else {
                    Ending::Clean
                },
            }
        } else {
            let rest = read(held.skip(now.taken) + pieces[0], pieces.skip(1), strict);
            Reading { tags: now.tags + rest.tags, ending: later(rest.ending, now.taken) }
        },
    }
}

/// Reading a stream that is there as a whole.
pub open spec fn read_whole(stream: Seq<u8>, strict: bool) -> Reading {
    read(stream, Seq::empty(), strict)
}

/// The pieces of a stream put together.
pub open spec fn joined(pieces: Seq<Seq<u8>>) -> Seq<u8>
    decreases pieces.len(),
{
    if pieces.len() == 0 {
        Seq::empty()
    } else {
        pieces[0] + joined(pieces.skip(1))
    }
}

/// What a look finds, with `by` more bytes of other text in front.
pub open spec fn behind(found: Scan, by: int) -> Scan {
    match found {
        Scan::Wait { skipped } => Scan::Wait { skipped: by + skipped },
        Scan::Tag { skipped, tag, used } => Scan::Tag { skipped: by + skipped, tag, used },
        Scan::End { skipped, used } => Scan::End { skipped: by + skipped, used },
        Scan::Bad { skipped, message } => Scan::Bad { skipped: by + skipped, message },
    }
}

/// Bytes before the first `<` only add to what is passed over.
pub proof fn lemma_scan_skip(buf: Seq<u8>, k: int)
    requires
        0 <= k <= first_at(buf, 0x3c),
    ensures
        scan(buf) == behind(scan(buf.skip(k)), k),
{
    reveal(scan);
    lemma_first_at(buf, 0x3c);
    lemma_first_at_skip(buf, 0x3c, k);
    let begin = first_at(buf, 0x3c) as int;
    if begin < buf.len() {
        assert(buf.skip(k).skip(begin - k) =~= buf.skip(begin));
    }
}

/// Bytes before the first `<` change nothing of what is read but the count
/// of bytes taken.
pub proof fn lemma_drain_skip(buf: Seq<u8>, k: int)
    requires
        0 <= k <= first_at(buf, 0x3c),
    ensures
        drain(buf).tags == drain(buf.skip(k)).tags,
        drain(buf).taken == k + drain(buf.skip(k)).taken,
        drain(buf).stop == drain(buf.skip(k)).stop,
{
    lemma_scan_skip(buf, k);
    lemma_scan_bounds(buf);
    lemma_scan_bounds(buf.skip(k));
    lemma_first_at(buf, 0x3c);
    let found = scan(buf);
    if found is Tag {
        assert(buf.skip(k).skip(found.taken() - k) =~= buf.skip(found.taken()));
    }
}

/// What follows a tag that was read, a malformed tag or the end marker
/// does not change what they are. Only the blanks behind a tag can grow,
/// where the tag and its blanks reached the end of the bytes.
pub open spec fn extended(found: Scan, size: int, more: Seq<u8>) -> Scan {
    match found {
        Scan::Tag { skipped, tag, used } => Scan::Tag {
            skipped,
            tag,
            used: used + if skipped + used == size {
                blanks(more) as int
            } else {
                0
            },
        },
        Scan::End { skipped, used } => Scan::End { skipped, used: used + more.len() },
        _ => found,
    }
}

proof fn lemma_scan_tag_extend(skipped: int, rest: Seq<u8>, more: Seq<u8>)
    requires
        rest.len() > 0,
        rest[0] == 0x3c,
    ensures
        !(scan_tag(skipped, rest) is Wait) ==> scan_tag(skipped, rest + more) == extended(
            scan_tag(skipped, rest),
            skipped + rest.len(),
            more,
        ),
{
    let all = rest + more;
    lemma_first_at(rest, 0x3e);
    lemma_first_at_concat(rest, more, 0x3e);
    let end = first_at(rest, 0x3e) as int;
    if end < rest.len() {
        let after = end + 1;
        assert(all.subrange(1, end) =~= rest.subrange(1, end));
        assert(all.skip(after) =~= rest.skip(after) + more);
        lemma_blanks_concat(rest.skip(after), more);
        lemma_blanks(rest.skip(after));
        let body = rest.subrange(1, end);
        match header_of(body) {
            Some(h) => {
                let stop = after + h.length;
                if stop <= rest.len() {
                    assert(all.subrange(after, stop) =~= rest.subrange(after, stop));
                    assert(all.skip(stop) =~= rest.skip(stop) + more);
                    lemma_blanks_concat(rest.skip(stop), more);
                    lemma_blanks(rest.skip(stop));
                }
            },
            None => {},
        }
    }
}

/// More bytes behind the buffer do not change a tag that was read, a
/// malformed tag or the end marker.
pub proof fn lemma_scan_extend(buf: Seq<u8>, more: Seq<u8>)
    ensures
        !(scan(buf) is Wait) ==> scan(buf + more) == extended(scan(buf), buf.len() as int, more),
{
    reveal(scan);
    lemma_first_at(buf, 0x3c);
    lemma_first_at_concat(buf, more, 0x3c);
    let begin = first_at(buf, 0x3c) as int;
    if begin < buf.len() {
        assert((buf + more).skip(begin) =~= buf.skip(begin) + more);
        assert(buf.skip(begin)[0] == buf[begin]);
        lemma_scan_tag_extend(begin, buf.skip(begin), more);
    }
}

/// Nothing is found in an empty buffer.
pub proof fn lemma_scan_empty()
    ensures
        scan(Seq::<u8>::empty()) == (Scan::Wait { skipped: 0 }),
{
    reveal(scan);
}

/// The blanks at the front of a buffer stand before its first `<`.
proof fn lemma_blanks_before_tag(buf: Seq<u8>)
    ensures
        blanks(buf) <= first_at(buf, 0x3c),
{
    lemma_blanks(buf);
    lemma_first_at(buf, 0x3c);
    let f = first_at(buf, 0x3c) as int;
    if f < blanks(buf) {
        assert(blank(buf[f]));
    }
}

/// Reading from a buffer with more bytes behind it: what was read before
/// the bytes came stays read, and reading goes on with what was left and
/// the new bytes. A malformed tag stays where it was; so does the end
/// marker.
pub proof fn lemma_drain_extend(buf: Seq<u8>, more: Seq<u8>)
    ensures
        match drain(buf).stop {
            Stop::Wait => {
                let rest = drain(buf.skip(drain(buf).taken) + more);
                &&& drain(buf + more).tags == drain(buf).tags + rest.tags
                &&& drain(buf + more).taken == drain(buf).taken + rest.taken
                &&& drain(buf + more).stop == rest.stop
            },
            Stop::Bad(_) => drain(buf + more) == drain(buf),
            Stop::End => drain(buf + more).tags == drain(buf).tags && drain(buf + more).stop
                is End,
        },
    decreases buf.len(),
{
    let all = buf + more;
    let found = scan(buf);
    lemma_scan_bounds(buf);
    lemma_scan_bounds(all);
    lemma_scan_extend(buf, more);
    match found {
        Scan::Tag { skipped, tag, used } => {
            let taken = skipped + used;
            let after = drain(buf.skip(taken));
            if taken < buf.len() {
                assert(all.skip(taken) =~= buf.skip(taken) + more);
                lemma_drain_extend(buf.skip(taken), more);
                lemma_drain_bounds(buf.skip(taken));
                if after.stop is Wait {
                    assert(buf.skip(taken).skip(after.taken) =~= buf.skip(taken + after.taken));
                    let rest = drain(buf.skip(taken + after.taken) + more);
                    assert(seq![tag] + (after.tags + rest.tags) =~= (seq![tag] + after.tags)
                        + rest.tags);
                }
            } else {
                let e = blanks(more) as int;
                lemma_blanks(more);
                lemma_blanks_before_tag(more);
                lemma_drain_skip(more, e);
                assert(buf.skip(taken) =~= Seq::<u8>::empty());
                assert(all.skip(taken + e) =~= more.skip(e));
                assert(buf.skip(taken).skip(0) =~= buf.skip(taken));
                assert(buf.skip(taken) + more =~= more);
                lemma_scan_empty();
                assert(seq![tag] + Seq::<TagView>::empty() =~= seq![tag]);
            }
        },
        Scan::Wait { skipped } => {
            lemma_first_at(buf, 0x3c);
            lemma_first_at_concat(buf, more, 0x3c);
            lemma_drain_skip(all, skipped);
            assert(all.skip(skipped) =~= buf.skip(skipped) + more);
            assert(Seq::<TagView>::empty() + drain(all.skip(skipped)).tags =~= drain(
                all.skip(skipped),
            ).tags);
        },
        Scan::Bad { .. } => {},
        Scan::End { .. } => {},
    }
}

/// The pieces in which a stream arrives do not matter: as long as the
/// stream does not hold the marker that ends the input, reading it piece
/// by piece finds the tags, and the error at the byte offset, that reading
/// it as a whole finds.
pub proof fn lemma_pieces_do_not_matter(held: Seq<u8>, pieces: Seq<Seq<u8>>, strict: bool)
    requires
        !(drain(held + joined(pieces)).stop is End),
    ensures
        read(held, pieces, strict) == read_whole(held + joined(pieces), strict),
    decreases pieces.len(),
{
    let whole = held + joined(pieces);
    let none = Seq::<Seq<u8>>::empty();
    if pieces.len() == 0 {
        assert(whole =~= held);
        assert(pieces =~= none);
    } else {
        let now = drain(held);
        lemma_drain_extend(held, joined(pieces));
        lemma_drain_bounds(held);
        if now.stop is Wait {
            let left = held.skip(now.taken);
            let next = left + pieces[0];
            let tail = pieces.skip(1);
            assert(next + joined(tail) =~= left + joined(pieces));
            lemma_pieces_do_not_matter(next, tail, strict);
            let rest = read_whole(next + joined(tail), strict);
            let all = drain(whole);
            let then = drain(next + joined(tail));
            assert(whole.len() - all.taken == (next + joined(tail)).len() - then.taken);
        }
    }
}

/// Reading never takes more bytes than the buffer holds.
pub proof fn lemma_drain_bounds(buf: Seq<u8>)
    ensures
        0 <= drain(buf).taken <= buf.len(),
    decreases buf.len(),
{
    lemma_scan_bounds(buf);
    if scan(buf) is Tag {
        lemma_drain_bounds(buf.skip(scan(buf).taken()));
    }
}

/// Reading stops at the start of a tag or at the end of the buffer, and at
/// the start of a tag where the tag is malformed.
pub proof fn lemma_drain_stops_at_tag(buf: Seq<u8>)
    ensures
        0 <= drain(buf).taken <= buf.len(),
        drain(buf).taken < buf.len() && !(drain(buf).stop is End) ==> buf[drain(buf).taken]
            == 0x3c,
        drain(buf).stop is Bad ==> drain(buf).taken < buf.len(),
        drain(buf).stop is End ==> drain(buf).taken == buf.len(),
    decreases buf.len(),
{
    lemma_scan_bounds(buf);
    lemma_first_at(buf, 0x3c);
    let found = scan(buf);
    if found is Tag {
        let rest = buf.skip(found.taken());
        lemma_drain_stops_at_tag(rest);
        if drain(rest).taken < rest.len() {
            assert(rest[drain(rest).taken] == buf[found.taken() + drain(rest).taken]);
        }
    }
}

/// Reading a stream ends cleanly or with one error, and the error points
/// at a `<`: at the start of the tag that is malformed or unfinished.
pub proof fn lemma_error_points_at_tag(stream: Seq<u8>, strict: bool)
    ensures
        read_whole(stream, strict).ending matches Ending::Failed { at, .. } ==> 0 <= at
            < stream.len() && stream[at] == 0x3c,
        !strict ==> (read_whole(stream, strict).ending is Failed <==> drain(stream).stop is Bad),
{
    lemma_drain_stops_at_tag(stream);
}

/// A stream cut short. Where the whole stream reads without error, what is
/// read of its first `cut` bytes is the tags of the stream as far as they
/// are whole; and reading it ends cleanly or, where `strict` asks for it,
/// with the one error of an unfinished tag, which points at a `<`.
pub proof fn lemma_cut_short(stream: Seq<u8>, cut: int, strict: bool)
    requires
        0 <= cut <= stream.len(),
        !(drain(stream).stop is Bad),
    ensures
        ({
            let part = read_whole(stream.take(cut), strict);
            let all = read_whole(stream, strict);
            &&& part.tags.len() <= all.tags.len()
            &&& part.tags == all.tags.take(part.tags.len() as int)
            &&& match part.ending {
                Ending::Clean => true,
                Ending::Failed { message, at } => strict && message == partial_message() && 0
                    <= at < cut && stream[at] == 0x3c,
            }
        }),
{
    let head = stream.take(cut);
    let tail = stream.skip(cut);
    assert(head + tail =~= stream);
    lemma_drain_extend(head, tail);
    lemma_drain_stops_at_tag(head);
    let now = drain(head);
    match now.stop {
        Stop::Wait => {
            let rest = drain(head.skip(now.taken) + tail);
            assert((now.tags + rest.tags).take(now.tags.len() as int) =~= now.tags);
            if now.taken < head.len() {
                assert(head[now.taken] == stream[now.taken]);
            }
        },
        Stop::End => {
            assert(now.tags.take(now.tags.len() as int) =~= now.tags);
        },
        Stop::Bad(_) => {},
    }
}

/// The first tags of a run make the first records of the run, and no
/// duplicate where the run has none.
pub proof fn lemma_assemble_prefix(pending: RecordView, tags: Seq<TagView>, k: int)
    requires
        0 <= k <= tags.len(),
        assemble(pending, tags).failed is None,
    ensures
        assemble(pending, tags.take(k)).failed is None,
        assemble(pending, tags.take(k)).records.len() <= assemble(pending, tags).records.len(),
        assemble(pending, tags.take(k)).records == assemble(pending, tags).records.take(
            assemble(pending, tags.take(k)).records.len() as int,
        ),
    decreases tags.len(),
{
    let part = tags.take(k);
    if k == 0 {
        assert(assemble(pending, part).records =~= assemble(pending, tags).records.take(0));
    } else {
        assert(part[0] == tags[0]);
        assert(part.skip(1) =~= tags.skip(1).take(k - 1));
        match tags[0] {
            TagView::Field(name, value) => {
                let next = RecordView {
                    header: pending.header,
                    fields: pending.fields.push((name, value)),
                };
                lemma_assemble_prefix(next, tags.skip(1), k - 1);
            },
            TagView::Eoh => {
                lemma_assemble_prefix(fresh(), tags.skip(1), k - 1);
                let first = seq![RecordView { header: true, fields: pending.fields }];
                let some = assemble(fresh(), part.skip(1)).records;
                let all = assemble(fresh(), tags.skip(1)).records;
                assert((first + all).take(1 + some.len() as int) =~= first + all.take(
                    some.len() as int,
                ));
            },
            TagView::Eor => {
                lemma_assemble_prefix(fresh(), tags.skip(1), k - 1);
                let first = seq![RecordView { header: false, fields: pending.fields }];
                let some = assemble(fresh(), part.skip(1)).records;
                let all = assemble(fresh(), tags.skip(1)).records;
                assert((first + all).take(1 + some.len() as int) =~= first + all.take(
                    some.len() as int,
                ));
            },
        }
    }
}

/// Blanks between tags do not matter. Where `before` ends with a tag, its
/// value and the blanks behind it, a run of blanks put in at that place
/// changes no tag of the stream, and moves the error, if there is one, by
/// the length of the run.
pub proof fn lemma_blanks_do_not_matter(
    before: Seq<u8>,
    gap: Seq<u8>,
    after: Seq<u8>,
    strict: bool,
)
    requires
        drain(before).stop is Wait,
        drain(before).taken == before.len(),
        forall|i: int| 0 <= i < gap.len() ==> blank(#[trigger] gap[i]),
    ensures
        read_whole(before + gap + after, strict).tags == read_whole(before + after, strict).tags,
        read_whole(before + gap + after, strict).ending == (match read_whole(
            before + after,
            strict,
        ).ending {
            Ending::Clean => Ending::Clean,
            Ending::Failed { message, at } => Ending::Failed { message, at: at + gap.len() },
        }),
{
    let wide = gap + after;
    assert(before + gap + after =~= before + wide);
    assert(before.skip(before.len() as int) + wide =~= wide);
    assert(before.skip(before.len() as int) + after =~= after);
    lemma_drain_extend(before, wide);
    lemma_drain_extend(before, after);
    lemma_first_at(gap, 0x3c);
    lemma_first_at_concat(gap, after, 0x3c);
    let f = first_at(gap, 0x3c) as int;
    if f < gap.len() {
        assert(blank(gap[f]));
    }
    lemma_drain_skip(wide, gap.len() as int);
    assert(wide.skip(gap.len() as int) =~= after);
}

/// The first place of a stream: line one, column one, byte zero.
pub open spec fn origin() -> Cursor {
    Cursor { line: 1, column: 1, byte: 0 }
}

/// What each tag of a list stands for.
pub open spec fn views(tags: Seq<Tag>) -> Seq<TagView> {
    tags.map_values(|t: Tag| t@)
}

/// The bytes of each piece of a list.
pub open spec fn contents(pieces: Seq<&[u8]>) -> Seq<Seq<u8>> {
    pieces.map_values(|p: &[u8]| p@)
}

/// What reading returns for how it ended: no error, or the error with the
/// position of its byte offset in the stream.
pub open spec fn ended(ending: Ending, stream: Seq<u8>, r: Option<Error>) -> bool {
    match ending {
        Ending::Clean => r is None,
        Ending::Failed { message, at } => r matches Some(e) && e@ == ErrorView::InvalidFormat(
            message,
            place(moved(origin(), stream.take(at))),
        ),
    }
}

/// A tag at the front of the buffer is the first tag of the reading, and
/// the rest is the reading of what is behind it.
proof fn lemma_read_tag(buf: Seq<u8>, pieces: Seq<Seq<u8>>, strict: bool)
    requires
        scan(buf) is Tag,
    ensures
        read(buf, pieces, strict).tags == seq![scan(buf)->tag] + read(
            buf.skip(scan(buf).taken()),
            pieces,
            strict,
        ).tags,
        read(buf, pieces, strict).ending == later(
            read(buf.skip(scan(buf).taken()), pieces, strict).ending,
            scan(buf).taken(),
        ),
{
    lemma_scan_bounds(buf);
    let found = scan(buf);
    let taken = found.taken();
    let rest = buf.skip(taken);
    let now = drain(buf);
    let then = drain(rest);
    lemma_drain_bounds(rest);
    if !(now.stop is Bad) {
        if pieces.len() == 0 {
            assert(seq![found->tag] + then.tags =~= now.tags);
        } else {
            assert(buf.skip(now.taken) =~= rest.skip(then.taken));
            let after = read(rest.skip(then.taken) + pieces[0], pieces.skip(1), strict);
            assert(now.tags + after.tags =~= seq![found->tag] + (then.tags + after.tags));
        }
    }
}

/// Reads every tag of a stream that arrives in the given pieces, in order:
/// the tags up to the first error, and that error if there is one.
///
/// If `ignore_partial` is `true`, an unfinished tag at the end of the last
/// piece is passed over; else it is an error.
pub fn read_tags(pieces: &[&[u8]], ignore_partial: bool) -> (r: (Vec<Tag>, Option<Error>))
    requires
        joined(contents(pieces@)).len() < usize::MAX,
    ensures
        views(r.0@) == read(Seq::empty(), contents(pieces@), !ignore_partial).tags,
        ended(
            read(Seq::empty(), contents(pieces@), !ignore_partial).ending,
            joined(contents(pieces@)),
            r.1,
        ),
{
    let ghost all = contents(pieces@);
    let ghost whole = joined(all);
    let ghost strict = !ignore_partial;
    let ghost goal = read(Seq::empty(), all, strict);
    let mut decoder = TagDecoder::new(ignore_partial);
    let mut buf = buffer_new();
    let mut tags: Vec<Tag> = Vec::new();
    let mut i: usize = 0;
    let ghost mut done: Seq<u8> = Seq::empty();
    proof {
        assert(all.skip(0) =~= all);
        assert(done + buffer_bytes(&buf) + joined(all.skip(0)) =~= whole);
        assert(views(tags@) =~= Seq::<TagView>::empty());
        assert(views(tags@) + goal.tags =~= goal.tags);
    }
    loop
        invariant
            i <= pieces.len(),
            all == contents(pieces@),
            whole == joined(all),
            whole.len() < usize::MAX,
            strict == !ignore_partial,
            decoder.ignores_partial() == ignore_partial,
            goal == read(Seq::empty(), all, strict),
            done + buffer_bytes(&buf) + joined(all.skip(i as int)) == whole,
            decoder.cursor() == moved(origin(), done),
            goal.tags == views(tags@) + read(buffer_bytes(&buf), all.skip(i as int), strict).tags,
            goal.ending == later(
                read(buffer_bytes(&buf), all.skip(i as int), strict).ending,
                done.len() as int,
            ),
        decreases pieces.len() - i, buffer_bytes(&buf).len() + 1,
    {
        let ghost held = buffer_bytes(&buf);
        let ghost next = all.skip(i as int);
        let ghost found = scan(held);
        proof {
            lemma_scan_bounds(held);
            lemma_moved_bounds(origin(), done);
            lemma_moved_concat(origin(), done, held.take(found.taken()));
            assert(whole.take(done.len() + found.taken()) =~= done + held.take(found.taken()));
        }
        match decoder.decode(&mut buf) {
            Ok(Some(tag)) => {
                proof {
                    lemma_read_tag(held, next, strict);
                    assert(views(tags@.push(tag)) =~= views(tags@) + seq![tag@]);
                    let rest = read(held.skip(found.taken()), next, strict);
                    assert(views(tags@) + (seq![tag@] + rest.tags) =~= (views(tags@) + seq![
                        tag@,
                    ]) + rest.tags);
                    assert(done + held.take(found.taken()) + held.skip(found.taken())
                        =~= done + held);
                    done = done + held.take(found.taken());
                }
                tags.push(tag);
            },
            Err(e) => {
                proof {
                    assert(views(tags@) + Seq::<TagView>::empty() =~= views(tags@));
                }
                return (tags, Some(e));
            },
            Ok(None) => {
                proof {
                    assert(done + held.take(found.taken()) + held.skip(found.taken())
                        =~= done + held);
                    done = done + held.take(found.taken());
                }
                if i == pieces.len() {
                    let ghost left = buffer_bytes(&buf);
                    proof {
                        assert(next =~= Seq::<Seq<u8>>::empty());
                        assert(views(tags@) + Seq::<TagView>::empty() =~= views(tags@));
                        lemma_scan_skip(held, found.skipped());
                        lemma_scan_empty();
                        lemma_scan_bounds(left);
                        assert(left.take(0) =~= Seq::<u8>::empty());
                        assert(whole.take(done.len() as int) =~= done);
                        lemma_moved_bounds(origin(), done);
                        assert(joined(next) =~= Seq::<u8>::empty());
                        assert(whole.len() == done.len() + left.len());
                    }
                    return match decoder.decode_eof(&mut buf) {
                        Ok(_) => (tags, None),
                        Err(e) => (tags, Some(e)),
                    };
                }
                let ghost left = buffer_bytes(&buf);
                buffer_put(&mut buf, pieces[i]);
                proof {
                    assert(all.skip(i as int)[0] == pieces@[i as int]@);
                    assert(all.skip(i as int).skip(1) =~= all.skip(i + 1));
                    assert(done + (left + pieces@[i as int]@) + joined(all.skip(i + 1)) =~= done
                        + left + joined(all.skip(i as int)));
                    assert(views(tags@) + (Seq::<TagView>::empty() + read(
                        left + next[0],
                        next.skip(1),
                        strict,
                    ).tags) =~= views(tags@) + read(left + next[0], next.skip(1), strict).tags);
                }
                i += 1;
            },
        }
    }
}

/// The records that a run of tags makes: the records that markers closed,
/// the record left in progress, and the field that failed as a duplicate,
/// with the record it was offered to, if one did.
pub struct Assembled {
    pub records: Seq<RecordView>,
    pub pending: RecordView,
    pub failed: Option<(Seq<char>, RecordView)>,
}

/// Aggregating tags into records, from a record in progress. A field whose
/// name the record holds already ends the run.
pub open spec fn assemble(pending: RecordView, tags: Seq<TagView>) -> Assembled
    decreases tags.len(),
{
    if tags.len() == 0 {
        Assembled { records: Seq::empty(), pending, failed: None }
    } else {
        match tags[0] {
            TagView::Field(name, value) => if lookup(pending.fields, name) is Some {
                Assembled { records: Seq::empty(), pending, failed: Some((name, pending)) }
            } else {
                assemble(
                    RecordView {
                        header: pending.header,
                        fields: pending.fields.push((name, value)),
                    },
                    tags.skip(1),
                )
            },
            TagView::Eoh => {
                let more = assemble(fresh(), tags.skip(1));
                Assembled {
                    records: seq![RecordView { header: true, fields: pending.fields }]
                        + more.records,
                    pending: more.pending,
                    failed: more.failed,
                }
            },
            TagView::Eor => {
                let more = assemble(fresh(), tags.skip(1));
                Assembled {
                    records: seq![RecordView { header: false, fields: pending.fields }]
                        + more.records,
                    pending: more.pending,
                    failed: more.failed,
                }
            },
        }
    }
}

/// What each record of a list stands for.
pub open spec fn record_views(records: Seq<Record>) -> Seq<RecordView> {
    records.map_values(|r: Record| r@)
}

/// Reads every record of a stream that arrives in the given pieces, in
/// order: the records up to the first error, and that error if there is
/// one. Fields behind the last marker make no record.
///
/// If `ignore_partial` is `true`, an unfinished tag at the end of the last
/// piece is passed over; else it is an error.
pub fn read_records(pieces: &[&[u8]], ignore_partial: bool) -> (r: (Vec<Record>, Option<Error>))
    requires
        joined(contents(pieces@)).len() < usize::MAX,
    ensures
        ({
            let reading = read(Seq::empty(), contents(pieces@), !ignore_partial);
            let made = assemble(fresh(), reading.tags);
            &&& record_views(r.0@) == made.records
            &&& match made.failed {
                Some((name, record)) => r.1 matches Some(e) && e@ == ErrorView::DuplicateKey(
                    name,
                    record,
                ),
                None => ended(reading.ending, joined(contents(pieces@)), r.1),
            }
        }),
{
    let (tags, ending) = read_tags(pieces, ignore_partial);
    let ghost all = views(tags@);
    let ghost goal = assemble(fresh(), all);
    let mut stream = RecordStream::new(ignore_partial);
    let mut records: Vec<Record> = Vec::new();
    let mut i: usize = 0;
    proof {
        assert(all.skip(0) =~= all);
        assert(record_views(records@) =~= Seq::<RecordView>::empty());
        assert(record_views(records@) + goal.records =~= goal.records);
    }
    while i < tags.len()
        invariant
            i <= tags.len(),
            all == views(tags@),
            all == read(Seq::empty(), contents(pieces@), !ignore_partial).tags,
            ended(
                read(Seq::empty(), contents(pieces@), !ignore_partial).ending,
                joined(contents(pieces@)),
                ending,
            ),
            goal == assemble(fresh(), all),
            goal.records == record_views(records@) + assemble(
                stream.pending(),
                all.skip(i as int),
            ).records,
            goal.failed == assemble(stream.pending(), all.skip(i as int)).failed,
        decreases tags.len() - i,
    {
        let ghost pending = stream.pending();
        let ghost rest = all.skip(i as int);
        proof {
            assert(rest[0] == tags@[i as int]@);
            assert(rest.skip(1) =~= all.skip(i + 1));
        }
        match stream.accept(Ok(tags[i].clone())) {
            None => {},
            Some(Ok(record)) => {
                proof {
                    let more = assemble(fresh(), rest.skip(1));
                    assert(record_views(records@.push(record)) =~= record_views(records@)
                        + seq![record@]);
                    assert(record_views(records@) + (seq![record@] + more.records) =~= (
                    record_views(records@) + seq![record@]) + more.records);
                }
                records.push(record);
            },
            Some(Err(e)) => {
                proof {
                    assert(record_views(records@) + Seq::<RecordView>::empty()
                        =~= record_views(records@));
                }
                return (records, Some(e));
            },
        }
        i += 1;
    }
    proof {
        assert(all.skip(i as int) =~= Seq::<TagView>::empty());
        assert(record_views(records@) + Seq::<RecordView>::empty() =~= record_views(records@));
    }
    (records, ending)
}

/// Reading records from a buffer, run after run, until a run yields none:
/// the records in order, the record left in progress, how many bytes left
/// the buffer, and what the last run ended with.
pub struct Collected {
    pub records: Seq<RecordView>,
    pub pending: RecordView,
    pub taken: int,
    pub last: Emitted,
}

/// Runs of decoding steps, one after the other, on what the buffer holds
/// while more input may follow.
pub open spec fn collect(pending: RecordView, from: Cursor, buf: Seq<u8>) -> Collected
    decreases buf.len(),
{
    let run = gather(pending, from, buf, false);
    match run.emitted {
        Emitted::Record(record) => if 0 < run.taken <= buf.len() {
            let more = collect(
                run.pending,
                moved(from, buf.take(run.taken)),
                buf.skip(run.taken),
            );
            Collected {
                records: seq![record] + more.records,
                pending: more.pending,
                taken: run.taken + more.taken,
                last: more.last,
            }
        } else {
            Collected { records: Seq::empty(), pending, taken: 0, last: Emitted::Nothing }
        },
        _ => Collected {
            records: Seq::empty(),
            pending: run.pending,
            taken: run.taken,
            last: run.emitted,
        },
    }
}

/// Reading records run after run finds what reading tags and aggregating
/// them finds: the same records, the same record left in progress, and
/// the same end, be it a duplicate, a malformed tag at the same place, or
/// the need for more bytes.
pub proof fn lemma_collect_is_assemble(pending: RecordView, from: Cursor, buf: Seq<u8>)
    ensures
        ({
            let got = collect(pending, from, buf);
            let tags = drain(buf);
            let made = assemble(pending, tags.tags);
            &&& got.records == made.records
            &&& got.pending == made.pending
            &&& match made.failed {
                Some((name, record)) => got.last == Emitted::Duplicate(name, record),
                None => got.taken == tags.taken && match tags.stop {
                    Stop::Bad(message) => got.last == Emitted::Invalid(
                        message,
                        moved(from, buf.take(tags.taken)),
                    ),
                    _ => got.last is Nothing,
                },
            }
        }),
    decreases buf.len(),
{
    lemma_scan_bounds(buf);
    let found = scan(buf);
    let taken = found.taken();
    let to = moved(from, buf.take(taken));
    let rest = buf.skip(taken);
    let none = Seq::<TagView>::empty();
    match found {
        Scan::Tag { tag, .. } => {
            let after = drain(rest);
            assert((seq![tag] + after.tags)[0] == tag);
            assert((seq![tag] + after.tags).skip(1) =~= after.tags);
            lemma_drain_bounds(rest);
            match tag {
                TagView::Field(name, value) => {
                    if lookup(pending.fields, name) is None {
                        let next = RecordView {
                            header: pending.header,
                            fields: pending.fields.push((name, value)),
                        };
                        lemma_collect_is_assemble(next, to, rest);
                        lemma_gather_field(pending, from, buf);
                        lemma_two_steps(from, buf, taken, drain(rest).taken);
                    }
                },
                TagView::Eoh => {
                    lemma_collect_is_assemble(fresh(), to, rest);
                    lemma_two_steps(from, buf, taken, drain(rest).taken);
                },
                TagView::Eor => {
                    lemma_collect_is_assemble(fresh(), to, rest);
                    lemma_two_steps(from, buf, taken, drain(rest).taken);
                },
            }
        },
        _ => {
            assert(assemble(pending, none).records =~= Seq::<RecordView>::empty());
        },
    }
}

/// Behind a field that joins the record in progress, a run goes on as a
/// run of its own would, and so do the runs after it.
proof fn lemma_gather_field(pending: RecordView, from: Cursor, buf: Seq<u8>)
    requires
        scan(buf) matches Scan::Tag { tag: TagView::Field(name, _), .. } && lookup(
            pending.fields,
            name,
        ) is None,
    ensures
        ({
            let found = scan(buf);
            let taken = found.taken();
            let next = RecordView {
                header: pending.header,
                fields: pending.fields.push((found->tag->Field_0, found->tag->Field_1)),
            };
            let inner = collect(next, moved(from, buf.take(taken)), buf.skip(taken));
            let outer = collect(pending, from, buf);
            &&& outer.records == inner.records
            &&& outer.pending == inner.pending
            &&& outer.last == inner.last
            &&& outer.taken == taken + inner.taken
        }),
{
    lemma_scan_bounds(buf);
    let found = scan(buf);
    let taken = found.taken();
    let to = moved(from, buf.take(taken));
    let rest = buf.skip(taken);
    let next = RecordView {
        header: pending.header,
        fields: pending.fields.push((found->tag->Field_0, found->tag->Field_1)),
    };
    let run = gather(next, to, rest, false);
    lemma_gather_bounds(next, to, rest);
    if run.emitted is Record {
        lemma_two_steps(from, buf, taken, run.taken);
    }
}

/// A run takes no more bytes than the buffer holds, and at least two where
/// it yields a record.
proof fn lemma_gather_bounds(pending: RecordView, from: Cursor, buf: Seq<u8>)
    ensures
        0 <= gather(pending, from, buf, false).taken <= buf.len(),
        gather(pending, from, buf, false).emitted is Record ==> gather(
            pending,
            from,
            buf,
            false,
        ).taken >= 2,
    decreases buf.len(),
{
    lemma_scan_bounds(buf);
    let found = scan(buf);
    match found {
        Scan::Tag { tag: TagView::Field(name, value), .. } => {
            if lookup(pending.fields, name) is None {
                let next = RecordView {
                    header: pending.header,
                    fields: pending.fields.push((name, value)),
                };
                lemma_gather_bounds(
                    next,
                    moved(from, buf.take(found.taken())),
                    buf.skip(found.taken()),
                );
            }
        },
        _ => {},
    }
}

} // verus!
