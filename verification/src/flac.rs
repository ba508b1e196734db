use vstd::prelude::*;
use crate::bytes::{be_u24, be_u24_bytes, read_be_u24};
use crate::error::Error;
use crate::tag::{tag_views, Tag, TagView};
use crate::vorbis;

verus! {

/// The block type of a Vorbis comment block.
pub const VORBIS_COMMENT: u8 = 4;

/// The header of a FLAC metadata block, less its "last block" flag.
#[derive(Debug, Clone, Copy, PartialEq, Eq, Structural)]
pub struct Header {
    pub block_type: u8,
    pub size: u32,
}

/// The header at `pos` of the stream `s`: `Ok(None)` where the stream has
/// ended, `Err(Error::Io)` where it ends inside the four header bytes, and
/// otherwise the "last block" flag (the high bit of the first byte), the
/// block type (its low seven bits) and the big-endian 24-bit size.
pub open spec fn spec_read_header(s: Seq<u8>, pos: int) -> Result<Option<(bool, Header)>, Error> {
    if pos >= s.len() {
        Ok(None)
    } else if pos + 4 > s.len() {
        Err(Error::Io)
    } else {
        Ok(
            Some(
                (
                    s[pos] > 127,
                    Header {
                        block_type: (s[pos] % 128) as u8,
                        size: be_u24(s[pos + 1], s[pos + 2], s[pos + 3]) as u32,
                    },
                ),
            ),
        )
    }
}

/// What a walk over the metadata blocks gives: the tags of its comment
/// blocks, an error, or a comment that the walk cannot slice.
pub enum Scan {
    Tags(Seq<TagView>),
    Failed(Error),
    Unsliceable,
}

/// `tags` in front of the tags of `rest`.
pub open spec fn prepend(tags: Seq<TagView>, rest: Scan) -> Scan {
    match rest {
        Scan::Tags(more) => Scan::Tags(tags + more),
        other => other,
    }
}

/// How far `pos` stands from the end of `s`; zero past the end.
pub open spec fn distance(s: Seq<u8>, pos: int) -> int {
    if pos < s.len() {
        s.len() - pos
    } else {
        0
    }
}

/// The tags of the comment blocks from the block at `pos` on, up to the
/// block flagged last or the end of the stream. Blocks of other types are
/// skipped by their size.
pub open spec fn get_from(s: Seq<u8>, pos: int) -> Scan
    decreases distance(s, pos),
{
    match spec_read_header(s, pos) {
        Err(e) => Scan::Failed(e),
        Ok(None) => Scan::Tags(Seq::empty()),
        Ok(Some((last, h))) => {
            let next = pos + 4 + h.size;
            if h.block_type == VORBIS_COMMENT {
                if next > s.len() {
                    Scan::Failed(Error::Io)
                } else {
                    let (tags, outcome) = vorbis::spec_read(s.subrange(pos + 4, next));
                    match outcome {
                        vorbis::Outcome::Unsliceable => Scan::Unsliceable,
                        vorbis::Outcome::Rejected => Scan::Failed(Error::Metadata),
                        vorbis::Outcome::Complete => if last {
                            Scan::Tags(tags)
                        } else {
                            prepend(tags, get_from(s, next))
                        },
                    }
                }
            } else if last {
                Scan::Tags(Seq::empty())
            } else {
                get_from(s, next)
            }
        },
    }
}

/// The tags of a FLAC stream: its metadata blocks start after the four-byte
/// stream marker.
pub open spec fn spec_get(s: Seq<u8>) -> Scan {
    get_from(s, 4)
}

/// Whether a result of [`get`] is what the walk `scan` gives.
pub open spec fn get_result_is(r: Result<Vec<Tag>, Error>, scan: Scan) -> bool {
    match scan {
        Scan::Tags(tags) => r matches Ok(v) && tag_views(v@) == tags,
        Scan::Failed(e) => r == Err::<Vec<Tag>, Error>(e),
        Scan::Unsliceable => false,
    }
}

/// Reads the block header at `pos` of `source`.
pub fn read_header(source: &[u8], pos: usize) -> (r: Result<Option<(bool, Header)>, Error>)
    ensures
        r == spec_read_header(source@, pos as int),
{
    if pos >= source.len() {
        return Ok(None);
    }
    if source.len() - pos < 4 {
        return Err(Error::Io);
    }
    let first = source[pos];
    let size = read_be_u24(source[pos + 1], source[pos + 2], source[pos + 3]);
    let block_type = first & 0b0111_1111;
    assert(first & 0b0111_1111 == first % 128) by (bit_vector);
    Ok(Some((first > 127, Header { block_type, size })))
}

/// The header of an empty stream position is the end of the stream.
proof fn lemma_end_past_stream(s: Seq<u8>, pos: int)
    requires
        pos >= s.len(),
    ensures
        get_from(s, pos) == Scan::Tags(Seq::<TagView>::empty()),
{
}

/// Walks the metadata blocks of the FLAC stream `source` and collects the
/// tags of its comment blocks; `None` where a comment cannot be sliced.
pub fn try_get(source: &[u8]) -> (r: Option<Result<Vec<Tag>, Error>>)
    ensures
        match r {
            Some(res) => get_result_is(res, spec_get(source@)),
            None => spec_get(source@) == Scan::Unsliceable,
        },
{
    let mut metadata: Vec<Tag> = Vec::new();
    let mut pos: usize = 4;
    assert(tag_views(metadata@) =~= Seq::<TagView>::empty());
    assert(prepend(Seq::<TagView>::empty(), get_from(source@, 4)) =~= get_from(source@, 4)) by {
        match get_from(source@, 4) {
            Scan::Tags(t) => {
                assert(Seq::<TagView>::empty() + t =~= t);
            },
            _ => {},
        }
    }
    loop
        invariant
            spec_get(source@) == prepend(tag_views(metadata@), get_from(source@, pos as int)),
        decreases distance(source@, pos as int),
    {
        match read_header(source, pos) {
            Err(e) => {
                return Some(Err(e));
            },
            Ok(None) => {
                assert(tag_views(metadata@) + Seq::<TagView>::empty() =~= tag_views(metadata@));
                return Some(Ok(metadata));
            },
            Ok(Some((last, header))) => {
                assert(pos + 4 <= source.len());
                let start = pos + 4;
                let available = source.len() - start;
                let size = header.size as usize;
                if header.block_type == VORBIS_COMMENT {
                    if size > available {
                        return Some(Err(Error::Io));
                    }
                    let end = start + size;
                    let (mut tags, outcome) = vorbis::read(&source[start..end]);
                    match outcome {
                        vorbis::Outcome::Unsliceable => {
                            return None;
                        },
                        vorbis::Outcome::Rejected => {
                            return Some(Err(Error::Metadata));
                        },
                        vorbis::Outcome::Complete => {},
                    }
                    let ghost before = metadata@;
                    let ghost added = tags@;
                    metadata.append(&mut tags);
                    assert(tag_views(metadata@) =~= tag_views(before) + tag_views(added));
                    if last {
                        return Some(Ok(metadata));
                    }
                    proof {
                        match get_from(source@, end as int) {
                            Scan::Tags(t) => {
                                assert(tag_views(before) + (tag_views(added) + t) =~= tag_views(
                                    metadata@,
                                ) + t);
                            },
                            _ => {},
                        }
                    }
                    pos = end;
                } else {
                    if last {
                        assert(tag_views(metadata@) + Seq::<TagView>::empty() =~= tag_views(
                            metadata@,
                        ));
                        return Some(Ok(metadata));
                    }
                    if size > available {
                        proof {
                            lemma_end_past_stream(source@, pos + 4 + size);
                        }
                        assert(tag_views(metadata@) + Seq::<TagView>::empty() =~= tag_views(
                            metadata@,
                        ));
                        return Some(Ok(metadata));
                    }
                    pos = start + size;
                }
            },
        }
    }
}

/// The tags of the Vorbis comment blocks of the FLAC stream `source`, in
/// order. The four bytes of the stream marker are skipped unread; the walk
/// ends after the block flagged last or at the end of the stream. A stream
/// that ends inside a block header or inside a comment block gives
/// `Error::Io`, a malformed comment block `Error::Metadata`.
pub fn get(source: &[u8]) -> (r: Result<Vec<Tag>, Error>)
    requires
        spec_get(source@) != Scan::Unsliceable,
    ensures
        get_result_is(r, spec_get(source@)),
{
    match try_get(source) {
        Some(r) => r,
        None => Err(Error::Metadata),
    }
}


/// Whether blocks of type `t` survive [`delete`]: stream information,
/// padding, seek tables and cue sheets.
pub open spec fn kept(t: u8) -> bool {
    t == 0 || t == 1 || t == 3 || t == 5
}

/// The bytes that [`write_header`] writes for a block of type 0: the flag
/// byte, then the size as three big-endian bytes.
pub open spec fn header_bytes(last: bool, h: Header) -> Seq<u8> {
    seq![if last { 128u8 } else { 0u8 }] + be_u24_bytes(h.size)
}

/// The bytes written for a kept block held back until its successor is
/// known; `None` where writing its header overflows the flag shift (the
/// flag byte is the flag shifted left by seven plus the block type, which
/// only a block of type 0 allows).
pub open spec fn emit_block(last: bool, block: Option<(Header, Seq<u8>)>) -> Option<Seq<u8>> {
    match block {
        None => Some(Seq::empty()),
        Some((h, d)) => if h.block_type == 0 {
            Some(header_bytes(last, h) + d)
        } else {
            None
        },
    }
}

/// The bytes of `s` from `pos` on; empty past the end.
pub open spec fn tail_from(s: Seq<u8>, pos: int) -> Seq<u8> {
    if pos <= s.len() {
        s.subrange(pos, s.len() as int)
    } else {
        Seq::empty()
    }
}

/// How a rewrite ended.
pub enum Rewrite {
    Done,
    Failed(Error),
    /// A kept block of a type other than 0 would have its header written,
    /// whose flag shift overflows.
    Overflow,
}

/// The bytes that [`delete`] writes from the block at `pos` on, with the
/// kept block `held` not yet written, and how the rewrite ends. Each kept
/// block is written once the next kept block or the last block is met, so
/// that the last one written carries the "last block" flag; after the last
/// block the rest of the stream (the audio) is copied as it is.
pub open spec fn delete_from(s: Seq<u8>, pos: int, held: Option<(Header, Seq<u8>)>) -> (Seq<u8>, Rewrite)
    decreases distance(s, pos),
{
    match spec_read_header(s, pos) {
        Err(e) => (Seq::empty(), Rewrite::Failed(e)),
        Ok(None) => (Seq::empty(), Rewrite::Failed(Error::File)),
        Ok(Some((last, h))) => {
            let next = pos + 4 + h.size;
            if kept(h.block_type) {
                match emit_block(false, held) {
                    None => (Seq::empty(), Rewrite::Overflow),
                    Some(w) => if next > s.len() {
                        (w, Rewrite::Failed(Error::Io))
                    } else {
                        let current = Some((h, s.subrange(pos + 4, next)));
                        if last {
                            match emit_block(true, current) {
                                None => (w, Rewrite::Overflow),
                                Some(x) => (w + x + tail_from(s, next), Rewrite::Done),
                            }
                        } else {
                            let r = delete_from(s, next, current);
                            (w + r.0, r.1)
                        }
                    },
                }
            } else if last {
                match emit_block(true, held) {
                    None => (Seq::empty(), Rewrite::Overflow),
                    Some(x) => (x + tail_from(s, next), Rewrite::Done),
                }
            } else {
                delete_from(s, next, held)
            }
        },
    }
}

/// The number of bytes of the stream marker that [`delete`] copies.
pub open spec fn marker_len(s: Seq<u8>) -> int {
    if s.len() < 4 {
        s.len() as int
    } else {
        4
    }
}

/// The bytes [`delete`] writes for the stream `s`, and how it ends.
pub open spec fn spec_delete(s: Seq<u8>) -> (Seq<u8>, Rewrite) {
    let r = delete_from(s, 4, None);
    (s.take(marker_len(s)) + r.0, r.1)
}

/// Writes the header of a block of type 0: the flag byte is `last` shifted
/// left by seven plus the block type, then come the low three bytes of the
/// size, big-endian.
pub fn write_header(writer: &mut Vec<u8>, last: bool, header: Header) -> (r: Result<(), Error>)
    requires
        header.block_type == 0,
    ensures
        final(writer)@ == old(writer)@ + header_bytes(last, header),
        r is Ok,
{
    let flag = (last as u8) << (7 + header.block_type);
    assert(flag == if last { 128u8 } else { 0u8 }) by {
        if last {
            assert(1u8 << 7u8 == 128u8) by (bit_vector);
        } else {
            assert(0u8 << 7u8 == 0u8) by (bit_vector);
        }
    }
    let ghost before = writer@;
    writer.push(flag);
    writer.push((header.size / 65536 % 256) as u8);
    writer.push((header.size / 256 % 256) as u8);
    writer.push((header.size % 256) as u8);
    assert(writer@ =~= before + header_bytes(last, header));
    Ok(())
}

/// Appends `bytes` to `destination`.
fn write_all(destination: &mut Vec<u8>, bytes: &[u8])
    ensures
        final(destination)@ == old(destination)@ + bytes@,
{
    let ghost before = destination@;
    let mut i: usize = 0;
    while i < bytes.len()
        invariant
            i <= bytes@.len(),
            destination@ == before + bytes@.take(i as int),
        decreases bytes@.len() - i,
    {
        destination.push(bytes[i]);
        assert(bytes@.take(i + 1) =~= bytes@.take(i as int).push(bytes@[i as int]));
        i = i + 1;
    }
    assert(bytes@.take(bytes@.len() as int) =~= bytes@);
}

/// The view of a held block.
pub open spec fn held_view(held: Option<(Header, &[u8])>) -> Option<(Header, Seq<u8>)> {
    match held {
        Some((h, d)) => Some((h, d@)),
        None => None,
    }
}

/// Writes the held block, flagged `last`.
fn write_block(destination: &mut Vec<u8>, last: bool, held: Option<(Header, &[u8])>)
    requires
        emit_block(last, held_view(held)) is Some,
    ensures
        final(destination)@ == old(destination)@ + emit_block(last, held_view(held))->0,
{
    match held {
        Some((h, d)) => {
            write_header(destination, last, h);
            write_all(destination, d);
            assert(destination@ =~= old(destination)@ + (header_bytes(last, h) + d@));
        },
        None => {
            assert(destination@ =~= old(destination)@ + Seq::<u8>::empty());
        },
    }
}

/// Whether a result of [`delete`] and the bytes it wrote are what the
/// rewrite `spec` gives.
pub open spec fn delete_result_is(
    r: Result<(), Error>,
    before: Seq<u8>,
    after: Seq<u8>,
    spec: (Seq<u8>, Rewrite),
) -> bool {
    &&& after == before + spec.0
    &&& match spec.1 {
        Rewrite::Done => r is Ok,
        Rewrite::Failed(e) => r == Err::<(), Error>(e),
        Rewrite::Overflow => false,
    }
}

/// Rewrites the FLAC stream `source` into `destination` without its
/// application, comment and picture blocks; `None` where a kept block of a
/// type other than 0 would have its header written.
#[verifier::rlimit(60)]
pub fn try_delete(source: &[u8], destination: &mut Vec<u8>) -> (r: Option<Result<(), Error>>)
    ensures
        match r {
            Some(res) => delete_result_is(res, old(destination)@, final(destination)@, spec_delete(source@)),
            None => spec_delete(source@).1 == Rewrite::Overflow,
        },
{
    let ghost s = source@;
    let marker = if source.len() < 4 { source.len() } else { 4 };
    write_all(destination, &source[0..marker]);
    assert(source@.subrange(0, marker as int) =~= s.take(marker_len(s)));
    let ghost start = destination@;
    let ghost mut emitted: Seq<u8> = Seq::empty();
    let mut held: Option<(Header, &[u8])> = None;
    let mut pos: usize = 4;
    assert(delete_from(s, 4, None).0 =~= emitted + delete_from(s, 4, None).0);
    loop
        invariant
            s == source@,
            start == old(destination)@ + s.take(marker_len(s)),
            destination@ == start + emitted,
            delete_from(s, 4, None).0 == emitted + delete_from(s, pos as int, held_view(held)).0,
            delete_from(s, 4, None).1 == delete_from(s, pos as int, held_view(held)).1,
        decreases distance(s, pos as int),
    {
        let ghost hv = held_view(held);
        let ghost r = delete_from(s, pos as int, hv);
        match read_header(source, pos) {
            Err(e) => {
                assert(destination@ =~= old(destination)@ + spec_delete(s).0);
                return Some(Err(e));
            },
            Ok(None) => {
                assert(destination@ =~= old(destination)@ + spec_delete(s).0);
                return Some(Err(Error::File));
            },
            Ok(Some((last, header))) => {
                assert(pos + 4 <= source.len());
                let start_of_data = pos + 4;
                let available = source.len() - start_of_data;
                let size = header.size as usize;
                let t = header.block_type;
                if t == 0 || t == 1 || t == 3 || t == 5 {
                    match held {
                        Some((h, _)) => {
                            if h.block_type != 0 {
                                return None;
                            }
                        },
                        None => {},
                    }
                    let ghost w = emit_block(false, hv)->0;
                    write_block(destination, false, held);
                    if size > available {
                        assert(r == (w, Rewrite::Failed(Error::Io)));
                        assert(destination@ =~= old(destination)@ + spec_delete(s).0);
                        return Some(Err(Error::Io));
                    }
                    let end = start_of_data + size;
                    let data = &source[start_of_data..end];
                    held = Some((header, data));
                    if last {
                        if t != 0 {
                            return None;
                        }
                        let ghost x = emit_block(true, held_view(held))->0;
                        write_block(destination, true, held);
                        write_all(destination, &source[end..source.len()]);
                        assert(r == (w + x + tail_from(s, end as int), Rewrite::Done));
                        assert(destination@ =~= old(destination)@ + spec_delete(s).0);
                        return Some(Ok(()));
                    }
                    proof {
                        let r2 = delete_from(s, end as int, held_view(held));
                        assert(r == (w + r2.0, r2.1));
                        assert(emitted + (w + r2.0) =~= (emitted + w) + r2.0);
                        emitted = emitted + w;
                    }
                    pos = end;
                } else {
                    if last {
                        match held {
                            Some((h, _)) => {
                                if h.block_type != 0 {
                                    return None;
                                }
                            },
                            None => {},
                        }
                        let ghost x = emit_block(true, hv)->0;
                        write_block(destination, true, held);
                        if size <= available {
                            write_all(destination, &source[start_of_data + size..source.len()]);
                        } else {
                            assert(destination@ =~= destination@ + Seq::<u8>::empty());
                        }
                        assert(r == (x + tail_from(s, pos + 4 + size), Rewrite::Done));
                        assert(destination@ =~= old(destination)@ + spec_delete(s).0);
                        return Some(Ok(()));
                    }
                    if size > available {
                        assert(delete_from(s, pos + 4 + size, hv) == delete_from(s, source@.len() as int, hv));
                        pos = source.len();
                    } else {
                        pos = start_of_data + size;
                    }
                }
            },
        }
    }
}

/// Rewrites the FLAC stream `source` into `destination` without its
/// metadata: the stream marker is copied, then the stream information,
/// padding, seek table and cue sheet blocks, the last of them flagged
/// last, then everything after the stream's last block. A stream that ends
/// before its last block gives `Error::File`; one that ends inside a header
/// or a kept block gives `Error::Io`. The bytes written before an error
/// stay written.
pub fn delete(source: &[u8], destination: &mut Vec<u8>) -> (r: Result<(), Error>)
    requires
        spec_delete(source@).1 != Rewrite::Overflow,
    ensures
        delete_result_is(r, old(destination)@, final(destination)@, spec_delete(source@)),
{
    match try_delete(source, destination) {
        Some(r) => r,
        None => Err(Error::File),
    }
}

/// Whether a kept block stands in the chain of blocks from `pos` on, up to
/// the block flagged last.
pub open spec fn writes_kept(s: Seq<u8>, pos: int) -> bool
    decreases distance(s, pos),
{
    match spec_read_header(s, pos) {
        Ok(Some((last, h))) => kept(h.block_type) || (!last && writes_kept(s, pos + 4 + h.size)),
        _ => false,
    }
}

/// The three size bytes give back the size they were made of.
proof fn lemma_be_u24_round_trip(v: u32)
    requires
        v < 16777216,
    ensures
        be_u24(be_u24_bytes(v)[0], be_u24_bytes(v)[1], be_u24_bytes(v)[2]) == v,
{
    let b = be_u24_bytes(v);
    assert(b[0] == v / 65536 % 256);
    assert(b[1] == v / 256 % 256);
    assert(b[2] == v % 256);
    assert((v / 65536 % 256) * 65536 + (v / 256 % 256) * 256 + v % 256 == v) by (nonlinear_arith)
        requires
            v < 16777216,
    ;
}

/// A header written by [`write_header`] reads back, by [`read_header`],
/// as the same flag and header, whatever stands before and after it (for a
/// size that fits in the three size bytes).
pub proof fn law_written_header_reads_back(pre: Seq<u8>, last: bool, h: Header, rest: Seq<u8>)
    requires
        h.block_type == 0,
        h.size < 16777216,
    ensures
        spec_read_header(pre + header_bytes(last, h) + rest, pre.len() as int) == Ok::<
            Option<(bool, Header)>,
            Error,
        >(Some((last, h))),
{
    let o = pre + header_bytes(last, h) + rest;
    let p = pre.len() as int;
    lemma_be_u24_round_trip(h.size);
    assert(o[p] == header_bytes(last, h)[0]);
    assert(o[p + 1] == be_u24_bytes(h.size)[0]);
    assert(o[p + 2] == be_u24_bytes(h.size)[1]);
    assert(o[p + 3] == be_u24_bytes(h.size)[2]);
}

/// Reading passes over a written block of type 0 that is not flagged last.
proof fn lemma_get_passes_written(pre: Seq<u8>, h: Header, d: Seq<u8>, rest: Seq<u8>)
    requires
        h.block_type == 0,
        h.size < 16777216,
        d.len() == h.size,
    ensures
        get_from(pre + (header_bytes(false, h) + d) + rest, pre.len() as int) == get_from(
            (pre + (header_bytes(false, h) + d)) + rest,
            (pre + (header_bytes(false, h) + d)).len() as int,
        ),
{
    let o = pre + (header_bytes(false, h) + d) + rest;
    assert(o =~= pre + header_bytes(false, h) + (d + rest));
    law_written_header_reads_back(pre, false, h, d + rest);
}

/// Reading stops, with no tag, at a written block of type 0 flagged last.
proof fn lemma_get_stops_at_written_last(pre: Seq<u8>, h: Header, d: Seq<u8>, rest: Seq<u8>)
    requires
        h.block_type == 0,
        h.size < 16777216,
    ensures
        get_from(pre + (header_bytes(true, h) + d) + rest, pre.len() as int) == Scan::Tags(
            Seq::<TagView>::empty(),
        ),
{
    let o = pre + (header_bytes(true, h) + d) + rest;
    assert(o =~= pre + header_bytes(true, h) + (d + rest));
    law_written_header_reads_back(pre, true, h, d + rest);
}

/// Once a kept block is held, what [`delete`] writes from there on walks as
/// a chain of type-0 blocks whose last is flagged: reading it finds no tag.
proof fn lemma_rewrite_has_no_tags(
    s: Seq<u8>,
    pos: int,
    h: Header,
    d: Seq<u8>,
    pre: Seq<u8>,
)
    requires
        pos >= 0,
        delete_from(s, pos, Some((h, d))).1 == Rewrite::Done,
        d.len() == h.size,
        h.size < 16777216,
    ensures
        get_from(pre + delete_from(s, pos, Some((h, d))).0, pre.len() as int) == Scan::Tags(
            Seq::<TagView>::empty(),
        ),
    decreases distance(s, pos),
{
    let held = Some((h, d));
    let r = delete_from(s, pos, held);
    match spec_read_header(s, pos) {
        Ok(Some((last, h2))) => {
            let next = pos + 4 + h2.size;
            if kept(h2.block_type) {
                assert(h.block_type == 0);
                assert(next <= s.len()) by {
                    if next > s.len() {
                        assert(r.1 == Rewrite::Failed(Error::Io));
                    }
                }
                let w = header_bytes(false, h) + d;
                let d2 = s.subrange(pos + 4, next);
                if last {
                    assert(h2.block_type == 0);
                    let x = header_bytes(true, h2) + d2;
                    let t = tail_from(s, next);
                    assert(r.0 == w + x + t);
                    assert(pre + r.0 =~= pre + w + (x + t));
                    lemma_get_passes_written(pre, h, d, x + t);
                    assert((pre + w) + (x + t) =~= (pre + w) + x + t);
                    lemma_get_stops_at_written_last(pre + w, h2, d2, t);
                } else {
                    let r2 = delete_from(s, next, Some((h2, d2)));
                    assert(r.0 == w + r2.0);
                    assert(pre + r.0 =~= pre + w + r2.0);
                    lemma_get_passes_written(pre, h, d, r2.0);
                    lemma_rewrite_has_no_tags(s, next, h2, d2, pre + w);
                }
            } else if last {
                assert(h.block_type == 0);
                let t = tail_from(s, next);
                assert(r.0 == header_bytes(true, h) + d + t);
                lemma_get_stops_at_written_last(pre, h, d, t);
            } else {
                lemma_rewrite_has_no_tags(s, next, h, d, pre);
            }
        },
        _ => {},
    }
}

/// Before the first kept block nothing is written; from it on the rewrite
/// reads as a tag-free chain.
#[verifier::spinoff_prover]
proof fn lemma_rewrite_from_start_has_no_tags(s: Seq<u8>, pos: int, pre: Seq<u8>)
    requires
        pos >= 0,
        delete_from(s, pos, None).1 == Rewrite::Done,
        writes_kept(s, pos),
    ensures
        get_from(pre + delete_from(s, pos, None).0, pre.len() as int) == Scan::Tags(
            Seq::<TagView>::empty(),
        ),
    decreases distance(s, pos),
{
    let r = delete_from(s, pos, None);
    match spec_read_header(s, pos) {
        Ok(Some((last, h2))) => {
            let next = pos + 4 + h2.size;
            if kept(h2.block_type) {
                assert(next <= s.len()) by {
                    if next > s.len() {
                        assert(r.1 == Rewrite::Failed(Error::Io));
                    }
                }
                let d2 = s.subrange(pos + 4, next);
                assert(emit_block(false, None::<(Header, Seq<u8>)>) == Some(Seq::<u8>::empty()));
                if last {
                    assert(h2.block_type == 0);
                    let t = tail_from(s, next);
                    assert(r.0 =~= (header_bytes(true, h2) + d2) + t);
                    lemma_get_stops_at_written_last(pre, h2, d2, t);
                } else {
                    let r2 = delete_from(s, next, Some((h2, d2)));
                    assert(r.0 =~= r2.0);
                    lemma_rewrite_has_no_tags(s, next, h2, d2, pre);
                }
            } else {
                lemma_rewrite_from_start_has_no_tags(s, next, pre);
            }
        },
        _ => {},
    }
}

/// Deleting removes every tag: where [`delete`] succeeds on a stream whose
/// block chain holds a block that it keeps, reading the rewritten stream
/// finds no tag.
pub proof fn law_delete_leaves_no_tags(s: Seq<u8>)
    requires
        spec_delete(s).1 == Rewrite::Done,
        writes_kept(s, 4),
    ensures
        spec_get(spec_delete(s).0) == Scan::Tags(Seq::<TagView>::empty()),
{
    assert(s.len() >= 8);
    let pre = s.take(4);
    assert(marker_len(s) == 4);
    lemma_rewrite_from_start_has_no_tags(s, 4, pre);
    assert(spec_delete(s).0 == pre + delete_from(s, 4, None).0);
}
/// Once a kept block is held, what [`delete`] writes from there on starts
/// with that block: its header (flagged or not) and its data.
proof fn lemma_rewrite_starts_with_held(s: Seq<u8>, pos: int, h: Header, d: Seq<u8>)
    requires
        pos >= 0,
        delete_from(s, pos, Some((h, d))).1 == Rewrite::Done,
    ensures
        h.block_type == 0,
        exists|f: bool, rest: Seq<u8>|
            delete_from(s, pos, Some((h, d))).0 == header_bytes(f, h) + d + rest,
    decreases distance(s, pos),
{
    let r = delete_from(s, pos, Some((h, d)));
    match spec_read_header(s, pos) {
        Ok(Some((last, h2))) => {
            let next = pos + 4 + h2.size;
            if kept(h2.block_type) {
                assert(next <= s.len()) by {
                    if next > s.len() {
                        assert(r.1 == Rewrite::Failed(Error::Io));
                    }
                }
                let d2 = s.subrange(pos + 4, next);
                if last {
                    let rest = header_bytes(true, h2) + d2 + tail_from(s, next);
                    assert(r.0 =~= header_bytes(false, h) + d + rest);
                } else {
                    let rest = delete_from(s, next, Some((h2, d2))).0;
                    assert(r.0 =~= header_bytes(false, h) + d + rest);
                }
            } else if last {
                assert(r.0 =~= header_bytes(true, h) + d + tail_from(s, next));
            } else {
                lemma_rewrite_starts_with_held(s, next, h, d);
            }
        },
        _ => {},
    }
}

/// Where a kept block whose data is all there stands at `p`, holding a
/// block before it only puts that block's bytes in front.
proof fn lemma_held_block_goes_first(o: Seq<u8>, p: int, b: (Header, Seq<u8>))
    requires
        spec_read_header(o, p) matches Ok(Some((_, hh))) && kept(hh.block_type) && p + 4 + hh.size
            <= o.len(),
        emit_block(false, Some(b)) is Some,
    ensures
        delete_from(o, p, Some(b)) == (
            emit_block(false, Some(b))->0 + delete_from(o, p, None).0,
            delete_from(o, p, None).1,
        ),
{
    let w = emit_block(false, Some(b))->0;
    assert(emit_block(false, None::<(Header, Seq<u8>)>) == Some(Seq::<u8>::empty()));
    let with = delete_from(o, p, Some(b));
    let without = delete_from(o, p, None);
    assert(with.0 =~= w + without.0);
}

/// A written block flagged last, then anything, rewrites to itself.
proof fn lemma_again_last_block(q: Seq<u8>, h: Header, d: Seq<u8>, t: Seq<u8>)
    requires
        h.block_type == 0,
        h.size < 16777216,
        d.len() == h.size,
    ensures
        delete_from(q + (header_bytes(true, h) + d + t), q.len() as int, None) == (
            header_bytes(true, h) + d + t,
            Rewrite::Done,
        ),
{
    let o = q + (header_bytes(true, h) + d + t);
    let p = q.len() as int;
    assert(emit_block(false, None::<(Header, Seq<u8>)>) == Some(Seq::<u8>::empty()));
    assert(o =~= q + header_bytes(true, h) + (d + t));
    law_written_header_reads_back(q, true, h, d + t);
    assert(o.subrange(p + 4, p + 4 + d.len()) =~= d);
    assert(tail_from(o, p + 4 + d.len()) =~= t);
    assert(delete_from(o, p, None).0 =~= Seq::<u8>::empty() + (header_bytes(true, h) + d) + t);
}

/// Two written blocks, the second flagged last, then anything, rewrite to
/// themselves.
proof fn lemma_again_two_blocks(
    q: Seq<u8>,
    h: Header,
    d: Seq<u8>,
    h2: Header,
    d2: Seq<u8>,
    t: Seq<u8>,
)
    requires
        h.block_type == 0,
        h.size < 16777216,
        d.len() == h.size,
        h2.block_type == 0,
        h2.size < 16777216,
        d2.len() == h2.size,
    ensures
        delete_from(
            q + ((header_bytes(false, h) + d) + (header_bytes(true, h2) + d2) + t),
            q.len() as int,
            None,
        ) == ((header_bytes(false, h) + d) + (header_bytes(true, h2) + d2) + t, Rewrite::Done),
{
    let w = header_bytes(false, h) + d;
    let x = header_bytes(true, h2) + d2;
    let o = q + (w + x + t);
    let p = q.len() as int;
    let p2 = p + 4 + d.len();
    assert(emit_block(false, None::<(Header, Seq<u8>)>) == Some(Seq::<u8>::empty()));
    assert(o =~= q + header_bytes(false, h) + (d + x + t));
    law_written_header_reads_back(q, false, h, d + x + t);
    assert(o.subrange(p + 4, p2) =~= d);
    assert(o =~= (q + w) + header_bytes(true, h2) + (d2 + t));
    law_written_header_reads_back(q + w, true, h2, d2 + t);
    assert(o.subrange(p2 + 4, p2 + 4 + d2.len()) =~= d2);
    assert(tail_from(o, p2 + 4 + d2.len()) =~= t);
    let second = delete_from(o, p2, Some((h, d)));
    assert(second.0 =~= w + x + t);
    assert(delete_from(o, p, None).0 =~= Seq::<u8>::empty() + second.0);
}

/// Rewriting from a written block not flagged last holds that block and goes
/// on after it.
proof fn lemma_again_first_block(q: Seq<u8>, h: Header, d: Seq<u8>, rest: Seq<u8>)
    requires
        h.block_type == 0,
        h.size < 16777216,
        d.len() == h.size,
    ensures
        delete_from(q + (header_bytes(false, h) + d + rest), q.len() as int, None) == delete_from(
            q + (header_bytes(false, h) + d + rest),
            q.len() + 4 + d.len() as int,
            Some((h, d)),
        ),
{
    let o = q + (header_bytes(false, h) + d + rest);
    let p = q.len() as int;
    assert(emit_block(false, None::<(Header, Seq<u8>)>) == Some(Seq::<u8>::empty()));
    assert(o =~= q + header_bytes(false, h) + (d + rest));
    law_written_header_reads_back(q, false, h, d + rest);
    assert(o.subrange(p + 4, p + 4 + d.len()) =~= d);
    let r = delete_from(o, p + 4 + d.len(), Some((h, d)));
    assert(delete_from(o, p, None).0 =~= Seq::<u8>::empty() + r.0);
}

/// A written block not flagged last, in front of a stretch that rewrites to
/// itself and starts with a written block, rewrites to itself.
#[verifier::rlimit(40)]
proof fn lemma_again_chain(
    q: Seq<u8>,
    h: Header,
    d: Seq<u8>,
    h2: Header,
    d2: Seq<u8>,
    f: bool,
    rest: Seq<u8>,
)
    requires
        h.block_type == 0,
        h.size < 16777216,
        d.len() == h.size,
        h2.block_type == 0,
        h2.size < 16777216,
        d2.len() == h2.size,
        delete_from(
            (q + (header_bytes(false, h) + d)) + (header_bytes(f, h2) + d2 + rest),
            (q + (header_bytes(false, h) + d)).len() as int,
            None,
        ) == (header_bytes(f, h2) + d2 + rest, Rewrite::Done),
    ensures
        delete_from(
            q + ((header_bytes(false, h) + d) + (header_bytes(f, h2) + d2 + rest)),
            q.len() as int,
            None,
        ) == ((header_bytes(false, h) + d) + (header_bytes(f, h2) + d2 + rest), Rewrite::Done),
{
    let w = header_bytes(false, h) + d;
    let e2 = header_bytes(f, h2) + d2 + rest;
    let o = q + (w + e2);
    let p2 = q.len() + 4 + d.len() as int;
    assert(q + (header_bytes(false, h) + d + e2) =~= o);
    lemma_again_first_block(q, h, d, e2);
    assert(o =~= (q + w) + e2);
    assert((q + w).len() == p2);
    assert(o =~= (q + w) + header_bytes(f, h2) + (d2 + rest));
    law_written_header_reads_back(q + w, f, h2, d2 + rest);
    lemma_held_block_goes_first(o, p2, (h, d));
}

/// Rewriting what [`delete`] wrote from a held block on, behind any prefix,
/// gives the same bytes again.
proof fn lemma_rewrite_again_from_held(s: Seq<u8>, pos: int, h: Header, d: Seq<u8>, q: Seq<u8>)
    requires
        pos >= 0,
        delete_from(s, pos, Some((h, d))).1 == Rewrite::Done,
        d.len() == h.size,
        h.size < 16777216,
    ensures
        delete_from(q + delete_from(s, pos, Some((h, d))).0, q.len() as int, None) == (
            delete_from(s, pos, Some((h, d))).0,
            Rewrite::Done,
        ),
    decreases distance(s, pos),
{
    let r = delete_from(s, pos, Some((h, d)));
    match spec_read_header(s, pos) {
        Ok(Some((last, h2))) => {
            let next = pos + 4 + h2.size;
            assert(h2.size < 16777216);
            if kept(h2.block_type) {
                assert(h.block_type == 0);
                assert(next <= s.len()) by {
                    if next > s.len() {
                        assert(r.1 == Rewrite::Failed(Error::Io));
                    }
                }
                let w = header_bytes(false, h) + d;
                let d2 = s.subrange(pos + 4, next);
                if last {
                    assert(h2.block_type == 0);
                    let x = header_bytes(true, h2) + d2;
                    let t = tail_from(s, next);
                    assert(r.0 == w + x + t);
                    lemma_again_two_blocks(q, h, d, h2, d2, t);
                } else {
                    let e2 = delete_from(s, next, Some((h2, d2))).0;
                    assert(r.0 == w + e2);
                    lemma_rewrite_again_from_held(s, next, h2, d2, q + w);
                    lemma_rewrite_starts_with_held(s, next, h2, d2);
                    let (f, rest) = choose|f: bool, rest: Seq<u8>|
                        e2 == header_bytes(f, h2) + d2 + rest;
                    lemma_again_chain(q, h, d, h2, d2, f, rest);
                }
            } else if last {
                assert(h.block_type == 0);
                let t = tail_from(s, next);
                assert(r.0 == header_bytes(true, h) + d + t);
                lemma_again_last_block(q, h, d, t);
            } else {
                lemma_rewrite_again_from_held(s, next, h, d, q);
            }
        },
        _ => {},
    }
}

/// Rewriting what [`delete`] wrote from `pos` on, behind any prefix, gives
/// the same bytes again.
proof fn lemma_rewrite_again(s: Seq<u8>, pos: int, q: Seq<u8>)
    requires
        pos >= 0,
        delete_from(s, pos, None).1 == Rewrite::Done,
        writes_kept(s, pos),
    ensures
        delete_from(q + delete_from(s, pos, None).0, q.len() as int, None) == (
            delete_from(s, pos, None).0,
            Rewrite::Done,
        ),
    decreases distance(s, pos),
{
    let r = delete_from(s, pos, None);
    let o = q + r.0;
    let p = q.len() as int;
    assert(emit_block(false, None::<(Header, Seq<u8>)>) == Some(Seq::<u8>::empty()));
    match spec_read_header(s, pos) {
        Ok(Some((last, h2))) => {
            let next = pos + 4 + h2.size;
            if kept(h2.block_type) {
                assert(next <= s.len()) by {
                    if next > s.len() {
                        assert(r.1 == Rewrite::Failed(Error::Io));
                    }
                }
                let d2 = s.subrange(pos + 4, next);
                if last {
                    assert(h2.block_type == 0);
                    let t = tail_from(s, next);
                    assert(r.0 =~= header_bytes(true, h2) + d2 + t);
                    lemma_again_last_block(q, h2, d2, t);
                } else {
                    assert(r.0 =~= delete_from(s, next, Some((h2, d2))).0);
                    lemma_rewrite_again_from_held(s, next, h2, d2, q);
                }
            } else {
                lemma_rewrite_again(s, next, q);
            }
        },
        _ => {},
    }
}

/// Deleting twice is deleting once: where [`delete`] succeeds on a stream
/// whose block chain holds a block that it keeps, rewriting its output
/// succeeds and gives that output back unchanged.
pub proof fn law_delete_is_idempotent(s: Seq<u8>)
    requires
        spec_delete(s).1 == Rewrite::Done,
        writes_kept(s, 4),
    ensures
        spec_delete(spec_delete(s).0) == (spec_delete(s).0, Rewrite::Done),
{
    assert(s.len() >= 8);
    let q = s.take(4);
    let e = delete_from(s, 4, None).0;
    let o = spec_delete(s).0;
    assert(o == q + e);
    lemma_rewrite_again(s, 4, q);
    assert(marker_len(o) == 4);
    assert(o.take(4) =~= q);
}

/// A metadata block as plain values: its "last block" flag, its type and
/// its data.
pub type BlockView = (bool, u8, Seq<u8>);

/// The bytes of a metadata block: the flag in the high bit of the first
/// byte and the type in its low seven bits, the size as three big-endian
/// bytes, then the data.
pub open spec fn encode_block(b: BlockView) -> Seq<u8> {
    seq![((if b.0 { 128int } else { 0int }) + b.1) as u8] + be_u24_bytes(b.2.len() as u32) + b.2
}

/// The bytes of a chain of metadata blocks.
pub open spec fn encode_blocks(bs: Seq<BlockView>) -> Seq<u8>
    decreases bs.len(),
{
    if bs.len() == 0 {
        Seq::empty()
    } else {
        encode_block(bs[0]) + encode_blocks(bs.drop_first())
    }
}

/// Whether a chain of blocks is well formed: types below 128, sizes that
/// fit in three bytes, and only the final block flagged last.
pub open spec fn chain_well_formed(bs: Seq<BlockView>) -> bool {
    &&& bs.len() > 0
    &&& forall|i: int|
        0 <= i < bs.len() ==> {
            &&& #[trigger] bs[i].1 < 128
            &&& bs[i].2.len() < 16777216
            &&& (bs[i].0 <==> i == bs.len() - 1)
        }
}

/// The tags of a chain of blocks, block by block: each comment block gives
/// the tags of its Vorbis comments, the first rejected one gives
/// `Error::Metadata`, other blocks give nothing; nothing after the block
/// flagged last counts.
pub open spec fn block_tags(bs: Seq<BlockView>) -> Scan
    decreases bs.len(),
{
    if bs.len() == 0 {
        Scan::Tags(Seq::empty())
    } else {
        let rest = if bs[0].0 {
            Scan::Tags(Seq::empty())
        } else {
            block_tags(bs.drop_first())
        };
        if bs[0].1 == VORBIS_COMMENT {
            let (tags, outcome) = vorbis::spec_read(bs[0].2);
            match outcome {
                vorbis::Outcome::Complete => prepend(tags, rest),
                vorbis::Outcome::Rejected => Scan::Failed(Error::Metadata),
                vorbis::Outcome::Unsliceable => Scan::Unsliceable,
            }
        } else {
            rest
        }
    }
}

/// The header of an encoded block reads back as its flag, type and size,
/// and its data stands right after the header.
proof fn lemma_block_reads_back(pre: Seq<u8>, b: BlockView, tail: Seq<u8>)
    requires
        b.1 < 128,
        b.2.len() < 16777216,
    ensures
        ({
            let o = pre + encode_block(b) + tail;
            let p = pre.len() as int;
            &&& spec_read_header(o, p) == Ok::<Option<(bool, Header)>, Error>(
                Some((b.0, Header { block_type: b.1, size: b.2.len() as u32 })),
            )
            &&& o.subrange(p + 4, p + 4 + b.2.len()) =~= b.2
        }),
{
    let o = pre + encode_block(b) + tail;
    let p = pre.len() as int;
    let size = b.2.len();
    lemma_be_u24_round_trip(size as u32);
    let first = ((if b.0 { 128int } else { 0int }) + b.1) as u8;
    assert(o[p] == first);
    assert(o[p + 1] == be_u24_bytes(size as u32)[0]);
    assert(o[p + 2] == be_u24_bytes(size as u32)[1]);
    assert(o[p + 3] == be_u24_bytes(size as u32)[2]);
    assert((first > 127) == b.0);
    assert(first % 128 == b.1);
    assert(o.subrange(p + 4, p + 4 + size) =~= b.2);
}

/// The chain after its first block is well formed where the first block is
/// not flagged last.
proof fn lemma_rest_well_formed(bs: Seq<BlockView>)
    requires
        chain_well_formed(bs),
        !bs[0].0,
    ensures
        chain_well_formed(bs.drop_first()),
{
    let rest_blocks = bs.drop_first();
    lemma_first_block(bs);
    assert forall|i: int| 0 <= i < rest_blocks.len() implies {
        &&& #[trigger] rest_blocks[i].1 < 128
        &&& rest_blocks[i].2.len() < 16777216
        &&& (rest_blocks[i].0 <==> i == rest_blocks.len() - 1)
    } by {
        assert(rest_blocks[i] == bs[i + 1]);
        assert(bs[i + 1].1 < 128);
    }
}

/// What well-formedness says of the first block of a chain.
proof fn lemma_first_block(bs: Seq<BlockView>)
    requires
        chain_well_formed(bs),
    ensures
        bs[0].1 < 128,
        bs[0].2.len() < 16777216,
        bs[0].0 <==> bs.len() == 1,
{
    assert(bs[0].1 < 128);
}

/// Reading a chain of blocks that stands at `pre.len()`, whatever stands
/// before and after it, gives its tags block by block.
#[verifier::spinoff_prover]
proof fn lemma_get_over_blocks(pre: Seq<u8>, bs: Seq<BlockView>, after: Seq<u8>)
    requires
        chain_well_formed(bs),
    ensures
        get_from(pre + encode_blocks(bs) + after, pre.len() as int) == block_tags(bs),
    decreases bs.len(),
{
    let b = bs[0];
    let o = pre + encode_blocks(bs) + after;
    let p = pre.len() as int;
    lemma_first_block(bs);
    let rest_blocks = bs.drop_first();
    let tail = encode_blocks(rest_blocks) + after;
    let pre2 = pre + encode_block(b);
    assert(o =~= pre + encode_block(b) + tail) by {
        assert(encode_blocks(bs) == encode_block(b) + encode_blocks(rest_blocks));
    }
    assert(o =~= pre2 + encode_blocks(rest_blocks) + after);
    lemma_block_reads_back(pre, b, tail);
    assert(pre2.len() == p + 4 + b.2.len());
    if !b.0 {
        lemma_rest_well_formed(bs);
        lemma_get_over_blocks(pre2, rest_blocks, after);
    }
}

/// The tags of a FLAC stream are read block by block: for a well-formed
/// chain of blocks after the four-byte marker, whatever follows the chain,
/// reading gives the concatenation, in stream order, of the tags of its
/// comment blocks, or `Error::Metadata` at the first comment block that is
/// rejected.
pub proof fn law_get_reads_block_by_block(marker: Seq<u8>, bs: Seq<BlockView>, audio: Seq<u8>)
    requires
        marker.len() == 4,
        chain_well_formed(bs),
    ensures
        spec_get(marker + encode_blocks(bs) + audio) == block_tags(bs),
{
    lemma_get_over_blocks(marker, bs, audio);
}

/// Where the comment blocks before block `k` are all read whole and block
/// `k` is a comment block whose packet is rejected, the tags of the chain
/// are `Error::Metadata`.
proof fn lemma_first_rejected_block(bs: Seq<BlockView>, k: int)
    requires
        0 <= k < bs.len(),
        forall|i: int| 0 <= i < k ==> !(#[trigger] bs[i]).0,
        forall|i: int|
            0 <= i < k && (#[trigger] bs[i]).1 == VORBIS_COMMENT ==> vorbis::spec_read(bs[i].2).1
                == vorbis::Outcome::Complete,
        bs[k].1 == VORBIS_COMMENT,
        vorbis::spec_read(bs[k].2).1 == vorbis::Outcome::Rejected,
    ensures
        block_tags(bs) == Scan::Failed(Error::Metadata),
    decreases k,
{
    if k > 0 {
        let rest = bs.drop_first();
        assert(!bs[0].0);
        assert forall|i: int| 0 <= i < k - 1 implies !(#[trigger] rest[i]).0 by {
            assert(rest[i] == bs[i + 1]);
        }
        assert forall|i: int|
            0 <= i < k - 1 && (#[trigger] rest[i]).1 == VORBIS_COMMENT implies vorbis::spec_read(
            rest[i].2,
        ).1 == vorbis::Outcome::Complete by {
            assert(rest[i] == bs[i + 1]);
        }
        assert(rest[k - 1] == bs[k]);
        lemma_first_rejected_block(rest, k - 1);
        if bs[0].1 == VORBIS_COMMENT {
            assert(vorbis::spec_read(bs[0].2).1 == vorbis::Outcome::Complete);
        }
    }
}

/// The first rejected comment block fails the read: in a FLAC stream whose
/// well-formed chain of blocks follows the four-byte marker, where every
/// comment block before block `k` is read whole and block `k` is a comment
/// block whose packet is rejected, reading gives `Error::Metadata` and no
/// tags, whatever follows.
pub proof fn law_first_rejected_block_fails(marker: Seq<u8>, bs: Seq<BlockView>, audio: Seq<u8>, k: int)
    requires
        marker.len() == 4,
        chain_well_formed(bs),
        0 <= k < bs.len(),
        forall|i: int|
            0 <= i < k && (#[trigger] bs[i]).1 == VORBIS_COMMENT ==> vorbis::spec_read(bs[i].2).1
                == vorbis::Outcome::Complete,
        bs[k].1 == VORBIS_COMMENT,
        vorbis::spec_read(bs[k].2).1 == vorbis::Outcome::Rejected,
    ensures
        spec_get(marker + encode_blocks(bs) + audio) == Scan::Failed(Error::Metadata),
{
    assert forall|i: int| 0 <= i < k implies !(#[trigger] bs[i]).0 by {
        assert(bs[i].1 < 128);
    }
    lemma_first_rejected_block(bs, k);
    lemma_get_over_blocks(marker, bs, audio);
}

/// The blocks of a chain that [`delete`] keeps, in order.
pub open spec fn kept_blocks(bs: Seq<BlockView>) -> Seq<BlockView>
    decreases bs.len(),
{
    if bs.len() == 0 {
        Seq::empty()
    } else {
        let rest = kept_blocks(bs.drop_first());
        if kept(bs[0].1) {
            seq![bs[0]] + rest
        } else {
            rest
        }
    }
}

/// The blocks `ks` with only the final one flagged last.
pub open spec fn flag_last_only(ks: Seq<BlockView>) -> Seq<BlockView> {
    Seq::new(ks.len(), |i: int| (i == ks.len() - 1, ks[i].1, ks[i].2))
}

/// The blocks `ks`, each with its "last block" flag set to `last`.
pub open spec fn with_flag(ks: Seq<BlockView>, last: bool) -> Seq<BlockView> {
    Seq::new(ks.len(), |i: int| (last, ks[i].1, ks[i].2))
}

/// The blocks `ks` without the final one (none where there are none).
pub open spec fn but_final(ks: Seq<BlockView>) -> Seq<BlockView> {
    if ks.len() == 0 {
        ks
    } else {
        ks.drop_last()
    }
}

/// Whether every block of `ks` but the final one has type 0.
pub open spec fn all_but_final_type_zero(ks: Seq<BlockView>) -> bool {
    forall|i: int| 0 <= i < ks.len() - 1 ==> (#[trigger] ks[i]).1 == 0
}

/// Whether every block of `ks` has type 0.
pub open spec fn all_type_zero(ks: Seq<BlockView>) -> bool {
    forall|i: int| 0 <= i < ks.len() ==> (#[trigger] ks[i]).1 == 0
}

/// Whether a chain of blocks ends at a block boundary with no block flagged
/// last: types below 128 and sizes that fit in three bytes.
pub open spec fn chain_unterminated(bs: Seq<BlockView>) -> bool {
    forall|i: int|
        0 <= i < bs.len() ==> {
            &&& #[trigger] bs[i].1 < 128
            &&& bs[i].2.len() < 16777216
            &&& !bs[i].0
        }
}

/// The held block as a block of the chain.
pub open spec fn held_blocks(held: Option<(Header, Seq<u8>)>) -> Seq<BlockView> {
    match held {
        Some((h, d)) => seq![(false, h.block_type, d)],
        None => Seq::empty(),
    }
}

/// Whether a held block's size is the length of its data, below 2^24.
pub open spec fn held_ok(held: Option<(Header, Seq<u8>)>) -> bool {
    match held {
        Some((h, d)) => h.size == d.len() && d.len() < 16777216,
        None => true,
    }
}

/// The bytes of a chain are those of its parts, one after the other.
proof fn lemma_encode_blocks_concat(a: Seq<BlockView>, b: Seq<BlockView>)
    ensures
        encode_blocks(a + b) == encode_blocks(a) + encode_blocks(b),
    decreases a.len(),
{
    if a.len() == 0 {
        assert(a + b =~= b);
        assert(Seq::<u8>::empty() + encode_blocks(b) =~= encode_blocks(b));
    } else {
        assert((a + b).drop_first() =~= a.drop_first() + b);
        assert((a + b)[0] == a[0]);
        lemma_encode_blocks_concat(a.drop_first(), b);
        assert(encode_block(a[0]) + (encode_blocks(a.drop_first()) + encode_blocks(b)) =~= (
        encode_block(a[0]) + encode_blocks(a.drop_first())) + encode_blocks(b));
    }
}

/// The bytes of a single block.
proof fn lemma_encode_one(x: BlockView)
    ensures
        encode_blocks(seq![x]) == encode_block(x),
{
    let one = seq![x];
    assert(one[0] == x);
    assert(one.drop_first() =~= Seq::<BlockView>::empty());
    assert(encode_blocks(one.drop_first()) == Seq::<u8>::empty());
    assert(encode_block(x) + Seq::<u8>::empty() =~= encode_block(x));
}

/// What [`emit_block`] writes for a held block of type 0 is the block
/// encoded with that flag.
proof fn lemma_emit_is_encode(last: bool, held: Option<(Header, Seq<u8>)>)
    requires
        held_ok(held),
        held matches Some((h, _)) ==> h.block_type == 0,
    ensures
        emit_block(last, held) == Some(encode_blocks(with_flag(held_blocks(held), last))),
{
    match held {
        Some((h, d)) => {
            let x = (last, h.block_type, d);
            assert(with_flag(held_blocks(held), last) =~= seq![x]);
            lemma_encode_one(x);
            assert(((if last { 128int } else { 0int }) + 0u8) as u8 == (if last { 128u8 } else { 0u8 }));
            assert(encode_block(x) =~= header_bytes(last, h) + d);
        },
        None => {
            assert(with_flag(held_blocks(held), last) =~= Seq::<BlockView>::empty());
        },
    }
}

/// Flagging only the final block of `a + b`, with `b` not empty, leaves
/// every block of `a` unflagged.
proof fn lemma_flag_split(a: Seq<BlockView>, b: Seq<BlockView>)
    requires
        b.len() > 0,
    ensures
        flag_last_only(a + b) == with_flag(a, false) + flag_last_only(b),
{
    assert(flag_last_only(a + b) =~= with_flag(a, false) + flag_last_only(b));
}

/// Rewriting a well-formed chain of blocks standing at `pre.len()`, with
/// `held` not yet written, writes the held block and the kept blocks of
/// the chain with only the final one flagged last, then whatever follows
/// the chain.
proof fn lemma_delete_over_blocks(
    pre: Seq<u8>,
    held: Option<(Header, Seq<u8>)>,
    bs: Seq<BlockView>,
    after: Seq<u8>,
)
    requires
        chain_well_formed(bs),
        held_ok(held),
        all_type_zero(held_blocks(held) + kept_blocks(bs)),
    ensures
        delete_from(pre + encode_blocks(bs) + after, pre.len() as int, held) == (
            encode_blocks(flag_last_only(held_blocks(held) + kept_blocks(bs))) + after,
            Rewrite::Done,
        ),
    decreases bs.len(),
{
    let b = bs[0];
    let o = pre + encode_blocks(bs) + after;
    let p = pre.len() as int;
    lemma_first_block(bs);
    let rest = bs.drop_first();
    let tail = encode_blocks(rest) + after;
    let pre2 = pre + encode_block(b);
    assert(o =~= pre + encode_block(b) + tail) by {
        assert(encode_blocks(bs) == encode_block(b) + encode_blocks(rest));
    }
    assert(o =~= pre2 + encode_blocks(rest) + after);
    lemma_block_reads_back(pre, b, tail);
    let next = p + 4 + b.2.len();
    assert(pre2.len() == next);
    let hb = held_blocks(held);
    let ks = hb + kept_blocks(bs);
    if let Some((h0, d0)) = held {
        assert(ks[0] == hb[0]);
    }
    lemma_emit_is_encode(false, held);
    let w = encode_blocks(with_flag(hb, false));
    let h = Header { block_type: b.1, size: b.2.len() as u32 };
    let bb = seq![(false, b.1, b.2)];
    if kept(b.1) {
        let current = Some((h, b.2));
        assert(kept_blocks(bs) == seq![b] + kept_blocks(rest));
        assert(held_blocks(current) == bb);
        if b.0 {
            assert(rest.len() == 0);
            assert(kept_blocks(rest) == Seq::<BlockView>::empty());
            assert(ks =~= hb + seq![b]);
            assert(ks[ks.len() - 1] == b);
            lemma_emit_is_encode(true, current);
            assert(with_flag(bb, true) =~= seq![(true, b.1, b.2)]);
            assert(o.subrange(next, o.len() as int) =~= after);
            lemma_flag_split(hb, seq![b]);
            assert(flag_last_only(seq![b]) =~= seq![(true, b.1, b.2)]);
            lemma_encode_blocks_concat(with_flag(hb, false), seq![(true, b.1, b.2)]);
        } else {
            lemma_rest_well_formed(bs);
            let ks2 = bb + kept_blocks(rest);
            assert(ks =~= hb + ks2);
            assert(all_type_zero(ks2)) by {
                assert forall|i: int| 0 <= i < ks2.len() implies (#[trigger] ks2[i]).1 == 0 by {
                    assert(ks2[i] == ks[i + hb.len()] || ks2[i].1 == ks[i + hb.len()].1);
                }
            }
            lemma_delete_over_blocks(pre2, current, rest, after);
            lemma_flag_split(hb, ks2);
            lemma_encode_blocks_concat(with_flag(hb, false), flag_last_only(ks2));
            assert(w + (encode_blocks(flag_last_only(ks2)) + after) =~= (w + encode_blocks(
                flag_last_only(ks2),
            )) + after);
        }
    } else {
        assert(kept_blocks(bs) == kept_blocks(rest));
        if b.0 {
            assert(rest.len() == 0);
            assert(kept_blocks(rest) == Seq::<BlockView>::empty());
            assert(ks =~= hb);
            lemma_emit_is_encode(true, held);
            assert(flag_last_only(hb) =~= with_flag(hb, true));
            assert(o.subrange(next, o.len() as int) =~= after);
        } else {
            lemma_rest_well_formed(bs);
            lemma_delete_over_blocks(pre2, held, rest, after);
        }
    }
}

/// Rewriting a FLAC stream, block by block: for a well-formed chain of
/// blocks after the four-byte marker, whose kept blocks (stream
/// information, padding, seek tables, cue sheets) all have type 0, and
/// whatever audio follows the chain, [`delete`] writes the marker, then the
/// kept blocks in order with only the final one flagged last, then the
/// audio; every other block is dropped.
pub proof fn law_delete_writes_kept_blocks(marker: Seq<u8>, bs: Seq<BlockView>, audio: Seq<u8>)
    requires
        marker.len() == 4,
        chain_well_formed(bs),
        all_type_zero(kept_blocks(bs)),
    ensures
        spec_delete(marker + encode_blocks(bs) + audio) == (
            marker + encode_blocks(flag_last_only(kept_blocks(bs))) + audio,
            Rewrite::Done,
        ),
{
    let s = marker + encode_blocks(bs) + audio;
    assert(held_blocks(None) + kept_blocks(bs) =~= kept_blocks(bs));
    lemma_delete_over_blocks(marker, None, bs, audio);
    assert(s.take(4) =~= marker);
    assert(marker + (encode_blocks(flag_last_only(kept_blocks(bs))) + audio) =~= marker
        + encode_blocks(flag_last_only(kept_blocks(bs))) + audio);
}

/// The chain after the first block of an unterminated chain is
/// unterminated, and the first block is a proper block.
proof fn lemma_rest_unterminated(bs: Seq<BlockView>)
    requires
        chain_unterminated(bs),
        bs.len() > 0,
    ensures
        chain_unterminated(bs.drop_first()),
        bs[0].1 < 128,
        bs[0].2.len() < 16777216,
        !bs[0].0,
{
    let rest = bs.drop_first();
    assert(bs[0].1 < 128);
    assert forall|i: int| 0 <= i < rest.len() implies {
        &&& #[trigger] rest[i].1 < 128
        &&& rest[i].2.len() < 16777216
        &&& !rest[i].0
    } by {
        assert(rest[i] == bs[i + 1]);
        assert(bs[i + 1].1 < 128);
    }
}

/// Rewriting a chain that ends at a block boundary with no block flagged
/// last, with `held` not yet written: every kept block but the final one
/// (counting the held one) is written unflagged, and the rewrite fails with
/// `Error::File`.
#[verifier::spinoff_prover]
proof fn lemma_delete_unterminated(pre: Seq<u8>, held: Option<(Header, Seq<u8>)>, bs: Seq<BlockView>)
    requires
        chain_unterminated(bs),
        held_ok(held),
        all_but_final_type_zero(held_blocks(held) + kept_blocks(bs)),
    ensures
        delete_from(pre + encode_blocks(bs), pre.len() as int, held) == (
            encode_blocks(with_flag(but_final(held_blocks(held) + kept_blocks(bs)), false)),
            Rewrite::Failed(Error::File),
        ),
    decreases bs.len(),
{
    let o = pre + encode_blocks(bs);
    let p = pre.len() as int;
    let hb = held_blocks(held);
    let ks = hb + kept_blocks(bs);
    if bs.len() == 0 {
        assert(o.len() == p);
        assert(kept_blocks(bs) == Seq::<BlockView>::empty());
        assert(but_final(ks) =~= Seq::<BlockView>::empty());
        assert(with_flag(but_final(ks), false) =~= Seq::<BlockView>::empty());
    } else {
        let b = bs[0];
        lemma_rest_unterminated(bs);
        let rest = bs.drop_first();
        let tail = encode_blocks(rest);
        let pre2 = pre + encode_block(b);
        assert(o =~= pre + encode_block(b) + tail) by {
            assert(encode_blocks(bs) == encode_block(b) + encode_blocks(rest));
        }
        assert(o =~= pre2 + encode_blocks(rest));
        lemma_block_reads_back(pre, b, tail);
        let next = p + 4 + b.2.len();
        assert(pre2.len() == next);
        lemma_rest_unterminated(bs);
        let h = Header { block_type: b.1, size: b.2.len() as u32 };
        let bb = seq![(false, b.1, b.2)];
        if kept(b.1) {
            let current = Some((h, b.2));
            assert(kept_blocks(bs) == seq![b] + kept_blocks(rest));
            assert(held_blocks(current) == bb);
            if let Some((h0, d0)) = held {
                assert(ks[0] == hb[0]);
                assert(0 < ks.len() - 1);
            }
            lemma_emit_is_encode(false, held);
            let w = encode_blocks(with_flag(hb, false));
            let ks2 = bb + kept_blocks(rest);
            assert(ks =~= hb + ks2);
            assert(all_but_final_type_zero(ks2)) by {
                assert forall|i: int| 0 <= i < ks2.len() - 1 implies (#[trigger] ks2[i]).1 == 0 by {
                    assert(ks2[i].1 == ks[i + hb.len()].1);
                }
            }
            lemma_delete_unterminated(pre2, current, rest);
            assert(encode_blocks(with_flag(but_final(ks), false)) == w + encode_blocks(
                with_flag(but_final(ks2), false),
            )) by {
                assert(but_final(ks) =~= hb + but_final(ks2));
                assert(with_flag(but_final(ks), false) =~= with_flag(hb, false) + with_flag(
                    but_final(ks2),
                    false,
                ));
                lemma_encode_blocks_concat(with_flag(hb, false), with_flag(but_final(ks2), false));
            }
        } else {
            assert(kept_blocks(bs) == kept_blocks(rest));
            lemma_delete_unterminated(pre2, held, rest);
        }
    }
}

/// A stream whose chain of blocks ends with no block flagged last fails
/// with `Error::File`: after the four-byte marker, every kept block but the
/// final one is written, unflagged, and the final kept block is never
/// written. The kept blocks written must have type 0.
pub proof fn law_unterminated_chain_fails(marker: Seq<u8>, bs: Seq<BlockView>)
    requires
        marker.len() == 4,
        chain_unterminated(bs),
        all_but_final_type_zero(kept_blocks(bs)),
    ensures
        spec_delete(marker + encode_blocks(bs)) == (
            marker + encode_blocks(with_flag(but_final(kept_blocks(bs)), false)),
            Rewrite::Failed(Error::File),
        ),
{
    let s = marker + encode_blocks(bs);
    assert(held_blocks(None) + kept_blocks(bs) =~= kept_blocks(bs));
    lemma_delete_unterminated(marker, None, bs);
    assert(s.take(4) =~= marker);
}

} // verus!
