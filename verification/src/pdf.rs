use vstd::prelude::*;
use crate::bytes::copy_range;
use crate::error::Error;
use crate::pdf_syntax::{
    is_regular, regular_end, bytes_at, dict_at, entry_views, find_first, find_last, find_object, first_at_from,
    keyword_at, keyword_matches, last_at_before, locate_object, object_header, read_dict,
    read_object_header, read_uint, skip, skip_space, spec_uint, Entry, EntryView, PdfValue,
    ValueView,
};
use crate::tag::{decode_lossy, lemma_tag_views_push, lossy_utf8, tag_views, Tag, TagView};
use crate::xmp::Step;
use crate::xmp;

verus! {

/// The keyword `startxref`.
pub open spec fn startxref_keyword() -> Seq<u8> {
    seq![115u8, 116u8, 97u8, 114u8, 116u8, 120u8, 114u8, 101u8, 102u8]
}

/// The keyword `xref`.
pub open spec fn xref_keyword() -> Seq<u8> {
    seq![120u8, 114u8, 101u8, 102u8]
}

/// The keyword `trailer`.
pub open spec fn trailer_keyword() -> Seq<u8> {
    seq![116u8, 114u8, 97u8, 105u8, 108u8, 101u8, 114u8]
}

/// The keyword `stream`.
pub open spec fn stream_keyword() -> Seq<u8> {
    seq![115u8, 116u8, 114u8, 101u8, 97u8, 109u8]
}

/// The key `DocChecksum`.
pub open spec fn checksum_key() -> Seq<u8> {
    seq![68u8, 111u8, 99u8, 67u8, 104u8, 101u8, 99u8, 107u8, 115u8, 117u8, 109u8]
}

/// The key `Info`.
pub open spec fn info_key() -> Seq<u8> {
    seq![73u8, 110u8, 102u8, 111u8]
}

/// The key `Root`.
pub open spec fn root_key() -> Seq<u8> {
    seq![82u8, 111u8, 111u8, 116u8]
}

/// The key `Metadata`.
pub open spec fn metadata_key() -> Seq<u8> {
    seq![77u8, 101u8, 116u8, 97u8, 100u8, 97u8, 116u8, 97u8]
}

/// The key `Filter`.
pub open spec fn filter_key() -> Seq<u8> {
    seq![70u8, 105u8, 108u8, 116u8, 101u8, 114u8]
}

/// The key `Length`.
pub open spec fn length_key() -> Seq<u8> {
    seq![76u8, 101u8, 110u8, 103u8, 116u8, 104u8]
}

/// The value of the first entry with key `key`.
pub open spec fn lookup(es: Seq<EntryView>, key: Seq<u8>) -> Option<ValueView>
    decreases es.len(),
{
    if es.len() == 0 {
        None
    } else if es[0].0 == key {
        Some(es[0].1)
    } else {
        lookup(es.drop_first(), key)
    }
}

/// The trailer dictionary of the document: `startxref` (its last
/// occurrence) gives the offset of the cross-reference section. A
/// cross-reference table is followed by the keyword `trailer` and the
/// dictionary; a cross-reference stream is an object whose dictionary holds
/// the trailer's entries. No usable `startxref` or section gives
/// `Error::File`, a malformed dictionary `Error::Metadata`.
pub open spec fn trailer(d: Seq<u8>) -> Result<Seq<EntryView>, Error> {
    match last_at_before(d, startxref_keyword(), d.len() as int) {
        None => Err(Error::File),
        Some(k) => match spec_uint(d, skip_space(d, k + 9)) {
            None => Err(Error::File),
            Some((off, _)) => if off > d.len() {
                Err(Error::File)
            } else {
                let p = skip_space(d, off as int);
                if keyword_at(d, p, xref_keyword()) {
                    match first_at_from(d, trailer_keyword(), p) {
                        None => Err(Error::File),
                        Some(t) => match dict_at(d, skip_space(d, t + 7)) {
                            Some((es, _)) => Ok(es),
                            None => Err(Error::Metadata),
                        },
                    }
                } else {
                    match object_header(d, p) {
                        Some((_, _, a)) => match dict_at(d, skip_space(d, a)) {
                            Some((es, _)) => Ok(es),
                            None => Err(Error::Metadata),
                        },
                        None => Err(Error::File),
                    }
                }
            },
        },
    }
}

/// The dictionary of the object that the reference `r` points to, and the
/// index after it.
pub open spec fn referenced_dict(d: Seq<u8>, r: Option<ValueView>) -> Option<(Seq<EntryView>, int)> {
    match r {
        Some(ValueView::Ref(n, g)) => match find_object(d, n, g) {
            Some(a) => dict_at(d, skip_space(d, a)),
            None => None,
        },
        _ => None,
    }
}

/// The text of a string value.
pub open spec fn text_of(s: Seq<u8>) -> Seq<char> {
    lossy_utf8(s)
}

/// The tags of an information dictionary: each entry whose value is a
/// string or a name.
pub open spec fn info_tags(es: Seq<EntryView>) -> Seq<TagView>
    decreases es.len(),
{
    if es.len() == 0 {
        Seq::empty()
    } else {
        let rest = info_tags(es.drop_first());
        match es[0].1 {
            ValueView::Str(s) => seq![(lossy_utf8(es[0].0), text_of(s))] + rest,
            ValueView::Name(n) => seq![(lossy_utf8(es[0].0), lossy_utf8(n))] + rest,
            _ => rest,
        }
    }
}

/// The tag of the trailer's document checksum, where it is a name.
pub open spec fn checksum_tags(es: Seq<EntryView>) -> Seq<TagView> {
    match lookup(es, checksum_key()) {
        Some(ValueView::Name(n)) => seq![(lossy_utf8(checksum_key()), lossy_utf8(n))],
        _ => Seq::empty(),
    }
}

/// The length of a stream: an integer, or an integer object referenced.
pub open spec fn stream_length(d: Seq<u8>, v: Option<ValueView>) -> Option<nat> {
    match v {
        Some(ValueView::Int(n)) => Some(n as nat),
        Some(ValueView::Ref(n, g)) => match find_object(d, n, g) {
            Some(a) => match spec_uint(d, skip_space(d, a)) {
                Some((m, _)) => if m <= u64::MAX {
                    Some(m)
                } else {
                    None
                },
                None => None,
            },
            None => None,
        },
        _ => None,
    }
}

/// Where the data of a stream whose dictionary ends at `i` starts: after
/// the keyword `stream` and its end of line.
pub open spec fn stream_start(d: Seq<u8>, i: int) -> Option<int> {
    let p = skip_space(d, i);
    if keyword_at(d, p, stream_keyword()) {
        let q = p + 6;
        if q < d.len() && d[q] == 13 {
            if q + 1 < d.len() && d[q + 1] == 10 {
                Some(q + 2)
            } else {
                Some(q + 1)
            }
        } else if q < d.len() && d[q] == 10 {
            Some(q + 1)
        } else {
            Some(q)
        }
    } else {
        None
    }
}

/// The XMP packet of the document: the stream that the catalog's
/// `Metadata` entry points to, where it is stored without a filter.
pub open spec fn packet(d: Seq<u8>, es: Seq<EntryView>) -> Option<Seq<u8>> {
    match referenced_dict(d, lookup(es, root_key())) {
        Some((catalog, _)) => match referenced_dict(d, lookup(catalog, metadata_key())) {
            Some((sd, e)) => if lookup(sd, filter_key()) is Some {
                None
            } else {
                match stream_length(d, lookup(sd, length_key())) {
                    Some(n) => match stream_start(d, e) {
                        Some(st) => if st + n <= d.len() {
                            Some(d.subrange(st, st + n))
                        } else {
                            None
                        },
                        None => None,
                    },
                    None => None,
                }
            },
            None => None,
        },
        None => None,
    }
}

/// What reading the document's metadata comes to before its XMP packet is
/// read: the tags of the trailer's document checksum and of the
/// information dictionary, and the XMP packet where there is one.
pub open spec fn plan(d: Seq<u8>) -> Result<(Seq<TagView>, Option<Seq<u8>>), Error> {
    match trailer(d) {
        Err(e) => Err(e),
        Ok(es) => {
            let info = match referenced_dict(d, lookup(es, info_key())) {
                Some((ie, _)) => info_tags(ie),
                None => Seq::empty(),
            };
            Ok((checksum_tags(es) + info, packet(d, es)))
        },
    }
}

/// Finds the value of the first entry with key `key`.
fn find_value<'a>(es: &'a Vec<Entry>, key: &[u8]) -> (r: Option<&'a PdfValue>)
    ensures
        match r {
            Some(v) => lookup(entry_views(es@), key@) == Some(v@),
            None => lookup(entry_views(es@), key@) is None,
        },
{
    let ghost views = entry_views(es@);
    let mut i: usize = 0;
    assert(views.skip(0) =~= views);
    while i < es.len()
        invariant
            i <= es@.len(),
            views == entry_views(es@),
            lookup(views, key@) == lookup(views.skip(i as int), key@),
        decreases es@.len() - i,
    {
        let entry = &es[i];
        assert(views.skip(i as int)[0] == entry@);
        assert(views.skip(i as int).drop_first() =~= views.skip(i + 1));
        if entry.key.len() == key.len() {
            let mut k: usize = 0;
            let mut same = true;
            while k < key.len()
                invariant
                    k <= key@.len(),
                    entry.key@.len() == key@.len(),
                    same == (forall|m: int| 0 <= m < k ==> entry.key@[m] == key@[m]),
                decreases key@.len() - k,
            {
                if entry.key[k] != key[k] {
                    same = false;
                }
                k = k + 1;
            }
            if same {
                assert(entry.key@ =~= key@);
                return Some(&entry.value);
            }
            assert(entry.key@ != key@) by {
                let m = choose|m: int| 0 <= m < key@.len() && entry.key@[m] != key@[m];
            }
        }
        i = i + 1;
    }
    None
}

/// Reads the trailer dictionary.
fn read_trailer(d: &[u8]) -> (r: Result<Vec<Entry>, Error>)
    ensures
        match r {
            Ok(es) => trailer(d@) == Ok::<Seq<EntryView>, Error>(entry_views(es@)),
            Err(e) => trailer(d@) == Err::<Seq<EntryView>, Error>(e),
        },
{
    let startxref = [115u8, 116u8, 97u8, 114u8, 116u8, 120u8, 114u8, 101u8, 102u8];
    assert(startxref@ =~= startxref_keyword());
    let k = match find_last(d, startxref.as_slice()) {
        Some(k) => k,
        None => {
            return Err(Error::File);
        },
    };
    assert(k + 9 <= d.len());
    let after = skip(d, k + 9);
    let off = match read_uint(d, after) {
        Some((off, _)) => off,
        None => {
            assert(d@.len() <= u64::MAX);
            return Err(Error::File);
        },
    };
    if off > d.len() as u64 {
        return Err(Error::File);
    }
    let p = skip(d, off as usize);
    let xref = [120u8, 114u8, 101u8, 102u8];
    assert(xref@ =~= xref_keyword());
    if keyword_matches(d, p, xref.as_slice()) {
        let trailer_kw = [116u8, 114u8, 97u8, 105u8, 108u8, 101u8, 114u8];
        assert(trailer_kw@ =~= trailer_keyword());
        match find_first(d, trailer_kw.as_slice(), p) {
            None => Err(Error::File),
            Some(t) => {
                assert(bytes_at(d@, t as int, trailer_keyword()));
                let q = skip(d, t + 7);
                match read_dict(d, q) {
                    Some((es, _)) => Ok(es),
                    None => Err(Error::Metadata),
                }
            },
        }
    } else {
        match read_object_header(d, p) {
            Some((_, _, a)) => {
                let q = skip(d, a);
                match read_dict(d, q) {
                    Some((es, _)) => Ok(es),
                    None => Err(Error::Metadata),
                }
            },
            None => Err(Error::File),
        }
    }
}

/// Reads the dictionary of the object that `r` references.
fn read_referenced_dict(d: &[u8], r: Option<&PdfValue>) -> (res: Option<(Vec<Entry>, usize)>)
    ensures
        match res {
            Some((es, e)) => referenced_dict(d@, opt_view(r)) == Some((entry_views(es@), e as int))
                && e <= d@.len(),
            None => referenced_dict(d@, opt_view(r)) is None,
        },
{
    match r {
        Some(PdfValue::Ref(n, g)) => match locate_object(d, *n, *g) {
            Some(a) => {
                let q = skip(d, a);
                read_dict(d, q)
            },
            None => None,
        },
        _ => None,
    }
}

/// The view of an optional value.
pub open spec fn opt_view(r: Option<&PdfValue>) -> Option<ValueView> {
    match r {
        Some(v) => Some(v@),
        None => None,
    }
}

/// The tags of an information dictionary.
fn read_info_tags(es: &Vec<Entry>) -> (tags: Vec<Tag>)
    ensures
        tag_views(tags@) == info_tags(entry_views(es@)),
{
    let ghost views = entry_views(es@);
    let mut tags: Vec<Tag> = Vec::new();
    let mut i: usize = 0;
    assert(views.skip(0) =~= views);
    assert(tag_views(tags@) + info_tags(views) =~= info_tags(views));
    while i < es.len()
        invariant
            i <= es@.len(),
            views == entry_views(es@),
            info_tags(views) == tag_views(tags@) + info_tags(views.skip(i as int)),
        decreases es@.len() - i,
    {
        let entry = &es[i];
        let ghost rest = views.skip(i as int);
        assert(rest[0] == entry@);
        assert(rest.drop_first() =~= views.skip(i + 1));
        let ghost before = tags@;
        match &entry.value {
            PdfValue::Str(s) => {
                let tag = Tag { name: decode_lossy(entry.key.as_slice()), value: decode_lossy(s.as_slice()) };
                tags.push(tag);
                proof {
                    lemma_tag_views_push(before, tag);
                    assert(tag_views(before) + (seq![tag@] + info_tags(views.skip(i + 1))) =~= tag_views(tags@)
                        + info_tags(views.skip(i + 1)));
                }
            },
            PdfValue::Name(n) => {
                let tag = Tag { name: decode_lossy(entry.key.as_slice()), value: decode_lossy(n.as_slice()) };
                tags.push(tag);
                proof {
                    lemma_tag_views_push(before, tag);
                    assert(tag_views(before) + (seq![tag@] + info_tags(views.skip(i + 1))) =~= tag_views(tags@)
                        + info_tags(views.skip(i + 1)));
                }
            },
            _ => {},
        }
        i = i + 1;
    }
    assert(views.skip(i as int) =~= Seq::<EntryView>::empty());
    assert(tag_views(tags@) + Seq::<TagView>::empty() =~= tag_views(tags@));
    tags
}

/// Reads the length of a stream.
fn read_stream_length(d: &[u8], v: Option<&PdfValue>) -> (r: Option<u64>)
    ensures
        match r {
            Some(n) => stream_length(d@, opt_view(v)) == Some(n as nat),
            None => stream_length(d@, opt_view(v)) is None,
        },
{
    match v {
        Some(PdfValue::Int(n)) => Some(*n),
        Some(PdfValue::Ref(n, g)) => match locate_object(d, *n, *g) {
            Some(a) => {
                let q = skip(d, a);
                match read_uint(d, q) {
                    Some((m, _)) => Some(m),
                    None => None,
                }
            },
            None => None,
        },
        _ => None,
    }
}

/// Finds where the data of a stream whose dictionary ends at `i` starts.
fn find_stream_start(d: &[u8], i: usize) -> (r: Option<usize>)
    requires
        i <= d@.len(),
    ensures
        match r {
            Some(st) => stream_start(d@, i as int) == Some(st as int) && st <= d@.len(),
            None => stream_start(d@, i as int) is None,
        },
{
    let p = skip(d, i);
    let stream = [115u8, 116u8, 114u8, 101u8, 97u8, 109u8];
    assert(stream@ =~= stream_keyword());
    if !keyword_matches(d, p, stream.as_slice()) {
        return None;
    }
    assert(p + 6 <= d.len());
    let q = p + 6;
    if q < d.len() && d[q] == 13 {
        if q + 1 < d.len() && d[q + 1] == 10 {
            Some(q + 2)
        } else {
            Some(q + 1)
        }
    } else if q < d.len() && d[q] == 10 {
        Some(q + 1)
    } else {
        Some(q)
    }
}

/// Finds the XMP packet of the document.
fn find_packet(d: &[u8], es: &Vec<Entry>) -> (r: Option<Vec<u8>>)
    ensures
        match r {
            Some(p) => packet(d@, entry_views(es@)) == Some(p@),
            None => packet(d@, entry_views(es@)) is None,
        },
{
    let root = [82u8, 111u8, 111u8, 116u8];
    assert(root@ =~= root_key());
    let (catalog, _) = match read_referenced_dict(d, find_value(es, root.as_slice())) {
        Some(x) => x,
        None => {
            return None;
        },
    };
    let metadata = [77u8, 101u8, 116u8, 97u8, 100u8, 97u8, 116u8, 97u8];
    assert(metadata@ =~= metadata_key());
    let (sd, e) = match read_referenced_dict(d, find_value(&catalog, metadata.as_slice())) {
        Some(x) => x,
        None => {
            return None;
        },
    };
    let filter = [70u8, 105u8, 108u8, 116u8, 101u8, 114u8];
    assert(filter@ =~= filter_key());
    if find_value(&sd, filter.as_slice()).is_some() {
        return None;
    }
    let length = [76u8, 101u8, 110u8, 103u8, 116u8, 104u8];
    assert(length@ =~= length_key());
    let n = match read_stream_length(d, find_value(&sd, length.as_slice())) {
        Some(n) => n,
        None => {
            return None;
        },
    };
    let st = match find_stream_start(d, e) {
        Some(st) => st,
        None => {
            return None;
        },
    };
    if n > (d.len() - st) as u64 {
        return None;
    }
    let end = st + n as usize;
    Some(copy_range(d, st, end))
}

/// Reads the checksum and information tags of the document, and finds its
/// XMP packet.
pub fn read_plan(d: &[u8]) -> (r: Result<(Vec<Tag>, Option<Vec<u8>>), Error>)
    ensures
        match r {
            Ok((tags, p)) => plan(d@) matches Ok((t, q)) && tag_views(tags@) == t && match p {
                Some(x) => q == Some(x@),
                None => q is None,
            },
            Err(e) => plan(d@) == Err::<(Seq<TagView>, Option<Seq<u8>>), Error>(e),
        },
{
    let es = match read_trailer(d) {
        Ok(es) => es,
        Err(e) => {
            return Err(e);
        },
    };
    let mut tags: Vec<Tag> = Vec::new();
    let checksum = [68u8, 111u8, 99u8, 67u8, 104u8, 101u8, 99u8, 107u8, 115u8, 117u8, 109u8];
    assert(checksum@ =~= checksum_key());
    match find_value(&es, checksum.as_slice()) {
        Some(PdfValue::Name(n)) => {
            let tag = Tag { name: decode_lossy(checksum.as_slice()), value: decode_lossy(n.as_slice()) };
            tags.push(tag);
            assert(tag_views(tags@) =~= seq![tag@]);
        },
        _ => {
            assert(tag_views(tags@) =~= Seq::<TagView>::empty());
        },
    }
    let info = [73u8, 110u8, 102u8, 111u8];
    assert(info@ =~= info_key());
    match read_referenced_dict(d, find_value(&es, info.as_slice())) {
        Some((ie, _)) => {
            let mut more = read_info_tags(&ie);
            let ghost before = tags@;
            let ghost added = more@;
            tags.append(&mut more);
            assert(tag_views(tags@) =~= tag_views(before) + tag_views(added));
        },
        None => {
            assert(tag_views(tags@) + Seq::<TagView>::empty() =~= tag_views(tags@));
        },
    }
    let p = find_packet(d, &es);
    Ok((tags, p))
}

/// The metadata of the PDF document `data`: the document checksum of its
/// trailer, the string and name entries of its information dictionary,
/// then the tags of the XMP packet that its catalog points to, read as
/// [`xmp::get`] reads it ([`xmp::spec_get`]: the walk over the events that
/// `quick_xml` reads from the packet); a failure of that walk is the
/// document's.
pub fn get(data: &[u8]) -> (r: Result<Vec<Tag>, Error>)
    ensures
        match plan(data@) {
            Err(e) => r == Err::<Vec<Tag>, Error>(e),
            Ok((tags, None)) => r matches Ok(v) && tag_views(v@) == tags,
            Ok((tags, Some(p))) => {
                let (_, more, step) = xmp::spec_get(p);
                &&& (step == Step::Finished <==> r is Ok)
                &&& (r matches Ok(v) ==> tag_views(v@) == tags + more)
                &&& (step == Step::Invalid <==> r == Err::<Vec<Tag>, Error>(Error::Metadata))
                &&& (step == Step::Continue <==> r == Err::<Vec<Tag>, Error>(Error::Xml))
            },
        },
{
    let (mut tags, p) = match read_plan(data) {
        Ok(x) => x,
        Err(e) => {
            return Err(e);
        },
    };
    match p {
        Some(packet) => {
            match xmp::get(packet.as_slice(), &mut tags) {
                Ok(()) => Ok(tags),
                Err(e) => Err(e),
            }
        },
        None => Ok(tags),
    }
}

/// The data of a stream starts right after the whole end of line that
/// follows the keyword `stream`: where the dictionary ends at `i` and,
/// after white space, the bytes `stream` stand at `p`, then CR LF after the
/// keyword puts the data after the LF, a lone LF or a lone CR puts it after
/// that byte.
pub proof fn law_stream_data_after_end_of_line(d: Seq<u8>, i: int, p: int)
    requires
        p == skip_space(d, i),
        0 <= p,
        p + 7 <= d.len(),
        d[p] == 115u8 && d[p + 1] == 116u8 && d[p + 2] == 114u8 && d[p + 3] == 101u8 && d[p + 4]
            == 97u8 && d[p + 5] == 109u8,
        d[p + 6] == 13u8 || d[p + 6] == 10u8,
    ensures
        (p + 8 <= d.len() && d[p + 6] == 13u8 && d[p + 7] == 10u8) ==> stream_start(d, i) == Some(
            p + 8,
        ),
        d[p + 6] == 10u8 ==> stream_start(d, i) == Some(p + 7),
        (d[p + 6] == 13u8 && !(p + 8 <= d.len() && d[p + 7] == 10u8)) ==> stream_start(d, i)
            == Some(p + 7),
{
    assert(d.subrange(p, p + 6) =~= stream_keyword());
    assert(!is_regular(d[p + 6]));
    assert(regular_end(d, p + 6) == p + 6);
}

/// The packet of a metadata stream written `stream` CR LF is exactly the
/// `n` bytes after the LF: where the catalog of the trailer's root points
/// with `Metadata` to a stream dictionary without a filter whose length is
/// `n`, and the dictionary is followed by `stream` and CR LF, the packet
/// read is those `n` bytes.
pub proof fn law_crlf_stream_packet(
    d: Seq<u8>,
    es: Seq<EntryView>,
    catalog: Seq<EntryView>,
    sd: Seq<EntryView>,
    e: int,
    c: int,
    n: nat,
    p: int,
)
    requires
        referenced_dict(d, lookup(es, root_key())) == Some((catalog, c)),
        referenced_dict(d, lookup(catalog, metadata_key())) == Some((sd, e)),
        lookup(sd, filter_key()) is None,
        stream_length(d, lookup(sd, length_key())) == Some(n),
        p == skip_space(d, e),
        0 <= p,
        p + 8 + n <= d.len(),
        d[p] == 115u8 && d[p + 1] == 116u8 && d[p + 2] == 114u8 && d[p + 3] == 101u8 && d[p + 4]
            == 97u8 && d[p + 5] == 109u8,
        d[p + 6] == 13u8 && d[p + 7] == 10u8,
    ensures
        packet(d, es) == Some(d.subrange(p + 8, p + 8 + n)),
{
    law_stream_data_after_end_of_line(d, e, p);
}

} // verus!
