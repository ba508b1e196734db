use vstd::prelude::*;
use crate::bytes::{find_byte, first_index, first_index_from, le_u32, read_le_u32};
use crate::error::Error;
use crate::tag::{decode_lossy, lemma_tag_views_push, lossy_utf8, tag_views, Tag, TagView};

verus! {

/// The byte `=` that parts a comment's field name from its value.
pub const EQUALS: u8 = 0x3D;

/// How a walk over Vorbis comments ended.
#[derive(Debug, Clone, Copy, PartialEq, Eq, Structural)]
pub enum Outcome {
    /// Every announced comment was read.
    Complete,
    /// A length runs past the end of the data.
    Rejected,
    /// A comment whose `=` lies outside its name-and-value slice: the first
    /// `=` of the remaining data comes before the comment's text, after its
    /// end, or not at all. Slicing such a comment is out of bounds.
    Unsliceable,
}

/// The index of the first `=` in `d`, or `d.len()` where there is none.
pub open spec fn equals_position(d: Seq<u8>) -> int {
    first_index(d, EQUALS)
}

/// Reads `n` comments from the front of `d`. Each comment is a little-endian
/// length, then that many bytes `name=value`. The name runs from the end of
/// the length to the first `=` of `d`, the value from there to the end of the
/// comment. Gives the tags read and how the walk ended.
pub open spec fn comments(d: Seq<u8>, n: nat) -> (Seq<TagView>, Outcome)
    decreases n,
{
    if n == 0 {
        (Seq::empty(), Outcome::Complete)
    } else if d.len() < 4 || d.len() < 4 + le_u32(d) {
        (Seq::empty(), Outcome::Rejected)
    } else {
        let end = 4 + le_u32(d) as int;
        let p = equals_position(d);
        if p < 4 || p >= end {
            (Seq::empty(), Outcome::Unsliceable)
        } else {
            let tag = (lossy_utf8(d.subrange(4, p)), lossy_utf8(d.subrange(p + 1, end)));
            let rest = comments(d.skip(end), (n - 1) as nat);
            (seq![tag] + rest.0, rest.1)
        }
    }
}

/// The comments of a Vorbis comment packet: a length-prefixed vendor string,
/// a little-endian count, then that many comments.
pub open spec fn spec_read(d: Seq<u8>) -> (Seq<TagView>, Outcome) {
    if d.len() < 4 || d.len() < 8 + le_u32(d) {
        (Seq::empty(), Outcome::Rejected)
    } else {
        let size = le_u32(d) as int;
        comments(d.skip(8 + size), le_u32(d.skip(4 + size)))
    }
}

/// Reads the comments of a Vorbis comment packet: the tags, in order, and
/// how the reading ended.
pub fn read(data: &[u8]) -> (res: (Vec<Tag>, Outcome))
    ensures
        tag_views(res.0@) == spec_read(data@).0,
        res.1 == spec_read(data@).1,
{
    let mut tags: Vec<Tag> = Vec::new();
    assert(tag_views(tags@) =~= Seq::<TagView>::empty());
    if data.len() < 4 {
        return (tags, Outcome::Rejected);
    }
    let size = read_le_u32(data) as usize;
    if data.len() - 4 < size || data.len() - 4 - size < 4 {
        return (tags, Outcome::Rejected);
    }
    let count = read_le_u32(&data[4 + size..data.len()]);
    let mut rest: &[u8] = &data[8 + size..data.len()];
    assert(data@.subrange(4 + size, data@.len() as int) =~= data@.skip(4 + size));
    assert(data@.subrange(8 + size, data@.len() as int) =~= data@.skip(8 + size));
    let mut i: u32 = 0;
    while i < count
        invariant
            i <= count,
            spec_read(data@).0 =~= tag_views(tags@) + comments(rest@, (count - i) as nat).0,
            spec_read(data@).1 == comments(rest@, (count - i) as nat).1,
        decreases count - i,
    {
        if rest.len() < 4 {
            assert(tag_views(tags@) + Seq::<TagView>::empty() =~= tag_views(tags@));
            return (tags, Outcome::Rejected);
        }
        let size = read_le_u32(rest) as usize;
        if rest.len() - 4 < size {
            assert(tag_views(tags@) + Seq::<TagView>::empty() =~= tag_views(tags@));
            return (tags, Outcome::Rejected);
        }
        let end = 4 + size;
        let position = find_byte(rest, EQUALS);
        if position < 4 || position >= end {
            assert(tag_views(tags@) + Seq::<TagView>::empty() =~= tag_views(tags@));
            return (tags, Outcome::Unsliceable);
        }
        let name = decode_lossy(&rest[4..position]);
        let value = decode_lossy(&rest[position + 1..end]);
        let ghost old_tags = tags@;
        let ghost old_rest = rest@;
        let tag = Tag { name, value };
        tags.push(tag);
        proof {
            lemma_tag_views_push(old_tags, tag);
        }
        rest = &rest[end..rest.len()];
        assert(rest@ =~= old_rest.skip(end as int));
        i = i + 1;
    }
    assert(tag_views(tags@) + Seq::<TagView>::empty() =~= tag_views(tags@));
    (tags, Outcome::Complete)
}

/// The Vorbis comment packet `data`, read into `metadata`: its comments are
/// appended in order. A packet whose lengths run past its end gives
/// `Error::Metadata`; the comments read before that point stay appended.
pub fn get(data: &[u8], metadata: &mut Vec<Tag>) -> (r: Result<(), Error>)
    requires
        spec_read(data@).1 != Outcome::Unsliceable,
    ensures
        tag_views(final(metadata)@) == tag_views(old(metadata)@) + spec_read(data@).0,
        r is Ok <==> spec_read(data@).1 == Outcome::Complete,
        r is Err ==> r == Err::<(), Error>(Error::Metadata),
{
    let (mut tags, outcome) = read(data);
    let ghost before = metadata@;
    let ghost added = tags@;
    metadata.append(&mut tags);
    assert(tag_views(metadata@) =~= tag_views(before) + tag_views(added));
    match outcome {
        Outcome::Complete => Ok(()),
        _ => Err(Error::Metadata),
    }
}

/// A walk that reads every announced comment gives one tag per comment.
proof fn lemma_complete_walk_length(d: Seq<u8>, n: nat)
    ensures
        comments(d, n).1 == Outcome::Complete ==> comments(d, n).0.len() == n,
    decreases n,
{
    if n > 0 && d.len() >= 4 && d.len() >= 4 + le_u32(d) {
        lemma_complete_walk_length(d.skip(4 + le_u32(d) as int), (n - 1) as nat);
    }
}

/// A packet read to the end gives exactly as many tags as its count
/// announces.
pub proof fn law_complete_read_gives_count_tags(d: Seq<u8>)
    requires
        spec_read(d).1 == Outcome::Complete,
    ensures
        spec_read(d).0.len() == le_u32(d.skip(4 + le_u32(d) as int)),
{
    let size = le_u32(d) as int;
    lemma_complete_walk_length(d.skip(8 + size), le_u32(d.skip(4 + size)));
}

/// Whether a whole comment (its length and that many bytes) stands at the
/// front of `x`.
pub open spec fn fits(x: Seq<u8>) -> bool {
    x.len() >= 4 && x.len() >= 4 + le_u32(x)
}

/// Whether the first `=` of `x` lies inside the text of the comment at its
/// front.
pub open spec fn sliceable(x: Seq<u8>) -> bool {
    4 <= equals_position(x) < 4 + le_u32(x)
}

/// What is left of `d` after its first `k` comments.
pub open spec fn after(d: Seq<u8>, k: nat) -> Seq<u8>
    decreases k,
{
    if k == 0 {
        d
    } else {
        after(d.skip(4 + le_u32(d) as int), (k - 1) as nat)
    }
}

/// Whether the first `k` comments of `d` stand whole.
pub open spec fn prefix_fits(d: Seq<u8>, k: nat) -> bool {
    forall|j: nat| j < k ==> fits(#[trigger] after(d, j))
}

/// Whether every comment among the first `n` that is reached and stands
/// whole has its `=` inside its text.
pub open spec fn reached_sliceable(d: Seq<u8>, n: nat) -> bool {
    forall|j: nat| j < n && prefix_fits(d, j) && fits(#[trigger] after(d, j)) ==> sliceable(after(d, j))
}

/// Whether one of the first `n` comments is cut: the comments before it
/// stand whole and it does not.
pub open spec fn cut_within(d: Seq<u8>, n: nat) -> bool {
    exists|k: nat| k < n && prefix_fits(d, k) && !fits(#[trigger] after(d, k))
}

/// The comments after the first are those of the rest.
proof fn lemma_after_shift(d: Seq<u8>, j: nat)
    ensures
        after(d, j + 1) == after(d.skip(4 + le_u32(d) as int), j),
{
}

/// A walk over comments cut inside comment `k`: the tags of the comments
/// before the cut are given, and the walk is rejected.
proof fn lemma_cut_keeps_earlier_tags(d: Seq<u8>, n: nat, k: nat)
    requires
        k < n,
        prefix_fits(d, k),
        forall|j: nat| j < k ==> sliceable(#[trigger] after(d, j)),
        !fits(after(d, k)),
    ensures
        comments(d, k).1 == Outcome::Complete,
        comments(d, k).0.len() == k,
        comments(d, n) == (comments(d, k).0, Outcome::Rejected),
    decreases k,
{
    if k == 0 {
        assert(comments(d, 0).0 =~= Seq::<TagView>::empty());
    } else {
        assert(fits(after(d, 0)));
        assert(sliceable(after(d, 0)));
        let rest = d.skip(4 + le_u32(d) as int);
        assert forall|j: nat| j < (k - 1) as nat implies fits(#[trigger] after(rest, j)) by {
            lemma_after_shift(d, j);
            assert(fits(after(d, j + 1)));
        }
        assert forall|j: nat| j < (k - 1) as nat implies sliceable(#[trigger] after(rest, j)) by {
            lemma_after_shift(d, j);
            assert(sliceable(after(d, j + 1)));
        }
        lemma_after_shift(d, (k - 1) as nat);
        lemma_cut_keeps_earlier_tags(rest, (n - 1) as nat, (k - 1) as nat);
    }
}

/// With every reached whole comment holding its `=` inside its text, the
/// walk over `n` comments is rejected exactly when one of them is cut, and
/// reads them all otherwise.
proof fn lemma_rejected_exactly_when_cut(d: Seq<u8>, n: nat)
    requires
        reached_sliceable(d, n),
    ensures
        comments(d, n).1 == Outcome::Rejected <==> cut_within(d, n),
        comments(d, n).1 == Outcome::Complete <==> !cut_within(d, n),
    decreases n,
{
    if n == 0 {
        assert(!cut_within(d, n));
    } else if !fits(d) {
        assert(after(d, 0) == d);
        assert(prefix_fits(d, 0));
        assert(cut_within(d, n));
    } else {
        assert(after(d, 0) == d);
        assert(prefix_fits(d, 0));
        assert(sliceable(d));
        let rest = d.skip(4 + le_u32(d) as int);
        let m = (n - 1) as nat;
        assert forall|j: nat| j < m && prefix_fits(rest, j) && fits(
            #[trigger] after(rest, j),
        ) implies sliceable(after(rest, j)) by {
            lemma_after_shift(d, j);
            assert forall|i: nat| i < j + 1 implies fits(#[trigger] after(d, i)) by {
                if i > 0 {
                    lemma_after_shift(d, (i - 1) as nat);
                    assert(fits(after(rest, (i - 1) as nat)));
                }
            }
            assert(prefix_fits(d, j + 1));
        }
        lemma_rejected_exactly_when_cut(rest, m);
        if cut_within(rest, m) {
            let k = choose|k: nat| k < m && prefix_fits(rest, k) && !fits(#[trigger] after(rest, k));
            lemma_after_shift(d, k);
            assert forall|i: nat| i < k + 1 implies fits(#[trigger] after(d, i)) by {
                if i > 0 {
                    lemma_after_shift(d, (i - 1) as nat);
                    assert(fits(after(rest, (i - 1) as nat)));
                }
            }
            assert(prefix_fits(d, k + 1));
            assert(!fits(after(d, k + 1)));
            assert(cut_within(d, n));
        }
        if cut_within(d, n) {
            let k = choose|k: nat| k < n && prefix_fits(d, k) && !fits(#[trigger] after(d, k));
            assert(k != 0);
            let k1 = (k - 1) as nat;
            lemma_after_shift(d, k1);
            assert forall|i: nat| i < k1 implies fits(#[trigger] after(rest, i)) by {
                lemma_after_shift(d, i);
                assert(fits(after(d, i + 1)));
            }
            assert(prefix_fits(rest, k1));
            assert(!fits(after(rest, k1)));
            assert(cut_within(rest, m));
        }
    }
}

/// Whether the vendor string and the comment count of a packet stand whole.
pub open spec fn header_fits(d: Seq<u8>) -> bool {
    d.len() >= 4 && d.len() >= 8 + le_u32(d)
}

/// The comments of a packet: what follows its vendor string and count.
pub open spec fn body(d: Seq<u8>) -> Seq<u8> {
    d.skip(8 + le_u32(d) as int)
}

/// The number of comments a packet announces.
pub open spec fn count(d: Seq<u8>) -> nat {
    le_u32(d.skip(4 + le_u32(d) as int))
}

/// A packet cut inside comment `k` keeps the tags read before the cut:
/// where the vendor string, the count and the first `k` comments stand
/// whole, each with its `=` inside its text, and comment `k` runs past the
/// end, reading gives the tags of the first `k` comments and is rejected,
/// so [`get`] appends those `k` tags and gives `Error::Metadata`.
pub proof fn law_cut_keeps_earlier_tags(d: Seq<u8>, k: nat)
    requires
        header_fits(d),
        k < count(d),
        prefix_fits(body(d), k),
        forall|j: nat| j < k ==> sliceable(#[trigger] after(body(d), j)),
        !fits(after(body(d), k)),
    ensures
        spec_read(d) == (comments(body(d), k).0, Outcome::Rejected),
        comments(body(d), k).1 == Outcome::Complete,
        comments(body(d), k).0.len() == k,
{
    lemma_cut_keeps_earlier_tags(body(d), count(d), k);
}

/// A packet is rejected exactly when a length runs past its end: where
/// every comment that is reached and stands whole has its `=` inside its
/// text, reading is rejected exactly when the vendor string or the count is
/// cut or one of the announced comments is, and reads every comment
/// otherwise.
pub proof fn law_rejected_exactly_when_cut(d: Seq<u8>)
    requires
        header_fits(d) ==> reached_sliceable(body(d), count(d)),
    ensures
        spec_read(d).1 == Outcome::Rejected <==> (!header_fits(d) || cut_within(body(d), count(d))),
        spec_read(d).1 == Outcome::Complete <==> (header_fits(d) && !cut_within(body(d), count(d))),
{
    if header_fits(d) {
        lemma_rejected_exactly_when_cut(body(d), count(d));
    }
}

/// A comment as plain values: its four length bytes and its text.
pub type CommentView = (Seq<u8>, Seq<u8>);

/// The bytes of a sequence of comments, one after the other.
pub open spec fn encode_comments(cs: Seq<CommentView>) -> Seq<u8>
    decreases cs.len(),
{
    if cs.len() == 0 {
        Seq::empty()
    } else {
        cs[0].0 + cs[0].1 + encode_comments(cs.drop_first())
    }
}

/// Whether a comment stands whole with its `=` inside its text: four
/// length bytes, none of them `=`, that hold the length of the text, and a
/// text holding `=`.
pub open spec fn comment_well_formed(c: CommentView) -> bool {
    &&& c.0.len() == 4
    &&& le_u32(c.0) == c.1.len()
    &&& forall|i: int| 0 <= i < 4 ==> c.0[i] != EQUALS
    &&& first_index(c.1, EQUALS) < c.1.len()
}

/// The tag of a comment's text: its name before the first `=` and its
/// value after it, each decoded as UTF-8 with invalid sequences replaced.
pub open spec fn comment_tag(text: Seq<u8>) -> TagView {
    let e = first_index(text, EQUALS);
    (lossy_utf8(text.take(e)), lossy_utf8(text.subrange(e + 1, text.len() as int)))
}

/// The tags of a sequence of comments, one per comment, in order.
pub open spec fn comment_tags(cs: Seq<CommentView>) -> Seq<TagView> {
    cs.map_values(|c: CommentView| comment_tag(c.1))
}

/// What the search for the first byte `b` from `i` finds: no `b` before
/// the result, and `b` at it unless it is the end.
proof fn lemma_first_index_props(d: Seq<u8>, b: u8, i: int)
    requires
        0 <= i <= d.len(),
    ensures
        i <= first_index_from(d, b, i) <= d.len(),
        forall|k: int| i <= k < first_index_from(d, b, i) ==> d[k] != b,
        first_index_from(d, b, i) < d.len() ==> d[first_index_from(d, b, i)] == b,
    decreases d.len() - i,
{
    if i < d.len() && d[i] != b {
        lemma_first_index_props(d, b, i + 1);
    }
}

/// The search for `b` from `i` stops at `j` where `b` stands at `j` and
/// nowhere from `i` to `j`.
proof fn lemma_first_index_at(d: Seq<u8>, b: u8, i: int, j: int)
    requires
        0 <= i <= j < d.len(),
        d[j] == b,
        forall|k: int| i <= k < j ==> d[k] != b,
    ensures
        first_index_from(d, b, i) == j,
    decreases j - i,
{
    if i < j {
        lemma_first_index_at(d, b, i + 1, j);
    }
}

/// Reading `n` whole comments, each with its `=` inside its text, gives
/// one tag per comment, in order, whatever follows them.
proof fn lemma_comments_whole(cs: Seq<CommentView>, rest: Seq<u8>)
    requires
        forall|i: int| 0 <= i < cs.len() ==> comment_well_formed(#[trigger] cs[i]),
    ensures
        comments(encode_comments(cs) + rest, cs.len()) == (comment_tags(cs), Outcome::Complete),
    decreases cs.len(),
{
    let d = encode_comments(cs) + rest;
    if cs.len() == 0 {
        assert(comment_tags(cs) =~= Seq::<TagView>::empty());
    } else {
        let c = cs[0];
        assert(comment_well_formed(c));
        let more = cs.drop_first();
        let after = encode_comments(more) + rest;
        assert(d =~= c.0 + c.1 + after);
        assert(forall|k: int| 0 <= k < 4 ==> d[k] == c.0[k]);
        assert(le_u32(d) == le_u32(c.0));
        let end = 4 + c.1.len() as int;
        let e = first_index(c.1, EQUALS);
        lemma_first_index_props(c.1, EQUALS, 0);
        assert forall|k: int| 0 <= k < 4 + e implies d[k] != EQUALS by {
            if k >= 4 {
                assert(d[k] == c.1[k - 4]);
            }
        }
        assert(d[4 + e] == c.1[e]);
        lemma_first_index_at(d, EQUALS, 0, 4 + e);
        assert(equals_position(d) == 4 + e);
        assert(d.subrange(4, 4 + e) =~= c.1.take(e));
        assert(d.subrange(4 + e + 1, end) =~= c.1.subrange(e + 1, c.1.len() as int));
        assert(d.skip(end) =~= after);
        assert forall|i: int| 0 <= i < more.len() implies comment_well_formed(#[trigger] more[i]) by {
            assert(more[i] == cs[i + 1]);
        }
        lemma_comments_whole(more, rest);
        assert(comment_tags(cs) =~= seq![comment_tag(c.1)] + comment_tags(more));
    }
}

/// A packet of whole comments gives one tag per comment: where the vendor
/// string and the count stand whole (four length bytes holding the vendor
/// string's length, four count bytes holding the number of comments) and
/// every comment stands whole with its `=` inside its text, reading gives,
/// in order, each comment's name before its first `=` and its value after
/// it, and completes, whatever follows the comments; so [`get`] appends
/// those tags, keeps what `metadata` held, and gives `Ok`.
pub proof fn law_packet_gives_comment_tags(
    vendor_length: Seq<u8>,
    vendor: Seq<u8>,
    count_bytes: Seq<u8>,
    cs: Seq<CommentView>,
    rest: Seq<u8>,
)
    requires
        vendor_length.len() == 4,
        le_u32(vendor_length) == vendor.len(),
        count_bytes.len() == 4,
        le_u32(count_bytes) == cs.len(),
        forall|i: int| 0 <= i < cs.len() ==> comment_well_formed(#[trigger] cs[i]),
    ensures
        spec_read(vendor_length + vendor + count_bytes + encode_comments(cs) + rest) == (
            comment_tags(cs),
            Outcome::Complete,
        ),
{
    let d = vendor_length + vendor + count_bytes + encode_comments(cs) + rest;
    let size = vendor.len() as int;
    assert(forall|k: int| 0 <= k < 4 ==> d[k] == vendor_length[k]);
    assert(le_u32(d) == vendor.len());
    let counted = d.skip(4 + size);
    assert(forall|k: int| 0 <= k < 4 ==> counted[k] == count_bytes[k]);
    assert(le_u32(counted) == cs.len());
    assert(d.skip(8 + size) =~= encode_comments(cs) + rest);
    lemma_comments_whole(cs, rest);
}

} // verus!
