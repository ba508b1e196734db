use vstd::prelude::*;
use vstd::utf8::{decode_utf8, valid_utf8};

verus! {

/// One piece of metadata: a field name and its value.
#[derive(Debug, Clone, PartialEq, Eq)]
pub struct Tag {
    pub name: String,
    pub value: String,
}

/// A tag as the characters of its name and of its value.
pub type TagView = (Seq<char>, Seq<char>);

impl View for Tag {
    type V = TagView;

    open spec fn view(&self) -> TagView {
        (self.name@, self.value@)
    }
}

/// The views of a sequence of tags.
pub open spec fn tag_views(tags: Seq<Tag>) -> Seq<TagView> {
    tags.map_values(|t: Tag| t@)
}

/// What `String::from_utf8_lossy` makes of `bytes`: the decoded characters,
/// each invalid sequence replaced by U+FFFD.
pub uninterp spec fn lossy_utf8(bytes: Seq<u8>) -> Seq<char>;

/// Calls `String::from_utf8_lossy` and takes the result as an owned string.
/// The contract claims that the result is [`lossy_utf8`] of the bytes, and,
/// as the documentation says, that valid UTF-8 is decoded unchanged.
#[verifier::external_body]
pub(crate) fn decode_lossy(bytes: &[u8]) -> (s: String)
    ensures
        s@ == lossy_utf8(bytes@),
        valid_utf8(bytes@) ==> s@ == decode_utf8(bytes@),
{
    String::from_utf8_lossy(bytes).into_owned()
}

/// Appending one tag to a vector appends its view to the views.
pub proof fn lemma_tag_views_push(tags: Seq<Tag>, t: Tag)
    ensures
        tag_views(tags.push(t)) == tag_views(tags).push(t@),
{
    assert(tag_views(tags.push(t)) =~= tag_views(tags).push(t@));
}

} // verus!
