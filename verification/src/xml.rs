use vstd::prelude::*;
use crate::bytes::{find_byte, first_index};
use crate::tag::{decode_lossy, lossy_utf8};

verus! {

/// The byte `:` that parts a namespace prefix from a local name.
pub const COLON: u8 = 0x3A;

/// The local part of a qualified XML name: what follows its first `:`, or
/// the whole name where it has none.
pub open spec fn local_part(name: Seq<u8>) -> Seq<u8> {
    let p = first_index(name, COLON);
    if p < name.len() {
        name.skip(p + 1)
    } else {
        name
    }
}

/// The namespace prefix of a qualified XML name: what precedes its first
/// `:`, where it has one.
pub open spec fn prefix_part(name: Seq<u8>) -> Option<Seq<u8>> {
    let p = first_index(name, COLON);
    if p < name.len() {
        Some(name.take(p))
    } else {
        None
    }
}

/// Splits a qualified XML name into its local part and its prefix.
pub fn split_name(name: &[u8]) -> (r: (&[u8], Option<&[u8]>))
    ensures
        r.0@ == local_part(name@),
        match r.1 {
            Some(p) => prefix_part(name@) == Some(p@),
            None => prefix_part(name@) is None,
        },
{
    let p = find_byte(name, COLON);
    if p < name.len() {
        let local = &name[p + 1..name.len()];
        let prefix = &name[0..p];
        assert(local@ =~= name@.skip(p + 1));
        assert(prefix@ =~= name@.take(p as int));
        (local, Some(prefix))
    } else {
        (name, None)
    }
}

/// A qualified XML name as text: its local name and, where it has one, its
/// namespace prefix.
pub fn parse_name(name: &[u8]) -> (r: (String, Option<String>))
    ensures
        r.0@ == lossy_utf8(local_part(name@)),
        match r.1 {
            Some(p) => prefix_part(name@) matches Some(q) && p@ == lossy_utf8(q),
            None => prefix_part(name@) is None,
        },
{
    let (local, prefix) = split_name(name);
    let local = decode_lossy(local);
    match prefix {
        Some(p) => (local, Some(decode_lossy(p))),
        None => (local, None),
    }
}

} // verus!
