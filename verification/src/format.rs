use vstd::prelude::*;
use crate::pdf_syntax::bytes_at;

verus! {

/// The kinds of file whose metadata the library reads.
#[derive(Debug, Clone, Copy, PartialEq, Eq, Structural)]
pub enum Format {
    Flac,
    Pdf,
}

/// The marker that opens a FLAC stream, `fLaC`.
pub open spec fn flac_marker() -> Seq<u8> {
    seq![102u8, 76u8, 97u8, 67u8]
}

/// The header that opens a PDF document, `%PDF-`.
pub open spec fn pdf_marker() -> Seq<u8> {
    seq![37u8, 80u8, 68u8, 70u8, 45u8]
}

/// The format that the first bytes of a file announce.
pub open spec fn spec_guess(data: Seq<u8>) -> Option<Format> {
    if bytes_at(data, 0, flac_marker()) {
        Some(Format::Flac)
    } else if bytes_at(data, 0, pdf_marker()) {
        Some(Format::Pdf)
    } else {
        None
    }
}

/// Tells the format of a file from its first bytes: `fLaC` for FLAC,
/// `%PDF-` for PDF.
pub fn guess(data: &[u8]) -> (f: Option<Format>)
    ensures
        f == spec_guess(data@),
{
    let flac = [102u8, 76u8, 97u8, 67u8];
    assert(flac@ =~= flac_marker());
    let pdf = [37u8, 80u8, 68u8, 70u8, 45u8];
    assert(pdf@ =~= pdf_marker());
    if crate::pdf_syntax::matches_at(data, 0, flac.as_slice()) {
        Some(Format::Flac)
    } else if crate::pdf_syntax::matches_at(data, 0, pdf.as_slice()) {
        Some(Format::Pdf)
    } else {
        None
    }
}

/// The format is told by the leading bytes alone: a file that begins with
/// `fLaC` is FLAC and one that begins with `%PDF-` is PDF, whatever
/// follows; any other file has no format.
pub proof fn law_format_from_leading_bytes(d: Seq<u8>)
    ensures
        (d.len() >= 4 && d[0] == 102u8 && d[1] == 76u8 && d[2] == 97u8 && d[3] == 67u8)
            ==> spec_guess(d) == Some(Format::Flac),
        (d.len() >= 5 && d[0] == 37u8 && d[1] == 80u8 && d[2] == 68u8 && d[3] == 70u8 && d[4]
            == 45u8) ==> spec_guess(d) == Some(Format::Pdf),
        !(d.len() >= 4 && d[0] == 102u8 && d[1] == 76u8 && d[2] == 97u8 && d[3] == 67u8) && !(
        d.len() >= 5 && d[0] == 37u8 && d[1] == 80u8 && d[2] == 68u8 && d[3] == 70u8 && d[4]
            == 45u8) ==> spec_guess(d) is None,
{
    if d.len() >= 4 && d[0] == 102u8 && d[1] == 76u8 && d[2] == 97u8 && d[3] == 67u8 {
        assert(d.subrange(0, 4) =~= flac_marker());
    }
    if d.len() >= 5 && d[0] == 37u8 && d[1] == 80u8 && d[2] == 68u8 && d[3] == 70u8 && d[4] == 45u8 {
        assert(d.subrange(0, 5) =~= pdf_marker());
        assert(d.subrange(0, 4) != flac_marker()) by {
            assert(d.subrange(0, 4)[0] != flac_marker()[0]);
        }
    }
    if bytes_at(d, 0, flac_marker()) {
        assert(d.subrange(0, 4)[0] == d[0]);
        assert(d.subrange(0, 4)[1] == d[1]);
        assert(d.subrange(0, 4)[2] == d[2]);
        assert(d.subrange(0, 4)[3] == d[3]);
    }
    if bytes_at(d, 0, pdf_marker()) {
        assert(d.subrange(0, 5)[0] == d[0]);
        assert(d.subrange(0, 5)[1] == d[1]);
        assert(d.subrange(0, 5)[2] == d[2]);
        assert(d.subrange(0, 5)[3] == d[3]);
        assert(d.subrange(0, 5)[4] == d[4]);
    }
}

/// Appending bytes to a file does not change its format where it has one:
/// the format depends on the leading bytes only.
pub proof fn law_format_ignores_later_bytes(d: Seq<u8>, e: Seq<u8>)
    requires
        spec_guess(d) is Some,
    ensures
        spec_guess(d + e) == spec_guess(d),
{
    law_format_from_leading_bytes(d);
    law_format_from_leading_bytes(d + e);
}

} // verus!
