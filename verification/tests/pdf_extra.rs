use numeta::error::Error;
use numeta::pdf::get;
use numeta::pdf_syntax::{read_dict, read_value, PdfValue};
use numeta::tag::Tag;

fn tag(name: &str, value: &str) -> Tag {
    Tag { name: name.to_string(), value: value.to_string() }
}

#[test]
fn pdf_without_startxref_is_file_error() {
    assert_eq!(get(b"%PDF-1.0\n%%EOF"), Err(Error::File));
}

#[test]
fn pdf_offset_past_end_is_file_error() {
    assert_eq!(get(b"%PDF-1.0\nstartxref\n9999\n%%EOF"), Err(Error::File));
}

#[test]
fn pdf_malformed_trailer_is_metadata_error() {
    assert_eq!(get(b"%PDF-1.0\nxref\ntrailer<</Size 4\nstartxref\n9\n%%EOF"), Err(Error::Metadata));
}

#[test]
fn pdf_info_strings_with_escapes_and_hex() {
    let doc = b"%PDF-1.0\n1 0 obj<</Title(a\\(b\\)\\101)/Author<4142>/Trapped/False/Count 3>>endobj\nxref\ntrailer<</Info 1 0 R>>\nstartxref\n80\n%%EOF";
    assert_eq!(
        get(doc),
        Ok(vec![tag("Title", "a(b)A"), tag("Author", "AB"), tag("Trapped", "False")])
    );
}

#[test]
fn pdf_stream_length_by_reference() {
    let doc = b"%PDF-1.4\n1 0 obj<</Metadata 2 0 R>>endobj\n2 0 obj<</Length 3 0 R>>stream\n<t>v</t>\nendstream endobj\n3 0 obj 8 endobj\nxref\ntrailer<</Root 1 0 R>>\nstartxref\n116\n%%EOF";
    assert_eq!(get(doc), Ok(vec![tag("t", "v")]));
}

#[test]
fn read_value_kinds() {
    assert_eq!(read_value(b"/Name rest", 0), Some((PdfValue::Name(b"Name".to_vec()), 5)));
    assert_eq!(read_value(b"12 0 R", 0), Some((PdfValue::Ref(12, 0), 6)));
    assert_eq!(read_value(b"12 0 obj", 0), Some((PdfValue::Int(12), 2)));
    assert_eq!(read_value(b"[1 [2] <</A 3>>]x", 0), Some((PdfValue::Other, 16)));
    assert_eq!(read_value(b"(a(b)c)", 0), Some((PdfValue::Str(b"a(b)c".to_vec()), 7)));
    assert_eq!(read_value(b"<414>", 0), Some((PdfValue::Str(vec![0x41, 0x40]), 5)));
    assert_eq!(read_value(b")", 0), None);
}

#[test]
fn read_dict_entries() {
    let (entries, end) = read_dict(b"<< /A 1 /B (x) >>", 0).unwrap();
    assert_eq!(end, 17);
    assert_eq!(entries.len(), 2);
    assert_eq!(entries[0].key, b"A".to_vec());
    assert_eq!(entries[0].value, PdfValue::Int(1));
    assert_eq!(entries[1].value, PdfValue::Str(b"x".to_vec()));
    assert_eq!(read_dict(b"<< 1 2 >>", 0), None);
}

#[test]
fn pdf_filtered_metadata_stream_is_not_read() {
    let doc = b"%PDF-1.4\n1 0 obj<</Metadata 2 0 R>>endobj\n2 0 obj<</Length 8/Filter/FlateDecode>>stream\n<t>v</t>\nendstream endobj\nxref\ntrailer<</Root 1 0 R>>\nstartxref\n114\n%%EOF";
    assert_eq!(get(doc), Ok(vec![]));
}
