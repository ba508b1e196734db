use numeta::pdf::get;
use numeta::tag::Tag;

fn tag(name: &str, value: &str) -> Tag {
    Tag { name: name.to_string(), value: value.to_string() }
}

const BASIC: &[u8] = b"%PDF-1.0
1 0 obj<</Type/Catalog/Pages 2 0 R>>endobj
2 0 obj<</Type/Pages/Count 1/Kids[3 0 R]/MediaBox[0 0 595 842]>>endobj
3 0 obj<</Type/Page/Parent 2 0 R/Resources<<>>>>endobj
xref
0 4
0000000000 65535 f \n\
0000000009 00000 n \n\
0000000052 00000 n \n\
0000000123 00000 n \n\
trailer<</Root 1 0 R/Size 4>>
startxref
178
%%EOF";

const FREE_OBJECT: &[u8] = b"%PDF-1.0
1 0 obj<</Type/Catalog/Pages 2 0 R>>endobj
2 0 obj<</Type/Pages/Count 1/Kids[4 0 R]/MediaBox[0 0 595 842]>>endobj
3 0 obj<</Type/Page/Parent 2 0 R/Resources<<>>>>endobj
4 0 obj<</Type/Page/Parent 2 0 R/Resources<<>>>>endobj
xref
0 5
0000000003 65535 f \n\
0000000009 00000 n \n\
0000000052 00000 n \n\
0000000000 00001 f \n\
0000000178 00000 n \n\
trailer<</Root 1 0 R/Size 5>>
startxref
233
%%EOF";

const UNREFERENCED_OBJECT: &[u8] = b"%PDF-1.0
1 0 obj<</Type/Catalog/Pages 2 0 R>>endobj
2 0 obj<</Type/Pages/Count 1/Kids[3 0 R]/MediaBox[0 0 595 842]>>endobj
3 0 obj<</Type/Page/Parent 2 0 R/Resources<<>>>>endobj
4 0 obj<</Type/Page/Parent 2 0 R/Resources<<>>>>endobj
xref
0 5
0000000000 65535 f \n\
0000000009 00000 n \n\
0000000052 00000 n \n\
0000000123 00000 n \n\
0000000178 00000 n \n\
trailer<</Root 1 0 R/Size 5>>
startxref
233
%%EOF";

const UNKNOWN_DATA: &[u8] = b"%PDF-1.0
1 0 obj<</Type/Catalog/Pages 2 0 R>>endobj
2 0 obj<</Type/Pages/Count 1/Kids[3 0 R]/MediaBox[0 0 595 842]>>endobj
3 0 obj<</Type/Page/Parent 2 0 R/Resources<<>>>>endobj
xref
0 4
0000000000 65535 f \n\
0000000009 00000 n \n\
0000000052 00000 n \n\
0000000123 00000 n \n\
trailer<</Root 1 0 R/Size 4>>????
startxref
178
%%EOF";

const COMMENTS: &[u8] = b"%PDF-1.7
% Just a regular comment
1 0 obj<</Type/Catalog/Pages 2 0 R>>endobj %catalog
2 0 obj<</Type/Pages/Count 1/Kids[3 0 R]/MediaBox[0 0 595 842]>>endobj% pages
3 0 obj<</Type/Page/Parent 2 0 R/Resources<<>>>>endobj%page \n\
xref
0 4
0000000000 65535 f \n\
0000000034 00000 n \n\
0000000086 00000 n \n\
0000000164 00000 n \n\
trailer<</Root 1 0 R/Size 4>>
startxref
225
%%EOF";

const BINARY_COMMENT: &[u8] = b"%PDF-1.7
%\x80\x80\x80\x80
1 0 obj<</Type/Catalog/Pages 2 0 R>>endobj
2 0 obj<</Type/Pages/Count 1/Kids[3 0 R]/MediaBox[0 0 595 842]>>endobj
3 0 obj<</Type/Page/Parent 2 0 R/Resources<<>>>>endobj
xref
0 4
0000000000 65535 f \n\
0000000015 00000 n \n\
0000000058 00000 n \n\
0000000129 00000 n \n\
trailer<</Root 1 0 R/Size 4>>
startxref
184
%%EOF";

const BINARY_COMMENT_ASCII: &[u8] = b"%PDF-1.7
% \x80\x80\x80\x80
1 0 obj<</Type/Catalog/Pages 2 0 R>>endobj
2 0 obj<</Type/Pages/Count 1/Kids[3 0 R]/MediaBox[0 0 595 842]>>endobj
3 0 obj<</Type/Page/Parent 2 0 R/Resources<<>>>>endobj
xref
0 4
0000000000 65535 f \n\
0000000016 00000 n \n\
0000000059 00000 n \n\
0000000130 00000 n \n\
trailer<</Root 1 0 R/Size 4>>
startxref
185
%%EOF";

const CROSS_REFERENCE_STREAM: &[u8] = b"%PDF-1.5
1 0 obj<</Type/Catalog/Pages 2 0 R>>endobj
2 0 obj<</Type/Pages/Count 1/Kids[3 0 R]/MediaBox[0 0 595 842]>>endobj
3 0 obj<</Type/Page/Parent 2 0 R/Resources<<>>>>endobj
4 0 obj<</Type/XRef/Index[1 3]/W[1 1 1]/Root 1 0 R/Size 4/Length 9>>stream
\x01\x09\x00\x01\x34\x00\x01\x7B\x00endstream
endobj
startxref
178
%%EOF";

const OBJECT_STREAM: &[u8] = b"%PDF-1.5
1 0 obj<</Type/Catalog/Pages 2 0 R>>endobj
2 0 obj<</Type/Pages/Count 1/Kids[4 0 R]/MediaBox[0 0 595 842]>>endobj
3 0 obj<</Type/ObjStm/First 3/N 1/Length 44>>stream
4 0<</Type/Page/Parent 2 0 R/Resources<<>>>>endstream
endobj
5 0 obj<</Type/XRef/Index[1 4]/W[1 1 1]/Root 1 0 R/Size 5/Length 12>>stream
\x01\x09\x00\x01\x34\x00\x01\x7B\x00\x02\x03\x03endstream
endobj
startxref
236
%%EOF";

const CHECKSUM: &[u8] = b"%PDF-1.0
1 0 obj<</Type/Catalog/Pages 2 0 R>>endobj
2 0 obj<</Type/Pages/Count 1/Kids[3 0 R]/MediaBox[0 0 595 842]>>endobj
3 0 obj<</Type/Page/Parent 2 0 R/Resources<<>>>>endobj
xref
0 4
0000000000 65535 f \n\
0000000009 00000 n \n\
0000000052 00000 n \n\
0000000123 00000 n \n\
trailer<</Root 1 0 R/Size 4/DocChecksum/B224C4CB2C001E84531B12645C5A81CA>>
startxref
178
%%EOF";

const ID: &[u8] = b"%PDF-1.0
1 0 obj<</Type/Catalog/Pages 2 0 R>>endobj
2 0 obj<</Type/Pages/Count 1/Kids[3 0 R]/MediaBox[0 0 595 842]>>endobj
3 0 obj<</Type/Page/Parent 2 0 R/Resources<<>>>>endobj
xref
0 4
0000000000 65535 f \n\
0000000009 00000 n \n\
0000000052 00000 n \n\
0000000123 00000 n \n\
trailer<</Root 1 0 R/Size 4/ID[<5D3463C1B9E9768F6EE333BE501D23E2><5D3463C1B9E9768F6EE333BE501D23E2>]>>
startxref
178
%%EOF";

const INFO: &[u8] = b"%PDF-1.0
1 0 obj<</Creator(LibreOffice 20.0)>>endobj
2 0 obj<</Type/Catalog/Pages 3 0 R>>endobj
3 0 obj<</Type/Pages/Count 1/Kids[4 0 R]/MediaBox[0 0 595 842]>>endobj
4 0 obj<</Type/Page/Parent 3 0 R/Resources<<>>>>endobj
xref
0 5
0000000000 65535 f \n\
0000000009 00000 n \n\
0000000053 00000 n \n\
0000000096 00000 n \n\
0000000167 00000 n \n\
trailer<</Root 2 0 R/Size 5/Info 1 0 R>>
startxref
222
%%EOF";

const INFO_DEPRECATED: &[u8] = b"%PDF-2.0
1 0 obj<</Creator(LibreOffice 20.0)>>endobj
2 0 obj<</Type/Catalog/Pages 3 0 R>>endobj
3 0 obj<</Type/Pages/Count 1/Kids[4 0 R]/MediaBox[0 0 595 842]>>endobj
4 0 obj<</Type/Page/Parent 3 0 R/Resources<<>>>>endobj
xref
0 5
0000000000 65535 f \n\
0000000009 00000 n \n\
0000000053 00000 n \n\
0000000096 00000 n \n\
0000000167 00000 n \n\
trailer<</Root 2 0 R/Size 5/Info 1 0 R>>
startxref
222
%%EOF";

const SIGNATURE: &[u8] = b"%PDF-1.0
1 0 obj<</Type/Catalog/Pages 2 0 R>>endobj
2 0 obj<</Type/Pages/Count 1/Kids[3 0 R]/MediaBox[0 0 595 842]>>endobj
3 0 obj<</Type/Page/Parent 2 0 R/Resources<<>>>>endobj
4 0 obj<</Type/Sig/Filter/Adobe.PPKLite/SubFilter/adbe.pkcs7.detached/Contents<E1A9DE5DC7F97CC18CADE55D04EA0B3DD52AC4F0>>>endobj
xref
0 5
0000000000 65535 f \n\
0000000009 00000 n \n\
0000000052 00000 n \n\
0000000123 00000 n \n\
0000000178 00000 n \n\
trailer<</Root 1 0 R/Size 5>>
startxref
307
%%EOF";

const XMP: &[u8] = b"%PDF-1.4
1 0 obj<</Type/Catalog/Pages 2 0 R/Metadata 4 0 R>>endobj
2 0 obj<</Type/Pages/Count 1/Kids[3 0 R]/MediaBox[0 0 595 842]>>endobj
3 0 obj<</Type/Page/Parent 2 0 R/Resources<<>>>>endobj
4 0 obj<</Type/Metadata/Subtype/XML/Length 258>>stream
<?xml version=\"1.0\" encoding=\"UTF-8\"?>
<xmpmeta xmlns:x=\"adobe:ns:meta/\">
<rdf:RDF xmlns:rdf=\"http://www.w3.org/1999/02/22-rdf-syntax-ns#\">
<rdf:Description rdf:about=\"\">
<pdf:Producer>LibreOffice 20.0</pdf:Producer>
</rdf:Description>
</rdf:RDF>
</xmpmeta>
endstream
endobj
xref
0 5
0000000000 65535 f \n\
0000000009 00000 n \n\
0000000067 00000 n \n\
0000000138 00000 n \n\
0000000193 00000 n \n\
trailer<</Root 1 0 R/Size 5>>
startxref
523
%%EOF";

const OBJECT_METADATA: &[u8] = b"%PDF-1.4
1 0 obj<</Type/Catalog/Pages 2 0 R>>endobj
2 0 obj<</Type/Pages/Count 1/Kids[3 0 R]/MediaBox[0 0 595 842]>>endobj
3 0 obj<</Type/Page/Parent 2 0 R/Resources<<>>/Metadata 4 0 R>>endobj
4 0 obj<</Type/Metadata/Subtype/XML/Length 258>>stream
<?xml version=\"1.0\" encoding=\"UTF-8\"?>
<xmpmeta xmlns:x=\"adobe:ns:meta/\">
<rdf:RDF xmlns:rdf=\"http://www.w3.org/1999/02/22-rdf-syntax-ns#\">
<rdf:Description rdf:about=\"\">
<pdf:Producer>LibreOffice 20.0</pdf:Producer>
</rdf:Description>
</rdf:RDF>
</xmpmeta>
endstream
endobj
xref
0 5
0000000000 65535 f \n\
0000000009 00000 n \n\
0000000052 00000 n \n\
0000000123 00000 n \n\
0000000179 00000 n \n\
trailer<</Root 1 0 R/Size 5>>
startxref
523
%%EOF";

const DETACHED_METADATA: &[u8] = b"%PDF-1.4
1 0 obj<</Type/Catalog/Pages 2 0 R>>endobj
2 0 obj<</Type/Pages/Count 1/Kids[3 0 R]/MediaBox[0 0 595 842]>>endobj
3 0 obj<</Type/Page/Parent 2 0 R/Resources<<>>>>endobj
4 0 obj<</Type/Metadata/Subtype/XML/Length 258>>stream
<?xml version=\"1.0\" encoding=\"UTF-8\"?>
<xmpmeta xmlns:x=\"adobe:ns:meta/\">
<rdf:RDF xmlns:rdf=\"http://www.w3.org/1999/02/22-rdf-syntax-ns#\">
<rdf:Description rdf:about=\"\">
<pdf:Producer>LibreOffice 20.0</pdf:Producer>
</rdf:Description>
</rdf:RDF>
</xmpmeta>
endstream
endobj
xref
0 5
0000000000 65535 f \n\
0000000009 00000 n \n\
0000000052 00000 n \n\
0000000123 00000 n \n\
0000000164 00000 n \n\
trailer<</Root 1 0 R/Size 5>>
startxref
508
%%EOF";

#[test]
fn get_basic() {
    assert_eq!(get(BASIC), Ok(vec![]));
}

#[test]
fn get_free_object() {
    assert_eq!(get(FREE_OBJECT), Ok(vec![]));
}

#[test]
fn get_unreferenced_object() {
    assert_eq!(get(UNREFERENCED_OBJECT), Ok(vec![]));
}

#[test]
fn get_unknown_data() {
    assert_eq!(get(UNKNOWN_DATA), Ok(vec![]));
}

#[test]
fn get_comments() {
    assert_eq!(get(COMMENTS), Ok(vec![]));
}

#[test]
fn get_binary_comment() {
    assert_eq!(get(BINARY_COMMENT), Ok(vec![]));
}

#[test]
fn get_binary_comment_ascii() {
    assert_eq!(get(BINARY_COMMENT_ASCII), Ok(vec![]));
}

#[test]
fn get_cross_reference_stream() {
    assert_eq!(get(CROSS_REFERENCE_STREAM), Ok(vec![]));
}

#[test]
fn get_object_stream() {
    assert_eq!(get(OBJECT_STREAM), Ok(vec![]));
}

#[test]
fn get_checksum() {
    assert_eq!(get(CHECKSUM), Ok(vec![tag("DocChecksum", "B224C4CB2C001E84531B12645C5A81CA")]));
}

#[test]
fn get_id() {
    assert_eq!(get(ID), Ok(vec![]));
}

#[test]
fn get_info() {
    assert_eq!(get(INFO), Ok(vec![tag("Creator", "LibreOffice 20.0")]));
}

#[test]
fn get_info_deprecated() {
    assert_eq!(get(INFO_DEPRECATED), Ok(vec![tag("Creator", "LibreOffice 20.0")]));
}

#[test]
fn get_signature() {
    assert_eq!(get(SIGNATURE), Ok(vec![]));
}

#[test]
fn get_xmp() {
    assert_eq!(get(XMP), Ok(vec![tag("Producer", "LibreOffice 20.0")]));
}

#[test]
fn get_object_metadata() {
    assert_eq!(get(OBJECT_METADATA), Ok(vec![]));
}

#[test]
fn get_detached_metadata() {
    assert_eq!(get(DETACHED_METADATA), Ok(vec![]));
}
