use numeta::xmp::{walk_events, XmlEvent};
use numeta::error::Error;
use numeta::tag::Tag;
use numeta::xml::parse_name;
use numeta::xmp;

fn tag(name: &str, value: &str) -> Tag {
    Tag { name: name.to_string(), value: value.to_string() }
}

#[test]
fn xmp_packet_gives_producer() {
    let data = b"<?xml version=\"1.0\" encoding=\"UTF-8\"?>
<xmpmeta xmlns:x=\"adobe:ns:meta/\">
<rdf:RDF xmlns:rdf=\"http://www.w3.org/1999/02/22-rdf-syntax-ns#\">
<rdf:Description rdf:about=\"\">
<pdf:Producer>LibreOffice 20.0</pdf:Producer>
</rdf:Description>
</rdf:RDF>
</xmpmeta>
";
    let mut metadata = Vec::new();
    assert_eq!(xmp::get(data, &mut metadata), Ok(()));
    assert_eq!(metadata, vec![tag("Producer", "LibreOffice 20.0")]);
}

#[test]
fn xmp_history_is_left_out() {
    let data = b"<x><xmpMM:History><a>edited</a></xmpMM:History><b>kept</b></x>";
    let mut metadata = Vec::new();
    assert_eq!(xmp::get(data, &mut metadata), Ok(()));
    assert_eq!(metadata, vec![tag("b", "kept")]);
}

#[test]
fn xmp_appends_to_existing_tags() {
    let mut metadata = vec![tag("A", "1")];
    assert_eq!(xmp::get(b"<t>v</t>", &mut metadata), Ok(()));
    assert_eq!(metadata, vec![tag("A", "1"), tag("t", "v")]);
}

#[test]
fn xmp_unclosed_element_is_metadata_error() {
    let mut metadata = Vec::new();
    assert_eq!(xmp::get(b"<a>text", &mut metadata), Err(Error::Metadata));
    assert_eq!(metadata, vec![tag("a", "text")]);
}

#[test]
fn xmp_mismatched_end_is_rejected() {
    let mut metadata = Vec::new();
    assert_eq!(xmp::get(b"<a>text</b>", &mut metadata), Err(Error::Xml));
}

#[test]
fn parse_name_splits_prefix() {
    assert_eq!(parse_name(b"pdf:Producer"), ("Producer".to_string(), Some("pdf".to_string())));
    assert_eq!(parse_name(b"Title"), ("Title".to_string(), None));
}

#[test]
fn xmp_blank_text_and_other_events_give_no_tags() {
    let mut metadata = Vec::new();
    let data = b"<?xml version=\"1.0\"?><!-- c --><a>  \n\t<b/><![CDATA[x]]></a>";
    assert_eq!(xmp::get(data, &mut metadata), Ok(()));
    assert!(metadata.is_empty());
}

#[test]
fn xmp_nested_thumbnails_are_left_out() {
    let mut metadata = Vec::new();
    let data = b"<r><xmp:Thumbnails><c><d>img</d></c></xmp:Thumbnails><xmpMM:Manifest>m</xmpMM:Manifest><e>ok</e></r>";
    assert_eq!(xmp::get(data, &mut metadata), Ok(()));
    assert_eq!(metadata, vec![tag("e", "ok")]);
}

#[test]
fn xmp_element_text_comes_in_document_order() {
    let mut metadata = Vec::new();
    let data = b"<a>one<p:b>two</p:b>three</a>";
    assert_eq!(xmp::get(data, &mut metadata), Ok(()));
    assert_eq!(metadata, vec![tag("a", "one"), tag("b", "two"), tag("a", "three")]);
}

#[test]
fn walk_events_reads_given_events() {
    let events = vec![
        XmlEvent::Start(b"a".to_vec()),
        XmlEvent::Text(b"one".to_vec()),
        XmlEvent::Start(b"x:History".to_vec()),
        XmlEvent::Text(b"hidden".to_vec()),
        XmlEvent::End(b"x:History".to_vec()),
        XmlEvent::End(b"a".to_vec()),
        XmlEvent::Eof,
    ];
    let mut metadata = Vec::new();
    assert_eq!(walk_events(&events, &mut metadata), Ok(()));
    assert_eq!(metadata, vec![tag("a", "one")]);
    let mut metadata = Vec::new();
    assert_eq!(walk_events(&events[..3], &mut metadata), Err(Error::Xml));
    let mut metadata = Vec::new();
    assert_eq!(walk_events(&events[..2], &mut metadata), Err(Error::Xml));
    assert_eq!(metadata, vec![tag("a", "one")]);
    let bad = vec![XmlEvent::Start(b"a".to_vec()), XmlEvent::End(b"b".to_vec())];
    let mut metadata = Vec::new();
    assert_eq!(walk_events(&bad, &mut metadata), Err(Error::Metadata));
}

#[test]
fn xmp_text_inside_hidden_element_is_never_reported() {
    let mut metadata = Vec::new();
    let data = b"<r><x:Manifest>a<b>deep<c>deeper</c></b>tail</x:Manifest></r>";
    assert_eq!(xmp::get(data, &mut metadata), Ok(()));
    assert!(metadata.is_empty());
}
