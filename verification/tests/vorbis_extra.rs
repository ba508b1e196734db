use numeta::error::Error;
use numeta::tag::Tag;
use numeta::vorbis::{self, Outcome};

#[test]
fn vorbis_short_packet_is_metadata_error() {
    let mut metadata = Vec::new();
    assert_eq!(vorbis::get(&[0x01, 0x00], &mut metadata), Err(Error::Metadata));
    assert!(metadata.is_empty());
}

#[test]
fn vorbis_missing_comment_keeps_earlier_tags() {
    let data = [
        0x00, 0x00, 0x00, 0x00, 0x02, 0x00, 0x00, 0x00, 0x03, 0x00, 0x00, 0x00, b'a', b'=', b'b',
    ];
    let mut metadata = vec![Tag { name: "x".to_string(), value: "y".to_string() }];
    assert_eq!(vorbis::get(&data, &mut metadata), Err(Error::Metadata));
    assert_eq!(
        metadata,
        vec![
            Tag { name: "x".to_string(), value: "y".to_string() },
            Tag { name: "a".to_string(), value: "b".to_string() }
        ]
    );
}

#[test]
fn vorbis_empty_value() {
    let data = [0x00, 0x00, 0x00, 0x00, 0x01, 0x00, 0x00, 0x00, 0x02, 0x00, 0x00, 0x00, b'a', b'='];
    let (tags, outcome) = vorbis::read(&data);
    assert_eq!(outcome, Outcome::Complete);
    assert_eq!(tags, vec![Tag { name: "a".to_string(), value: String::new() }]);
}

#[test]
fn vorbis_comment_without_equals_is_unsliceable() {
    let data = [0x00, 0x00, 0x00, 0x00, 0x01, 0x00, 0x00, 0x00, 0x02, 0x00, 0x00, 0x00, b'a', b'b'];
    assert_eq!(vorbis::read(&data).1, Outcome::Unsliceable);
}

#[test]
fn vorbis_length_past_end_is_rejected_exactly() {
    let whole = [0x00, 0x00, 0x00, 0x00, 0x01, 0x00, 0x00, 0x00, 0x03, 0x00, 0x00, 0x00, b'k', b'=', b'v'];
    assert_eq!(vorbis::read(&whole).1, Outcome::Complete);
    assert_eq!(vorbis::read(&whole[..14]).1, Outcome::Rejected);
    assert_eq!(vorbis::read(&whole[..10]).1, Outcome::Rejected);
    assert_eq!(vorbis::read(&whole[..7]).1, Outcome::Rejected);
}

#[test]
fn vorbis_packet_gives_one_tag_per_comment() {
    let mut data = vec![0x02, 0x00, 0x00, 0x00, b'v', b'n', 0x02, 0x00, 0x00, 0x00];
    data.extend_from_slice(&[0x05, 0x00, 0x00, 0x00]);
    data.extend_from_slice(b"a=b=c");
    data.extend_from_slice(&[0x02, 0x00, 0x00, 0x00]);
    data.extend_from_slice(b"k=");
    data.extend_from_slice(b"trailing");
    let mut metadata = vec![Tag { name: "old".to_string(), value: "1".to_string() }];
    assert_eq!(vorbis::get(&data, &mut metadata), Ok(()));
    assert_eq!(
        metadata,
        vec![
            Tag { name: "old".to_string(), value: "1".to_string() },
            Tag { name: "a".to_string(), value: "b=c".to_string() },
            Tag { name: "k".to_string(), value: String::new() }
        ]
    );
}
