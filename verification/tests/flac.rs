use numeta::error::Error;
use numeta::flac::{self, Header};
use numeta::tag::Tag;

fn tag(name: &str, value: &str) -> Tag {
    Tag { name: name.to_string(), value: value.to_string() }
}

/// A Vorbis comment packet with one comment, `TITLE=Higher Ground`.
fn comment_packet() -> Vec<u8> {
    let mut data = vec![0x0D, 0x00, 0x00, 0x00];
    data.extend_from_slice(b"Lavf60.12.100");
    data.extend_from_slice(&[0x01, 0x00, 0x00, 0x00, 0x13, 0x00, 0x00, 0x00]);
    data.extend_from_slice(b"TITLE=Higher Ground");
    data
}

fn block(last: bool, block_type: u8, data: &[u8]) -> Vec<u8> {
    let size = data.len() as u32;
    let mut out = vec![if last { 0x80 } else { 0x00 } | block_type];
    out.extend_from_slice(&size.to_be_bytes()[1..4]);
    out.extend_from_slice(data);
    out
}

/// `fLaC`, a stream information block, a comment block flagged last, then
/// four bytes of audio.
fn stream() -> Vec<u8> {
    let mut s = b"fLaC".to_vec();
    s.extend(block(false, 0, &[7u8; 34]));
    s.extend(block(true, 4, &comment_packet()));
    s.extend_from_slice(b"AUDI");
    s
}

#[test]
fn get_reads_comment_block() {
    assert_eq!(flac::get(&stream()), Ok(vec![tag("TITLE", "Higher Ground")]));
}

#[test]
fn get_empty_stream_has_no_tags() {
    assert_eq!(flac::get(b"fLaC"), Ok(vec![]));
    assert_eq!(flac::get(b""), Ok(vec![]));
}

#[test]
fn get_stops_after_last_block() {
    let mut s = b"fLaC".to_vec();
    s.extend(block(true, 0, &[0u8; 34]));
    s.extend(block(true, 4, &comment_packet()));
    assert_eq!(flac::get(&s), Ok(vec![]));
}

#[test]
fn get_truncated_header_is_io_error() {
    let mut s = b"fLaC".to_vec();
    s.extend_from_slice(&[0x00, 0x00]);
    assert_eq!(flac::get(&s), Err(Error::Io));
}

#[test]
fn get_truncated_comment_block_is_io_error() {
    let mut s = b"fLaC".to_vec();
    let mut b = block(true, 4, &comment_packet());
    b.truncate(10);
    s.extend(b);
    assert_eq!(flac::get(&s), Err(Error::Io));
}

#[test]
fn get_malformed_comment_is_metadata_error() {
    let mut s = b"fLaC".to_vec();
    s.extend(block(true, 4, &[0xFF, 0x00, 0x00, 0x00]));
    assert_eq!(flac::get(&s), Err(Error::Metadata));
}

#[test]
fn try_get_reports_unsliceable_comment() {
    let mut packet = vec![0x00, 0x00, 0x00, 0x00, 0x01, 0x00, 0x00, 0x00];
    packet.extend_from_slice(&[0x3D, 0x00, 0x00, 0x00]);
    packet.extend_from_slice(&[b'a'; 0x3D]);
    let mut s = b"fLaC".to_vec();
    s.extend(block(true, 4, &packet));
    assert_eq!(flac::try_get(&s), None);
}

#[test]
fn read_header_fields() {
    let s = [b'f', b'L', b'a', b'C', 0x84, 0x01, 0x02, 0x03];
    assert_eq!(flac::read_header(&s, 4), Ok(Some((true, Header { block_type: 4, size: 0x010203 }))));
    assert_eq!(flac::read_header(&s, 8), Ok(None));
    assert_eq!(flac::read_header(&s, 6), Err(Error::Io));
}

#[test]
fn write_header_bytes() {
    let mut out = Vec::new();
    assert_eq!(flac::write_header(&mut out, true, Header { block_type: 0, size: 0x0A0B0C }), Ok(()));
    assert_eq!(out, vec![0x80, 0x0A, 0x0B, 0x0C]);
    let mut out = Vec::new();
    assert_eq!(flac::write_header(&mut out, false, Header { block_type: 0, size: 34 }), Ok(()));
    assert_eq!(out, vec![0x00, 0x00, 0x00, 34]);
}

#[test]
fn delete_drops_comments_and_keeps_audio() {
    let mut out = Vec::new();
    assert_eq!(flac::delete(&stream(), &mut out), Ok(()));
    let mut expected = b"fLaC".to_vec();
    expected.extend(block(true, 0, &[7u8; 34]));
    expected.extend_from_slice(b"AUDI");
    assert_eq!(out, expected);
    assert_eq!(flac::get(&out), Ok(vec![]));
}

#[test]
fn delete_without_last_block_is_file_error() {
    let mut s = b"fLaC".to_vec();
    s.extend(block(false, 0, &[0u8; 34]));
    let mut out = Vec::new();
    assert_eq!(flac::delete(&s, &mut out), Err(Error::File));
}

#[test]
fn delete_truncated_kept_block_is_io_error() {
    let mut s = b"fLaC".to_vec();
    let mut b = block(true, 0, &[0u8; 34]);
    b.truncate(8);
    s.extend(b);
    let mut out = Vec::new();
    assert_eq!(flac::delete(&s, &mut out), Err(Error::Io));
    assert_eq!(out, b"fLaC".to_vec());
}

#[test]
fn try_delete_reports_padding_header_overflow() {
    let mut s = b"fLaC".to_vec();
    s.extend(block(false, 1, &[0u8; 4]));
    s.extend(block(true, 0, &[0u8; 34]));
    let mut out = Vec::new();
    assert_eq!(flac::try_delete(&s, &mut out), None);
}

#[test]
fn delete_twice_is_delete_once() {
    let mut once = Vec::new();
    assert_eq!(flac::delete(&stream(), &mut once), Ok(()));
    let mut twice = Vec::new();
    assert_eq!(flac::delete(&once, &mut twice), Ok(()));
    assert_eq!(twice, once);
}

#[test]
fn delete_appends_after_existing_output() {
    let mut out = vec![1, 2, 3];
    assert_eq!(flac::delete(&stream(), &mut out), Ok(()));
    assert_eq!(&out[0..3], &[1, 2, 3]);
    assert_eq!(&out[3..7], b"fLaC");
}

#[test]
fn written_header_reads_back() {
    let header = Header { block_type: 0, size: 0x123456 };
    let mut out = vec![9, 9];
    assert_eq!(flac::write_header(&mut out, true, header), Ok(()));
    out.push(7);
    assert_eq!(flac::read_header(&out, 2), Ok(Some((true, header))));
}

#[test]
fn get_concatenates_comment_blocks_in_order() {
    let mut s = b"fLaC".to_vec();
    s.extend(block(false, 4, &comment_packet()));
    s.extend(block(false, 1, &[0u8; 8]));
    let second = [0x00, 0x00, 0x00, 0x00, 0x01, 0x00, 0x00, 0x00, 0x03, 0x00, 0x00, 0x00, b'A', b'=', b'Z'];
    s.extend(block(true, 4, &second));
    s.extend_from_slice(&[0xFF; 6]);
    assert_eq!(flac::get(&s), Ok(vec![tag("TITLE", "Higher Ground"), tag("A", "Z")]));
}

#[test]
fn get_first_rejected_comment_block_fails() {
    let mut s = b"fLaC".to_vec();
    s.extend(block(false, 4, &comment_packet()));
    s.extend(block(false, 4, &[0x09, 0x00, 0x00, 0x00]));
    s.extend(block(true, 4, &comment_packet()));
    assert_eq!(flac::get(&s), Err(Error::Metadata));
}

#[test]
fn delete_writes_kept_blocks_with_only_final_flagged() {
    let mut s = b"fLaC".to_vec();
    s.extend(block(false, 0, &[1u8; 3]));
    s.extend(block(false, 4, &comment_packet()));
    s.extend(block(false, 0, &[2u8; 2]));
    s.extend(block(true, 6, &[9u8; 5]));
    s.extend_from_slice(b"AUDIO");
    let mut out = Vec::new();
    assert_eq!(flac::delete(&s, &mut out), Ok(()));
    let mut expected = b"fLaC".to_vec();
    expected.extend(block(false, 0, &[1u8; 3]));
    expected.extend(block(true, 0, &[2u8; 2]));
    expected.extend_from_slice(b"AUDIO");
    assert_eq!(out, expected);
}

#[test]
fn delete_unterminated_chain_writes_all_but_final_kept_block() {
    let mut s = b"fLaC".to_vec();
    s.extend(block(false, 0, &[1u8; 3]));
    s.extend(block(false, 4, &comment_packet()));
    s.extend(block(false, 0, &[2u8; 2]));
    let mut out = Vec::new();
    assert_eq!(flac::delete(&s, &mut out), Err(Error::File));
    let mut expected = b"fLaC".to_vec();
    expected.extend(block(false, 0, &[1u8; 3]));
    assert_eq!(out, expected);
}
