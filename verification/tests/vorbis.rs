use numeta::tag::Tag;
use numeta::vorbis::get;

fn tag(name: &str, value: &str) -> Tag {
    Tag { name: name.to_string(), value: value.to_string() }
}

#[test]
fn no_tags() {
    let data = &[
        0x0D, 0x00, 0x00, 0x00, b'L', b'a', b'v', b'f', b'6', b'0', b'.', b'1', b'2', b'.', b'1',
        b'0', b'0', 0x00, 0x00, 0x00, 0x00,
    ];
    let mut metadata = Vec::new();
    assert!(get(data, &mut metadata).is_ok());
    assert!(metadata.is_empty());
}

#[test]
fn one_tag() {
    let data = &[
        0x0D, 0x00, 0x00, 0x00, b'L', b'a', b'v', b'f', b'6', b'0', b'.', b'1', b'2', b'.', b'1',
        b'0', b'0', 0x01, 0x00, 0x00, 0x00, 0x13, 0x00, 0x00, 0x00, b'T', b'I', b'T', b'L', b'E',
        b'=', b'H', b'i', b'g', b'h', b'e', b'r', b' ', b'G', b'r', b'o', b'u', b'n', b'd',
    ];
    let mut a = Vec::new();
    let b = vec![tag("TITLE", "Higher Ground")];
    assert!(get(data, &mut a).is_ok());
    assert_eq!(a, b);
}

#[test]
fn two_tags() {
    let data = &[
        0x0D, 0x00, 0x00, 0x00, b'L', b'a', b'v', b'f', b'6', b'0', b'.', b'1', b'2', b'.', b'1',
        b'0', b'0', 0x02, 0x00, 0x00, 0x00, 0x13, 0x00, 0x00, 0x00, b'T', b'I', b'T', b'L', b'E',
        b'=', b'H', b'i', b'g', b'h', b'e', b'r', b' ', b'G', b'r', b'o', b'u', b'n', b'd', 0x14,
        0x00, 0x00, 0x00, b'A', b'R', b'T', b'I', b'S', b'T', b'=', b'S', b't', b'e', b'v', b'i',
        b'e', b' ', b'W', b'o', b'n', b'd', b'e', b'r',
    ];
    let mut a = Vec::new();
    let b = vec![tag("TITLE", "Higher Ground"), tag("ARTIST", "Stevie Wonder")];
    assert!(get(data, &mut a).is_ok());
    assert_eq!(a, b);
}
