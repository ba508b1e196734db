use numeta::path::{output_name, try_output_name};
use numeta::format::{guess, Format};
use numeta::path::template_name;

#[test]
fn template_name_first_attempt_keeps_name() {
    assert_eq!(template_name("song", Some("flac"), 1), "song.flac");
}

#[test]
fn template_name_numbers_later_attempts() {
    assert_eq!(template_name("song", Some("flac"), 2), "song-2.flac");
    assert_eq!(template_name("doc", None, 12), "doc-12");
}

#[test]
fn guess_by_signature() {
    assert_eq!(guess(b"fLaC\x00\x00"), Some(Format::Flac));
    assert_eq!(guess(b"%PDF-1.7\n"), Some(Format::Pdf));
    assert_eq!(guess(b"fLa"), None);
    assert_eq!(guess(b"ID3"), None);
}

#[test]
fn template_name_writes_every_digit() {
    assert_eq!(template_name("f", None, 1234567890), "f-1234567890");
    assert_eq!(template_name("f", Some("x"), 18446744073709551615), "f-18446744073709551615.x");
    assert_eq!(template_name("f", None, 10), "f-10");
}

#[test]
fn output_name_splits_stem_and_extension() {
    assert_eq!(try_output_name("dir/song.flac", 1), Some("song.flac".to_string()));
    assert_eq!(try_output_name("dir/song.flac", 2), Some("song-2.flac".to_string()));
    assert_eq!(try_output_name("song", 3), Some("song-3".to_string()));
    assert_eq!(output_name("a.tar.gz", 3), "a.tar-3.gz");
    assert_eq!(try_output_name("/", 1), None);
}
