//! Reading and removing the metadata of media files: FLAC metadata blocks
//! with their Vorbis comments, PDF trailers, information dictionaries and
//! XMP packets, all worked on as byte buffers.

pub mod bytes;
pub mod error;
pub mod flac;
pub mod format;
pub mod path;
pub mod pdf;
pub mod pdf_syntax;
pub mod tag;
pub mod vorbis;
pub mod xml;
pub mod xmp;
