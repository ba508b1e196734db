# numeta

Reads and removes the metadata of media files, with every step of the
reading and rewriting proved against its specification.

- `src/flac.rs` walks the metadata blocks of a FLAC stream: `get` collects
  the tags of its Vorbis comment blocks, `delete` rewrites the stream
  without its application, comment and picture blocks. Laws: reading a
  well-formed chain of blocks gives the tags of its comment blocks in
  stream order, and the first rejected comment block fails the read;
  rewriting writes the kept blocks in order with only the final one
  flagged last, then the audio, and a chain with no block flagged last
  fails after writing every kept block but the final one; for a
  stream whose block chain holds a block that `delete` keeps (the premise
  `writes_kept`), the rewritten stream holds no tags and rewriting it again
  changes nothing.
- `src/vorbis.rs` reads a Vorbis comment packet. Laws: a packet of whole
  comments gives one tag per comment, split at its first `=`; a packet is
  rejected exactly when a length runs past its end, and a packet cut
  inside a comment keeps the tags read before the cut.
- `src/pdf.rs` and `src/pdf_syntax.rs` read a PDF document's trailer,
  information dictionary and XMP packet, over a small verified PDF lexer.
- `src/xmp.rs` walks the events of an XMP packet, read by `quick_xml`, as a
  verified state machine; the events that `quick_xml` gives for a text are
  named `xml_events`, and `get` is stated over them. Laws: a node is read
  whole, giving the text inside it in document order and leaving the walk
  where it stood, a document of whole nodes is read to its end, and an
  element whose text is not kept gives no tag for anything inside it; text
  inside edit histories, manifests and thumbnails is left out.
- `src/path.rs` computes output file names and directories, with the
  parent, stem and extension of a path taken from `std::path::Path`.
- `src/xml.rs`, `src/format.rs`, `src/tag.rs`, `src/bytes.rs`:
  names, format detection, tags, byte helpers.
- `app/main.rs` is the command line tool: it reads files, calls the library
  and writes the results.
