use vstd::prelude::*;

verus! {

/// Why reading or rewriting metadata failed.
#[derive(Debug, Clone, Copy, PartialEq, Eq, Structural)]
pub enum Error {
    /// The input ended inside a piece that had to be read whole.
    Io,
    /// A metadata block or packet is malformed.
    Metadata,
    /// The file's structure is broken (it ends before its last block).
    File,
    /// The XML reader refused the document.
    Xml,
}

} // verus!
