//! The kinds of failure that indexing knows.

use vstd::prelude::*;

verus! {

/// Why an operation on the index, or on a document, failed.
#[derive(Clone, Copy, Debug, PartialEq, Eq, Structural)]
pub enum IndexError {
    /// The file system, or the persisted form, could not be read or written.
    Io,
    /// The persisted index does not hold an index.
    CorruptIndex,
    /// The bytes of a document are not text.
    Decode,
}

} // verus!
