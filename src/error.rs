use vstd::prelude::*;

verus! {

/// Why decoding of an archive or a stream stopped.
#[derive(Debug, Clone, Copy, PartialEq, Eq, Structural)]
pub enum DecodeError {
    /// The buffer ran out of bytes or bits in the middle of a read.
    Truncated,
    /// The bytes do not match the schema or the container layout.
    Corrupted,
    /// A compression method byte that is not recognized.
    UnsupportedCompression,
    /// A multi-sector or encrypted sub-file.
    UnsupportedLayout,
}

} // verus!
