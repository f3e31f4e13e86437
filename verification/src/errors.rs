use vstd::prelude::*;

verus! {

/// Failure kinds of the snapshot codec. All codec failures are recoverable
/// and surface as values of this type; the core never aborts.
#[derive(Clone, Copy, Debug, PartialEq, Eq, Structural)]
pub enum CodecError {
    /// The input is not a well-formed size-prefixed compressed block
    /// (corrupt header, truncated data, length mismatch), or a payload is
    /// too large for the block format to carry.
    FormatError,
    /// The block decompressed cleanly but its content is not a well-formed
    /// structured event document.
    SchemaError,
}

} // verus!
