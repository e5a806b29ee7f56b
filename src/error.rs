use vstd::prelude::*;

verus! {

/// Every way in which loading a file or reading a field can fail.
#[derive(Debug, Clone, Copy, PartialEq, Eq, Structural)]
pub enum PcdError {
    /// The input ended before the header, a length prefix or the compressed
    /// block was complete, or the file could not be read at all.
    IoFailure,
    /// A header line is malformed: unknown directive, wrong number of tokens,
    /// a token that is not a decimal integer where one is required, or a
    /// schema whose lists disagree in length.
    HeaderParseFailure,
    /// The `DATA` directive names a layout other than `binary_compressed`.
    UnsupportedFormat,
    /// The compressed block is malformed or does not expand to the number of
    /// bytes that the length prefix and the schema require.
    DecompressionFailure,
    /// The requested field name is not declared in the schema.
    FieldNotFound,
    /// The field exists but is declared with another type tag or byte width.
    TypeMismatch,
}

} // verus!
