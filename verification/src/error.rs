use vstd::prelude::*;

verus! {

/// Why a buffer could not be compressed or decompressed.
#[derive(Debug, Clone, Copy, PartialEq, Eq, Structural)]
pub enum CodecError {
    /// The buffer to compress holds no byte.
    EmptyInput,
    /// A byte of the buffer has no entry in the code table.
    MissingCode,
    /// The serializer gave an error for the code table. It has no failing path
    /// for a code table, and the contract of `serialize_codes` says so.
    Serialization,
    /// The bytes do not start with a well-formed code table.
    MalformedTable,
    /// The code table holds an empty code, or a code that begins another.
    AmbiguousCodes,
    /// The symbol count is missing, or the payload does not hold that many symbols.
    MalformedPayload,
}

} // verus!
