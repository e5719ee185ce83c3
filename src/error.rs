//! Why decoding or encoding failed.
use vstd::prelude::*;

verus! {

/// Why a message could not be decoded or encoded.
#[derive(Clone, Copy, Debug, PartialEq, Eq, Structural)]
pub enum DnsError {
    /// Fewer bytes remain than a field or a record requires.
    TruncatedInput,
    /// A label or a pointer chain is invalid, or a name is not well formed.
    MalformedName,
    /// The type code has no registered payload variant.
    UnsupportedRecordType,
    /// The class code is not one of the modelled classes.
    UnsupportedClass,
    /// A declared payload length does not match the payload.
    InconsistentLength,
    /// A section count in the header does not match the section.
    InconsistentCount,
    /// A header bit field holds a value wider than its field.
    FieldOutOfRange,
}

} // verus!
