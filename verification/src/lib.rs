//! A codec for the "name" custom section of a binary module format: the
//! debug-info section that associates human-readable names with a module,
//! its functions, and their local variables.
//!
//! A section is framed as a one-byte type tag, a variable-length payload
//! length, and the payload itself.  Known tags (module, function, local)
//! decode into structured values; any other tag is kept verbatim so that it
//! can be written back unchanged.

use vstd::prelude::*;

pub mod index_map;
pub mod laws;
pub mod section;
pub mod varint;

pub use index_map::IndexMap;
pub use index_map::NameMap;
pub use section::FunctionNameSection;
pub use section::LocalNameSection;
pub use section::ModuleNameSection;
pub use section::NameSection;
pub use section::SectionModel;

verus! {

/// Why a byte stream fails to decode.  Every failure is fatal to the
/// current decode call and is reported to the caller; nothing is retried.
#[derive(Clone, Copy, Debug, PartialEq, Eq)]
pub enum DecodeError {
    /// The input ended before the bytes that a declared length or an
    /// incomplete encoding still required.
    Truncated,
    /// A variable-length integer field breaks the encoding rules: too many
    /// bytes, a value outside the 32-bit range, a padded (non-minimal)
    /// encoding, or a tag byte outside the one-byte range.
    MalformedVarint,
    /// A name's bytes are not valid UTF-8.
    InvalidUtf8,
    /// A map's entry indices are not strictly ascending.
    IndexOrder,
    /// A known sub-section did not span exactly its declared payload length.
    LengthMismatch,
}

/// Why a value cannot be encoded.
#[derive(Clone, Copy, Debug, PartialEq, Eq)]
pub enum EncodeError {
    /// An unparsed section's tag does not fit the one-byte (0..=127) range.
    TagRange,
    /// A length (of a payload, a name, or an entry count) does not fit the
    /// 32-bit range of the wire format's length fields.
    TooLong,
}

} // verus!
