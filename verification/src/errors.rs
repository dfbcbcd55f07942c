//! Error values returned by the manifest core. Parse errors abort a whole
//! `parse` call; resolution errors abort only the single resolution in
//! flight and carry the path and hash of the failing entry as context.

use vstd::prelude::*;

verus! {

/// A structural error found while decoding manifest bytes.
#[derive(Clone, Copy, Debug, PartialEq, Eq, Structural)]
pub enum ParseError {
    /// A manifest line holds no NUL separating the path from the record.
    MissingSeparator,
    /// The path bytes of a line do not form a valid path.
    InvalidPath,
    /// The hash field is shorter than its fixed width or not valid hex.
    MalformedHash,
    /// More than one flag byte follows the hash field.
    TooManyFlags,
    /// A single flag byte that is none of the known flags.
    UnknownFlag(u8),
}

/// An error from building or listing a whole manifest.
#[derive(Clone, Copy, Debug, PartialEq, Eq, Structural)]
pub enum ManifestError {
    /// The node carries no byte payload to parse.
    MissingBlobData,
    /// The payload does not decode as manifest bytes.
    Parse(ParseError),
    /// The manifest holds no store reference, so nothing can be resolved.
    MissingStore,
}

/// What went wrong while resolving one entry against the store.
#[derive(Clone, Copy, Debug, PartialEq, Eq, Structural)]
pub enum ResolveErrorKind {
    /// The store holds no node under the entry's path and hash.
    NotFound,
    /// The node was found but carries no byte payload where one is required.
    MissingBlobData,
    /// The fetched payload does not decode as the entry's type demands.
    InvalidContent(ParseError),
}

} // verus!
