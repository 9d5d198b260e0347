//! The error surface of the library: every public operation returns either
//! its documented value or one of these, carrying the offending key, path or
//! input where applicable.

use vstd::prelude::*;

verus! {

/// Why a key text was rejected.
#[derive(Clone, Copy, Debug, PartialEq, Eq, Structural)]
pub enum InvalidKeyReason {
    /// The text, or one of its dot-separated segments, is empty.
    Empty,
    /// A character outside the accepted class occurs in the text.
    BadCharacter,
    /// The number of segments does not fit the key kind.
    WrongArity,
    /// The text is longer than the accepted bound.
    TooLong,
}

#[derive(Debug)]
pub enum Error {
    /// A key text failed validation.
    InvalidKey { name: String, reason: InvalidKeyReason },
    /// A computed path escapes its scope root.
    PathTraversal { name: String },
    /// An underlying filesystem error.
    Io { path: String },
    /// A structural invariant of the store was violated.
    Corruption { path: String, msg: String },
    /// Flattening a typed value failed.
    Serialization { given: String },
    /// Rebuilding a typed value from flat pairs failed.
    Deserialization { given: String },
    /// A leaf value could not be encoded or decoded as a JSON scalar.
    ScalarSerialization { given: String },
    /// An expected non-empty subtree was empty.
    MissingData { prefix: String },
    /// A named item produced no populated keys.
    ListKeys { requested: String },
    /// User input was not valid JSON.
    InvalidJson,
    /// User input was valid JSON but not an object.
    NotJsonObject,
    /// User input held no `settings` field to unwrap.
    NoSettings,
    /// The unwrapped `settings` value did not decode as settings.
    InvalidSettings,
    /// Rendering a template failed.
    TemplateRender { template: String },
    /// Writing a rendered file failed.
    TemplateWrite { path: String, pathkind: String },
}

/// The error variants a datastore backend itself may produce; the typed
/// layers above reserve the remaining variants for their own reporting.
/// A backend that meets a key it cannot make sense of reports it as
/// corruption.
pub open spec fn is_store_error(e: Error) -> bool {
    ||| e matches Error::PathTraversal { .. }
    ||| e matches Error::Io { .. }
    ||| e matches Error::Corruption { .. }
}

} // verus!
