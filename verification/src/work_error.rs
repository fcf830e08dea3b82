use vstd::prelude::*;

verus! {

/// The failures that store operations and the persisted-text codec report.
#[derive(Clone, Copy, Debug, PartialEq, Eq, Structural)]
pub enum WorkError {
    /// A supplied value broke a rule (name too long, or an edit with nothing to change).
    ValidationError,
    /// No top-level entry carries the requested identifier.
    NotFound,
    /// The entry was already marked completed.
    AlreadyCompleted,
    /// An identifier string or a persisted text could not be read.
    ParseError,
    /// The persisted text carries a schema version other than the current one.
    VersionMismatch,
    /// The operation is not available in the current schema generation.
    Unsupported,
}

} // verus!
