//! The failures that the engine reports to its caller.

use vstd::prelude::*;

verus! {

/// Why an operation could not be carried out.
#[derive(Debug, Clone, Copy, PartialEq, Eq, Structural)]
pub enum Error {
    /// An object or a reference that the operation needs is absent.
    NotFound,
    /// A stored object is of another kind than the caller expects.
    TypeMismatch,
    /// The storage root to initialise is already there.
    AlreadyExists,
    /// A tree entry's name holds a path separator, or is `.` or `..`.
    InvalidName,
    /// A name is neither a reference, in any of its forms, nor an object id.
    UnknownRef,
    /// A chain of symbolic references does not lead to a value.
    Unresolvable,
    /// Stored bytes do not have the form of the object they stand for.
    Malformed,
    /// A reference was to be given the empty value.
    EmptyValue,
    /// A push would drop commits that the other side's branch holds.
    Rejected,
}

} // verus!
