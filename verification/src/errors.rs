use vstd::prelude::*;

verus! {

/// The ways an operation on the view registry can fail.
#[derive(Clone, Copy, Debug, PartialEq, Eq, Structural)]
pub enum ErrorKind {
    /// An operation referenced a view identifier that is absent from the live
    /// sequence, or attribute routing was asked for while no view is active.
    NotFound,
    /// A stored view definition is structurally invalid for its declared kind.
    Validation,
    /// A persisted blob could not be decoded back into manager state.
    CorruptState,
}

} // verus!
