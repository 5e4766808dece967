use vstd::prelude::*;

verus! {

/// The ways a record operation can fail.
#[derive(Clone, Copy, Debug, PartialEq, Eq, Structural)]
pub enum CokeError {
    InvalidOven,
    InvalidChamber,
    InvalidOperationKind,
    InvalidTimeFormat,
    DuplicateRecord,
    NotInitialized,
    LockUnavailable,
    StorageFailure,
}

} // verus!
