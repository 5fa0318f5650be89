//! The failures that storage operations report.

use vstd::prelude::*;

verus! {

/// What went wrong in a storage operation.
#[derive(Debug, Clone, Copy, PartialEq, Eq, Structural)]
pub enum Error {
    /// The block device reported a failed read, write or flush.
    IoFailure,
    /// An uberblock slot does not start with the magic number.
    CorruptMagic,
    /// The kind byte of an object pointer is neither 0 nor 1.
    UnknownObjectKind,
    /// The bytes handed to a decoder end in the middle of a record.
    ShortRead,
    /// A request reaches beyond the end of the device.
    OutOfRange,
    /// The stored tree breaks an invariant the algorithms rely on.
    LogicError,
}

/// The failure that `r` reports, if it reports one.
pub open spec fn failure<T>(r: Result<T, Error>) -> Option<Error> {
    match r {
        Ok(_) => None,
        Err(e) => Some(e),
    }
}

} // verus!
