//! The errors of the library.

use vstd::prelude::*;
use crate::lsm;

verus! {

/// `std::io::Error`, carried through unchanged.
#[verifier::external_type_specification]
#[verifier::external_body]
pub struct ExIoError(std::io::Error);

/// Everything that can go wrong.
#[derive(Debug)]
#[non_exhaustive]
pub enum StorageError {
    /// An I/O error around the store's file.
    Io(std::io::Error),
    /// A result code of the engine other than success.
    Lsm(lsm::Error),
    /// A number did not fit the engine's range.
    Limits(core::num::TryFromIntError),
    /// A path held a NUL character.
    NulError,
    /// Stored bytes were not a well-formed batch.
    Decompression(String),
    /// A batch could not be turned into bytes.
    Compression(String),
    /// Nothing there.
    Empty,
    /// No room for another key.
    Full,
}

impl From<std::io::Error> for StorageError {
    fn from(error: std::io::Error) -> (r: StorageError) {
        StorageError::Io(error)
    }
}

impl vstd::std_specs::convert::FromSpecImpl<std::io::Error> for StorageError {
    open spec fn obeys_from_spec() -> bool {
        true
    }

    open spec fn from_spec(error: std::io::Error) -> StorageError {
        StorageError::Io(error)
    }
}

impl From<core::num::TryFromIntError> for StorageError {
    fn from(error: core::num::TryFromIntError) -> (r: StorageError) {
        StorageError::Limits(error)
    }
}

impl vstd::std_specs::convert::FromSpecImpl<core::num::TryFromIntError> for StorageError {
    open spec fn obeys_from_spec() -> bool {
        true
    }

    open spec fn from_spec(error: core::num::TryFromIntError) -> StorageError {
        StorageError::Limits(error)
    }
}

impl From<lsm::Error> for StorageError {
    fn from(error: lsm::Error) -> (r: StorageError) {
        StorageError::Lsm(error)
    }
}

impl vstd::std_specs::convert::FromSpecImpl<lsm::Error> for StorageError {
    open spec fn obeys_from_spec() -> bool {
        true
    }

    open spec fn from_spec(error: lsm::Error) -> StorageError {
        StorageError::Lsm(error)
    }
}

} // verus!
