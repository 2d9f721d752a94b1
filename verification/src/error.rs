//! The ways in which an operation of this crate can fail.

use vstd::prelude::*;
use vstd::string::*;

verus! {

/// Why an operation was refused. Each failure is final: none of them comes
/// from a passing condition, so nothing is retried.
#[derive(Clone, Copy, Debug, PartialEq, Eq, Structural)]
pub enum CatalogError {
    /// A record has the empty string as its reference key.
    MissingKey,
    /// The catalog holds more distinct strings than there are handles.
    PoolOverflow,
    /// A lookup table holds more codes than encoded records have indices
    /// for.
    TableOverflow,
    /// The encoded database would outgrow what its buffer format can address.
    BufferOverflow,
    /// A codec could not compress or decompress the bytes it was given.
    CodecFailure,
    /// A delta was made for another base version than the one at hand.
    VersionMismatch,
    /// The checksum stored in a delta is not the one its operations give.
    ChecksumMismatch,
    /// Bytes that were to be read as a delta package are not the byte form
    /// of any.
    MalformedPackage,
}

impl CatalogError {
    /// A short description of the failure.
    pub fn message(&self) -> (text: String)
        ensures
            text@ == match *self {
                CatalogError::MissingKey => "record without a reference key"@,
                CatalogError::PoolOverflow => "string pool is full"@,
                CatalogError::TableOverflow => "lookup table has more codes than indices"@,
                CatalogError::BufferOverflow => "encoded database is too large"@,
                CatalogError::CodecFailure => "codec failure"@,
                CatalogError::VersionMismatch => "delta was made for another base version"@,
                CatalogError::ChecksumMismatch => "delta checksum does not match"@,
                CatalogError::MalformedPackage => "bytes are not a delta package"@,
            },
    {
        match self {
            CatalogError::MissingKey => String::from_str("record without a reference key"),
            CatalogError::PoolOverflow => String::from_str("string pool is full"),
            CatalogError::TableOverflow => String::from_str(
                "lookup table has more codes than indices",
            ),
            CatalogError::BufferOverflow => String::from_str("encoded database is too large"),
            CatalogError::CodecFailure => String::from_str("codec failure"),
            CatalogError::VersionMismatch => String::from_str(
                "delta was made for another base version",
            ),
            CatalogError::ChecksumMismatch => String::from_str("delta checksum does not match"),
            CatalogError::MalformedPackage => String::from_str("bytes are not a delta package"),
        }
    }
}

} // verus!
