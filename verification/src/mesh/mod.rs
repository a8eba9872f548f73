//! Mesh file formats and the errors met while reading them.
use vstd::prelude::*;
use vstd::std_specs::convert::FromSpecImpl;

pub mod obj;
pub mod stl;

verus! {

/// `std::io::Error`, carried through unopened.
#[verifier::external_type_specification]
#[verifier::external_body]
pub struct ExIoError(std::io::Error);

/// `std::num::ParseFloatError`, carried through unopened.
#[verifier::external_type_specification]
#[verifier::external_body]
pub struct ExParseFloatError(std::num::ParseFloatError);

/// `std::num::ParseIntError`, carried through unopened.
#[verifier::external_type_specification]
#[verifier::external_body]
pub struct ExParseIntError(std::num::ParseIntError);

/// Possible errors while loading a mesh.
#[derive(Debug)]
pub enum Error {
    /// The mesh file was malformed or truncated, therefore it was not possible
    /// to decode it.
    BadFormat,
    /// Error while parsing a number.
    InvalidNumber,
    /// IO error.
    IoError(std::io::Error),
}

impl From<std::io::Error> for Error {
    fn from(e: std::io::Error) -> (r: Self) {
        Error::IoError(e)
    }
}

impl FromSpecImpl<std::io::Error> for Error {
    open spec fn obeys_from_spec() -> bool {
        true
    }

    open spec fn from_spec(e: std::io::Error) -> Self {
        Error::IoError(e)
    }
}

impl From<std::num::ParseFloatError> for Error {
    fn from(e: std::num::ParseFloatError) -> (r: Self) {
        Error::InvalidNumber
    }
}

impl FromSpecImpl<std::num::ParseFloatError> for Error {
    open spec fn obeys_from_spec() -> bool {
        true
    }

    open spec fn from_spec(e: std::num::ParseFloatError) -> Self {
        Error::InvalidNumber
    }
}

impl From<std::num::ParseIntError> for Error {
    fn from(e: std::num::ParseIntError) -> (r: Self) {
        Error::InvalidNumber
    }
}

impl FromSpecImpl<std::num::ParseIntError> for Error {
    open spec fn obeys_from_spec() -> bool {
        true
    }

    open spec fn from_spec(e: std::num::ParseIntError) -> Self {
        Error::InvalidNumber
    }
}

/// `std::io::Error::from(std::io::ErrorKind::UnexpectedEof)`: the error a
/// reader gives when the input ends before a record does. The value is
/// opaque here; nothing is stated of it beyond its type.
#[verifier::external_body]
pub(crate) fn unexpected_eof() -> std::io::Error {
    std::io::Error::from(std::io::ErrorKind::UnexpectedEof)
}

} // verus!
