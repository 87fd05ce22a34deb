//! The failures a connection can end with.

use vstd::prelude::*;
use vstd::std_specs::convert::FromSpecImpl;

verus! {

/// `std::io::Error` is carried through this crate unopened: nothing here
/// depends on what one holds.
#[verifier::external_type_specification]
#[verifier::external_body]
pub struct ExIoError(std::io::Error);

/// Why a request could not be parsed, or a response not delivered.
///
/// A value is terminal for the connection that produced it.
#[derive(Debug)]
pub enum HttpError {
    /// The blank line that ends the header block is missing.
    NoBody,
    /// The request line is empty.
    NoProtocol,
    /// The request line has fewer than three space-separated tokens.
    InvalidProtocol,
    /// A header line has no colon.
    InvalidHeader,
    /// The connection, or a file to be served, failed.
    IOError(std::io::Error),
}

impl From<std::io::Error> for HttpError {
    fn from(err: std::io::Error) -> (res: HttpError) {
        HttpError::IOError(err)
    }
}

impl FromSpecImpl<std::io::Error> for HttpError {
    open spec fn obeys_from_spec() -> bool {
        true
    }

    open spec fn from_spec(err: std::io::Error) -> HttpError {
        HttpError::IOError(err)
    }
}

} // verus!
