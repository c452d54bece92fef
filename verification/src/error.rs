//! The errors that encoding and decoding report.
use vstd::prelude::*;

verus! {

/// `std::io::Error`, carried opaquely: the library hands such a value on but never looks inside.
#[verifier::external_type_specification]
#[verifier::external_body]
pub struct ExIoError(std::io::Error);

/// Errors that decoding reports.
#[derive(Debug)]
pub enum Error {
    /// The stream held a discriminant that no variant of the decoded enum carries; the
    /// byte read is returned. Which bytes are valid depends on the `#[tag(...)]` attributes
    /// of the enum: untagged variants have their position, tagged ones their tag.
    InvalidDiscriminant(u8),
    /// The input failed; decoding from a byte buffer reports here that the
    /// buffer ended before the value did.
    IO(std::io::Error),
}

/// `std::result::Result` with this library's [`Error`].
pub type Result<T> = core::result::Result<T, Error>;

/// Builds the `std::io::Error` that `std::io::Read::read_exact` on a byte slice reports
/// when the slice is too short: kind `UnexpectedEof`, message "failed to fill whole buffer",
/// through `std::io::Error::new`. Nothing is stated of the value: it is carried, never read.
#[verifier::external_body]
fn unexpected_eof_io_error() -> std::io::Error {
    std::io::Error::new(std::io::ErrorKind::UnexpectedEof, "failed to fill whole buffer")
}

/// The error of a read past the end of the input.
pub(crate) fn truncated() -> (e: Error)
    ensures
        e is IO,
{
    Error::IO(unexpected_eof_io_error())
}

} // verus!
