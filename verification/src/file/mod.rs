use vstd::prelude::*;
use std::io;

pub mod binary;
pub mod csv;
pub mod hash;
pub mod text;

verus! {

/// The standard library's I/O error, carried through unchanged.
#[verifier::external_type_specification]
#[verifier::external_body]
pub struct ExIoError(io::Error);

/// Holds of an I/O error whose kind is `InvalidData` and whose message
/// (what it displays) is `message`.
pub uninterp spec fn is_invalid_data(error: io::Error, message: Seq<char>) -> bool;

/// Creates an I/O error with `std::io::Error::new`, of kind `InvalidData`
/// and with the supplied message as its payload. Claimed: the error has
/// that kind and displays that message, as std documents for `new`,
/// `kind` and its `Display`.
#[verifier::external_body]
pub(crate) fn invalid_data(message: String) -> (e: io::Error)
    ensures
        is_invalid_data(e, message@),
{
    io::Error::new(io::ErrorKind::InvalidData, message)
}

/// A reader of a file, opened from a path.
pub trait FileReader {
    /// Opens the file at the supplied path.
    fn new(path: &str) -> io::Result<Self> where Self: Sized;

    /// Returns the size of the file in bytes.
    fn size(&self) -> u64;
}

/// A writer of a file, created at a path.
pub trait FileWriter {
    /// Creates the file at the supplied path.
    fn new(path: &str) -> io::Result<Self> where Self: Sized;

    /// Writes out what is buffered.
    fn flush(&mut self) -> io::Result<()>;
}

} // verus!
