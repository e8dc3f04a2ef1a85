//! Errors that stop the reading of one stream.
use vstd::prelude::*;

verus! {

#[verifier::external_type_specification]
#[verifier::external_body]
pub struct ExIoError(std::io::Error);

/// An error that can occur while reading one stream.
#[derive(Debug)]
pub enum UwcError {
    /// The byte source failed.
    IoError(std::io::Error),
    /// The bytes of a line are not UTF-8: the error holds them, and the length
    /// of their longest valid prefix.
    Utf8Error { bytes: Vec<u8>, valid_up_to: usize },
}

} // verus!
