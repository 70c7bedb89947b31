//! What can go wrong while a chapter is rewritten.

use vstd::prelude::*;

verus! {

/// The error of `std::fmt::Write`, which the serializer hands on when the
/// buffer it writes to fails.
#[verifier::external_type_specification]
#[verifier::external_body]
pub struct ExFmtError(std::fmt::Error);

/// The one way in which rewriting a chapter fails.
#[derive(Debug)]
pub enum Error {
    /// The serializer rejected the rewritten stream; the cause is its error.
    SerializationFailed(std::fmt::Error),
}

impl Error {
    /// What went wrong, in words.
    pub fn message(&self) -> (text: &'static str)
        ensures
            text@ == "Markdown serialization failed"@,
    {
        match self {
            Error::SerializationFailed(_) => "Markdown serialization failed",
        }
    }
}

} // verus!
