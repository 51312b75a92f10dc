//! The ways in which input is refused.

use vstd::prelude::*;
use vstd::std_specs::convert::FromSpecImpl;

verus! {

/// Why a byte string was not accepted.
#[derive(Clone, Copy, Debug, PartialEq, Eq, Structural)]
pub enum FormatError {
    /// A fixed-width signature did not have twice the length of a field
    /// element.
    LengthMismatch,
    /// A byte string was not the DER encoding of a sequence of two
    /// non-negative integers.
    Malformed,
    /// An integer was too large: it did not fit the width of a field element,
    /// or it was not a scalar of the curve.
    OutOfRange,
}

/// The error of the `signature` crate. It tells nothing of its cause, so
/// that a failure leaks nothing about a key.
#[verifier::external_type_specification]
#[verifier::external_body]
pub struct ExSignatureError(signature::Error);

/// `signature::Error::new` returns an error without a source. Nothing is
/// claimed of it: the type shows nothing.
pub assume_specification[ signature::Error::new ]() -> (opaque: signature::Error)
;

impl From<FormatError> for signature::Error {
    /// The error of the `signature` crate, for callers that work with its
    /// traits. Which refusal it was is dropped.
    fn from(refusal: FormatError) -> (opaque: signature::Error) {
        signature::Error::new()
    }
}

/// Nothing can be said of a `signature::Error`, so there is no `from_spec`
/// to obey.
impl FromSpecImpl<FormatError> for signature::Error {
    open spec fn obeys_from_spec() -> bool {
        false
    }

    open spec fn from_spec(refusal: FormatError) -> signature::Error {
        arbitrary()
    }
}

} // verus!
