//! The errors of the toolkit.
use vstd::prelude::*;

verus! {

/// An error of a cryptographic primitive or argument.
#[derive(Clone, Debug, PartialEq, Eq)]
pub enum CryptoError {
    /// A proof did not verify; the string names the argument that rejected it.
    ProofVerificationError(String),
    /// A commitment was asked for more values than the commit key has generators:
    /// scheme name, number of values, number of generators.
    CommitmentLengthError(String, usize, usize),
    /// Inputs whose lengths do not fit together.
    InvalidLength,
    /// Bytes that do not decode to a value.
    SerializationError,
}

/// An error of the card protocol layer, which carries the error of the
/// primitive that failed unchanged.
#[derive(Clone, Debug, PartialEq, Eq)]
pub enum CardProtocolError {
    ProofVerificationError(CryptoError),
}

/// `e` is the verification error of the argument called `name`.
pub open spec fn is_rejection(e: CryptoError, name: Seq<char>) -> bool {
    match e {
        CryptoError::ProofVerificationError(s) => s@ == name,
        _ => false,
    }
}

/// `e` is the length error of the scheme called `name`, asked for `k` values
/// with `n` generators.
pub open spec fn is_length_error(e: CryptoError, name: Seq<char>, k: usize, n: usize) -> bool {
    match e {
        CryptoError::CommitmentLengthError(s, a, b) => s@ == name && a == k && b == n,
        _ => false,
    }
}

/// The verification error of the argument called `name`.
pub fn rejection(name: &str) -> (e: CryptoError)
    ensures
        is_rejection(e, name@),
{
    CryptoError::ProofVerificationError(name.to_owned())
}

} // verus!
