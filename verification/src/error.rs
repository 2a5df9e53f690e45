//! The ways in which sharing, recovering and parsing fail.

use vstd::prelude::*;

verus! {

/// Why an operation of the library failed.
#[derive(Debug, PartialEq, Eq, Clone, Copy)]
pub enum Error {
    /// Fewer shares were given than the threshold asks for.
    NotEnoughShares,
    /// The secret has more bits than the generator was built for.
    SecretTooLong,
    /// A line does not have three parts separated by `:`.
    StringFormatError,
    /// Two lines do not name the same public modulus.
    N0NotSameInAllShares,
    /// The text holds no line.
    NoSharesInString,
    /// A part is not a base-32 number.
    NumberFormatError,
    /// A run-length encoded part is malformed.
    ZeroRleDecodingError(crate::zero_rle::Error),
    /// No run of primes that satisfies the Asmuth–Bloom inequality was
    /// found in three attempts.
    CannotSatisfyABCondition,
}

} // verus!
