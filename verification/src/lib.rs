//! Asmuth–Bloom threshold secret sharing over arbitrary-precision integers.
//!
//! A secret is split into `n` shares of which any `t` recover it by the
//! Chinese Remainder Theorem. Big-integer arithmetic is done by `num`; every
//! call into it goes through the contracts in [`bignum`].

pub mod args;
pub mod base32;
pub mod bignum;
pub mod bytes;
pub mod codec;
pub mod error;
pub mod number_theory;
pub mod ops;
pub mod primality;
pub mod primes;
pub mod recover;
pub mod share;
pub mod text;
pub mod zero_rle;

pub use crate::error::Error;
pub use crate::primes::BigPrimesGenerator;
pub use crate::recover::AsmuthBloomRecover;
pub use crate::share::{ABSharedSecret, AsmuthBloomShare};
