//! Native accumulation engine for PLONK proofs with KZG / SHPLONK openings.
//!
//! A proof is read from a Fiat-Shamir transcript, its opening claims are
//! batched by rotation into two multi-scalar multiplications, and the pair
//! is kept as an accumulator whose pairing check can be deferred and merged
//! with others.
use vstd::prelude::*;

pub mod field;
pub mod msm;
pub mod expression;
pub mod domain;
pub mod protocol;
pub mod transcript;
pub mod plonk;
pub mod strategy;
pub mod native;

verus! {

/// `std::io::ErrorKind`, carried inside transcript errors.
#[verifier::external_type_specification]
pub struct ExErrorKind(std::io::ErrorKind);

/// The ways in which reading or checking a proof can fail.
#[derive(Debug)]
pub enum Error {
    /// The number of statement columns differs from the protocol's.
    InvalidInstances,
    /// An expression or an opening refers to a query that has no value.
    MissingQuery(expression::Query),
    /// An expression refers to a challenge that was never squeezed.
    MissingChallenge(usize),
    /// The proof stream ended early or held a malformed encoding.
    Transcript(std::io::ErrorKind, String),
}

} // verus!
