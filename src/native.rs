//! A proof bundled with what it proves.
use crate::field::Scalar;
use crate::protocol::Protocol;
use vstd::prelude::*;

verus! {

/// A protocol, its public statements (one sequence per column) and the
/// proof bytes.
pub struct Snark {
    pub protocol: Protocol,
    pub statements: Vec<Vec<Scalar>>,
    pub proof: Vec<u8>,
}

impl Snark {
    pub fn new(protocol: Protocol, statements: Vec<Vec<Scalar>>, proof: Vec<u8>) -> (r: Snark)
        ensures
            r.protocol == protocol,
            r.statements == statements,
            r.proof == proof,
    {
        Snark { protocol, statements, proof }
    }
}

} // verus!
