//! Operations of the BN254 curve on byte strings, done by a GPU backend.

pub mod backend;
pub mod curve;
pub mod field;
pub mod laws;

use vstd::prelude::*;

verus! {

/// BN254 precompile error classification.
#[derive(Debug)]
pub enum Bn254Error {
    /// Input bytes are not a valid field element.
    InvalidFieldElement,
    /// Input point is not on curve or not in the correct subgroup.
    InvalidPoint,
    /// Icicle backend error.
    Backend(String),
}

impl Bn254Error {
    /// The error as a line of text.
    pub fn message(&self) -> (text: String)
        ensures
            text@ == (match *self {
                Bn254Error::InvalidFieldElement => "bn254 invalid field element"@,
                Bn254Error::InvalidPoint => "bn254 invalid curve point"@,
                Bn254Error::Backend(reason) => "bn254 backend error: "@ + reason@,
            }),
    {
        match self {
            Bn254Error::InvalidFieldElement => "bn254 invalid field element".to_owned(),
            Bn254Error::InvalidPoint => "bn254 invalid curve point".to_owned(),
            Bn254Error::Backend(reason) => {
                let mut text: String = "bn254 backend error: ".to_owned();
                text.append(reason.as_str());
                text
            },
        }
    }
}

} // verus!
