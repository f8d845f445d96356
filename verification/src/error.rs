//! Errors of the library.

use vstd::prelude::*;
use crate::text::{decimal, push_decimal};

verus! {

/// Errors produced by the library. `V` is the type of the numeric value that
/// an invalid step size or a diverging population carries.
#[derive(Debug)]
pub enum Error<V> {
    /// No species have been added to the ecosystem.
    EmptyEcosystem,
    /// A species index was out of range.
    InvalidSpeciesIndex(usize),
    /// The integration step size must be positive.
    InvalidStepSize(V),
    /// A population went negative or diverged to infinity/NaN.
    DivergentPopulation { species: String, value: V },
    /// Interaction matrix dimension mismatch.
    InteractionMatrixMismatch { expected: usize, got: usize },
}

/// The message of an error; `value` is the numeric value that an invalid
/// step size or a diverging population carries, as the caller prints it.
pub open spec fn error_message<V>(e: Error<V>, value: Seq<char>) -> Seq<char> {
    match e {
        Error::EmptyEcosystem => "ecosystem has no species"@,
        Error::InvalidSpeciesIndex(i) => "species index "@ + decimal(i as nat) + " out of range"@,
        Error::InvalidStepSize(_) => "invalid step size: "@ + value,
        Error::DivergentPopulation { species, value: _ } => "population for '"@ + species@
            + "' diverged: "@ + value,
        Error::InteractionMatrixMismatch { expected, got } => "interaction matrix mismatch: expected "@
            + decimal(expected as nat) + " entries, got "@ + decimal(got as nat),
    }
}

impl<V> Error<V> {
    /// The human-readable message of the error. `value` is the printed form
    /// of the numeric value that `InvalidStepSize` and `DivergentPopulation`
    /// carry; the other variants ignore it.
    pub fn message(&self, value: &str) -> (msg: String)
        ensures
            msg@ == error_message(*self, value@),
    {
        let mut s = String::new();
        match self {
            Error::EmptyEcosystem => {
                s.append("ecosystem has no species");
            },
            Error::InvalidSpeciesIndex(i) => {
                s.append("species index ");
                push_decimal(&mut s, *i as u64);
                s.append(" out of range");
            },
            Error::InvalidStepSize(_) => {
                s.append("invalid step size: ");
                s.append(value);
            },
            Error::DivergentPopulation { species, value: _ } => {
                s.append("population for '");
                s.append(species.as_str());
                s.append("' diverged: ");
                s.append(value);
            },
            Error::InteractionMatrixMismatch { expected, got } => {
                s.append("interaction matrix mismatch: expected ");
                push_decimal(&mut s, *expected as u64);
                s.append(" entries, got ");
                push_decimal(&mut s, *got as u64);
            },
        }
        s
    }
}

} // verus!
