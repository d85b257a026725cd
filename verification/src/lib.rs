//! Voting methods over ranked-preference profiles.
//!
//! A [`Preference`] holds one full ballot per voter; every ballot must rank
//! the same fixed candidate set.  [`Preference::audit`] checks that shape,
//! positional rules ([`plurality`], [`borda`], and the generic
//! [`positional_voting`]) turn a profile into a consensus ranking, and
//! [`random_dictator`] adopts one uniformly chosen voter's ballot.

use vstd::prelude::*;

pub mod model;
pub mod profile;
pub mod rank;
pub mod voting;
pub mod dictator;
pub mod laws;

pub use rank::{argmax, max_of, rank};
pub use voting::{borda, plurality, positional_voting};
pub use dictator::{dictator_pick, random_dictator};

verus! {

/// Why a profile failed validation.
#[derive(Clone, Copy, Debug, PartialEq, Eq, Structural)]
pub enum ValidationError {
    /// The ballot at this index does not have the profile's ballot length.
    LengthMismatch(usize),
    /// The two ballots at these indices do not rank the same candidate set.
    SetMismatch(usize, usize),
}

/// Why an aggregation call produced no ranking.
#[derive(Clone, Copy, Debug, PartialEq, Eq, Structural)]
pub enum AggregationError {
    /// The profile failed validation.
    Invalid(ValidationError),
    /// The weight vector's length does not match the ballot length.
    InvalidWeights,
    /// The profile holds no ballots at all.
    EmptyProfile,
}

/// A ranking produced by a voting rule, best to worst.
#[derive(Debug)]
pub struct Results<T>(pub Vec<T>);

/// A preference profile: one full ballot per voter, most preferred first.
#[derive(Debug)]
pub struct Preference<T>(pub Vec<Vec<T>>);

impl<T> View for Preference<T> {
    type V = Seq<Seq<T>>;

    open spec fn view(&self) -> Seq<Seq<T>> {
        self.0@.map(|i: int, b: Vec<T>| b@)
    }
}

impl<T> View for Results<T> {
    type V = Seq<T>;

    open spec fn view(&self) -> Seq<T> {
        self.0@
    }
}

} // verus!
