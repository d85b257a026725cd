//! Random dictatorship: validate the profile, then adopt one uniformly
//! chosen voter's full ballot as the outcome.

use vstd::prelude::*;
use vstd::laws_eq::obeys_concrete_eq;
use crate::AggregationError;
use crate::Preference;
use crate::Results;
use crate::model::{audit_error_at, wf_profile};

verus! {

/// Relies on `rand::random_range` over `0..n`: it panics only on an empty
/// range and returns a uniformly distributed value inside the range, so
/// the result is always below `n`.
#[verifier::external_body]
fn pick_index(n: usize) -> (r: usize)
    requires
        n > 0,
    ensures
        r < n,
{
    rand::random_range(0..n)
}

/// The dictatorship outcome once the dictating voter is fixed: validates
/// the profile, then returns ballot `idx` verbatim.
pub fn dictator_pick<T>(pref: Preference<T>, idx: usize) -> (r: Result<
    Results<T>,
    AggregationError,
>) where T: std::cmp::PartialEq + std::cmp::Eq + std::hash::Hash + std::clone::Clone
    requires
        obeys_concrete_eq::<T>(),
        pref@.len() > 0 ==> (idx as int) < pref@.len(),
    ensures
        (r matches Ok(res)) <==> (pref@.len() > 0 && wf_profile(pref@)),
        (match r {
            Ok(res) => res@ == pref@[idx as int],
            Err(AggregationError::EmptyProfile) => pref@.len() == 0,
            Err(AggregationError::Invalid(e)) => pref@.len() > 0 && audit_error_at(pref@, e),
            Err(AggregationError::InvalidWeights) => false,
        }),
{
    let ghost p = pref@;
    assert(forall|q: int| 0 <= q < p.len() ==> p[q] == pref.0@[q]@);
    let n: usize = pref.0.len();
    if n == 0 {
        return Err(AggregationError::EmptyProfile);
    }
    match pref.audit() {
        Err(e) => {
            return Err(AggregationError::Invalid(e));
        },
        Ok(()) => {},
    }
    let mut rows = pref.0;
    let ballot = rows.swap_remove(idx);
    Ok(Results(ballot))
}

/// The Random Dictator rule: validates the profile, draws one voter index
/// uniformly at random, and returns that voter's ballot.  The outcome is
/// always one of the profile's own ballots.
pub fn random_dictator<T>(pref: Preference<T>) -> (r: Result<Results<T>, AggregationError>) where
    T: std::cmp::PartialEq + std::cmp::Eq + std::hash::Hash + std::clone::Clone
    requires
        obeys_concrete_eq::<T>(),
    ensures
        (r matches Ok(res)) <==> (pref@.len() > 0 && wf_profile(pref@)),
        (match r {
            Ok(res) => exists|i: int| 0 <= i < pref@.len() && res@ == pref@[i],
            Err(AggregationError::EmptyProfile) => pref@.len() == 0,
            Err(AggregationError::Invalid(e)) => pref@.len() > 0 && audit_error_at(pref@, e),
            Err(AggregationError::InvalidWeights) => false,
        }),
{
    let ghost p = pref@;
    let n: usize = pref.0.len();
    if n == 0 {
        return Err(AggregationError::EmptyProfile);
    }
    let idx = pick_index(n);
    let r = dictator_pick(pref, idx);
    proof {
        if r is Ok {
            assert(r->Ok_0@ == p[idx as int]);
            assert(exists|i: int| 0 <= i < p.len() && r->Ok_0@ == p[i]);
        }
    }
    r
}

} // verus!
