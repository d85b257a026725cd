//! Library-wide laws: properties that relate several calls.

use vstd::prelude::*;
use crate::Preference;
use crate::ValidationError;
use crate::model::audit_error_at;
use crate::model::wf_profile;
use crate::profile::lemma_wf_iff_checks;

verus! {

/// Auditing is idempotent and free of hidden state: any two results that
/// `audit` can return for the same profile are the same result, so a
/// repeated audit yields the same success or failure outcome.
pub proof fn lemma_audit_deterministic<T>(
    pref: Preference<T>,
    r1: Result<(), ValidationError>,
    r2: Result<(), ValidationError>,
) where T: std::cmp::PartialEq + std::cmp::Eq + std::hash::Hash + std::clone::Clone
    requires
        call_ensures(Preference::<T>::audit, (&pref,), r1),
        call_ensures(Preference::<T>::audit, (&pref,), r2),
    ensures
        r1 == r2,
{
    let p = pref@;
    lemma_audit_result_unique(p, r1, r2);
}

/// Any two results satisfying the audit contract for one profile agree:
/// the contract pins the outcome down completely.
proof fn lemma_audit_result_unique<T>(
    p: Seq<Seq<T>>,
    r1: Result<(), ValidationError>,
    r2: Result<(), ValidationError>,
)
    requires
        ((r1 matches Ok(())) <==> wf_profile(p)),
        (r1 matches Err(e) ==> audit_error_at(p, e)),
        ((r2 matches Ok(())) <==> wf_profile(p)),
        (r2 matches Err(e) ==> audit_error_at(p, e)),
    ensures
        r1 == r2,
{
    match (r1, r2) {
        (Ok(a), Ok(b)) => {
            assert(a =~= b);
            assert(r1 == r2);
        },
        (Err(e1), Err(e2)) => {
            lemma_audit_error_unique(p, e1, e2);
            assert(r1 == r2);
        },
        (Ok(()), Err(e)) => {
            match e {
                ValidationError::LengthMismatch(i) => {
                    assert(p[i as int].len() == p[0].len());
                },
                ValidationError::SetMismatch(i, j) => {
                    lemma_wf_iff_checks(p);
                    assert(crate::model::pair_ok(p, i as int, j as int));
                },
            }
        },
        (Err(e), Ok(())) => {
            match e {
                ValidationError::LengthMismatch(i) => {
                    assert(p[i as int].len() == p[0].len());
                },
                ValidationError::SetMismatch(i, j) => {
                    lemma_wf_iff_checks(p);
                    assert(crate::model::pair_ok(p, i as int, j as int));
                },
            }
        },
    }
}

/// The audit error for a profile is unique: it names the first offending
/// ballot, or ballot pair, in scan order.
proof fn lemma_audit_error_unique<T>(p: Seq<Seq<T>>, e1: ValidationError, e2: ValidationError)
    requires
        audit_error_at(p, e1),
        audit_error_at(p, e2),
    ensures
        e1 == e2,
{
    match (e1, e2) {
        (ValidationError::LengthMismatch(i1), ValidationError::LengthMismatch(i2)) => {
            if i1 < i2 {
                assert(p[i1 as int].len() == p[0].len());
            }
            if i2 < i1 {
                assert(p[i2 as int].len() == p[0].len());
            }
        },
        (ValidationError::LengthMismatch(i1), ValidationError::SetMismatch(i2, j2)) => {
            assert(p[i1 as int].len() == p[0].len());
        },
        (ValidationError::SetMismatch(i1, j1), ValidationError::LengthMismatch(i2)) => {
            assert(p[i2 as int].len() == p[0].len());
        },
        (ValidationError::SetMismatch(i1, j1), ValidationError::SetMismatch(i2, j2)) => {
            if i1 < i2 || (i1 == i2 && j1 < j2) {
                assert(crate::model::pair_ok(p, i1 as int, j1 as int));
            }
            if i2 < i1 || (i1 == i2 && j2 < j1) {
                assert(crate::model::pair_ok(p, i2 as int, j2 as int));
            }
        },
    }
}

} // verus!
