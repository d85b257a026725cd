//! Positional voting: accumulate one weight per ballot position for each
//! candidate, then rank candidates by total score.  Plurality and the
//! Borda count are weight-vector configurations of the same engine.

use vstd::prelude::*;
use vstd::laws_eq::obeys_concrete_eq;
use crate::AggregationError;
use crate::Preference;
use crate::Results;
use crate::model::{
    audit_error_at, borda_weights, clone_faithful, find_first, lemma_find_first,
    lemma_find_first_at, lemma_score_bound, plurality_weights, ranks_before, score, score_upto,
    wf_profile,
};
use crate::rank::{ints_of_128, is_ranking, lemma_ranking_complete, rank_scores};

verus! {

/// The conditions under which an aggregation call returns a ranking: a
/// non-empty, well-formed profile and a weight entry per ballot position.
pub open spec fn aggregation_ok<T>(p: Seq<Seq<T>>, w: Seq<i64>) -> bool {
    p.len() > 0 && wf_profile(p) && w.len() == p[0].len()
}

/// What a returned ranking is: one entry per candidate, each candidate
/// exactly once, ordered by descending total score with ties broken by
/// first appearance in ballot 0.
pub open spec fn is_outcome<T>(p: Seq<Seq<T>>, w: Seq<i64>, res: Seq<T>) -> bool {
    &&& res.len() == p[0].len()
    &&& res.no_duplicates()
    &&& res.to_set() == p[0].to_set()
    &&& forall|a: int, b: int|
        0 <= a < b < res.len() ==> ranks_before(p, w, #[trigger] res[a], #[trigger] res[b])
}

/// Position of candidate `x` within ballot `b` (the first occurrence).
fn find_in<T: PartialEq>(b: &Vec<T>, x: &T) -> (r: usize)
    requires
        obeys_concrete_eq::<T>(),
        b@.contains(*x),
    ensures
        r as int == find_first(b@, *x),
        (r as int) < b@.len(),
        b@[r as int] == *x,
{
    proof {
        reveal(vstd::laws_eq::obeys_concrete_eq);
        lemma_find_first(b@, *x);
    }
    let mut k: usize = 0;
    while k < b.len()
        invariant
            obeys_concrete_eq::<T>(),
            k <= b@.len(),
            forall|q: int| 0 <= q < k ==> b@[q] != *x,
        decreases b@.len() - k,
    {
        proof {
            reveal(vstd::laws_eq::obeys_concrete_eq);
        }
        if b[k] == *x {
            proof {
                lemma_find_first(b@, *x);
            }
            return k;
        }
        k += 1;
    }
    proof {
        let q = choose|q: int| 0 <= q < b@.len() && b@[q] == *x;
        assert(false);
    }
    0
}

/// Runs one positional-scoring election: audits the profile, accumulates
/// `weights[j]` for the candidate each ballot ranks at position `j`, and
/// ranks candidates by total score, ties going to the candidate that
/// appears first in ballot 0.
pub fn positional_voting<T>(pref: Preference<T>, weights: Vec<i64>) -> (r: Result<
    Results<T>,
    AggregationError,
>) where T: std::cmp::PartialEq + std::cmp::Eq + std::hash::Hash + std::clone::Clone
    requires
        obeys_concrete_eq::<T>(),
        clone_faithful::<T>(),
    ensures
        (r matches Ok(res)) <==> aggregation_ok(pref@, weights@),
        (match r {
            Ok(res) => is_outcome(pref@, weights@, res@),
            Err(AggregationError::EmptyProfile) => pref@.len() == 0,
            Err(AggregationError::Invalid(e)) => pref@.len() > 0 && audit_error_at(pref@, e),
            Err(AggregationError::InvalidWeights) => pref@.len() > 0 && wf_profile(pref@)
                && weights@.len() != pref@[0].len(),
        }),
{
    let ghost p = pref@;
    let ghost w = weights@;
    assert(forall|q: int| 0 <= q < p.len() ==> p[q] == pref.0@[q]@);

    let n: usize = pref.0.len();
    if n == 0 {
        return Err(AggregationError::EmptyProfile);
    }
    match pref.audit() {
        Err(e) => {
            return Err(AggregationError::Invalid(e));
        },
        Ok(()) => {},
    }
    let m: usize = pref.0[0].len();
    if weights.len() != m {
        return Err(AggregationError::InvalidWeights);
    }

    let mut scores: Vec<i128> = Vec::new();
    while scores.len() < m
        invariant
            scores@.len() <= m,
            forall|k: int| 0 <= k < scores@.len() ==> scores@[k] == 0i128,
        decreases m - scores.len(),
    {
        scores.push(0);
    }

    let mut i: usize = 0;
    while i < n
        invariant
            obeys_concrete_eq::<T>(),
            p == pref@,
            w == weights@,
            forall|q: int| 0 <= q < p.len() ==> p[q] == pref.0@[q]@,
            wf_profile(p),
            n == p.len(),
            m == p[0].len(),
            w.len() == m,
            i <= n,
            scores@.len() == m,
            forall|k: int|
                0 <= k < m ==> #[trigger] scores@[k] as int == score_upto(p, w, p[0][k], i as int),
        decreases n - i,
    {
        proof {
            assert forall|k: int| 0 <= k < m implies 0 <= find_first(p[i as int], p[0][k]) by {
                lemma_find_first(p[i as int], p[0][k]);
            }
        }
        let mut j: usize = 0;
        while j < m
            invariant
                obeys_concrete_eq::<T>(),
                p == pref@,
                w == weights@,
                forall|q: int| 0 <= q < p.len() ==> p[q] == pref.0@[q]@,
                wf_profile(p),
                n == p.len(),
                m == p[0].len(),
                w.len() == m,
                i < n,
                j <= m,
                scores@.len() == m,
                forall|k: int|
                    0 <= k < m ==> #[trigger] scores@[k] as int == score_upto(p, w, p[0][k], i as int)
                        + (if find_first(p[i as int], p[0][k]) < j as int {
                            w[find_first(p[i as int], p[0][k])] as int
                        } else {
                            0
                        }),
            decreases m - j,
        {
            proof {
                assert(p[i as int][j as int] == pref.0@[i as int]@[j as int]);
                assert(p[i as int].contains(p[i as int][j as int]));
                assert(p[i as int].to_set().contains(p[i as int][j as int]));
                assert(p[0].to_set().contains(p[i as int][j as int]));
                assert(p[0].contains(p[i as int][j as int]));
            }
            let k = find_in(&pref.0[0], &pref.0[i][j]);
            let ghost c = p[0][k as int];
            proof {
                lemma_find_first_at(p[i as int], c, j as int);
                lemma_score_bound(p, w, c, i as int);
                assert(n <= usize::MAX);
                assert(score_upto(p, w, c, i as int) <= (n - 1) * (i64::MAX as int)) by {
                    assert(i as int * (i64::MAX as int) <= (n - 1) * (i64::MAX as int))
                        by (nonlinear_arith)
                        requires i as int <= n - 1;
                }
                assert(score_upto(p, w, c, i as int) >= (n - 1) * (i64::MIN as int)) by {
                    assert(i as int * (i64::MIN as int) >= (n - 1) * (i64::MIN as int))
                        by (nonlinear_arith)
                        requires i as int <= n - 1;
                }
                assert((n - 1) * (i64::MAX as int) + (i64::MAX as int) <= i128::MAX)
                    by (nonlinear_arith)
                    requires n <= usize::MAX, usize::MAX <= u64::MAX;
                assert((n - 1) * (i64::MIN as int) + (i64::MIN as int) >= i128::MIN)
                    by (nonlinear_arith)
                    requires n <= usize::MAX, usize::MAX <= u64::MAX;
            }
            let updated = scores[k] + (weights[j] as i128);
            scores[k] = updated;
            proof {
                assert forall|k2: int| 0 <= k2 < m implies #[trigger] scores@[k2] as int
                    == score_upto(p, w, p[0][k2], i as int) + (if find_first(
                    p[i as int],
                    p[0][k2],
                ) < j as int + 1 {
                    w[find_first(p[i as int], p[0][k2])] as int
                } else {
                    0
                }) by {
                    if k2 == k as int {
                        assert(find_first(p[i as int], c) == j as int);
                    } else {
                        assert(p[0][k2] != c);
                        if p[i as int].contains(p[0][k2]) {
                            lemma_find_first(p[i as int], p[0][k2]);
                            assert(find_first(p[i as int], p[0][k2]) != j as int);
                        } else {
                            lemma_find_first(p[i as int], p[0][k2]);
                            assert(find_first(p[i as int], p[0][k2]) == p[i as int].len());
                        }
                    }
                }
            }
            j += 1;
        }
        proof {
            assert forall|k: int| 0 <= k < m implies #[trigger] scores@[k] as int == score_upto(
                p,
                w,
                p[0][k],
                i as int + 1,
            ) by {
                assert(p[0].contains(p[0][k]));
                assert(p[0].to_set().contains(p[0][k]));
                assert(p[i as int].to_set().contains(p[0][k]));
                assert(p[i as int].contains(p[0][k]));
                lemma_find_first(p[i as int], p[0][k]);
                assert(find_first(p[i as int], p[0][k]) < m);
            }
        }
        i += 1;
    }

    let ord = rank_scores(&scores);
    proof {
        lemma_ranking_complete(ints_of_128(scores@), ord@);
    }
    let mut res: Vec<T> = Vec::new();
    let mut q: usize = 0;
    while q < m
        invariant
            clone_faithful::<T>(),
            p == pref@,
            forall|t: int| 0 <= t < p.len() ==> p[t] == pref.0@[t]@,
            n == p.len(),
            n > 0,
            m == p[0].len(),
            scores@.len() == m,
            is_ranking(ints_of_128(scores@), ord@),
            q <= m,
            res@.len() == q,
            forall|t: int| 0 <= t < q ==> #[trigger] res@[t] == p[0][ord@[t] as int],
        decreases m - q,
    {
        let idx = ord[q];
        let cand = pref.0[0][idx].clone();
        proof {
            assert(vstd::pervasive::cloned(pref.0@[0]@[idx as int], cand));
            assert(cand == p[0][idx as int]);
        }
        res.push(cand);
        q += 1;
    }

    proof {
        let s = ints_of_128(scores@);
        assert(forall|k: int| 0 <= k < m ==> s[k] == scores@[k] as int);
        assert(res@.no_duplicates()) by {
            assert forall|a: int, b: int| 0 <= a < b < res@.len() implies res@[a] != res@[b] by {
                assert(res@[a] == p[0][ord@[a] as int]);
                assert(res@[b] == p[0][ord@[b] as int]);
                assert(ord@[a] != ord@[b]);
            }
        }
        assert(res@.to_set() =~= p[0].to_set()) by {
            assert forall|y: T| res@.to_set().contains(y) implies p[0].to_set().contains(y) by {
                let t = choose|t: int| 0 <= t < res@.len() && res@[t] == y;
                assert(p[0][ord@[t] as int] == y);
                assert(p[0].contains(y));
            }
            assert forall|y: T| p[0].to_set().contains(y) implies res@.to_set().contains(y) by {
                let t = choose|t: int| 0 <= t < p[0].len() && p[0][t] == y;
                assert(ord@.contains(t as usize));
                let v = choose|v: int| 0 <= v < ord@.len() && ord@[v] == t as usize;
                assert(res@[v] == y);
                assert(res@.contains(y));
            }
        }
        assert forall|a: int, b: int| 0 <= a < b < res@.len() implies ranks_before(
            p,
            w,
            #[trigger] res@[a],
            #[trigger] res@[b],
        ) by {
            let ia = ord@[a] as int;
            let ib = ord@[b] as int;
            assert(crate::model::outranks(s[ia], ia, s[ib], ib));
            assert(score(p, w, res@[a]) == scores@[ia] as int);
            assert(score(p, w, res@[b]) == scores@[ib] as int);
            lemma_find_first_at(p[0], p[0][ia], ia);
            lemma_find_first_at(p[0], p[0][ib], ib);
        }
    }
    Ok(Results(res))
}

/// The plurality rule: only first preferences count, one point each.
pub fn plurality<T>(pref: Preference<T>) -> (r: Result<Results<T>, AggregationError>) where T: std::cmp::PartialEq + std::cmp::Eq + std::hash::Hash + std::clone::Clone
    requires
        obeys_concrete_eq::<T>(),
        clone_faithful::<T>(),
    ensures
        (r matches Ok(res)) <==> (pref@.len() > 0 && wf_profile(pref@)),
        (match r {
            Ok(res) => is_outcome(pref@, plurality_weights(pref@[0].len() as int), res@),
            Err(AggregationError::EmptyProfile) => pref@.len() == 0,
            Err(AggregationError::Invalid(e)) => pref@.len() > 0 && audit_error_at(pref@, e),
            Err(AggregationError::InvalidWeights) => false,
        }),
{
    let n: usize = pref.0.len();
    if n == 0 {
        return Err(AggregationError::EmptyProfile);
    }
    let m: usize = pref.0[0].len();
    let ghost p = pref@;
    proof {
        assert(p[0] == pref.0@[0]@);
    }
    let mut weights: Vec<i64> = Vec::new();
    while weights.len() < m
        invariant
            weights@.len() <= m,
            forall|k: int|
                0 <= k < weights@.len() ==> #[trigger] weights@[k] == (if k == 0 {
                    1i64
                } else {
                    0i64
                }),
        decreases m - weights.len(),
    {
        if weights.len() == 0 {
            weights.push(1);
        } else {
            weights.push(0);
        }
    }
    proof {
        assert(weights@ =~= plurality_weights(m as int));
    }
    positional_voting(pref, weights)
}

/// The Borda count: the top position scores `m` points, the bottom one 1.
pub fn borda<T>(pref: Preference<T>) -> (r: Result<Results<T>, AggregationError>) where T: std::cmp::PartialEq + std::cmp::Eq + std::hash::Hash + std::clone::Clone
    requires
        obeys_concrete_eq::<T>(),
        clone_faithful::<T>(),
        pref@.len() > 0 ==> pref@[0].len() <= i64::MAX,
    ensures
        (r matches Ok(res)) <==> (pref@.len() > 0 && wf_profile(pref@)),
        (match r {
            Ok(res) => is_outcome(pref@, borda_weights(pref@[0].len() as int), res@),
            Err(AggregationError::EmptyProfile) => pref@.len() == 0,
            Err(AggregationError::Invalid(e)) => pref@.len() > 0 && audit_error_at(pref@, e),
            Err(AggregationError::InvalidWeights) => false,
        }),
{
    let n: usize = pref.0.len();
    if n == 0 {
        return Err(AggregationError::EmptyProfile);
    }
    let m: usize = pref.0[0].len();
    let ghost p = pref@;
    proof {
        assert(p[0] == pref.0@[0]@);
    }
    let mut weights: Vec<i64> = Vec::new();
    let mut i: usize = 0;
    while i < m
        invariant
            p == pref@,
            p.len() > 0,
            m == p[0].len(),
            m <= i64::MAX,
            i <= m,
            weights@.len() == i,
            forall|k: int| 0 <= k < i ==> #[trigger] weights@[k] == (m - k) as i64,
        decreases m - i,
    {
        weights.push((m - i) as i64);
        i += 1;
    }
    proof {
        assert(weights@ =~= borda_weights(m as int));
    }
    positional_voting(pref, weights)
}

} // verus!
