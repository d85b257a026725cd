//! Profile validation: `Preference::audit` checks that every ballot is a
//! well-formed permutation of the same candidate set.

use vstd::prelude::*;
use vstd::laws_eq::obeys_concrete_eq;
use vstd::seq_lib::seq_to_set_is_finite;
use vstd::set_lib::lemma_len_intersect;
use vstd::set_lib::lemma_subset_equality;
use crate::Preference;
use crate::ValidationError;
use crate::model::{all_pairs_ok, audit_error_at, lens_ok_upto, pair_ok, pairs_ok_before, wf_profile};

verus! {

/// A profile passes the audit's two scans (all lengths equal, all ballot
/// pairs sharing a full candidate set) exactly when it is well formed.
pub proof fn lemma_wf_iff_checks<T>(p: Seq<Seq<T>>)
    requires
        p.len() > 0,
        lens_ok_upto(p, p.len() as int),
    ensures
        wf_profile(p) <==> all_pairs_ok(p),
{
    broadcast use seq_to_set_is_finite;

    let m = p[0].len();
    if all_pairs_ok(p) {
        assert forall|i: int| 0 <= i < p.len() implies (#[trigger] p[i]).no_duplicates() by {
            assert(pair_ok(p, i, i));
            assert(p[i].to_set().intersect(p[i].to_set()) =~= p[i].to_set());
            p[i].lemma_no_dup_set_cardinality();
        }
        assert forall|i: int| 0 <= i < p.len() implies (#[trigger] p[i]).to_set()
            == p[0].to_set() by {
            assert(pair_ok(p, 0, i));
            let s0 = p[0].to_set();
            let si = p[i].to_set();
            let inter = s0.intersect(si);
            p[0].unique_seq_to_set();
            p[i].unique_seq_to_set();
            assert(inter.subset_of(s0));
            lemma_len_intersect(s0, si);
            lemma_subset_equality(inter, s0);
            assert(s0.intersect(si) =~= si.intersect(s0));
            assert(inter.subset_of(si));
            lemma_subset_equality(inter, si);
        }
    }
    if wf_profile(p) {
        assert forall|a: int, b: int| 0 <= a <= b < p.len() implies #[trigger] pair_ok(
            p,
            a,
            b,
        ) by {
            assert(p[a].to_set() == p[0].to_set());
            assert(p[b].to_set() == p[0].to_set());
            assert(p[a].to_set().intersect(p[b].to_set()) =~= p[0].to_set());
            p[0].unique_seq_to_set();
        }
    }
}

/// Whether `x` occurs among the first `upto` entries of `b`.
fn contains_upto<T: PartialEq>(b: &Vec<T>, x: &T, upto: usize) -> (r: bool)
    requires
        obeys_concrete_eq::<T>(),
        upto <= b@.len(),
    ensures
        r <==> exists|k: int| 0 <= k < upto && b@[k] == *x,
{
    proof {
        reveal(vstd::laws_eq::obeys_concrete_eq);
    }
    let mut k: usize = 0;
    while k < upto
        invariant
            obeys_concrete_eq::<T>(),
            k <= upto <= b@.len(),
            forall|q: int| 0 <= q < k ==> b@[q] != *x,
        decreases upto - k,
    {
        proof {
            reveal(vstd::laws_eq::obeys_concrete_eq);
        }
        if b[k] == *x {
            return true;
        }
        k += 1;
    }
    false
}

/// The number of distinct values the two ballots share: the cardinality
/// of the intersection of their candidate sets.
fn common_count<T: PartialEq>(bi: &Vec<T>, bj: &Vec<T>) -> (r: usize)
    requires
        obeys_concrete_eq::<T>(),
    ensures
        r == bi@.to_set().intersect(bj@.to_set()).len(),
{
    broadcast use seq_to_set_is_finite;

    let mut c: usize = 0;
    let mut k: usize = 0;
    proof {
        assert(bi@.subrange(0, 0) =~= Seq::<T>::empty());
        assert(Seq::<T>::empty().to_set() =~= Set::<T>::empty());
        assert(Set::<T>::empty().intersect(bj@.to_set()) =~= Set::<T>::empty());
    }
    while k < bi.len()
        invariant
            obeys_concrete_eq::<T>(),
            k <= bi@.len(),
            c <= k,
            c == bi@.subrange(0, k as int).to_set().intersect(bj@.to_set()).len(),
        decreases bi@.len() - k,
    {
        let ghost pre = bi@.subrange(0, k as int);
        let ghost inter = pre.to_set().intersect(bj@.to_set());
        let fresh = !contains_upto(bi, &bi[k], k);
        let present = contains_upto(bj, &bi[k], bj.len());
        proof {
            let x = bi@[k as int];
            assert(bi@.subrange(0, k as int + 1) =~= pre.push(x));
            crate::model::lemma_push_to_set(pre, x);
            assert(forall|q: int| 0 <= q < k ==> pre[q] == bi@[q]);
            if fresh && present {
                let q = choose|q: int| 0 <= q < bj@.len() && bj@[q] == x;
                assert(bj@.contains(x));
                assert(bj@.to_set().contains(x));
                assert(!pre.contains(x)) by {
                    if pre.contains(x) {
                        let w = choose|w: int| 0 <= w < pre.len() && pre[w] == x;
                        assert(bi@[w] == x);
                    }
                }
                assert(bi@.subrange(0, k as int + 1).to_set().intersect(bj@.to_set()) =~= inter.insert(
                    x,
                ));
                assert(!inter.contains(x));
                assert(inter.finite());
                assert(inter.insert(x).len() == inter.len() + 1);
            } else {
                assert(bi@.subrange(0, k as int + 1).to_set().intersect(bj@.to_set()) =~= inter)
                    by {
                    if fresh {
                        assert(!bj@.contains(x)) by {
                            if bj@.contains(x) {
                                let w = choose|w: int| 0 <= w < bj@.len() && bj@[w] == x;
                            }
                        }
                        assert(!bj@.to_set().contains(x));
                    } else {
                        let q = choose|q: int| 0 <= q < k && bi@[q] == x;
                        assert(pre[q] == x);
                        assert(pre.contains(x));
                        assert(pre.to_set().contains(x));
                    }
                }
            }
        }
        if fresh && present {
            c += 1;
        }
        k += 1;
    }
    proof {
        assert(bi@.subrange(0, bi@.len() as int) =~= bi@);
    }
    c
}

impl<T> Preference<T> where T: std::cmp::PartialEq + std::cmp::Eq + std::hash::Hash + std::clone::Clone {
    /// Checks that the profile is well formed: every ballot has the length
    /// of the first one, and every ballot ranks the same candidate set.
    /// Succeeds exactly on well-formed profiles, and otherwise reports the
    /// first offending ballot (or pair of ballots) in scan order.
    pub fn audit(&self) -> (r: Result<(), ValidationError>)
        requires
            obeys_concrete_eq::<T>(),
            self@.len() > 0,
        ensures
            (r matches Ok(())) <==> wf_profile(self@),
            (r matches Err(e) ==> audit_error_at(self@, e)),
    {
        let ghost p = self@;
        let n: usize = self.0.len();
        let m: usize = self.0[0].len();
        assert(forall|q: int| 0 <= q < p.len() ==> p[q] == self.0@[q]@);

        let mut i: usize = 0;
        while i < n
            invariant
                n == p.len(),
                m == p[0].len(),
                p == self@,
                i <= n,
                lens_ok_upto(p, i as int),
                forall|q: int| 0 <= q < p.len() ==> p[q] == self.0@[q]@,
            decreases n - i,
        {
            if self.0[i].len() != m {
                proof {
                    assert(p[i as int].len() != p[0].len());
                    assert(!wf_profile(p));
                }
                return Err(ValidationError::LengthMismatch(i));
            }
            i += 1;
        }

        let mut i: usize = 0;
        while i < n
            invariant
                obeys_concrete_eq::<T>(),
                n == p.len(),
                m == p[0].len(),
                p == self@,
                i <= n,
                lens_ok_upto(p, n as int),
                pairs_ok_before(p, i as int, i as int),
                forall|q: int| 0 <= q < p.len() ==> p[q] == self.0@[q]@,
            decreases n - i,
        {
            let mut j: usize = i;
            while j < n
                invariant
                    obeys_concrete_eq::<T>(),
                    n == p.len(),
                    m == p[0].len(),
                    p == self@,
                    i <= j <= n,
                    i < n,
                    lens_ok_upto(p, n as int),
                    pairs_ok_before(p, i as int, j as int),
                    forall|q: int| 0 <= q < p.len() ==> p[q] == self.0@[q]@,
                decreases n - j,
            {
                let c = common_count(&self.0[i], &self.0[j]);
                if c != m {
                    proof {
                        assert(!pair_ok(p, i as int, j as int));
                        lemma_wf_iff_checks(p);
                        assert(!wf_profile(p));
                    }
                    return Err(ValidationError::SetMismatch(i, j));
                }
                proof {
                    assert(pair_ok(p, i as int, j as int));
                    assert(pairs_ok_before(p, i as int, j as int + 1));
                }
                j += 1;
            }
            proof {
                assert(pairs_ok_before(p, i as int + 1, i as int + 1));
            }
            i += 1;
        }
        proof {
            assert(all_pairs_ok(p));
            lemma_wf_iff_checks(p);
        }
        Ok(())
    }
}

} // verus!
