//! The ranking extractor: turns a vector of scores into a total order of
//! the score indices, best first, breaking ties towards the lower index.

use vstd::prelude::*;
use vstd::seq_lib::seq_to_set_is_finite;
use vstd::set_lib::lemma_len_subset;
use crate::model::{is_peak, outranks};

verus! {

/// The scores of a vector of 64-bit values, as mathematical integers.
pub open spec fn ints_of_64(s: Seq<i64>) -> Seq<int> {
    s.map_values(|v: i64| v as int)
}

/// The scores of a vector of 128-bit values, as mathematical integers.
pub open spec fn ints_of_128(s: Seq<i128>) -> Seq<int> {
    s.map_values(|v: i128| v as int)
}

/// A vector of `m` distinct indices below `m`, ranked by `outranks` over
/// the given scores, holds exactly the indices `0..m` in ranking order.
pub open spec fn is_ranking(s: Seq<int>, r: Seq<usize>) -> bool {
    &&& r.len() == s.len()
    &&& forall|k: int| 0 <= k < r.len() ==> (#[trigger] r[k] as int) < s.len()
    &&& r.no_duplicates()
    &&& forall|a: int, b: int|
        0 <= a < b < r.len() ==> outranks(s[#[trigger] r[a] as int], r[a] as int, s[#[trigger] r[b] as int], r[b] as int)
}

/// If every index of `used` is marked, but `out` is duplicate-free, shorter
/// than `used`, and holds every marked index, that is a contradiction; so
/// some index must still be unmarked.
proof fn lemma_unused_exists(used: Seq<bool>, out: Seq<usize>)
    requires
        used.len() <= usize::MAX,
        out.no_duplicates(),
        out.len() < used.len(),
        forall|i: int| 0 <= i < used.len() ==> (used[i] <==> out.contains(i as usize)),
    ensures
        exists|u: int| 0 <= u < used.len() && !used[u],
{
    broadcast use seq_to_set_is_finite;

    if forall|u: int| 0 <= u < used.len() ==> used[u] {
        let m = used.len();
        let ids = Seq::new(m, |i: int| i as usize);
        assert(ids.no_duplicates()) by {
            assert(forall|a: int, b: int|
                0 <= a < b < ids.len() ==> ids[a] as int == a && ids[b] as int == b);
        }
        assert forall|x: usize| ids.to_set().contains(x) implies out.to_set().contains(x) by {
            let k = choose|k: int| 0 <= k < ids.len() && ids[k] == x;
            assert(used[k]);
            assert(out.contains(x));
        }
        ids.unique_seq_to_set();
        out.lemma_cardinality_of_set();
        lemma_len_subset(ids.to_set(), out.to_set());
    }
}

/// A ranking of `m` scores holds every index below `m`: `m` distinct
/// values below `m` must cover the whole range.
pub proof fn lemma_ranking_complete(s: Seq<int>, r: Seq<usize>)
    requires
        is_ranking(s, r),
        s.len() <= usize::MAX,
    ensures
        forall|t: int| 0 <= t < s.len() ==> r.contains(#[trigger] (t as usize)),
{
    broadcast use seq_to_set_is_finite;

    let m = s.len();
    assert forall|t: int| 0 <= t < m implies r.contains(#[trigger] (t as usize)) by {
        if !r.contains(t as usize) {
            let ids = Seq::new(m, |i: int| i as usize);
            assert(ids.no_duplicates()) by {
                assert(forall|a: int, b: int|
                    0 <= a < b < ids.len() ==> ids[a] as int == a && ids[b] as int == b);
            }
            ids.unique_seq_to_set();
            r.unique_seq_to_set();
            assert(ids.to_set().contains(t as usize)) by {
                assert(ids[t] == t as usize);
            }
            let small = ids.to_set().remove(t as usize);
            assert(small.len() == ids.to_set().len() - 1);
            assert forall|x: usize| r.to_set().contains(x) implies small.contains(x) by {
                let k = choose|k: int| 0 <= k < r.len() && r[k] == x;
                assert((x as int) < m);
                assert(ids[x as int] == x);
                assert(ids.to_set().contains(x));
                assert(x != t as usize);
            }
            lemma_len_subset(r.to_set(), small);
        }
    }
}

/// The selection loop shared by every ranking call: repeatedly pick the
/// unmarked index with the highest score, lowest index first on ties.
pub(crate) fn rank_scores(scores: &Vec<i128>) -> (r: Vec<usize>)
    ensures
        is_ranking(ints_of_128(scores@), r@),
{
    let ghost s = ints_of_128(scores@);
    let m: usize = scores.len();
    let mut used: Vec<bool> = Vec::new();
    while used.len() < m
        invariant
            used.len() <= m,
            forall|i: int| 0 <= i < used.len() ==> !used@[i],
        decreases m - used.len(),
    {
        used.push(false);
    }
    let mut out: Vec<usize> = Vec::new();
    while out.len() < m
        invariant
            m == scores@.len(),
            s == ints_of_128(scores@),
            used@.len() == m,
            out@.len() <= m,
            forall|k: int| 0 <= k < out@.len() ==> (#[trigger] out@[k] as int) < m,
            out@.no_duplicates(),
            forall|i: int| 0 <= i < m ==> (used@[i] <==> out@.contains(i as usize)),
            forall|a: int, b: int|
                0 <= a < b < out@.len() ==> outranks(
                    s[#[trigger] out@[a] as int],
                    out@[a] as int,
                    s[#[trigger] out@[b] as int],
                    out@[b] as int,
                ),
            forall|k: int, u: int|
                #![trigger out@[k], used@[u]]
                0 <= k < out@.len() && 0 <= u < m && !used@[u] ==> outranks(
                    s[out@[k] as int],
                    out@[k] as int,
                    s[u],
                    u,
                ),
        decreases m - out.len(),
    {
        proof {
            lemma_unused_exists(used@, out@);
        }
        let mut best: usize = m;
        let mut idx: usize = 0;
        while idx < m
            invariant
                m == scores@.len(),
                s == ints_of_128(scores@),
                used@.len() == m,
                idx <= m,
                best == m || (best < idx && !used@[best as int]),
                best == m ==> forall|q: int| 0 <= q < idx ==> used@[q],
                forall|q: int|
                    0 <= q < idx && !used@[q] && q != best ==> outranks(
                        s[best as int],
                        best as int,
                        s[q],
                        q,
                    ),
            decreases m - idx,
        {
            if !used[idx] && (best == m || scores[idx] > scores[best]) {
                best = idx;
            }
            idx += 1;
        }
        assert(best < m);
        let ghost old_out = out@;
        let ghost old_used = used@;
        out.push(best);
        used[best] = true;
        proof {
            assert(!old_out.contains(best)) by {
                assert(!old_used[best as int]);
            }
            assert(out@.no_duplicates()) by {
                assert(forall|k: int| 0 <= k < old_out.len() ==> out@[k] == old_out[k]);
                assert(out@[old_out.len() as int] == best);
                assert forall|a: int, b: int| 0 <= a < b < out@.len() implies out@[a] != out@[b] by {
                    if b == old_out.len() {
                        assert(old_out[a] != best) by {
                            if old_out[a] == best {
                                assert(old_out.contains(best));
                            }
                        }
                    }
                }
            }
            assert forall|i: int| 0 <= i < m implies (used@[i] <==> out@.contains(i as usize)) by {
                if i == best as int {
                    assert(out@[old_out.len() as int] == best);
                    assert(out@.contains(best));
                } else {
                    if old_out.contains(i as usize) {
                        let k = choose|k: int| 0 <= k < old_out.len() && old_out[k] == i as usize;
                        assert(out@[k] == i as usize);
                        assert(out@.contains(i as usize));
                    }
                    if out@.contains(i as usize) {
                        let k = choose|k: int| 0 <= k < out@.len() && out@[k] == i as usize;
                        assert(k < old_out.len());
                        assert(old_out.contains(i as usize));
                    }
                }
            }
        }
    }
    out
}

/// Ranks score indices best to worst: the result is a permutation of the
/// index range, ordered by descending score and, among equal scores, by
/// ascending index.  All-equal scores therefore yield the identity order.
pub fn rank(scores: &Vec<i64>) -> (r: Vec<usize>)
    ensures
        is_ranking(ints_of_64(scores@), r@),
{
    let m: usize = scores.len();
    let mut wide: Vec<i128> = Vec::new();
    let mut i: usize = 0;
    while i < m
        invariant
            m == scores@.len(),
            i <= m,
            wide@.len() == i,
            forall|k: int| 0 <= k < i ==> wide@[k] == scores@[k] as i128,
        decreases m - i,
    {
        wide.push(scores[i] as i128);
        i += 1;
    }
    let r = rank_scores(&wide);
    proof {
        assert(ints_of_64(scores@) =~= ints_of_128(wide@));
    }
    r
}

/// The largest score in a non-empty score vector.
pub fn max_of(scores: &Vec<i64>) -> (r: i64)
    requires
        scores@.len() > 0,
    ensures
        scores@.contains(r),
        forall|k: int| 0 <= k < scores@.len() ==> scores@[k] <= r,
{
    let mut r: i64 = scores[0];
    let mut i: usize = 1;
    proof {
        assert(scores@[0] == r);
    }
    while i < scores.len()
        invariant
            1 <= i <= scores@.len(),
            scores@.contains(r),
            forall|k: int| 0 <= k < i ==> scores@[k] <= r,
        decreases scores@.len() - i,
    {
        if scores[i] > r {
            r = scores[i];
        }
        i += 1;
    }
    r
}

/// All indices achieving the maximal score, in increasing order.
pub fn argmax(scores: &Vec<i64>) -> (r: Vec<usize>)
    requires
        scores@.len() > 0,
    ensures
        r@.len() > 0,
        forall|k: int| 0 <= k < r@.len() ==> (#[trigger] r@[k] as int) < scores@.len(),
        forall|a: int, b: int| 0 <= a < b < r@.len() ==> r@[a] < r@[b],
        forall|i: int|
            0 <= i < scores@.len() ==> (r@.contains(i as usize) <==> is_peak(
                ints_of_64(scores@),
                i,
            )),
{
    let ghost s = ints_of_64(scores@);
    let top = max_of(scores);
    let mut r: Vec<usize> = Vec::new();
    let mut i: usize = 0;
    while i < scores.len()
        invariant
            i <= scores@.len(),
            scores@.contains(top),
            forall|k: int| 0 <= k < scores@.len() ==> scores@[k] <= top,
            forall|k: int| 0 <= k < r@.len() ==> (#[trigger] r@[k] as int) < i,
            forall|a: int, b: int| 0 <= a < b < r@.len() ==> r@[a] < r@[b],
            forall|q: int| 0 <= q < i ==> (r@.contains(q as usize) <==> scores@[q] == top),
        decreases scores@.len() - i,
    {
        let ghost old_r = r@;
        if scores[i] == top {
            r.push(i);
        }
        proof {
            assert forall|q: int| 0 <= q < i + 1 implies (r@.contains(q as usize) <==> scores@[q]
                == top) by {
                if q < i {
                    if old_r.contains(q as usize) {
                        let k = choose|k: int| 0 <= k < old_r.len() && old_r[k] == q as usize;
                        assert(r@[k] == q as usize);
                        assert(r@.contains(q as usize));
                    }
                    if r@.contains(q as usize) {
                        let k = choose|k: int| 0 <= k < r@.len() && r@[k] == q as usize;
                        assert(k < old_r.len() || r@[k] == i as usize);
                        if k < old_r.len() {
                            assert(old_r.contains(q as usize));
                        }
                    }
                } else {
                    if scores@[q] == top {
                        assert(r@[r@.len() - 1] == i as usize);
                        assert(r@.contains(q as usize));
                    } else {
                        if r@.contains(q as usize) {
                            let k = choose|k: int| 0 <= k < r@.len() && r@[k] == q as usize;
                            assert(k < old_r.len());
                        }
                    }
                }
            }
        }
        i += 1;
    }
    proof {
        let w = choose|w: int| 0 <= w < scores@.len() && scores@[w] == top;
        assert(r@.contains(w as usize));
        assert forall|i: int| 0 <= i < scores@.len() implies (r@.contains(i as usize) <==> is_peak(
            s,
            i,
        )) by {
            assert(s[w] == top as int);
            if scores@[i] == top {
                assert(is_peak(s, i)) by {
                    assert(forall|k: int| 0 <= k < s.len() ==> s[k] == scores@[k] as int);
                }
            }
            if is_peak(s, i) {
                assert(s[w] <= s[i]);
                assert(scores@[i] == top);
            }
        }
    }
    r
}

} // verus!
