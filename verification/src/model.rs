//! The mathematical model: what a well-formed profile is, what score a
//! candidate earns under a weight vector, and the order a positional rule
//! ranks candidates in.

use vstd::prelude::*;

verus! {

/// Index of the first occurrence of `c` in `b`, or `b.len()` when `c` is
/// absent.
pub open spec fn find_first<T>(b: Seq<T>, c: T) -> int
    decreases b.len(),
{
    if b.len() == 0 {
        0
    } else if b[0] == c {
        0
    } else {
        1 + find_first(b.drop_first(), c)
    }
}

/// What `find_first` returns: the index of the first occurrence when `c`
/// occurs in `b`, and `b.len()` otherwise.
pub proof fn lemma_find_first<T>(b: Seq<T>, c: T)
    ensures
        0 <= find_first(b, c) <= b.len(),
        b.contains(c) ==> find_first(b, c) < b.len() && b[find_first(b, c)] == c,
        forall|k: int| 0 <= k < find_first(b, c) ==> b[k] != c,
        !b.contains(c) ==> find_first(b, c) == b.len(),
    decreases b.len(),
{
    if b.len() != 0 && b[0] != c {
        lemma_find_first(b.drop_first(), c);
        assert(b.contains(c) ==> b.drop_first().contains(c)) by {
            if b.contains(c) {
                let k = choose|k: int| 0 <= k < b.len() && b[k] == c;
                assert(b.drop_first()[k - 1] == c);
            }
        }
        assert forall|k: int| 0 <= k < find_first(b, c) implies b[k] != c by {
            if k >= 1 {
                assert(b.drop_first()[k - 1] == b[k]);
            }
        }
    }
}

/// `clone` on `T` returns a value equal to its argument.  Holds for the
/// primitive candidate types (integers, `char`, `bool`); a contract that
/// returns cloned candidates requires it.
pub open spec fn clone_faithful<T: Clone>() -> bool {
    forall|a: T, b: T| #[trigger] vstd::pervasive::cloned::<T>(a, b) ==> a == b
}

/// Extending a sequence by one element inserts that element into the set
/// of its values.
pub proof fn lemma_push_to_set<T>(s: Seq<T>, x: T)
    ensures
        s.push(x).to_set() =~= s.to_set().insert(x),
{
    assert forall|y: T| s.push(x).to_set().contains(y) implies s.to_set().insert(x).contains(
        y,
    ) by {
        let k = choose|k: int| 0 <= k < s.push(x).len() && s.push(x)[k] == y;
        if k < s.len() {
            assert(s[k] == y);
            assert(s.contains(y));
        }
    }
    assert forall|y: T| s.to_set().insert(x).contains(y) implies s.push(x).to_set().contains(
        y,
    ) by {
        if s.to_set().contains(y) {
            let k = choose|k: int| 0 <= k < s.len() && s[k] == y;
            assert(s.push(x)[k] == y);
        } else {
            assert(s.push(x)[s.len() as int] == y);
        }
        assert(s.push(x).contains(y));
    }
}

/// In a duplicate-free ballot, the position a candidate sits at is the
/// first (and only) occurrence `find_first` points to.
pub proof fn lemma_find_first_at<T>(b: Seq<T>, c: T, j: int)
    requires
        b.no_duplicates(),
        0 <= j < b.len(),
        b[j] == c,
    ensures
        find_first(b, c) == j,
{
    assert(b.contains(c));
    lemma_find_first(b, c);
    let ff = find_first(b, c);
    if ff < j {
        assert(b[ff] == b[j]);
    }
}

/// A sum of `i` signed 64-bit weights is bounded by `i` times the extreme
/// 64-bit values; the accumulator therefore fits in 128 bits.
pub proof fn lemma_score_bound<T>(p: Seq<Seq<T>>, w: Seq<i64>, c: T, i: int)
    requires
        0 <= i,
    ensures
        i * (i64::MIN as int) <= score_upto(p, w, c, i) <= i * (i64::MAX as int),
    decreases i,
{
    if i > 0 {
        lemma_score_bound(p, w, c, i - 1);
        assert((i - 1) * (i64::MIN as int) + (i64::MIN as int) == i * (i64::MIN as int))
            by (nonlinear_arith);
        assert((i - 1) * (i64::MAX as int) + (i64::MAX as int) == i * (i64::MAX as int))
            by (nonlinear_arith);
    }
}

/// A well-formed profile: at least one ballot, every ballot of the same
/// length, duplicate-free, and ranking exactly the candidate set of the
/// first ballot.
pub open spec fn wf_profile<T>(p: Seq<Seq<T>>) -> bool {
    &&& p.len() > 0
    &&& forall|i: int| 0 <= i < p.len() ==> (#[trigger] p[i]).len() == p[0].len()
    &&& forall|i: int| 0 <= i < p.len() ==> (#[trigger] p[i]).no_duplicates()
    &&& forall|i: int| 0 <= i < p.len() ==> (#[trigger] p[i]).to_set() == p[0].to_set()
}

/// Every ballot with index below `i` has the length of ballot 0.
pub open spec fn lens_ok_upto<T>(p: Seq<Seq<T>>, i: int) -> bool {
    forall|k: int| 0 <= k < i ==> (#[trigger] p[k]).len() == p[0].len()
}

/// The pairwise audit check on ballots `i` and `j`: their candidate sets
/// share exactly as many distinct values as ballot 0 has positions.
pub open spec fn pair_ok<T>(p: Seq<Seq<T>>, i: int, j: int) -> bool {
    p[i].to_set().intersect(p[j].to_set()).len() == p[0].len()
}

/// All ballot pairs `(a, b)` with `a <= b` that the audit scans before the
/// pair `(i, j)` pass the pairwise check.
pub open spec fn pairs_ok_before<T>(p: Seq<Seq<T>>, i: int, j: int) -> bool {
    forall|a: int, b: int|
        0 <= a <= b < p.len() && (a < i || (a == i && b < j)) ==> #[trigger] pair_ok(p, a, b)
}

/// All ballot pairs `(a, b)` with `a <= b` pass the pairwise check.
pub open spec fn all_pairs_ok<T>(p: Seq<Seq<T>>) -> bool {
    forall|a: int, b: int| 0 <= a <= b < p.len() ==> #[trigger] pair_ok(p, a, b)
}

/// What a validation error reports: the first offending ballot (wrong
/// length), or the first offending ballot pair (shared candidate count not
/// the expected one), in the audit's scan order.
pub open spec fn audit_error_at<T>(p: Seq<Seq<T>>, e: crate::ValidationError) -> bool {
    match e {
        crate::ValidationError::LengthMismatch(i) => {
            &&& (i as int) < p.len()
            &&& p[i as int].len() != p[0].len()
            &&& lens_ok_upto(p, i as int)
        },
        crate::ValidationError::SetMismatch(i, j) => {
            &&& lens_ok_upto(p, p.len() as int)
            &&& i <= j
            &&& (j as int) < p.len()
            &&& !pair_ok(p, i as int, j as int)
            &&& pairs_ok_before(p, i as int, j as int)
        },
    }
}

/// Total score candidate `c` accumulates over the first `upto` ballots:
/// each ballot contributes the weight of the position it ranks `c` at.
pub open spec fn score_upto<T>(p: Seq<Seq<T>>, w: Seq<i64>, c: T, upto: int) -> int
    decreases upto,
{
    if upto <= 0 {
        0
    } else {
        score_upto(p, w, c, upto - 1) + w[find_first(p[upto - 1], c)]
    }
}

/// Total score candidate `c` accumulates over the whole profile.
pub open spec fn score<T>(p: Seq<Seq<T>>, w: Seq<i64>, c: T) -> int {
    score_upto(p, w, c, p.len() as int)
}

/// `c1` ranks strictly before `c2`: a higher score, or an equal score and
/// an earlier first appearance in ballot 0 (the insertion-order tie-break).
pub open spec fn ranks_before<T>(p: Seq<Seq<T>>, w: Seq<i64>, c1: T, c2: T) -> bool {
    ||| score(p, w, c1) > score(p, w, c2)
    ||| (score(p, w, c1) == score(p, w, c2) && find_first(p[0], c1) < find_first(p[0], c2))
}

/// Index `a` (with score `sa`) comes before index `b` (with score `sb`) in
/// a ranking: a strictly higher score, or an equal score and a lower index
/// (the index-based tie-break of the ranking extractor).
pub open spec fn outranks(sa: int, a: int, sb: int, b: int) -> bool {
    sa > sb || (sa == sb && a < b)
}

/// Position `i` holds a maximal score of `s`.
pub open spec fn is_peak(s: Seq<int>, i: int) -> bool {
    forall|k: int| 0 <= k < s.len() ==> s[k] <= s[i]
}

/// The weight vector of plurality voting: one point for the top position.
pub open spec fn plurality_weights(m: int) -> Seq<i64> {
    Seq::new(m as nat, |i: int| if i == 0 { 1i64 } else { 0i64 })
}

/// The weight vector of the Borda count: `m` points for the top position
/// down to one point for the bottom position.
pub open spec fn borda_weights(m: int) -> Seq<i64> {
    Seq::new(m as nat, |i: int| (m - i) as i64)
}

} // verus!
