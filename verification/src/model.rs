//! Mathematical model of entities, clusters and distances.
//!
//! Everything here is specification-level vocabulary: the abstract view of an
//! entity, well-formedness of clusters and partitions, and the squared
//! Euclidean / single-linkage distance functions that the executable code is
//! proved against.

use vstd::prelude::*;

verus! {

/// Largest magnitude an attribute value may have. Together with the entity
/// cap in `standardize`, this keeps every intermediate product of the
/// distance and standardization arithmetic inside `i128`/`u128`.
pub const ATTR_LIMIT: i64 = 1_000_000_000;

/// Fixed-point scale: a real value `x` is stored as `round(x * SCALE)`.
pub const SCALE: i64 = 1000;

/// A fixed-point attribute vector as a sequence of unbounded integers.
pub open spec fn ints_of(s: Seq<i64>) -> Seq<int> {
    s.map_values(|x: i64| x as int)
}

/// Abstract view of one entity: its name and its attribute vector as
/// unbounded integers.
#[verifier::ext_equal]
pub struct CountryView {
    pub name: Seq<char>,
    pub attrs: Seq<int>,
}

/// All entities share one attribute-vector length.
pub open spec fn uniform(vs: Seq<CountryView>) -> bool {
    forall|i: int| 0 <= i < vs.len() ==> (#[trigger] vs[i]).attrs.len() == vs[0].attrs.len()
}

/// Every entity's attribute values lie within the fixed-point range.
pub open spec fn all_attrs_ok(vs: Seq<CountryView>) -> bool {
    forall|i: int| 0 <= i < vs.len() ==> attrs_ok((#[trigger] vs[i]).attrs)
}

/// Every attribute value lies within the fixed-point range.
pub open spec fn attrs_ok(s: Seq<int>) -> bool {
    forall|k: int| 0 <= k < s.len() ==> -(ATTR_LIMIT as int) <= #[trigger] s[k] <= ATTR_LIMIT as int
}

/// A well-formed cluster of dimension `d`: non-empty, and every member has
/// exactly `d` in-range attribute values.
pub open spec fn cluster_wf(cl: Seq<CountryView>, d: int) -> bool {
    &&& cl.len() > 0
    &&& forall|i: int| 0 <= i < cl.len() ==> (#[trigger] cl[i].attrs).len() == d && attrs_ok(cl[i].attrs)
}

/// Attribute dimension of a partition, read off its first entity.
pub open spec fn dim(cs: Seq<Seq<CountryView>>) -> int {
    cs[0][0].attrs.len() as int
}

/// A well-formed partition: non-empty, and every cluster is well formed with
/// the partition's common dimension.
pub open spec fn partition_wf(cs: Seq<Seq<CountryView>>) -> bool {
    &&& cs.len() > 0
    &&& forall|i: int| 0 <= i < cs.len() ==> cluster_wf(#[trigger] cs[i], dim(cs))
}

/// Sum of the first `k` terms `(a[t] - b[t])^2`.
pub open spec fn sq_dist_upto(a: Seq<int>, b: Seq<int>, k: int) -> int
    decreases k,
{
    if k <= 0 {
        0
    } else {
        sq_dist_upto(a, b, k - 1) + (a[k - 1] - b[k - 1]) * (a[k - 1] - b[k - 1])
    }
}

/// Squared Euclidean distance between two attribute vectors of equal length.
pub open spec fn sq_dist(a: Seq<int>, b: Seq<int>) -> int {
    sq_dist_upto(a, b, a.len() as int)
}

/// The smaller of two integers.
pub open spec fn min2(a: int, b: int) -> int {
    if a <= b {
        a
    } else {
        b
    }
}

/// Minimum of `sq_dist(av, cb[j].attrs)` over `j < k` (saturating at `k = 1`).
pub open spec fn row_min_upto(av: Seq<int>, cb: Seq<CountryView>, k: int) -> int
    decreases k,
{
    if k <= 1 {
        sq_dist(av, cb[0].attrs)
    } else {
        min2(row_min_upto(av, cb, k - 1), sq_dist(av, cb[k - 1].attrs))
    }
}

/// Minimum distance from `av` to any member of the cluster `cb`.
pub open spec fn row_min(av: Seq<int>, cb: Seq<CountryView>) -> int {
    row_min_upto(av, cb, cb.len() as int)
}

/// Minimum of `row_min(ca[i].attrs, cb)` over `i < k` (saturating at `k = 1`).
pub open spec fn cdist_upto(ca: Seq<CountryView>, cb: Seq<CountryView>, k: int) -> int
    decreases k,
{
    if k <= 1 {
        row_min(ca[0].attrs, cb)
    } else {
        min2(cdist_upto(ca, cb, k - 1), row_min(ca[k - 1].attrs, cb))
    }
}

/// Single-linkage distance between two non-empty clusters: the minimum
/// squared Euclidean distance over all cross-cluster entity pairs.
pub open spec fn cdist(ca: Seq<CountryView>, cb: Seq<CountryView>) -> int {
    cdist_upto(ca, cb, ca.len() as int)
}

/// `row_min_upto` is the least value over the first `k` members and is
/// attained by one of them.
pub proof fn lemma_row_min_char(av: Seq<int>, cb: Seq<CountryView>, k: int)
    requires
        1 <= k <= cb.len(),
    ensures
        exists|j: int| 0 <= j < k && row_min_upto(av, cb, k) == sq_dist(av, (#[trigger] cb[j]).attrs),
        forall|j: int| 0 <= j < k ==> row_min_upto(av, cb, k) <= sq_dist(av, (#[trigger] cb[j]).attrs),
    decreases k,
{
    if k == 1 {
        assert(row_min_upto(av, cb, 1) == sq_dist(av, cb[0].attrs));
    } else {
        lemma_row_min_char(av, cb, k - 1);
    }
}

/// `cdist_upto` is the least `row_min` over the first `k` members of `ca` and
/// is attained by one of them.
pub proof fn lemma_cdist_char(ca: Seq<CountryView>, cb: Seq<CountryView>, k: int)
    requires
        1 <= k <= ca.len(),
    ensures
        exists|i: int| 0 <= i < k && cdist_upto(ca, cb, k) == row_min((#[trigger] ca[i]).attrs, cb),
        forall|i: int| 0 <= i < k ==> cdist_upto(ca, cb, k) <= row_min((#[trigger] ca[i]).attrs, cb),
    decreases k,
{
    if k == 1 {
        assert(cdist_upto(ca, cb, 1) == row_min(ca[0].attrs, cb));
    } else {
        lemma_cdist_char(ca, cb, k - 1);
    }
}

/// `cdist` is a lower bound on every cross-cluster pair distance and is
/// attained by some pair.
pub proof fn lemma_cdist_pairs(ca: Seq<CountryView>, cb: Seq<CountryView>)
    requires
        ca.len() > 0,
        cb.len() > 0,
    ensures
        forall|i: int, j: int|
            0 <= i < ca.len() && 0 <= j < cb.len() ==> cdist(ca, cb) <= sq_dist(
                (#[trigger] ca[i]).attrs,
                (#[trigger] cb[j]).attrs,
            ),
        exists|i: int, j: int|
            0 <= i < ca.len() && 0 <= j < cb.len() && cdist(ca, cb) == sq_dist(
                (#[trigger] ca[i]).attrs,
                (#[trigger] cb[j]).attrs,
            ),
{
    lemma_cdist_char(ca, cb, ca.len() as int);
    assert forall|i: int, j: int| 0 <= i < ca.len() && 0 <= j < cb.len() implies cdist(ca, cb)
        <= sq_dist((#[trigger] ca[i]).attrs, (#[trigger] cb[j]).attrs) by {
        lemma_row_min_char(ca[i].attrs, cb, cb.len() as int);
    }
    let wi = choose|i: int| 0 <= i < ca.len() && cdist(ca, cb) == row_min(
        (#[trigger] ca[i]).attrs,
        cb,
    );
    lemma_row_min_char(ca[wi].attrs, cb, cb.len() as int);
    let wj = choose|j: int|
        0 <= j < cb.len() && row_min(ca[wi].attrs, cb) == sq_dist(
            ca[wi].attrs,
            (#[trigger] cb[j]).attrs,
        );
    assert(cdist(ca, cb) == sq_dist(ca[wi].attrs, cb[wj].attrs));
}

/// Each term of the distance sum is a square of a difference of two in-range
/// values, so every partial sum is non-negative and linearly bounded.
pub proof fn lemma_sq_dist_upto_bound(a: Seq<int>, b: Seq<int>, k: int)
    requires
        0 <= k <= a.len(),
        k <= b.len(),
        attrs_ok(a),
        attrs_ok(b),
    ensures
        0 <= sq_dist_upto(a, b, k),
        sq_dist_upto(a, b, k) <= k * 4 * (ATTR_LIMIT as int) * (ATTR_LIMIT as int),
    decreases k,
{
    if k > 0 {
        lemma_sq_dist_upto_bound(a, b, k - 1);
        let t = a[k - 1] - b[k - 1];
        assert(-2 * (ATTR_LIMIT as int) <= t <= 2 * (ATTR_LIMIT as int));
        assert(0 <= t * t <= 4 * (ATTR_LIMIT as int) * (ATTR_LIMIT as int)) by (nonlinear_arith)
            requires
                -2 * (ATTR_LIMIT as int) <= t <= 2 * (ATTR_LIMIT as int),
        ;
        assert((k - 1) * 4 * (ATTR_LIMIT as int) * (ATTR_LIMIT as int) + 4 * (ATTR_LIMIT as int) * (
        ATTR_LIMIT as int) == k * 4 * (ATTR_LIMIT as int) * (ATTR_LIMIT as int)) by (nonlinear_arith);
    }
}

} // verus!
