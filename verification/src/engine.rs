//! The clustering engine.
//!
//! `Analyze` owns the current partition (an ordered collection of clusters)
//! and drives the iterate-and-merge loop: find the globally nearest pair of
//! clusters, merge them, repeat. `is_nearest` pins down the winning pair of
//! one step (global minimum distance, first in scan order on ties), and
//! `step_of` / `run_of` give the partition after one step and after a whole
//! run, so every run is a function of its input. The public lemmas prove that
//! the winner is unique (determinism, also when distances tie) and that
//! merging never loses, invents or alters an entity (the partition
//! invariant).

use vstd::multiset::Multiset;
use vstd::prelude::*;

use crate::cluster::{views_of, Cluster, Country};
use crate::model::{
    all_attrs_ok, attrs_ok, cdist, cluster_wf, dim, ints_of, partition_wf, sq_dist, sq_dist_upto,
    uniform, lemma_sq_dist_upto_bound, CountryView, ATTR_LIMIT,
};
use crate::standardize::{standardized, MAX_ENTITIES};

verus! {

/// Why a request was rejected before any clustering state changed.
#[derive(Clone, Copy, PartialEq, Eq, Structural, Debug)]
pub enum AnalyzeError {
    /// Zero entities were supplied to construction.
    EmptyInput,
    /// The entities do not all share one attribute-vector length.
    InconsistentAttributeLength,
    /// The requested number of merge steps is not smaller than the number of
    /// clusters currently in the partition.
    InvalidIterationCount,
}

/// The clustering engine: the current partition of all entities.
pub struct Analyze {
    pub clusters: Vec<Cluster>,
}

impl View for Analyze {
    type V = Seq<Seq<CountryView>>;

    open spec fn view(&self) -> Seq<Seq<CountryView>> {
        self.clusters@.map_values(|c: Cluster| c@)
    }
}

/// Pair `(i, j)` comes strictly before pair `(l, r)` in the scan order over
/// ascending cluster indices.
pub open spec fn lex_before(i: int, j: int, l: int, r: int) -> bool {
    i < l || (i == l && j < r)
}

/// `(lc, rc)` is the winning pair of one merge step: the pair of distinct
/// clusters with the globally minimum single-linkage distance, and the first
/// such pair in scan order when several tie.
pub open spec fn is_nearest(cs: Seq<Seq<CountryView>>, lc: int, rc: int) -> bool {
    &&& 0 <= lc < rc < cs.len()
    &&& forall|i: int, j: int|
        0 <= i < j < cs.len() ==> cdist(cs[lc], cs[rc]) <= cdist(#[trigger] cs[i], #[trigger] cs[j])
    &&& forall|i: int, j: int|
        0 <= i < j < cs.len() && lex_before(i, j, lc, rc) ==> cdist(
            #[trigger] cs[i],
            #[trigger] cs[j],
        ) > cdist(cs[lc], cs[rc])
}

/// The partition after merging the winning pair: the cluster at `lc` is
/// replaced by the union of the pair and the slot at `rc` is deleted.
pub open spec fn merged(cs: Seq<Seq<CountryView>>, lc: int, rc: int) -> Seq<Seq<CountryView>> {
    cs.update(lc, cs[lc] + cs[rc]).remove(rc)
}

/// One merge step: some nearest pair of `pre` is merged, yielding `post`, and
/// `d` is the distance at which the merge happened.
pub open spec fn step_rel(pre: Seq<Seq<CountryView>>, post: Seq<Seq<CountryView>>, d: int) -> bool {
    exists|lc: int, rc: int|
        is_nearest(pre, lc, rc) && post == merged(pre, lc, rc) && d == cdist(
            pre[lc],
            pre[rc],
        )
}

/// The winning pair of one merge step (meaningful whenever a nearest pair
/// exists, which the engine establishes before every step).
pub open spec fn nearest_of(cs: Seq<Seq<CountryView>>) -> (int, int) {
    choose|l: int, r: int| is_nearest(cs, l, r)
}

/// The partition after one merge step.
pub open spec fn step_of(cs: Seq<Seq<CountryView>>) -> Seq<Seq<CountryView>> {
    merged(cs, nearest_of(cs).0, nearest_of(cs).1)
}

/// The distance recorded by one merge step.
pub open spec fn step_dist_of(cs: Seq<Seq<CountryView>>) -> int {
    cdist(cs[nearest_of(cs).0], cs[nearest_of(cs).1])
}

/// The partition after `n` merge steps.
pub open spec fn run_of(cs: Seq<Seq<CountryView>>, n: nat) -> Seq<Seq<CountryView>>
    decreases n,
{
    if n == 0 {
        cs
    } else {
        step_of(run_of(cs, (n - 1) as nat))
    }
}

/// The distance recorded by the last of `n` merge steps, `0` when `n == 0`.
pub open spec fn run_dist_of(cs: Seq<Seq<CountryView>>, n: nat) -> int {
    if n == 0 {
        0
    } else {
        step_dist_of(run_of(cs, (n - 1) as nat))
    }
}

/// The multiset of all entities held by the partition's clusters.
pub open spec fn entities(cs: Seq<Seq<CountryView>>) -> Multiset<CountryView>
    decreases cs.len(),
{
    if cs.len() == 0 {
        Multiset::empty()
    } else {
        entities(cs.drop_last()).add(cs.last().to_multiset())
    }
}

/// The initial partition: one singleton cluster per entity, in input order.
pub open spec fn singletons(vs: Seq<CountryView>) -> Seq<Seq<CountryView>> {
    Seq::new(vs.len(), |i: int| seq![vs[i]])
}

/// At most one pair is the winner of a merge step: the global minimum that
/// comes first in scan order is unique. This is what makes a run
/// deterministic when distances tie exactly.
pub proof fn lemma_nearest_unique(
    cs: Seq<Seq<CountryView>>,
    l1: int,
    r1: int,
    l2: int,
    r2: int,
)
    requires
        is_nearest(cs, l1, r1),
        is_nearest(cs, l2, r2),
    ensures
        l1 == l2,
        r1 == r2,
{
    if l1 != l2 || r1 != r2 {
        if lex_before(l1, r1, l2, r2) {
            assert(cdist(cs[l1], cs[r1]) > cdist(cs[l2], cs[r2]));
            assert(cdist(cs[l1], cs[r1]) <= cdist(cs[l2], cs[r2]));
        } else {
            assert(lex_before(l2, r2, l1, r1));
            assert(cdist(cs[l2], cs[r2]) > cdist(cs[l1], cs[r1]));
            assert(cdist(cs[l2], cs[r2]) <= cdist(cs[l1], cs[r1]));
        }
    }
}

/// A merge step is deterministic: any two partitions and distances that both
/// stand in the step relation to the same predecessor are equal.
pub proof fn lemma_step_deterministic(
    pre: Seq<Seq<CountryView>>,
    post1: Seq<Seq<CountryView>>,
    d1: int,
    post2: Seq<Seq<CountryView>>,
    d2: int,
)
    requires
        step_rel(pre, post1, d1),
        step_rel(pre, post2, d2),
    ensures
        post1 == post2,
        d1 == d2,
{
    let (la, ra): (int, int) = choose|l: int, r: int|
        is_nearest(pre, l, r) && post1 == merged(pre, l, r) && d1 == cdist(pre[l], pre[r]);
    let (lb, rb): (int, int) = choose|l: int, r: int|
        is_nearest(pre, l, r) && post2 == merged(pre, l, r) && d2 == cdist(pre[l], pre[r]);
    lemma_nearest_unique(pre, la, ra, lb, rb);
}

/// A one-cluster partition holds exactly that cluster's entities.
pub proof fn lemma_entities_singleton(c: Seq<CountryView>)
    ensures
        entities(seq![c]) =~= c.to_multiset(),
{
    broadcast use vstd::multiset::group_multiset_axioms;

    let s = seq![c];
    assert(s.len() == 1);
    assert(s.last() == c);
    assert(s.drop_last() =~= Seq::<Seq<CountryView>>::empty());
    assert(entities(s.drop_last()) == entities(Seq::<Seq<CountryView>>::empty()));
    assert(entities(Seq::<Seq<CountryView>>::empty()) == Multiset::<CountryView>::empty());
    assert(entities(s) == entities(s.drop_last()).add(s.last().to_multiset()));
}

/// One merge step never loses, invents or alters an entity: the multiset of
/// all entities is unchanged, and the partition shrinks by exactly one
/// cluster. Applied step by step, after `k` merges the partition still holds
/// the original entity set and has `N - k` clusters.
pub proof fn lemma_step_preserves_partition(
    pre: Seq<Seq<CountryView>>,
    post: Seq<Seq<CountryView>>,
    d: int,
)
    requires
        step_rel(pre, post, d),
    ensures
        entities(post) == entities(pre),
        post.len() == pre.len() - 1,
{
    let (lc, rc): (int, int) = choose|l: int, r: int|
        is_nearest(pre, l, r) && post == merged(pre, l, r) && d == cdist(pre[l], pre[r]);
    lemma_entities_merged(pre, lc, rc);
}

/// `entities` distributes over concatenation of partitions.
pub proof fn lemma_entities_concat(x: Seq<Seq<CountryView>>, y: Seq<Seq<CountryView>>)
    ensures
        entities(x + y) =~= entities(x).add(entities(y)),
    decreases y.len(),
{
    broadcast use vstd::multiset::group_multiset_axioms;

    if y.len() == 0 {
        assert(x + y =~= x);
        assert(entities(y) =~= Multiset::<CountryView>::empty());
    } else {
        assert((x + y).drop_last() =~= x + y.drop_last());
        assert((x + y).last() == y.last());
        lemma_entities_concat(x, y.drop_last());
    }
}

/// Merging two clusters of a partition leaves the multiset of entities
/// unchanged and shrinks the partition by exactly one cluster.
pub proof fn lemma_entities_merged(cs: Seq<Seq<CountryView>>, lc: int, rc: int)
    requires
        0 <= lc < rc < cs.len(),
    ensures
        entities(merged(cs, lc, rc)) =~= entities(cs),
        merged(cs, lc, rc).len() == cs.len() - 1,
{
    broadcast use vstd::multiset::group_multiset_axioms;

    let a = cs.take(lc);
    let l = cs[lc];
    let b = cs.subrange(lc + 1, rc);
    let r = cs[rc];
    let c = cs.subrange(rc + 1, cs.len() as int);
    assert(cs =~= a + seq![l] + b + seq![r] + c);
    assert(merged(cs, lc, rc) =~= a + seq![l + r] + b + c);
    lemma_entities_concat(a + seq![l] + b + seq![r], c);
    lemma_entities_concat(a + seq![l] + b, seq![r]);
    lemma_entities_concat(a + seq![l], b);
    lemma_entities_concat(a, seq![l]);
    lemma_entities_concat(a + seq![l + r] + b, c);
    lemma_entities_concat(a + seq![l + r], b);
    lemma_entities_concat(a, seq![l + r]);
    vstd::seq_lib::lemma_multiset_commutative(l, r);
    lemma_entities_singleton(l);
    lemma_entities_singleton(r);
    lemma_entities_singleton(l + r);
}

impl Analyze {
    /// The engine's invariant: its partition is well formed.
    pub open spec fn wf(&self) -> bool {
        partition_wf(self@)
    }

    /// Builds the engine: rejects an empty entity set and entities whose
    /// attribute vectors differ in length, optionally standardizes the
    /// attributes, then wraps each entity in its own singleton cluster,
    /// preserving input order.
    pub fn new(countries: Vec<Country>, standartize: bool) -> (r: Result<Analyze, AnalyzeError>)
        requires
            all_attrs_ok(views_of(countries@)),
            standartize ==> countries@.len() <= MAX_ENTITIES as int,
        ensures
            match r {
                Ok(a) => {
                    &&& countries@.len() > 0
                    &&& uniform(views_of(countries@))
                    &&& a.wf()
                    &&& a@ == singletons(
                        if standartize {
                            standardized(views_of(countries@))
                        } else {
                            views_of(countries@)
                        },
                    )
                },
                Err(e) => {
                    &&& (e == AnalyzeError::EmptyInput <==> countries@.len() == 0)
                    &&& (e == AnalyzeError::InconsistentAttributeLength <==> (countries@.len() > 0
                        && !uniform(views_of(countries@))))
                    &&& (e == AnalyzeError::EmptyInput || e
                        == AnalyzeError::InconsistentAttributeLength)
                },
            },
    {
        let ghost vs = views_of(countries@);
        let n = countries.len();
        if n == 0 {
            return Err(AnalyzeError::EmptyInput);
        }
        let d0 = countries[0].attrs.len();
        proof {
            assert(vs[0] == countries@[0]@);
        }
        for i in 0..n
            invariant
                n == countries@.len(),
                n > 0,
                vs == views_of(countries@),
                d0 as int == vs[0].attrs.len(),
                forall|k: int| 0 <= k < i ==> (#[trigger] vs[k]).attrs.len() == vs[0].attrs.len(),
        {
            proof {
                assert(vs[i as int] == countries@[i as int]@);
            }
            if countries[i].attrs.len() != d0 {
                proof {
                    assert(!uniform(vs));
                }
                return Err(AnalyzeError::InconsistentAttributeLength);
            }
        }
        proof {
            assert(uniform(vs));
        }
        let mut work = countries;
        if standartize {
            crate::standardize::std_countries(&mut work);
        }
        let ghost tvs = views_of(work@);
        proof {
            assert(tvs == if standartize {
                standardized(vs)
            } else {
                vs
            });
            assert(uniform(tvs) && all_attrs_ok(tvs) && tvs.len() == n as int);
        }
        let mut clusters: Vec<Cluster> = Vec::new();
        let ghost base = work@;
        while work.len() > 0
            invariant
                tvs == views_of(base),
                tvs.len() == n as int,
                clusters@.len() + work@.len() == n as int,
                work@ =~= base.skip(clusters@.len() as int),
                forall|k: int|
                    0 <= k < clusters@.len() ==> (#[trigger] clusters@[k])@ == seq![tvs[k]],
            decreases work@.len(),
        {
            let ghost done = clusters@.len() as int;
            let ct = work.remove(0);
            proof {
                assert(base.skip(done)[0] == base[done]);
                assert(ct == base[done]);
                assert(ct@ == tvs[done]);
                assert(base.skip(done).remove(0) =~= base.skip(done + 1));
            }
            let mut c = Cluster::new();
            c.add(ct);
            proof {
                assert(c@ =~= seq![tvs[done]]);
            }
            clusters.push(c);
        }
        let a = Analyze { clusters };
        proof {
            assert(a@.len() == n as int);
            assert forall|k: int| 0 <= k < a@.len() implies #[trigger] a@[k] == singletons(tvs)[k] by {
                assert(a@[k] == a.clusters@[k]@);
                assert(singletons(tvs)[k] =~= seq![tvs[k]]);
            }
            assert(a@ =~= singletons(tvs));
            assert forall|k: int| 0 <= k < a@.len() implies cluster_wf(#[trigger] a@[k], dim(a@)) by {
                assert(a@[k] == seq![tvs[k]]);
                assert(a@[k].len() == 1);
                assert(a@[k][0] == tvs[k]);
                assert(a@[0][0] == tvs[0]);
                assert(tvs[k].attrs.len() == tvs[0].attrs.len());
                assert(attrs_ok(tvs[k].attrs));
            }
        }
        Ok(a)
    }

    /// Merges the globally nearest pair of clusters and returns the distance
    /// at which they merged; the partition shrinks by exactly one cluster.
    pub fn nearest_union(&mut self) -> (d: i128)
        requires
            old(self).wf(),
            old(self)@.len() >= 2,
        ensures
            final(self).wf(),
            final(self)@.len() == old(self)@.len() - 1,
            final(self)@ == step_of(old(self)@),
            d as int == step_dist_of(old(self)@),
            step_rel(old(self)@, final(self)@, d as int),
            entities(final(self)@) == entities(old(self)@),
    {
        let ghost pre = self@;
        let (lc, rc, dist) = self.nearest_clusters();
        let right = self.clusters.remove(rc);
        let left = self.clusters.remove(lc);
        let merged_cluster = Cluster::union(left, right);
        self.clusters.insert(lc, merged_cluster);
        proof {
            assert(self@ =~= merged(pre, lc as int, rc as int)) by {
                assert forall|k: int| 0 <= k < pre.len() - 1 implies self@[k] == merged(
                    pre,
                    lc as int,
                    rc as int,
                )[k] by {
                    assert(self@[k] == self.clusters@[k]@);
                }
            }
            assert(step_rel(pre, self@, dist as int)) by {
                assert(is_nearest(pre, lc as int, rc as int) && self@ == merged(
                    pre,
                    lc as int,
                    rc as int,
                ) && dist as int == cdist(pre[lc as int], pre[rc as int]));
            }
            assert(self@ == step_of(pre) && dist as int == step_dist_of(pre)) by {
                assert(exists|l: int, r: int| is_nearest(pre, l, r));
                let (lw, rw): (int, int) = choose|l: int, r: int| is_nearest(pre, l, r);
                lemma_nearest_unique(pre, lc as int, rc as int, lw, rw);
            }
            lemma_entities_merged(pre, lc as int, rc as int);
            assert(partition_wf(self@)) by {
                assert(cluster_wf(pre[lc as int], dim(pre)));
                assert(cluster_wf(pre[rc as int], dim(pre)));
                assert forall|i: int|
                    0 <= i < (pre[lc as int] + pre[rc as int]).len() implies ((pre[lc as int]
                    + pre[rc as int])[i].attrs.len() == dim(pre) && attrs_ok(
                    (pre[lc as int] + pre[rc as int])[i].attrs,
                )) by {
                    if i < pre[lc as int].len() {
                        assert((pre[lc as int] + pre[rc as int])[i] == pre[lc as int][i]);
                    } else {
                        assert((pre[lc as int] + pre[rc as int])[i] == pre[rc as int][i - pre[
                        lc as int].len()]);
                    }
                }
                assert(cluster_wf(pre[lc as int] + pre[rc as int], dim(pre)));
                assert(self@[0][0] == pre[0][0]);
                assert(dim(self@) == dim(pre));
                assert forall|i: int| 0 <= i < self@.len() implies cluster_wf(
                    #[trigger] self@[i],
                    dim(self@),
                ) by {
                    if i == lc as int {
                        assert(self@[i] == pre[lc as int] + pre[rc as int]);
                    } else if i < rc as int {
                        assert(self@[i] == pre[i]);
                    } else {
                        assert(self@[i] == pre[i + 1]);
                    }
                }
            }
        }
        dist
    }

    /// Performs exactly `n` merge steps and returns the distance recorded by
    /// the final step (`0` when `n == 0`, the documented sentinel for a run
    /// of zero iterations). Rejected up front, with the partition untouched,
    /// when `n` is not strictly smaller than the current cluster count.
    pub fn cluster_n_times(&mut self, n: usize) -> (r: Result<i128, AnalyzeError>)
        requires
            old(self).wf(),
        ensures
            match r {
                Ok(d) => {
                    &&& n < old(self)@.len()
                    &&& final(self).wf()
                    &&& final(self)@.len() == old(self)@.len() - n
                    &&& final(self)@ == run_of(old(self)@, n as nat)
                    &&& d as int == run_dist_of(old(self)@, n as nat)
                    &&& entities(final(self)@) == entities(old(self)@)
                    &&& n == 0 ==> (final(self)@ == old(self)@ && d == 0)
                },
                Err(e) => {
                    &&& e == AnalyzeError::InvalidIterationCount
                    &&& n >= old(self)@.len()
                    &&& final(self)@ == old(self)@
                    &&& final(self).wf()
                },
            },
    {
        if n >= self.clusters.len() {
            return Err(AnalyzeError::InvalidIterationCount);
        }
        let ghost init = self@;
        let mut result: i128 = 0;
        for step in 0..n
            invariant
                self.wf(),
                n < init.len(),
                self@.len() == init.len() - step,
                self@ == run_of(init, step as nat),
                result as int == run_dist_of(init, step as nat),
                entities(self@) == entities(init),
        {
            let ghost prev = self@;
            result = self.nearest_union();
            proof {
                let nn: nat = (step + 1) as nat;
                assert(run_of(init, nn) == step_of(run_of(init, (nn - 1) as nat)));
                assert(run_of(init, (nn - 1) as nat) == prev);
                assert(self@ == run_of(init, nn));
                assert(result as int == run_dist_of(init, nn));
            }
        }
        Ok(result)
    }

    /// Scans all unordered pairs of distinct clusters and returns the pair
    /// with the globally minimum single-linkage distance (first in scan order
    /// on ties), together with that distance.
    pub fn nearest_clusters(&self) -> (r: (usize, usize, i128))
        requires
            self.wf(),
            self@.len() >= 2,
        ensures
            is_nearest(self@, r.0 as int, r.1 as int),
            r.2 as int == cdist(self@[r.0 as int], self@[r.1 as int]),
    {
        let ghost cs = self@;
        let m = self.clusters.len();
        let mut bl: usize = 0;
        let mut br: usize = 1;
        proof {
            assert(cluster_wf(cs[0], dim(cs)));
            assert(cluster_wf(cs[1], dim(cs)));
            assert(cs[0] == self.clusters@[0]@);
            assert(cs[1] == self.clusters@[1]@);
        }
        let first = Cluster::range(&self.clusters[0], &self.clusters[1]);
        let mut best: i128 = first.2;
        for l in 0..m
            invariant
                cs == self@,
                partition_wf(cs),
                m == cs.len(),
                m >= 2,
                bl < br < m,
                best as int == cdist(cs[bl as int], cs[br as int]),
                forall|i: int, j: int|
                    0 <= i < j < m && i < l ==> best as int <= cdist(
                        #[trigger] cs[i],
                        #[trigger] cs[j],
                    ),
                forall|i: int, j: int|
                    0 <= i < j < m && i < l && lex_before(i, j, bl as int, br as int) ==> cdist(
                        #[trigger] cs[i],
                        #[trigger] cs[j],
                    ) > best as int,
                bl < l || (bl == l && (br as int) <= l + 1) || (bl == 0 && br == 1),
        {
            let rstart = l + 1;
            for r in rstart..m
                invariant
                    cs == self@,
                    partition_wf(cs),
                    m == cs.len(),
                    m >= 2,
                    l < m,
                    l + 1 <= r <= m,
                    bl < br < m,
                    best as int == cdist(cs[bl as int], cs[br as int]),
                    forall|i: int, j: int|
                        0 <= i < j < m && i < l ==> best as int <= cdist(
                            #[trigger] cs[i],
                            #[trigger] cs[j],
                        ),
                    forall|j: int|
                        l < j < r ==> best as int <= cdist(cs[l as int], #[trigger] cs[j]),
                    forall|i: int, j: int|
                        0 <= i < j < m && lex_before(i, j, l as int, r as int) && lex_before(
                            i,
                            j,
                            bl as int,
                            br as int,
                        ) ==> cdist(#[trigger] cs[i], #[trigger] cs[j]) > best as int,
                    bl < l || (bl == l && br <= r) || (bl == 0 && br == 1),
            {
                proof {
                    assert(cluster_wf(cs[l as int], dim(cs)));
                    assert(cluster_wf(cs[r as int], dim(cs)));
                    assert(cs[l as int] == self.clusters@[l as int]@);
                    assert(cs[r as int] == self.clusters@[r as int]@);
                }
                let p = Cluster::range(&self.clusters[l], &self.clusters[r]);
                if p.2 < best {
                    best = p.2;
                    bl = l;
                    br = r;
                }
            }
        }
        (bl, br, best)
    }

    /// Squared Euclidean distance between two attribute vectors of equal
    /// length, in fixed-point units.
    pub fn range(a: &Vec<i64>, b: &Vec<i64>) -> (r: i128)
        requires
            a@.len() == b@.len(),
            attrs_ok(ints_of(a@)),
            attrs_ok(ints_of(b@)),
        ensures
            0 <= r,
            r as int == sq_dist(ints_of(a@), ints_of(b@)),
    {
        let ghost ia = ints_of(a@);
        let ghost ib = ints_of(b@);
        let mut acc: i128 = 0;
        let n = a.len();
        proof {
            lemma_sq_dist_upto_bound(ia, ib, 0);
        }
        for k in 0..n
            invariant
                n == a@.len(),
                a@.len() == b@.len(),
                ia == ints_of(a@),
                ib == ints_of(b@),
                attrs_ok(ia),
                attrs_ok(ib),
                acc as int == sq_dist_upto(ia, ib, k as int),
                0 <= acc,
        {
            proof {
                lemma_sq_dist_upto_bound(ia, ib, k as int);
                lemma_sq_dist_upto_bound(ia, ib, k + 1 as int);
                assert((k + 1 as int) * 4 * (ATTR_LIMIT as int) * (ATTR_LIMIT as int)
                    < i128::MAX as int) by (nonlinear_arith)
                    requires
                        0 <= k + 1 as int <= 0x1_0000_0000_0000_0000,
                ;
            }
            let d = (a[k] as i128) - (b[k] as i128);
            acc = acc + d * d;
        }
        acc
    }
}

} // verus!
