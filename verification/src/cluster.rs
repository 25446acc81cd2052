//! Entities and clusters.
//!
//! A `Country` is one entity: a name plus a fixed-point attribute vector. A
//! `Cluster` is an ordered collection of entities treated as one unit for
//! distance and merge purposes.

use vstd::prelude::*;

use crate::model::{attrs_ok, cdist, ints_of, sq_dist, CountryView};

verus! {

/// One entity: a unique name and its attribute vector in fixed-point units.
pub struct Country {
    pub name: String,
    pub attrs: Vec<i64>,
}

impl View for Country {
    type V = CountryView;

    open spec fn view(&self) -> CountryView {
        CountryView { name: self.name@, attrs: ints_of(self.attrs@) }
    }
}

/// Abstract views of a sequence of entities.
pub open spec fn views_of(s: Seq<Country>) -> Seq<CountryView> {
    s.map_values(|c: Country| c@)
}

/// A collection of entities; the engine only ever builds non-empty ones.
pub struct Cluster {
    pub countries: Vec<Country>,
}

impl View for Cluster {
    type V = Seq<CountryView>;

    open spec fn view(&self) -> Seq<CountryView> {
        views_of(self.countries@)
    }
}

impl Cluster {
    /// An empty cluster, ready to receive entities.
    pub fn new() -> (c: Cluster)
        ensures
            c@ == Seq::<CountryView>::empty(),
    {
        let c = Cluster { countries: Vec::new() };
        proof {
            assert(c@ =~= Seq::<CountryView>::empty());
        }
        c
    }

    /// Appends one entity to the cluster.
    pub fn add(&mut self, country: Country)
        ensures
            final(self)@ == old(self)@.push(country@),
    {
        let ghost cv = country@;
        self.countries.push(country);
        proof {
            assert(self@ =~= old(self)@.push(cv));
        }
    }

    /// Combines two clusters into one: the result holds the entities of `a`
    /// followed by the entities of `b`, each unchanged.
    pub fn union(a: Cluster, b: Cluster) -> (c: Cluster)
        ensures
            c@ == a@ + b@,
    {
        let ghost av = a@;
        let ghost bv = b@;
        let mut cs = a.countries;
        let mut bs = b.countries;
        cs.append(&mut bs);
        let c = Cluster { countries: cs };
        proof {
            assert(c@ =~= av + bv);
        }
        c
    }

    /// Single-linkage distance between two clusters: scans every
    /// cross-cluster entity pair and returns the indices of a nearest pair
    /// together with its squared Euclidean distance, which equals
    /// `cdist(a@, b@)`.
    pub fn range(a: &Cluster, b: &Cluster) -> (r: (usize, usize, i128))
        requires
            a@.len() > 0,
            b@.len() > 0,
            forall|i: int|
                0 <= i < a@.len() ==> (#[trigger] a@[i].attrs).len() == a@[0].attrs.len()
                    && attrs_ok(a@[i].attrs),
            forall|j: int|
                0 <= j < b@.len() ==> (#[trigger] b@[j].attrs).len() == a@[0].attrs.len()
                    && attrs_ok(b@[j].attrs),
        ensures
            r.0 < a@.len(),
            r.1 < b@.len(),
            r.2 as int == sq_dist(a@[r.0 as int].attrs, b@[r.1 as int].attrs),
            r.2 as int == cdist(a@, b@),
    {
        let mut bi: usize = 0;
        let mut bj: usize = 0;
        proof {
            assert(a@[0] == a.countries@[0]@);
            assert(b@[0] == b.countries@[0]@);
            assert(ints_of(a.countries@[0].attrs@).len() == a.countries@[0].attrs@.len());
            assert(ints_of(b.countries@[0].attrs@).len() == b.countries@[0].attrs@.len());
            assert(b@[0].attrs.len() == a@[0].attrs.len());
        }
        let mut best: i128 = crate::engine::Analyze::range(
            &a.countries[0].attrs,
            &b.countries[0].attrs,
        );
        let alen = a.countries.len();
        let blen = b.countries.len();
        for i in 0..alen
            invariant
                alen == a@.len(),
                blen == b@.len(),
                alen > 0,
                blen > 0,
                forall|p: int|
                    0 <= p < a@.len() ==> (#[trigger] a@[p].attrs).len() == a@[0].attrs.len()
                        && attrs_ok(a@[p].attrs),
                forall|q: int|
                    0 <= q < b@.len() ==> (#[trigger] b@[q].attrs).len() == a@[0].attrs.len()
                        && attrs_ok(b@[q].attrs),
                bi < alen,
                bj < blen,
                best as int == sq_dist(a@[bi as int].attrs, b@[bj as int].attrs),
                forall|p: int, q: int|
                    0 <= p < i && 0 <= q < blen ==> best as int <= sq_dist(
                        (#[trigger] a@[p]).attrs,
                        (#[trigger] b@[q]).attrs,
                    ),
        {
            for j in 0..blen
                invariant
                    alen == a@.len(),
                    blen == b@.len(),
                    alen > 0,
                    blen > 0,
                    i < alen,
                    forall|p: int|
                        0 <= p < a@.len() ==> (#[trigger] a@[p].attrs).len() == a@[0].attrs.len()
                            && attrs_ok(a@[p].attrs),
                    forall|q: int|
                        0 <= q < b@.len() ==> (#[trigger] b@[q].attrs).len() == a@[0].attrs.len()
                            && attrs_ok(b@[q].attrs),
                    bi < alen,
                    bj < blen,
                    best as int == sq_dist(a@[bi as int].attrs, b@[bj as int].attrs),
                    forall|p: int, q: int|
                        0 <= p < i && 0 <= q < blen ==> best as int <= sq_dist(
                            (#[trigger] a@[p]).attrs,
                            (#[trigger] b@[q]).attrs,
                        ),
                    forall|q: int|
                        0 <= q < j ==> best as int <= sq_dist(
                            a@[i as int].attrs,
                            (#[trigger] b@[q]).attrs,
                        ),
            {
                proof {
                    assert(a@[i as int] == a.countries@[i as int]@);
                    assert(b@[j as int] == b.countries@[j as int]@);
                    assert(ints_of(a.countries@[i as int].attrs@).len() == a.countries@[
                    i as int].attrs@.len());
                    assert(ints_of(b.countries@[j as int].attrs@).len() == b.countries@[
                    j as int].attrs@.len());
                    assert(a@[i as int].attrs.len() == a@[0].attrs.len());
                    assert(b@[j as int].attrs.len() == a@[0].attrs.len());
                }
                let d = crate::engine::Analyze::range(
                    &a.countries[i].attrs,
                    &b.countries[j].attrs,
                );
                if d < best {
                    best = d;
                    bi = i;
                    bj = j;
                }
            }
        }
        proof {
            crate::model::lemma_cdist_pairs(a@, b@);
            let (wi, wj): (int, int) = choose|wi: int, wj: int|
                0 <= wi < a@.len() && 0 <= wj < b@.len() && cdist(a@, b@) == sq_dist(
                    (#[trigger] a@[wi]).attrs,
                    (#[trigger] b@[wj]).attrs,
                );
            assert(best as int <= sq_dist(a@[wi].attrs, b@[wj].attrs));
            assert(cdist(a@, b@) <= sq_dist(a@[bi as int].attrs, b@[bj as int].attrs));
        }
        (bi, bj, best)
    }
}

} // verus!
