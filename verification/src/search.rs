//! Search: descend greedily to the lowest layer, run a beam search there,
//! and return the `k` best nodes found.

use crate::edge::{before, cap, distinct, has_id, lemma_cap_ok, lemma_distinct_within, Edge};
use crate::element::Element;
use crate::error::HnswError;
use crate::hnsw::Hnsw;
use crate::metric::Metric;
use crate::model::Model;
use vstd::prelude::*;

verus! {

/// One result of a search.
#[derive(Clone, Copy, Debug, PartialEq, Eq, Structural)]
pub struct Neighbour {
    /// The id that the caller gave the point.
    pub d_id: usize,
    /// The distance from the query, as the bit pattern of a single precision
    /// number.
    pub distance: u32,
    /// The internal id of the point.
    pub p_id: usize,
}

impl Neighbour {
    /// The id that the caller gave the point.
    pub fn get_origin_id(&self) -> (id: usize)
        ensures
            id == self.d_id,
    {
        self.d_id
    }

    /// The distance from the query, as the bit pattern of a single precision
    /// number.
    pub fn get_distance(&self) -> (d: u32)
        ensures
            d == self.distance,
    {
        self.distance
    }
}

/// The order of results: by distance, then by internal id.
pub open spec fn ranked_before(a: Neighbour, b: Neighbour) -> bool {
    a.distance < b.distance || (a.distance == b.distance && a.p_id < b.p_id)
}

impl<T> Model<T> {
    /// The result that stands for the entry `e`.
    pub open spec fn neighbour(self, e: Edge) -> Neighbour {
        Neighbour { d_id: self.ext_ids[e.id as int], distance: e.dist, p_id: e.id }
    }

    /// The results that stand for the entries `s`.
    pub open spec fn neighbours(self, s: Seq<Edge>) -> Seq<Neighbour> {
        Seq::new(s.len(), |i: int| self.neighbour(s[i]))
    }

    /// The beam width of a search for `k` results that asks for width `ef`.
    pub open spec fn width(k: int, ef: int) -> int {
        if ef < k {
            k
        } else {
            ef
        }
    }

    /// The node at which the search for `q` enters the lowest layer.
    pub open spec fn search_seed<D: Metric<T>>(self, q: Seq<T>) -> Edge {
        let e = self.entry.unwrap();
        self.descend::<D>(q, self.probe::<D>(q, e), self.level(e as int), 0)
    }

    /// The result of a search for the `k` nearest neighbours of `q` with beam
    /// width `ef`.
    pub open spec fn search<D: Metric<T>>(self, q: Seq<T>, k: int, ef: int) -> Seq<Neighbour> {
        if k <= 0 || self.entry.is_none() {
            Seq::empty()
        } else {
            self.neighbours(
                cap(self.beam::<D>(q, 0, Self::width(k, ef), self.search_seed::<D>(q)), k),
            )
        }
    }

    /// `x` is a point of the index with its caller's id and its distance
    /// from `q`.
    pub open spec fn is_hit<D: Metric<T>>(self, q: Seq<T>, x: Neighbour) -> bool {
        &&& x.p_id < self.len()
        &&& x.d_id == self.ext_ids[x.p_id as int]
        &&& x.distance == D::dist(q, self.points[x.p_id as int])
    }

    /// `r` is a ranking of at most `k` points by their distance from `q`:
    /// ascending, points at equal distance by ascending internal id, and not
    /// empty where a result was asked for and the index holds a point.
    pub open spec fn is_ranking<D: Metric<T>>(self, q: Seq<T>, k: int, r: Seq<Neighbour>) -> bool {
        &&& r.len() <= k || r.len() == 0
        &&& k >= 1 && self.len() >= 1 ==> r.len() >= 1
        &&& forall|i: int| 0 <= i < r.len() ==> self.is_hit::<D>(q, #[trigger] r[i])
        &&& forall|i: int, j: int|
            0 <= i < j < r.len() ==> ranked_before(#[trigger] r[i], #[trigger] r[j])
    }

    /// The seed of a search is a node of the lowest layer.
    pub proof fn lemma_search_seed<D: Metric<T>>(self, q: Seq<T>)
        requires
            self.wf::<D>(),
            self.entry.is_some(),
        ensures
            self.node_ok::<D>(q, 0, self.search_seed::<D>(q)),
    {
        let e = self.entry.unwrap();
        self.lemma_descend::<D>(q, self.probe::<D>(q, e), self.level(e as int), 0);
    }
}

/// A search returns a ranking: at most `k` points, each with its caller's id
/// and its distance from the query, in ascending order of distance, points at
/// equal distance in ascending order of internal id. It is empty for `k = 0`
/// and on an empty index, and nowhere else.
pub proof fn lemma_search_is_ranking<T, D: Metric<T>>(m: Model<T>, q: Seq<T>, k: int, ef: int)
    requires
        m.wf::<D>(),
    ensures
        m.is_ranking::<D>(q, k, m.search::<D>(q, k, ef)),
        k <= 0 || m.len() == 0 ==> m.search::<D>(q, k, ef).len() == 0,
{
    let r = m.search::<D>(q, k, ef);
    if k <= 0 || m.entry.is_none() {
    } else {
        let seed = m.search_seed::<D>(q);
        let w = Model::<T>::width(k, ef);
        m.lemma_search_seed::<D>(q);
        m.lemma_beam::<D>(q, 0, w, seed);
        let found = m.beam::<D>(q, 0, w, seed);
        let top = cap(found, k);
        lemma_cap_ok(found, k);
        assert forall|i: int| 0 <= i < r.len() implies m.is_hit::<D>(q, #[trigger] r[i]) by {
            assert(top[i] == found[i]);
            assert(m.node_ok::<D>(q, 0, found[i]));
        }
        assert forall|i: int, j: int| 0 <= i < j < r.len() implies ranked_before(
            #[trigger] r[i],
            #[trigger] r[j],
        ) by {
            assert(before(top[i], top[j]));
        }
    }
}

/// Where the beam is at least as wide as the index is large, the search is
/// exact on what it can reach: every node that the seed reaches at the lowest
/// layer is either in the result or comes after each of its `k` entries.
pub proof fn lemma_search_is_exact_on_reach<T, D: Metric<T>>(
    m: Model<T>,
    q: Seq<T>,
    k: int,
    ef: int,
    y: int,
)
    requires
        m.wf::<D>(),
        k >= 1,
        m.entry.is_some(),
        Model::<T>::width(k, ef) >= m.len(),
        m.reaches(0, m.search_seed::<D>(q).id as int, y),
    ensures
        0 <= y < m.len(),
        (exists|i: int|
            0 <= i < m.search::<D>(q, k, ef).len() && (#[trigger] m.search::<D>(q, k, ef)[i]).p_id
                == y) || (m.search::<D>(q, k, ef).len() == k && forall|i: int|
            0 <= i < k ==> ranked_before(
                #[trigger] m.search::<D>(q, k, ef)[i],
                m.neighbour(m.probe::<D>(q, y as usize)),
            )),
{
    let r = m.search::<D>(q, k, ef);
    let seed = m.search_seed::<D>(q);
    let w = Model::<T>::width(k, ef);
    m.lemma_search_seed::<D>(q);
    m.lemma_beam::<D>(q, 0, w, seed);
    let found = m.beam::<D>(q, 0, w, seed);
    let top = cap(found, k);
    lemma_cap_ok(found, k);
    assert(has_id(found, y as usize));
    let j = choose|j: int| 0 <= j < found.len() && (#[trigger] found[j]).id == y as usize;
    assert(m.node_ok::<D>(q, 0, found[j]));
    if j < r.len() {
        assert(r[j].p_id == y);
    } else {
        assert forall|i: int| 0 <= i < k implies ranked_before(
            #[trigger] r[i],
            m.neighbour(m.probe::<D>(q, y as usize)),
        ) by {
            assert(top[i] == found[i]);
            assert(before(found[i], found[j]));
        }
    }
}

/// A beam narrower than the number of results asked for counts as that
/// number: below it the width does not change the result.
pub proof fn lemma_narrow_beam_counts_as_k<T, D: Metric<T>>(m: Model<T>, q: Seq<T>, k: int, ef: int)
    requires
        ef <= k,
    ensures
        m.search::<D>(q, k, ef) == m.search::<D>(q, k, k),
{
}

/// Widening the beam to the size of the index loses no true neighbour: let
/// `best` be a set of at most `k` points that holds every point which comes
/// before one of its own in the order of distance from the query, as the
/// `k` nearest points do. A point of `best` that a search of any width
/// returns is returned also by the search whose beam is at least as wide as
/// the index is large.
pub proof fn lemma_full_width_keeps_true_neighbours<T, D: Metric<T>>(
    m: Model<T>,
    q: Seq<T>,
    k: int,
    ef: int,
    full: int,
    best: Set<int>,
    i: int,
)
    requires
        m.wf::<D>(),
        k >= 1,
        Model::<T>::width(k, full) >= m.len(),
        best.finite(),
        best.len() <= k,
        forall|a: usize, b: usize|
            best.contains(a as int) && b < m.len() && #[trigger] before(
                m.probe::<D>(q, b),
                m.probe::<D>(q, a),
            ) ==> best.contains(b as int),
        0 <= i < m.search::<D>(q, k, ef).len(),
        best.contains(m.search::<D>(q, k, ef)[i].p_id as int),
    ensures
        exists|j: int|
            0 <= j < m.search::<D>(q, k, full).len() && (#[trigger] m.search::<D>(q, k, full)[j]).p_id
                == m.search::<D>(q, k, ef)[i].p_id,
{
    let seed = m.search_seed::<D>(q);
    let w1 = Model::<T>::width(k, ef);
    let w2 = Model::<T>::width(k, full);
    m.lemma_search_seed::<D>(q);
    m.lemma_beam::<D>(q, 0, w1, seed);
    m.lemma_beam_reach::<D>(q, 0, w1, seed);
    m.lemma_beam::<D>(q, 0, w2, seed);
    let found1 = m.beam::<D>(q, 0, w1, seed);
    let found2 = m.beam::<D>(q, 0, w2, seed);
    let top2 = cap(found2, k);
    lemma_cap_ok(found1, k);
    lemma_cap_ok(found2, k);
    let r1 = m.search::<D>(q, k, ef);
    let r2 = m.search::<D>(q, k, full);
    let x = r1[i].p_id;
    assert(cap(found1, k)[i] == found1[i]);
    assert(found1[i].id == x);
    assert(m.node_ok::<D>(q, 0, found1[i]));
    assert(m.reaches(0, seed.id as int, x as int));
    lemma_search_is_exact_on_reach::<T, D>(m, q, k, full, x as int);
    if !(exists|j: int| 0 <= j < r2.len() && (#[trigger] r2[j]).p_id == x) {
        let px = m.probe::<D>(q, x);
        assert(r2.len() == k);
        assert(top2.len() == k);
        let all = top2.push(px);
        assert forall|j: int| 0 <= j < k implies before(#[trigger] top2[j], px) && best.contains(
            top2[j].id as int,
        ) && top2[j].id != x by {
            assert(top2[j] == found2[j]);
            assert(m.node_ok::<D>(q, 0, found2[j]));
            assert(ranked_before(r2[j], m.neighbour(px)));
            assert(before(m.probe::<D>(q, top2[j].id), m.probe::<D>(q, x)));
        }
        assert forall|a: int, b: int| 0 <= a < b < all.len() implies (#[trigger] all[a]).id != (
        #[trigger] all[b]).id by {
            if b < k {
                assert(all[a] == top2[a]);
                assert(all[b] == top2[b]);
                assert(top2[a].id != top2[b].id);
            } else {
                assert(all[a] == top2[a]);
                assert(before(top2[a], px));
            }
        }
        assert forall|a: int| 0 <= a < all.len() implies best.contains((#[trigger] all[a]).id as int) by {
            if a < k {
                assert(all[a] == top2[a]);
                assert(before(top2[a], px));
            }
        }
        assert(distinct(all));
        lemma_distinct_within(all, best);
        assert(false);
    }
}

/// A point at distance zero from the query comes first: where the beam is at
/// least as wide as the index is large and the seed of the search reaches
/// point `t` at the lowest layer, the first result is at distance zero, and
/// it is `t` itself unless a point with a smaller internal id is at distance
/// zero too.
pub proof fn lemma_exact_match_comes_first<T, D: Metric<T>>(
    m: Model<T>,
    q: Seq<T>,
    k: int,
    ef: int,
    t: int,
)
    requires
        m.wf::<D>(),
        k >= 1,
        m.entry.is_some(),
        Model::<T>::width(k, ef) >= m.len(),
        0 <= t < m.len(),
        D::dist(q, m.points[t]) == 0,
        m.reaches(0, m.search_seed::<D>(q).id as int, t),
    ensures
        m.search::<D>(q, k, ef).len() >= 1,
        m.search::<D>(q, k, ef)[0].distance == 0,
        m.search::<D>(q, k, ef)[0].p_id <= t,
        (forall|y: int| 0 <= y < t ==> D::dist(q, #[trigger] m.points[y]) != 0) ==> m.search::<D>(
            q,
            k,
            ef,
        )[0].p_id == t,
{
    let r = m.search::<D>(q, k, ef);
    let seed = m.search_seed::<D>(q);
    let w = Model::<T>::width(k, ef);
    m.lemma_search_seed::<D>(q);
    m.lemma_beam::<D>(q, 0, w, seed);
    let found = m.beam::<D>(q, 0, w, seed);
    let top = cap(found, k);
    lemma_cap_ok(found, k);
    assert(has_id(found, t as usize));
    let j = choose|j: int| 0 <= j < found.len() && (#[trigger] found[j]).id == t as usize;
    assert(m.node_ok::<D>(q, 0, found[j]));
    assert(m.node_ok::<D>(q, 0, found[0]));
    assert(top[0] == found[0]);
    assert(r[0] == m.neighbour(found[0]));
    if j > 0 {
        assert(before(found[0], found[j]));
    }
}

impl<'b, T: Element, D: Metric<T>> Hnsw<'b, T, D> {
    /// Searches the `knbn` nearest neighbours of `data` with a beam of width
    /// `ef_s`; a width under `knbn` counts as `knbn`.
    ///
    /// The result is that of the model's `search`. It is a ranking by
    /// distance, empty for `knbn = 0` and on an empty index. A vector of
    /// another length than the dimension is refused.
    #[verifier::loop_isolation(false)]
    pub fn search(&self, data: &[T], knbn: usize, ef_s: usize) -> (r: Result<
        Vec<Neighbour>,
        HnswError,
    >)
        requires
            self.wf(),
        ensures
            data@.len() != self@.params.dim ==> r == Err::<Vec<Neighbour>, HnswError>(
                HnswError::DimensionMismatch,
            ),
            data@.len() == self@.params.dim ==> r.is_ok() && r.unwrap()@ == self@.search::<D>(
                data@,
                knbn as int,
                ef_s as int,
            ) && self@.is_ranking::<D>(data@, knbn as int, r.unwrap()@),
    {
        if data.len() != self.params.dim {
            return Err(HnswError::DimensionMismatch);
        }
        proof {
            lemma_search_is_ranking::<T, D>(self@, data@, knbn as int, ef_s as int);
        }
        let mut out: Vec<Neighbour> = Vec::new();
        if knbn == 0 {
            assert(out@ =~= self@.search::<D>(data@, knbn as int, ef_s as int));
            return Ok(out);
        }
        match self.entry {
            None => {
                assert(out@ =~= self@.search::<D>(data@, knbn as int, ef_s as int));
                Ok(out)
            },
            Some(e) => {
                let width = if ef_s < knbn {
                    knbn
                } else {
                    ef_s
                };
                let top = self.links[e].len() - 1;
                let start = self.probe(data, e);
                let seed = self.descend(data, start, top, 0);
                let mut found = self.beam(data, 0, width, seed);
                proof {
                    self@.lemma_beam::<D>(data@, 0, width as int, seed);
                    lemma_cap_ok(found@, knbn as int);
                }
                if found.len() > knbn {
                    found.truncate(knbn);
                }
                assert(found@ == cap(
                    self@.beam::<D>(data@, 0, width as int, seed),
                    knbn as int,
                ));
                let mut i: usize = 0;
                while i < found.len()
                    invariant
                        0 <= i <= found@.len(),
                        out@.len() == i,
                        forall|j: int| 0 <= j < i ==> out@[j] == self@.neighbour(found@[j]),
                    decreases found@.len() - i,
                {
                    let e = found[i];
                    proof {
                        assert(self@.node_ok::<D>(
                            data@,
                            0,
                            self@.beam::<D>(data@, 0, width as int, seed)[i as int],
                        ));
                    }
                    out.push(Neighbour { d_id: self.ext_ids[e.id], distance: e.dist, p_id: e.id });
                    i += 1;
                }
                assert(out@ =~= self@.neighbours(found@));
                Ok(out)
            },
        }
    }
}

} // verus!
