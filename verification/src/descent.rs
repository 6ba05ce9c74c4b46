//! Greedy descent: from a node, move to the neighbour closest to the query
//! until none is closer, layer by layer.

use crate::edge::{before, has_id, is_before, Edge};
use crate::element::Element;
use crate::hnsw::Hnsw;
use crate::metric::Metric;
use crate::model::Model;
use vstd::prelude::*;

verus! {

impl<T> Model<T> {
    /// Node `b` with its distance from the query `q`.
    pub open spec fn probe<D: Metric<T>>(self, q: Seq<T>, b: usize) -> Edge {
        Edge { id: b, dist: D::dist(q, self.points[b as int]) }
    }

    /// `e` names a node that stands at layer `l`, with its distance from `q`.
    pub open spec fn node_ok<D: Metric<T>>(self, q: Seq<T>, l: int, e: Edge) -> bool {
        &&& e.id < self.links.len()
        &&& 0 <= l < self.links[e.id as int].len()
        &&& e == self.probe::<D>(q, e.id)
    }

    /// The first in order among `best` and the nodes that `nbrs` names from
    /// position `i` on, each with its distance from `q`.
    pub open spec fn scan_best<D: Metric<T>>(
        self,
        q: Seq<T>,
        nbrs: Seq<Edge>,
        i: int,
        best: Edge,
    ) -> Edge
        decreases nbrs.len() - i,
    {
        if 0 <= i < nbrs.len() {
            let c = self.probe::<D>(q, nbrs[i].id);
            self.scan_best::<D>(
                q,
                nbrs,
                i + 1,
                if before(c, best) {
                    c
                } else {
                    best
                },
            )
        } else {
            best
        }
    }

    /// Where the walk at layer `l` ends that starts at `cur` and moves to the
    /// best neighbour as long as that one is closer to `q`.
    pub open spec fn greedy<D: Metric<T>>(self, q: Seq<T>, l: int, cur: Edge) -> Edge
        decreases cur.dist,
    {
        let b = self.scan_best::<D>(q, self.links[cur.id as int][l], 0, cur);
        if b.dist < cur.dist {
            self.greedy::<D>(q, l, b)
        } else {
            cur
        }
    }

    /// Where the walks at the layers `from`, `from - 1`, .., `to + 1` end,
    /// each starting where the one above ended, the first at `cur`.
    pub open spec fn descend<D: Metric<T>>(self, q: Seq<T>, cur: Edge, from: int, to: int) -> Edge
        decreases from - to,
    {
        if from > to {
            self.descend::<D>(q, self.greedy::<D>(q, from, cur), from - 1, to)
        } else {
            cur
        }
    }

    /// No node lists `x` as a neighbour at layer `l`.
    pub open spec fn lone(self, l: int, x: usize) -> bool {
        forall|a: int|
            0 <= a < self.links.len() && 0 <= l < self.links[a].len() ==> !#[trigger] has_id(
                self.links[a][l],
                x,
            )
    }

    /// A node that does not stand at a layer, or has no neighbour there, is
    /// listed by no node at that layer.
    pub proof fn lemma_lone<D: Metric<T>>(self, l: int, x: usize)
        requires
            self.links_ok::<D>(),
            0 <= l,
            x < self.links.len(),
            l >= self.links[x as int].len() || self.links[x as int][l].len() == 0,
        ensures
            self.lone(l, x),
    {
        assert forall|a: int|
            0 <= a < self.links.len() && 0 <= l < self.links[a].len() implies !#[trigger] has_id(
            self.links[a][l],
            x,
        ) by {
            let s = self.links[a][l];
            if has_id(s, x) {
                let j = choose|j: int| 0 <= j < s.len() && (#[trigger] s[j]).id == x;
                assert(self.list_ok::<D>(a, l));
                assert(self.edge_ok::<D>(a, l, s[j]));
                let back = self.links[x as int][l];
                let k = choose|k: int| 0 <= k < back.len() && (#[trigger] back[k]).id == a as usize;
                assert(false);
            }
        }
    }

    /// The best among nodes other than `x` is not `x`.
    pub proof fn lemma_scan_best_avoids<D: Metric<T>>(
        self,
        q: Seq<T>,
        nbrs: Seq<Edge>,
        i: int,
        best: Edge,
        x: usize,
    )
        requires
            0 <= i,
            best.id != x,
            forall|j: int| 0 <= j < nbrs.len() ==> (#[trigger] nbrs[j]).id != x,
        ensures
            self.scan_best::<D>(q, nbrs, i, best).id != x,
        decreases nbrs.len() - i,
    {
        if i < nbrs.len() {
            let c = self.probe::<D>(q, nbrs[i].id);
            self.lemma_scan_best_avoids::<D>(q, nbrs, i + 1, if before(c, best) { c } else { best }, x);
        }
    }

    /// A walk that does not start at a node that nobody lists does not end
    /// there.
    pub proof fn lemma_greedy_avoids<D: Metric<T>>(self, q: Seq<T>, l: int, cur: Edge, x: usize)
        requires
            self.links_ok::<D>(),
            self.node_ok::<D>(q, l, cur),
            cur.id != x,
            self.lone(l, x),
        ensures
            self.greedy::<D>(q, l, cur).id != x,
        decreases cur.dist,
    {
        let nbrs = self.links[cur.id as int][l];
        self.lemma_neighbours_stand::<D>(cur.id as int, l);
        self.lemma_scan_best::<D>(q, l, nbrs, 0, cur);
        assert(!has_id(nbrs, x));
        self.lemma_scan_best_avoids::<D>(q, nbrs, 0, cur, x);
        let b = self.scan_best::<D>(q, nbrs, 0, cur);
        if b.dist < cur.dist {
            self.lemma_greedy_avoids::<D>(q, l, b, x);
        }
    }

    /// Walks down the layers that do not start at a node which no node lists
    /// there do not end at it.
    pub proof fn lemma_descend_avoids<D: Metric<T>>(
        self,
        q: Seq<T>,
        cur: Edge,
        from: int,
        to: int,
        x: usize,
    )
        requires
            self.links_ok::<D>(),
            0 <= to <= from,
            self.node_ok::<D>(q, from, cur),
            cur.id != x,
            forall|k: int| to < k <= from ==> self.lone(k, x),
        ensures
            self.descend::<D>(q, cur, from, to).id != x,
        decreases from - to,
    {
        if from > to {
            self.lemma_greedy::<D>(q, from, cur);
            self.lemma_greedy_avoids::<D>(q, from, cur, x);
            self.lemma_descend_avoids::<D>(q, self.greedy::<D>(q, from, cur), from - 1, to, x);
        }
    }

    /// The best among nodes of the layer is a node of the layer, and no farther
    /// from `q` than `best`.
    pub proof fn lemma_scan_best<D: Metric<T>>(
        self,
        q: Seq<T>,
        l: int,
        nbrs: Seq<Edge>,
        i: int,
        best: Edge,
    )
        requires
            0 <= i,
            self.node_ok::<D>(q, l, best),
            forall|j: int|
                0 <= j < nbrs.len() ==> (#[trigger] nbrs[j]).id < self.links.len() && l
                    < self.links[nbrs[j].id as int].len(),
        ensures
            self.node_ok::<D>(q, l, self.scan_best::<D>(q, nbrs, i, best)),
            self.scan_best::<D>(q, nbrs, i, best).dist <= best.dist,
        decreases nbrs.len() - i,
    {
        if i < nbrs.len() {
            let c = self.probe::<D>(q, nbrs[i].id);
            self.lemma_scan_best::<D>(q, l, nbrs, i + 1, if before(c, best) { c } else { best });
        }
    }

    /// The neighbours of a node of a well-formed graph stand at its layer.
    pub proof fn lemma_neighbours_stand<D: Metric<T>>(self, a: int, l: int)
        requires
            self.links_ok::<D>(),
            0 <= a < self.links.len(),
            0 <= l < self.links[a].len(),
        ensures
            forall|j: int|
                0 <= j < self.links[a][l].len() ==> (#[trigger] self.links[a][l][j]).id
                    < self.links.len() && l < self.links[self.links[a][l][j].id as int].len(),
    {
        assert(self.list_ok::<D>(a, l));
        assert forall|j: int| 0 <= j < self.links[a][l].len() implies (
        #[trigger] self.links[a][l][j]).id < self.links.len() && l
            < self.links[self.links[a][l][j].id as int].len() by {
            assert(self.edge_ok::<D>(a, l, self.links[a][l][j]));
        }
    }

    /// A walk ends at a node of its layer.
    pub proof fn lemma_greedy<D: Metric<T>>(self, q: Seq<T>, l: int, cur: Edge)
        requires
            self.links_ok::<D>(),
            self.node_ok::<D>(q, l, cur),
        ensures
            self.node_ok::<D>(q, l, self.greedy::<D>(q, l, cur)),
        decreases cur.dist,
    {
        let nbrs = self.links[cur.id as int][l];
        self.lemma_neighbours_stand::<D>(cur.id as int, l);
        self.lemma_scan_best::<D>(q, l, nbrs, 0, cur);
        let b = self.scan_best::<D>(q, nbrs, 0, cur);
        if b.dist < cur.dist {
            self.lemma_greedy::<D>(q, l, b);
        }
    }

    /// Walks down the layers end at a node that stands at layer `to`.
    pub proof fn lemma_descend<D: Metric<T>>(self, q: Seq<T>, cur: Edge, from: int, to: int)
        requires
            self.links_ok::<D>(),
            0 <= to <= from,
            self.node_ok::<D>(q, from, cur),
        ensures
            self.node_ok::<D>(q, to, self.descend::<D>(q, cur, from, to)),
        decreases from - to,
    {
        if from > to {
            self.lemma_greedy::<D>(q, from, cur);
            self.lemma_descend::<D>(q, self.greedy::<D>(q, from, cur), from - 1, to);
        }
    }
}

impl<'b, T: Element, D: Metric<T>> Hnsw<'b, T, D> {
    /// Node `b` with its distance from `q`.
    pub(crate) fn probe(&self, q: &[T], b: usize) -> (e: Edge)
        requires
            self.store_ok(),
            b < self@.len(),
            q@.len() == self@.params.dim,
        ensures
            e == self@.probe::<D>(q@, b),
    {
        Edge { id: b, dist: self.store.eval_to(&self.metric, q, b) }
    }

    /// The first in order among `cur` and its neighbours at layer `l`, each with
    /// its distance from `q`.
    #[verifier::loop_isolation(false)]
    pub(crate) fn scan_best(&self, q: &[T], l: usize, cur: Edge) -> (best: Edge)
        requires
            self.store_ok(),
            self@.shape_ok(),
            self@.links_ok::<D>(),
            q@.len() == self@.params.dim,
            self@.node_ok::<D>(q@, l as int, cur),
        ensures
            best == self@.scan_best::<D>(q@, self@.links[cur.id as int][l as int], 0, cur),
    {
        let nbrs = &self.links[cur.id][l];
        let mut best = cur;
        let mut i: usize = 0;
        proof {
            self@.lemma_neighbours_stand::<D>(cur.id as int, l as int);
        }
        while i < nbrs.len()
            invariant
                nbrs@ == self@.links[cur.id as int][l as int],
                0 <= i <= nbrs@.len(),
                self@.scan_best::<D>(q@, nbrs@, i as int, best) == self@.scan_best::<D>(
                    q@,
                    nbrs@,
                    0,
                    cur,
                ),
            decreases nbrs@.len() - i,
        {
            let c = self.probe(q, nbrs[i].id);
            if is_before(c, best) {
                best = c;
            }
            i += 1;
        }
        best
    }

    /// Walks at layer `l` from `cur` towards `q`.
    #[verifier::loop_isolation(false)]
    pub(crate) fn greedy(&self, q: &[T], l: usize, cur: Edge) -> (r: Edge)
        requires
            self.store_ok(),
            self@.shape_ok(),
            self@.links_ok::<D>(),
            q@.len() == self@.params.dim,
            self@.node_ok::<D>(q@, l as int, cur),
        ensures
            r == self@.greedy::<D>(q@, l as int, cur),
            self@.node_ok::<D>(q@, l as int, r),
    {
        let mut at = cur;
        let mut best = self.scan_best(q, l, at);
        proof {
            self@.lemma_greedy::<D>(q@, l as int, cur);
        }
        while best.dist < at.dist
            invariant
                self@.node_ok::<D>(q@, l as int, at),
                best == self@.scan_best::<D>(q@, self@.links[at.id as int][l as int], 0, at),
                self@.greedy::<D>(q@, l as int, at) == self@.greedy::<D>(q@, l as int, cur),
            decreases at.dist,
        {
            proof {
                self@.lemma_neighbours_stand::<D>(at.id as int, l as int);
                self@.lemma_scan_best::<D>(
                    q@,
                    l as int,
                    self@.links[at.id as int][l as int],
                    0,
                    at,
                );
            }
            at = best;
            best = self.scan_best(q, l, at);
        }
        at
    }

    /// Walks at the layers `from`, `from - 1`, .., `to + 1`, the first walk
    /// from `cur`.
    #[verifier::loop_isolation(false)]
    pub(crate) fn descend(&self, q: &[T], cur: Edge, from: usize, to: usize) -> (r: Edge)
        requires
            self.store_ok(),
            self@.shape_ok(),
            self@.links_ok::<D>(),
            q@.len() == self@.params.dim,
            to <= from,
            self@.node_ok::<D>(q@, from as int, cur),
        ensures
            r == self@.descend::<D>(q@, cur, from as int, to as int),
            self@.node_ok::<D>(q@, to as int, r),
    {
        let mut at = cur;
        let mut l = from;
        while l > to
            invariant
                to <= l <= from,
                self@.node_ok::<D>(q@, l as int, at),
                self@.descend::<D>(q@, at, l as int, to as int) == self@.descend::<D>(
                    q@,
                    cur,
                    from as int,
                    to as int,
                ),
            decreases l,
        {
            at = self.greedy(q, l, at);
            l -= 1;
        }
        at
    }
}

} // verus!
