//! Insertion: a new node is given a highest layer, the graph is descended
//! to that layer, and at each layer from there down the node is linked to
//! neighbours selected among the nodes that a beam search finds. A neighbour
//! that then has too many neighbours of its own drops those that selection
//! does not keep.

use crate::edge::{copy_edges, has_id, lemma_insert_sorted_ids, lemma_without_id_ok, Edge};
use crate::element::Element;
use crate::error::HnswError;
use crate::hnsw::Hnsw;
use crate::level::{level_of, next_sample, next_state, sample_level, sample_of};
use crate::metric::Metric;
use crate::model::Model;
use crate::select::{count, lemma_count_grows};
use vstd::prelude::*;
use vstd::slice::slice_to_vec;

verus! {

/// `cands` names node `a` at a position from `lo` up to `hi` that `mask`
/// marks.
pub open spec fn marked(cands: Seq<Edge>, mask: Seq<bool>, lo: int, hi: int, a: int) -> bool {
    exists|j: int|
        lo <= j < hi && 0 <= j < cands.len() && j < mask.len() && mask[j] && (
        #[trigger] cands[j]).id == a
}

impl<T> Model<T> {
    /// `other` differs from `self` in the contents of neighbour lists only.
    pub open spec fn same_frame(self, other: Model<T>) -> bool {
        &&& other == (Model { links: other.links, ..self })
        &&& other.links.len() == self.links.len()
        &&& forall|a: int|
            0 <= a < self.links.len() ==> (#[trigger] other.links[a]).len() == self.links[a].len()
    }

    /// `other` has the lists of `self` at every layer but `l`, and none of
    /// its lists is longer.
    pub open spec fn shrunk_to(self, other: Model<T>, l: int) -> bool {
        forall|a: int, k: int|
            0 <= a < self.links.len() && 0 <= k < self.links[a].len() ==> (
            #[trigger] other.links[a][k]).len() <= self.links[a][k].len() && (k != l
                ==> other.links[a][k] == self.links[a][k])
    }

    /// The index with one more node, which stands at the layers up to `lvl`
    /// and has no neighbour yet.
    pub open spec fn push_node(self, v: Seq<T>, ext: usize, lvl: int) -> Model<T> {
        Model {
            points: self.points.push(v),
            ext_ids: self.ext_ids.push(ext),
            links: self.links.push(Seq::new((lvl + 1) as nat, |k: int| Seq::<Edge>::empty())),
            ..self
        }
    }

    /// The index after node `s` has ended its neighbourhood at layer `l` with
    /// each node that `old` names from position `i` on and `mask` does not
    /// mark.
    pub open spec fn drop_unselected(
        self,
        s: usize,
        l: int,
        old: Seq<Edge>,
        mask: Seq<bool>,
        i: int,
    ) -> Model<T>
        decreases old.len() - i,
    {
        if 0 <= i < old.len() {
            (if mask[i] {
                self
            } else {
                self.unlink(s, old[i].id, l)
            }).drop_unselected(s, l, old, mask, i + 1)
        } else {
            self
        }
    }

    /// The index after node `s`, if it has more neighbours at layer `l` than
    /// the layer allows, has kept those that selection marks and ended its
    /// neighbourhood with the others.
    pub open spec fn shrink<D: Metric<T>>(self, s: usize, l: int) -> Model<T> {
        let old = self.links[s as int][l];
        if old.len() > self.params.bound(l) {
            self.drop_unselected(
                s,
                l,
                old,
                self.select::<D>(old, self.params.bound(l), self.params.keep_pruned),
                0,
            )
        } else {
            self
        }
    }

    /// The index after `q` has become the neighbour, at layer `l`, of each
    /// node that `cands` names from position `i` on and `mask` marks.
    pub open spec fn link_all<D: Metric<T>>(
        self,
        q: usize,
        l: int,
        cands: Seq<Edge>,
        mask: Seq<bool>,
        i: int,
    ) -> Model<T>
        decreases cands.len() - i,
    {
        if 0 <= i < cands.len() {
            (if mask[i] {
                self.link::<D>(q, cands[i].id, l)
            } else {
                self
            }).link_all::<D>(q, l, cands, mask, i + 1)
        } else {
            self
        }
    }

    /// The index after each node that `cands` names from position `i` on and
    /// `mask` marks has been brought back under its bound at layer `l`, one
    /// after another.
    pub open spec fn shrink_all<D: Metric<T>>(
        self,
        l: int,
        cands: Seq<Edge>,
        mask: Seq<bool>,
        i: int,
    ) -> Model<T>
        decreases cands.len() - i,
    {
        if 0 <= i < cands.len() {
            (if mask[i] {
                self.shrink::<D>(cands[i].id, l)
            } else {
                self
            }).shrink_all::<D>(l, cands, mask, i + 1)
        } else {
            self
        }
    }

    /// No list is over its bound, but those at layer `l` of the nodes that
    /// `cands` names between the positions `lo` and `hi` and `mask` marks,
    /// which may be over it by one.
    pub open spec fn bounded_but(
        self,
        l: int,
        cands: Seq<Edge>,
        mask: Seq<bool>,
        lo: int,
        hi: int,
    ) -> bool {
        forall|a: int, k: int|
            0 <= a < self.links.len() && 0 <= k < self.links[a].len() ==> (
            #[trigger] self.links[a][k]).len() <= self.params.bound(k) || (k == l
                && self.links[a][k].len() <= self.params.bound(k) + 1 && marked(
                cands,
                mask,
                lo,
                hi,
                a,
            ))
    }

    /// The nodes that the beam search for node `q` finds at layer `l`.
    pub open spec fn found_at<D: Metric<T>>(self, q: usize, l: int, cur: Edge) -> Seq<Edge> {
        self.beam::<D>(self.points[q as int], l, self.params.ef_construction as int, cur)
    }

    /// The index after node `q` has been linked at layer `l`: it becomes the
    /// neighbour of the nodes selected among those that the beam search from
    /// `cur` finds, and then each of these is brought back under its bound.
    pub open spec fn insert_layer<D: Metric<T>>(self, q: usize, l: int, cur: Edge) -> Model<T> {
        let w = self.found_at::<D>(q, l, cur);
        let mask = self.select::<D>(w, self.params.target(l), self.params.keep_pruned);
        self.link_all::<D>(q, l, w, mask, 0).shrink_all::<D>(l, w, mask, 0)
    }

    /// The index after node `q` has been linked at the layers `l`, `l - 1`,
    /// .., 0, the search at each layer starting from the nearest node found
    /// at the layer above, the first from `cur`.
    pub open spec fn insert_layers<D: Metric<T>>(self, q: usize, l: int, cur: Edge) -> Model<T>
        decreases l + 1,
    {
        if l < 0 {
            self
        } else {
            self.insert_layer::<D>(q, l, cur).insert_layers::<D>(
                q,
                l - 1,
                self.found_at::<D>(q, l, cur)[0],
            )
        }
    }

    /// The layer that a node gets which was sampled `lvl`: no higher than the
    /// highest layer of the index.
    pub open spec fn clamp_level(self, lvl: int) -> int {
        if lvl >= self.params.max_layers {
            self.params.max_layers - 1
        } else {
            lvl
        }
    }

    /// Why the index refuses to take the vector `v`, if it does.
    pub open spec fn insert_error(self, v: Seq<T>) -> Option<HnswError> {
        if v.len() != self.params.dim {
            Some(HnswError::DimensionMismatch)
        } else if self.len() >= self.params.max_elements {
            Some(HnswError::CapacityExceeded)
        } else {
            None
        }
    }

    /// The index after the vector `v` with the caller's id `ext` has been
    /// inserted with highest layer `lvl`.
    pub open spec fn insert_at<D: Metric<T>>(self, v: Seq<T>, ext: usize, lvl: int) -> Model<T> {
        let q = self.len() as usize;
        let m1 = self.push_node(v, ext, lvl);
        match self.entry {
            None => Model { entry: Some(q), ..m1 },
            Some(e) => {
                let top = self.level(e as int);
                let start = m1.probe::<D>(v, e);
                let cur = if top > lvl {
                    m1.descend::<D>(v, start, top, lvl)
                } else {
                    start
                };
                let m2 = m1.insert_layers::<D>(
                    q,
                    if lvl < top {
                        lvl
                    } else {
                        top
                    },
                    cur,
                );
                if lvl > top {
                    Model { entry: Some(q), ..m2 }
                } else {
                    m2
                }
            },
        }
    }

    /// The layer that the generator gives the next node.
    pub open spec fn sampled_level(self) -> int {
        level_of(
            sample_of(next_state(self.rng)),
            self.params.level_base,
            self.params.max_layers - 1,
        )
    }

    /// The index after the vector `v` with the caller's id `ext` has been
    /// inserted at the layer that the generator gives.
    pub open spec fn insert<D: Metric<T>>(self, v: Seq<T>, ext: usize) -> Model<T> {
        (Model { rng: next_state(self.rng), ..self }).insert_at::<D>(v, ext, self.sampled_level())
    }

    /// What inserting the vector `v` returns: the internal id of the new
    /// point, or why the vector is refused.
    pub open spec fn insert_result(self, v: Seq<T>) -> Result<usize, HnswError> {
        match self.insert_error(v) {
            Some(e) => Err(e),
            None => Ok(self.len() as usize),
        }
    }

    /// The index after the vector `v` has been offered to it: unchanged
    /// where the vector is refused.
    pub open spec fn insert_one<D: Metric<T>>(self, v: Seq<T>, ext: usize) -> Model<T> {
        if self.insert_error(v).is_some() {
            self
        } else {
            self.insert::<D>(v, ext)
        }
    }

    /// What holds of the lists of an index depends on its parameters, points
    /// and lists alone.
    pub proof fn lemma_frame<D: Metric<T>>(self, other: Model<T>)
        requires
            self.shape_ok(),
            self.links_ok::<D>(),
            self.bounded(),
            other.params == self.params,
            other.points == self.points,
            other.ext_ids == self.ext_ids,
            other.links == self.links,
        ensures
            other.shape_ok(),
            other.links_ok::<D>(),
            other.bounded(),
            other.entry == self.entry && self.entry_ok() ==> other.entry_ok(),
    {
        let m = other;
        assert forall|a: int, l: int|
            0 <= a < m.links.len() && 0 <= l < m.links[a].len() implies #[trigger] m.list_ok::<D>(
            a,
            l,
        ) && m.links[a][l].len() <= m.params.bound(l) by {
            assert(self.list_ok::<D>(a, l));
            assert(self.links[a][l].len() <= self.params.bound(l));
            assert forall|i: int| 0 <= i < m.links[a][l].len() implies #[trigger] m.edge_ok::<D>(
                a,
                l,
                m.links[a][l][i],
            ) by {
                assert(self.edge_ok::<D>(a, l, self.links[a][l][i]));
            }
        }
    }

    /// A node without neighbours can join a graph whose lists are in order and
    /// within their bounds.
    pub proof fn lemma_push_node_ok<D: Metric<T>>(self, v: Seq<T>, ext: usize, lvl: int)
        requires
            self.shape_ok(),
            self.links_ok::<D>(),
            self.bounded(),
            v.len() == self.params.dim,
            0 <= lvl < self.params.max_layers,
            self.len() < self.params.max_elements,
        ensures
            self.push_node(v, ext, lvl).shape_ok(),
            self.push_node(v, ext, lvl).links_ok::<D>(),
            self.push_node(v, ext, lvl).bounded(),
            self.push_node(v, ext, lvl).links.len() == self.links.len() + 1,
            self.push_node(v, ext, lvl).links[self.len()].len() == lvl + 1,
            forall|k: int|
                0 <= k <= lvl ==> (#[trigger] self.push_node(v, ext, lvl).links[self.len()][k]).len()
                    == 0,
            forall|a: int|
                0 <= a < self.len() ==> #[trigger] self.push_node(v, ext, lvl).links[a]
                    == self.links[a],
    {
        let m1 = self.push_node(v, ext, lvl);
        let n = self.len();
        assert forall|a: int| 0 <= a < m1.points.len() implies (#[trigger] m1.points[a]).len()
            == m1.params.dim by {
            if a < n {
                assert(m1.points[a] == self.points[a]);
            }
        }
        assert forall|a: int| 0 <= a < m1.links.len() implies 1 <= (#[trigger] m1.links[a]).len()
            <= m1.params.max_layers by {
            if a < n {
                assert(m1.links[a] == self.links[a]);
            }
        }
        assert forall|a: int, l: int|
            0 <= a < m1.links.len() && 0 <= l < m1.links[a].len() implies #[trigger] m1.list_ok::<D>(
            a,
            l,
        ) && m1.links[a][l].len() <= m1.params.bound(l) by {
            if a < n {
                assert(m1.links[a] == self.links[a]);
                assert(self.list_ok::<D>(a, l));
                assert(self.links[a][l].len() <= self.params.bound(l));
                assert forall|i: int| 0 <= i < m1.links[a][l].len() implies #[trigger] m1.edge_ok::<
                    D,
                >(a, l, m1.links[a][l][i]) by {
                    let e = self.links[a][l][i];
                    assert(self.edge_ok::<D>(a, l, e));
                    assert(m1.links[e.id as int] == self.links[e.id as int]);
                    assert(m1.points[e.id as int] == self.points[e.id as int]);
                    assert(m1.points[a] == self.points[a]);
                }
            }
        }
    }
}

impl<'b, T: Element, D: Metric<T>> Hnsw<'b, T, D> {
    /// Brings node `s` back under its bound at layer `l`.
    #[verifier::loop_isolation(false)]
    pub(crate) fn shrink(&mut self, s: usize, l: usize)
        requires
            old(self).store_ok(),
            old(self)@.shape_ok(),
            old(self)@.links_ok::<D>(),
            s < old(self)@.len(),
            l < old(self)@.links[s as int].len(),
        ensures
            final(self)@ == old(self)@.shrink::<D>(s, l as int),
            final(self).store == old(self).store,
            final(self)@.shape_ok(),
            final(self)@.links_ok::<D>(),
            old(self)@.same_frame(final(self)@),
            old(self)@.shrunk_to(final(self)@, l as int),
            final(self)@.links[s as int][l as int].len() <= old(self)@.params.bound(l as int),
    {
        let bound = if l == 0 {
            self.params.m_max0
        } else {
            self.params.m_max
        };
        if self.links[s][l].len() > bound {
            let old_list = copy_edges(&self.links[s][l]);
            proof {
                self@.lemma_neighbours_stand::<D>(s as int, l as int);
                assert(self@.list_ok::<D>(s as int, l as int));
            }
            let mask = self.select(&old_list, bound);
            let mut i: usize = 0;
            while i < old_list.len()
                invariant
                    0 <= i <= old_list@.len(),
                    mask@.len() == old_list@.len(),
                    self@.shape_ok(),
                    self@.links_ok::<D>(),
                    old(self)@.same_frame(self@),
                    old(self)@.shrunk_to(self@, l as int),
                    self.store == old(self).store,
                    self@.drop_unselected(s, l as int, old_list@, mask@, i as int) == old(
                        self,
                    )@.drop_unselected(s, l as int, old_list@, mask@, 0),
                    self@.links[s as int][l as int].len() == old_list@.len() - (i - count(
                        mask@,
                        i as int,
                    )),
                    forall|j: int|
                        i <= j < old_list@.len() ==> has_id(
                            self@.links[s as int][l as int],
                            (#[trigger] old_list@[j]).id,
                        ),
                decreases old_list@.len() - i,
            {
                if !mask[i] {
                    let x = old_list[i].id;
                    let ghost m = self@;
                    proof {
                        assert(old(self)@.edge_ok::<D>(s as int, l as int, old_list@[i as int]));
                        m.lemma_unlink_ok::<D>(s, x, l as int);
                        assert(m.list_ok::<D>(s as int, l as int));
                        assert(m.list_ok::<D>(x as int, l as int));
                        lemma_without_id_ok(m.links[s as int][l as int], x);
                        lemma_without_id_ok(m.links[x as int][l as int], s);
                        assert(has_id(m.links[s as int][l as int], old_list@[i as int].id));
                    }
                    self.unlink(s, x, l);
                    proof {
                        let m2 = self@;
                        assert forall|a: int, k: int|
                            0 <= a < m.links.len() && 0 <= k < m.links[a].len() implies (
                        #[trigger] m2.links[a][k]).len() <= m.links[a][k].len() && (k != l as int
                            ==> m2.links[a][k] == m.links[a][k]) by {}
                        assert forall|a: int, k: int|
                            0 <= a < m.links.len() && 0 <= k < m.links[a].len() implies (
                        #[trigger] m2.links[a][k]).len() <= old(self)@.links[a][k].len() && (k
                            != l as int ==> m2.links[a][k] == old(self)@.links[a][k]) by {
                            assert(m2.links[a][k].len() <= m.links[a][k].len());
                            assert(m.links[a][k].len() <= old(self)@.links[a][k].len());
                        }
                        assert forall|j: int| i + 1 <= j < old_list@.len() implies has_id(
                            m2.links[s as int][l as int],
                            (#[trigger] old_list@[j]).id,
                        ) by {
                            assert(has_id(m.links[s as int][l as int], old_list@[j].id));
                            assert(old_list@[i as int].id != old_list@[j].id);
                        }
                    }
                }
                i += 1;
            }
        } else {
            proof {
                let m = self@;
                assert forall|a: int, k: int|
                    0 <= a < m.links.len() && 0 <= k < m.links[a].len() implies (
                #[trigger] m.links[a][k]).len() <= m.links[a][k].len() by {}
            }
        }
    }

    /// Links node `q` at layer `l` and returns the nearest node found there.
    #[verifier::loop_isolation(false)]
    pub(crate) fn insert_layer(&mut self, q: usize, l: usize, cur: Edge) -> (next: Edge)
        requires
            old(self).store_ok(),
            old(self)@.shape_ok(),
            old(self)@.links_ok::<D>(),
            old(self)@.bounded(),
            q < old(self)@.len(),
            l < old(self)@.links[q as int].len(),
            old(self)@.links[q as int][l as int].len() == 0,
            old(self)@.node_ok::<D>(old(self)@.points[q as int], l as int, cur),
            cur.id != q,
        ensures
            final(self)@ == old(self)@.insert_layer::<D>(q, l as int, cur),
            next == old(self)@.found_at::<D>(q, l as int, cur)[0],
            next.id != q,
            final(self).store == old(self).store,
            final(self)@.shape_ok(),
            final(self)@.links_ok::<D>(),
            final(self)@.bounded(),
            old(self)@.same_frame(final(self)@),
            final(self)@.node_ok::<D>(old(self)@.points[q as int], l as int, next),
            forall|a: int, k: int|
                0 <= a < old(self)@.links.len() && 0 <= k < old(self)@.links[a].len() && k
                    != l as int ==> #[trigger] final(self)@.links[a][k] == old(self)@.links[a][k],
    {
        let ghost m0 = self@;
        let ghost v = m0.points[q as int];
        let ghost li = l as int;
        let qv = self.store.vector(q);
        let w = self.beam(qv.as_slice(), l, self.params.ef_construction, cur);
        proof {
            m0.lemma_beam::<D>(v, li, self.params.ef_construction as int, cur);
            m0.lemma_lone::<D>(li, q);
            m0.lemma_beam_avoids::<D>(v, li, self.params.ef_construction as int, cur, q);
            assert forall|j: int| 0 <= j < w@.len() implies (#[trigger] w@[j]).id < m0.len()
                && w@[j].id != q && li < m0.links[w@[j].id as int].len() by {
                assert(m0.node_ok::<D>(v, li, w@[j]));
            }
        }
        let target = if l == 0 {
            self.params.m_max0
        } else {
            self.params.m
        };
        let mask = self.select(&w, target);
        let mut i: usize = 0;
        while i < w.len()
            invariant
                0 <= i <= w@.len(),
                self@.shape_ok(),
                self@.links_ok::<D>(),
                m0.same_frame(self@),
                self.store == old(self).store,
                self@.link_all::<D>(q, li, w@, mask@, i as int) == m0.link_all::<D>(
                    q,
                    li,
                    w@,
                    mask@,
                    0,
                ),
                self@.links[q as int][li].len() == count(mask@, i as int),
                forall|x: usize| #[trigger]
                    has_id(self@.links[q as int][li], x) ==> marked(w@, mask@, 0, i as int, x as int),
                self@.bounded_but(li, w@, mask@, 0, i as int),
                forall|a: int, k: int|
                    0 <= a < m0.links.len() && 0 <= k < m0.links[a].len() && k != li
                        ==> #[trigger] self@.links[a][k] == m0.links[a][k],
            decreases w@.len() - i,
        {
            let ghost m = self@;
            if mask[i] {
                let b = w[i].id;
                proof {
                    lemma_count_grows(mask@, i + 1, mask@.len() as int);
                    if has_id(m.links[q as int][li], b) {
                        let j = choose|j: int|
                            0 <= j < i && 0 <= j < w@.len() && j < mask@.len() && mask@[j] && (
                            #[trigger] w@[j]).id == b as int;
                        assert(w@[j].id != w@[i as int].id);
                    }
                    m.lemma_link_ok::<D>(q, b, li);
                    lemma_insert_sorted_ids(
                        m.links[q as int][li],
                        Edge { id: b, dist: m.dist::<D>(q as int, b as int) },
                    );
                    assert(m.links[b as int][li].len() <= m.params.bound(li)) by {
                        if marked(w@, mask@, 0, i as int, b as int) {
                            let j = choose|j: int|
                                0 <= j < i && 0 <= j < w@.len() && j < mask@.len() && mask@[j] && (
                                #[trigger] w@[j]).id == b as int;
                            assert(w@[j].id != w@[i as int].id);
                        }
                    }
                }
                self.link(q, b, l);
                proof {
                    let m2 = self@;
                    assert forall|x: usize| #[trigger]
                        has_id(m2.links[q as int][li], x) implies marked(
                        w@,
                        mask@,
                        0,
                        i + 1,
                        x as int,
                    ) by {
                        if x == b {
                            assert(w@[i as int].id == x);
                        } else {
                            assert(has_id(m.links[q as int][li], x));
                            let j = choose|j: int|
                                0 <= j < i && 0 <= j < w@.len() && j < mask@.len() && mask@[j] && (
                                #[trigger] w@[j]).id == x as int;
                            assert(w@[j].id == x);
                        }
                    }
                    assert forall|a: int, k: int|
                        0 <= a < m2.links.len() && 0 <= k < m2.links[a].len() implies (
                    #[trigger] m2.links[a][k]).len() <= m2.params.bound(k) || (k == li
                        && m2.links[a][k].len() <= m2.params.bound(k) + 1 && marked(
                        w@,
                        mask@,
                        0,
                        i + 1,
                        a,
                    )) by {
                        if a == q && k == li {
                        } else if a == b && k == li {
                            assert(w@[i as int].id == a);
                        } else {
                            assert(m2.links[a][k] == m.links[a][k]);
                            if m.links[a][k].len() > m.params.bound(k) {
                                let j = choose|j: int|
                                    0 <= j < i && 0 <= j < w@.len() && j < mask@.len() && mask@[j]
                                        && (#[trigger] w@[j]).id == a;
                                assert(w@[j].id == a);
                            }
                        }
                    }
                    assert forall|a: int, k: int|
                        0 <= a < m0.links.len() && 0 <= k < m0.links[a].len() && k
                            != li implies #[trigger] m2.links[a][k] == m0.links[a][k] by {
                        assert(m2.links[a][k] == m.links[a][k]);
                    }
                }
            } else {
                proof {
                    assert forall|x: usize| #[trigger]
                        has_id(m.links[q as int][li], x) implies marked(
                        w@,
                        mask@,
                        0,
                        i + 1,
                        x as int,
                    ) by {
                        let j = choose|j: int|
                            0 <= j < i && 0 <= j < w@.len() && j < mask@.len() && mask@[j] && (
                            #[trigger] w@[j]).id == x as int;
                        assert(w@[j].id == x);
                    }
                    assert forall|a: int, k: int|
                        0 <= a < m.links.len() && 0 <= k < m.links[a].len() implies (
                    #[trigger] m.links[a][k]).len() <= m.params.bound(k) || (k == li
                        && m.links[a][k].len() <= m.params.bound(k) + 1 && marked(
                        w@,
                        mask@,
                        0,
                        i + 1,
                        a,
                    )) by {
                        if m.links[a][k].len() > m.params.bound(k) {
                            let j = choose|j: int|
                                0 <= j < i && 0 <= j < w@.len() && j < mask@.len() && mask@[j] && (
                                #[trigger] w@[j]).id == a;
                            assert(w@[j].id == a);
                        }
                    }
                }
            }
            i += 1;
        }
        let ghost linked = self@;
        let mut i: usize = 0;
        while i < w.len()
            invariant
                0 <= i <= w@.len(),
                self@.shape_ok(),
                self@.links_ok::<D>(),
                m0.same_frame(self@),
                self.store == old(self).store,
                self@.shrink_all::<D>(li, w@, mask@, i as int) == linked.shrink_all::<D>(
                    li,
                    w@,
                    mask@,
                    0,
                ),
                self@.bounded_but(li, w@, mask@, i as int, w@.len() as int),
                forall|a: int, k: int|
                    0 <= a < m0.links.len() && 0 <= k < m0.links[a].len() && k != li
                        ==> #[trigger] self@.links[a][k] == m0.links[a][k],
            decreases w@.len() - i,
        {
            let ghost m = self@;
            if mask[i] {
                self.shrink(w[i].id, l);
            }
            proof {
                let m2 = self@;
                assert forall|a: int, k: int|
                    0 <= a < m2.links.len() && 0 <= k < m2.links[a].len() implies (
                #[trigger] m2.links[a][k]).len() <= m2.params.bound(k) || (k == li
                    && m2.links[a][k].len() <= m2.params.bound(k) + 1 && marked(
                    w@,
                    mask@,
                    i + 1,
                    w@.len() as int,
                    a,
                )) by {
                    assert(m2.links[a][k].len() <= m.links[a][k].len());
                    if m2.links[a][k].len() > m2.params.bound(k) {
                        let j = choose|j: int|
                            i <= j < w@.len() && 0 <= j < w@.len() && j < mask@.len() && mask@[j]
                                && (#[trigger] w@[j]).id == a;
                        assert(w@[j].id == a);
                        assert(j != i);
                    }
                }
                assert forall|a: int, k: int|
                    0 <= a < m0.links.len() && 0 <= k < m0.links[a].len() && k
                        != li implies #[trigger] m2.links[a][k] == m0.links[a][k] by {
                    assert(m2.links[a][k].len() <= m.links[a][k].len());
                    assert(m.links[a][k] == m0.links[a][k]);
                }
            }
            i += 1;
        }
        proof {
            let m2 = self@;
            assert forall|a: int, k: int|
                0 <= a < m2.links.len() && 0 <= k < m2.links[a].len() implies (
            #[trigger] m2.links[a][k]).len() <= m2.params.bound(k) by {
                if m2.links[a][k].len() > m2.params.bound(k) {
                    let j = choose|j: int|
                        w@.len() <= j < w@.len() && 0 <= j < w@.len() && j < mask@.len() && mask@[j]
                            && (#[trigger] w@[j]).id == a;
                }
            }
            assert(m0.node_ok::<D>(v, li, w@[0]));
        }
        w[0]
    }

    /// Inserts `data` under the caller's id `id`, with `lvl` as the highest
    /// layer of the new node (or the highest layer of the index, where `lvl`
    /// is beyond it).
    ///
    /// Returns the internal id of the new point, which is the number of
    /// points before. A vector of another length than the dimension is
    /// refused, and so is any vector once the index holds `max_elements`
    /// points; the index is then unchanged.
    #[verifier::loop_isolation(false)]
    pub fn insert_at_layer(&mut self, data: &[T], id: usize, lvl: usize) -> (r: Result<
        usize,
        HnswError,
    >)
        requires
            old(self).wf(),
        ensures
            final(self).wf(),
            final(self).datamap() == old(self).datamap(),
            match old(self)@.insert_error(data@) {
                Some(e) => r == Err::<usize, HnswError>(e) && final(self)@ == old(self)@,
                None => r == Ok::<usize, HnswError>(old(self)@.len() as usize) && final(self)@
                    == old(self)@.insert_at::<D>(data@, id, old(self)@.clamp_level(lvl as int)),
            },
            r.is_ok() ==> {
                &&& final(self)@.params == old(self)@.params
                &&& final(self)@.rng == old(self)@.rng
                &&& final(self)@.points == old(self)@.points.push(data@)
                &&& final(self)@.ext_ids == old(self)@.ext_ids.push(id)
                &&& final(self)@.level(old(self)@.len()) == old(self)@.clamp_level(lvl as int)
                &&& forall|a: int|
                    0 <= a < old(self)@.len() ==> #[trigger] final(self)@.level(a) == old(
                        self,
                    )@.level(a)
                &&& final(self)@.entry == match old(self)@.entry {
                    None => Some(old(self)@.len() as usize),
                    Some(e) => if old(self)@.clamp_level(lvl as int) > old(self)@.level(e as int) {
                        Some(old(self)@.len() as usize)
                    } else {
                        Some(e)
                    },
                }
            },
    {
        if data.len() != self.params.dim {
            return Err(HnswError::DimensionMismatch);
        }
        if self.store.len() >= self.params.max_elements {
            return Err(HnswError::CapacityExceeded);
        }
        let lvl = if lvl >= self.params.max_layers {
            self.params.max_layers - 1
        } else {
            lvl
        };
        let q = self.store.len();
        let ghost m0 = self@;
        let ghost m1 = m0.push_node(data@, id, lvl as int);
        proof {
            m0.lemma_push_node_ok::<D>(data@, id, lvl as int);
        }
        let mut lists: Vec<Vec<Edge>> = Vec::new();
        let mut k: usize = 0;
        while k <= lvl
            invariant
                0 <= k <= lvl + 1,
                lists@.len() == k,
                forall|j: int| 0 <= j < k ==> (#[trigger] lists@[j])@ == Seq::<Edge>::empty(),
            decreases lvl + 1 - k,
        {
            lists.push(Vec::new());
            k += 1;
        }
        self.store.push(slice_to_vec(data));
        self.ext_ids.push(id);
        self.links.push(lists);
        let ghost held = self.store;
        assert(self@.links =~~= m1.links);
        assert(self@ == m1);
        match self.entry {
            None => {
                self.entry = Some(q);
                proof {
                    m1.lemma_frame::<D>(Model { entry: Some(q), ..m1 });
                    assert(self@ == Model { entry: Some(q), ..m1 });
                    assert(m0.links.len() == 0);
                }
                Ok(q)
            },
            Some(e) => {
                let top = self.links[e].len() - 1;
                assert(self@.points[q as int] == data@);
                let start = self.probe(data, e);
                let cur = if top > lvl {
                    proof {
                        assert forall|k: int| lvl < k <= top implies m1.lone(k, q) by {
                            m1.lemma_lone::<D>(k, q);
                        }
                        m1.lemma_descend_avoids::<D>(data@, start, top as int, lvl as int, q);
                    }
                    self.descend(data, start, top, lvl)
                } else {
                    start
                };
                let first = if lvl < top {
                    lvl
                } else {
                    top
                };
                let mut at = cur;
                let mut l: usize = first + 1;
                while l > 0
                    invariant
                        0 <= l <= first + 1,
                        self@.shape_ok(),
                        self@.links_ok::<D>(),
                        self@.bounded(),
                        m1.same_frame(self@),
                        self.store == held,
                        l > 0 ==> self@.node_ok::<D>(data@, l - 1, at),
                        at.id != q,
                        forall|k: int| 0 <= k < l ==> (#[trigger] self@.links[q as int][k]).len() == 0,
                        self@.insert_layers::<D>(q, l - 1, at) == m1.insert_layers::<D>(
                            q,
                            first as int,
                            cur,
                        ),
                    decreases l,
                {
                    l -= 1;
                    let ghost mid = self@;
                    at = self.insert_layer(q, l, at);
                    proof {
                        assert forall|k: int| 0 <= k < l implies (
                        #[trigger] self@.links[q as int][k]).len() == 0 by {
                            assert(self@.links[q as int][k] == mid.links[q as int][k]);
                        }
                    }
                }
                let ghost m_linked = self@;
                if lvl > top {
                    self.entry = Some(q);
                }
                proof {
                    let m2 = self@;
                    m_linked.lemma_frame::<D>(Model { entry: self.entry, ..m_linked });
                    assert(m2 == Model { entry: self.entry, ..m_linked });
                    assert(m2.shape_ok());
                    assert(m2.links_ok::<D>());
                    assert(m2.bounded());
                    assert forall|a: int| 0 <= a < m0.len() implies #[trigger] m2.level(a)
                        == m0.level(a) by {
                        assert(m2.links[a].len() == m1.links[a].len());
                        assert(m1.links[a] == m0.links[a]);
                    }
                    assert forall|a: int| 0 <= a < m2.links.len() implies (
                    #[trigger] m2.links[a]).len() <= m2.links[m2.entry.unwrap() as int].len() by {
                        assert(m2.links[a].len() == m1.links[a].len());
                        assert(m2.links[e as int].len() == m1.links[e as int].len());
                        assert(m1.links[e as int] == m0.links[e as int]);
                        if a < m0.len() {
                            assert(m1.links[a] == m0.links[a]);
                            assert(m0.links[a].len() <= m0.links[e as int].len());
                        }
                    }
                    assert(m2.entry_ok());
                }
                Ok(q)
            },
        }
    }

    /// Inserts `data` under the caller's id `id`. The highest layer of the
    /// new node is sampled; its neighbours at each layer are selected among
    /// the nodes that a beam search of width `ef_construction` finds.
    ///
    /// Returns the internal id of the new point, which is the number of
    /// points before. A vector of another length than the dimension is
    /// refused, and so is any vector once the index holds `max_elements`
    /// points; the index is then unchanged.
    pub fn insert(&mut self, data: &[T], id: usize) -> (r: Result<usize, HnswError>)
        requires
            old(self).wf(),
        ensures
            final(self).wf(),
            final(self).datamap() == old(self).datamap(),
            r == old(self)@.insert_result(data@),
            final(self)@ == old(self)@.insert_one::<D>(data@, id),
            r.is_ok() ==> {
                &&& final(self)@.params == old(self)@.params
                &&& final(self)@.points == old(self)@.points.push(data@)
                &&& final(self)@.ext_ids == old(self)@.ext_ids.push(id)
                &&& final(self)@.level(old(self)@.len()) == old(self)@.sampled_level()
                &&& forall|a: int|
                    0 <= a < old(self)@.len() ==> #[trigger] final(self)@.level(a) == old(
                        self,
                    )@.level(a)
            },
    {
        if data.len() != self.params.dim {
            return Err(HnswError::DimensionMismatch);
        }
        if self.store.len() >= self.params.max_elements {
            return Err(HnswError::CapacityExceeded);
        }
        let sample = next_sample(&mut self.rng);
        let lvl = sample_level(sample, self.params.level_base, self.params.max_layers - 1);
        proof {
            old(self)@.lemma_frame::<D>(self@);
        }
        self.insert_at_layer(data, id, lvl)
    }
}

} // verus!
