//! Bounded beam search at one layer.
//!
//! The search keeps the candidates still to expand, the best nodes found so
//! far (at most `ef` of them), and the set of nodes it has looked at. It
//! expands the nearest candidate until that one is farther from the query
//! than the worst node found.

use crate::edge::{
    before, cap, distinct, has_id, insert_edge, insert_sorted, is_before, lemma_cap_ok,
    lemma_insert_sorted_at, lemma_insert_sorted_ids, lemma_insert_sorted_ok, slot, sorted, Edge,
};
use crate::element::Element;
use crate::hnsw::Hnsw;
use crate::metric::Metric;
use crate::model::Model;
use vstd::prelude::*;
use vstd::set_lib::{lemma_int_range, lemma_len_subset, set_int_range};

verus! {

/// The state of a beam search.
pub struct Beam {
    /// Nodes still to expand, in order.
    pub cand: Seq<Edge>,
    /// The best nodes found so far, in order.
    pub found: Seq<Edge>,
    /// The nodes looked at.
    pub seen: Set<int>,
}

impl Beam {
    /// The state after the first candidate has been taken.
    pub open spec fn pop(self) -> Beam {
        Beam { cand: self.cand.remove(0), ..self }
    }
}

/// A set of node ids is finite and has no more members than there are nodes.
pub proof fn lemma_seen_len(seen: Set<int>, n: int)
    requires
        n >= 0,
        forall|x: int| seen.contains(x) ==> 0 <= x < n,
    ensures
        seen.finite(),
        seen.len() <= n,
{
    lemma_int_range(0, n);
    assert(seen.subset_of(set_int_range(0, n)));
    lemma_len_subset(seen, set_int_range(0, n));
}

impl<T> Model<T> {
    /// The state after looking at node `b`: a node not seen before is
    /// admitted where fewer than `ef` nodes are found or it comes before the
    /// worst of them.
    pub open spec fn visit<D: Metric<T>>(self, q: Seq<T>, ef: int, b: usize, st: Beam) -> Beam {
        if st.seen.contains(b as int) {
            st
        } else {
            let e = self.probe::<D>(q, b);
            let seen = st.seen.insert(b as int);
            if st.found.len() < ef || before(e, st.found.last()) {
                Beam {
                    cand: insert_sorted(st.cand, e),
                    found: cap(insert_sorted(st.found, e), ef),
                    seen,
                }
            } else {
                Beam { seen, ..st }
            }
        }
    }

    /// The state after looking at the nodes that `nbrs` names from position
    /// `i` on.
    pub open spec fn expand<D: Metric<T>>(
        self,
        q: Seq<T>,
        ef: int,
        nbrs: Seq<Edge>,
        i: int,
        st: Beam,
    ) -> Beam
        decreases nbrs.len() - i,
    {
        if 0 <= i < nbrs.len() {
            self.expand::<D>(q, ef, nbrs, i + 1, self.visit::<D>(q, ef, nbrs[i].id, st))
        } else {
            st
        }
    }

    /// The nodes found when the search at layer `l` runs on from state `st`
    /// for at most `fuel` expansions.
    pub open spec fn beam_run<D: Metric<T>>(
        self,
        q: Seq<T>,
        l: int,
        ef: int,
        st: Beam,
        fuel: nat,
    ) -> Seq<Edge>
        decreases fuel,
    {
        if fuel == 0 || st.cand.len() == 0 {
            st.found
        } else if st.cand[0].dist > st.found.last().dist {
            st.found
        } else {
            self.beam_run::<D>(
                q,
                l,
                ef,
                self.expand::<D>(q, ef, self.links[st.cand[0].id as int][l], 0, st.pop()),
                (fuel - 1) as nat,
            )
        }
    }

    /// The state in which a search from `seed` starts.
    pub open spec fn beam_start(seed: Edge) -> Beam {
        Beam { cand: seq![seed], found: seq![seed], seen: Set::<int>::empty().insert(seed.id as int) }
    }

    /// The nodes that the beam search of width `ef` finds at layer `l` from
    /// `seed`, in order. No search needs more than `2 * len + 1` expansions.
    pub open spec fn beam<D: Metric<T>>(self, q: Seq<T>, l: int, ef: int, seed: Edge) -> Seq<
        Edge,
    > {
        self.beam_run::<D>(q, l, ef, Self::beam_start(seed), (2 * self.links.len() + 1) as nat)
    }

    /// `e` is a node of layer `l` with its distance from `q`, and it has been seen.
    pub open spec fn item_ok<D: Metric<T>>(self, q: Seq<T>, l: int, seen: Set<int>, e: Edge) -> bool {
        self.node_ok::<D>(q, l, e) && seen.contains(e.id as int)
    }

    /// The state is in order: both lists are sorted and name no node twice, every
    /// entry is a node of the layer with its distance and has been seen, between
    /// one and `ef` nodes are found, and only nodes are seen.
    pub open spec fn beam_ok<D: Metric<T>>(self, q: Seq<T>, l: int, ef: int, st: Beam) -> bool {
        &&& sorted(st.cand)
        &&& distinct(st.cand)
        &&& sorted(st.found)
        &&& distinct(st.found)
        &&& 1 <= st.found.len() <= ef
        &&& forall|i: int|
            0 <= i < st.cand.len() ==> #[trigger] self.item_ok::<D>(q, l, st.seen, st.cand[i])
        &&& forall|i: int|
            0 <= i < st.found.len() ==> #[trigger] self.item_ok::<D>(q, l, st.seen, st.found[i])
        &&& forall|x: int| st.seen.contains(x) ==> 0 <= x < self.links.len()
        &&& self.links.len() <= usize::MAX
    }

    /// What holds of a search that never had to drop a node: every node seen
    /// is found, and every node seen that is no candidate any more (but
    /// `hole`) has all its neighbours seen.
    pub open spec fn beam_full(self, l: int, st: Beam, hole: int) -> bool {
        &&& st.found.len() == st.seen.len()
        &&& forall|x: usize| #[trigger] st.seen.contains(x as int) ==> has_id(st.found, x)
        &&& forall|x: int, y: int|
            st.seen.contains(x) && x != hole && !has_id(st.cand, x as usize)
                && #[trigger] self.linked(x, l, y) ==> st.seen.contains(y)
    }

    /// A bound on the expansions that a search still makes: a node not yet seen
    /// counts twice, a candidate once.
    pub open spec fn beam_weight(self, st: Beam) -> int {
        2 * (self.links.len() - st.seen.len()) + st.cand.len()
    }

    /// What holds of the nodes a search returns.
    pub open spec fn found_ok<D: Metric<T>>(self, q: Seq<T>, l: int, ef: int, r: Seq<Edge>) -> bool {
        &&& sorted(r)
        &&& distinct(r)
        &&& 1 <= r.len() <= ef
        &&& forall|i: int| 0 <= i < r.len() ==> #[trigger] self.node_ok::<D>(q, l, r[i])
    }

    /// `p` is a walk along edges of layer `l`.
    pub open spec fn is_path(self, l: int, p: Seq<int>) -> bool {
        &&& p.len() >= 1
        &&& forall|i: int| 0 <= i < p.len() - 1 ==> self.linked(#[trigger] p[i], l, p[i + 1])
    }

    /// There is a walk along edges of layer `l` from `a` to `b`.
    pub open spec fn reaches(self, l: int, a: int, b: int) -> bool {
        exists|p: Seq<int>| #[trigger] self.is_path(l, p) && p[0] == a && p.last() == b
    }

    /// A walk that starts in a set of nodes which holds the neighbours of each of
    /// its nodes stays in it.
    proof fn lemma_path_stays(self, l: int, s: Set<int>, p: Seq<int>, i: int)
        requires
            self.is_path(l, p),
            s.contains(p[0]),
            forall|x: int, y: int| s.contains(x) && #[trigger] self.linked(x, l, y) ==> s.contains(y),
            0 <= i < p.len(),
        ensures
            s.contains(p[i]),
        decreases i,
    {
        if i > 0 {
            self.lemma_path_stays(l, s, p, i - 1);
            assert(self.linked(p[i - 1], l, p[i - 1 + 1]));
        }
    }

    /// Every node reaches itself.
    pub proof fn lemma_reach_self(self, l: int, a: int)
        ensures
            self.reaches(l, a, a),
    {
        let p = seq![a];
        assert(self.is_path(l, p));
        assert(p[0] == a && p.last() == a);
    }

    /// A walk goes on along an edge.
    pub proof fn lemma_reach_step(self, l: int, a: int, b: int, c: int)
        requires
            self.reaches(l, a, b),
            self.linked(b, l, c),
        ensures
            self.reaches(l, a, c),
    {
        let p = choose|p: Seq<int>| #[trigger] self.is_path(l, p) && p[0] == a && p.last() == b;
        let p2 = p.push(c);
        assert forall|i: int| 0 <= i < p2.len() - 1 implies self.linked(
            #[trigger] p2[i],
            l,
            p2[i + 1],
        ) by {
            if i < p.len() - 1 {
                assert(p2[i] == p[i]);
                assert(p2[i + 1] == p[i + 1]);
                assert(self.linked(p[i], l, p[i + 1]));
            } else {
                assert(p2[i] == b);
                assert(p2[i + 1] == c);
            }
        }
        assert(self.is_path(l, p2));
        assert(p2[0] == a && p2.last() == c);
    }

    /// Every node of `seen` is reached from `from` at layer `l`.
    pub open spec fn seen_from(self, l: int, from: int, seen: Set<int>) -> bool {
        forall|x: int| seen.contains(x) ==> #[trigger] self.reaches(l, from, x)
    }

    /// Looking at nodes that are reached sees only nodes that are reached.
    pub proof fn lemma_expand_reach<D: Metric<T>>(
        self,
        q: Seq<T>,
        l: int,
        ef: int,
        nbrs: Seq<Edge>,
        i: int,
        st: Beam,
        from: int,
    )
        requires
            0 <= i,
            self.seen_from(l, from, st.seen),
            forall|j: int|
                0 <= j < nbrs.len() ==> self.reaches(l, from, (#[trigger] nbrs[j]).id as int),
        ensures
            self.seen_from(l, from, self.expand::<D>(q, ef, nbrs, i, st).seen),
        decreases nbrs.len() - i,
    {
        if i < nbrs.len() {
            let st1 = self.visit::<D>(q, ef, nbrs[i].id, st);
            assert forall|x: int| st1.seen.contains(x) implies #[trigger] self.reaches(
                l,
                from,
                x,
            ) by {
                if !st.seen.contains(x) {
                    assert(x == nbrs[i].id as int);
                }
            }
            self.lemma_expand_reach::<D>(q, l, ef, nbrs, i + 1, st1, from);
        }
    }

    /// A search that has seen only nodes reached from `from` finds only such
    /// nodes.
    pub proof fn lemma_beam_run_reach<D: Metric<T>>(
        self,
        q: Seq<T>,
        l: int,
        ef: int,
        st: Beam,
        fuel: nat,
        from: int,
    )
        requires
            self.links_ok::<D>(),
            self.beam_ok::<D>(q, l, ef, st),
            ef >= 1,
            0 <= l,
            self.seen_from(l, from, st.seen),
        ensures
            forall|i: int|
                0 <= i < self.beam_run::<D>(q, l, ef, st, fuel).len() ==> self.reaches(
                    l,
                    from,
                    (#[trigger] self.beam_run::<D>(q, l, ef, st, fuel)[i]).id as int,
                ),
        decreases fuel,
    {
        let r = self.beam_run::<D>(q, l, ef, st, fuel);
        if fuel == 0 || st.cand.len() == 0 || st.cand[0].dist > st.found.last().dist {
            assert(r == st.found);
            assert forall|i: int| 0 <= i < r.len() implies self.reaches(
                l,
                from,
                (#[trigger] r[i]).id as int,
            ) by {
                assert(self.item_ok::<D>(q, l, st.seen, st.found[i]));
                assert(st.seen.contains(st.found[i].id as int));
            }
        } else {
            let c = st.cand[0];
            let nbrs = self.links[c.id as int][l];
            self.lemma_pop::<D>(q, l, ef, st);
            self.lemma_neighbours_stand::<D>(c.id as int, l);
            self.lemma_expand::<D>(q, l, ef, nbrs, 0, st.pop(), c.id as int);
            assert(self.item_ok::<D>(q, l, st.seen, c));
            assert(st.seen.contains(c.id as int));
            assert(self.reaches(l, from, c.id as int));
            assert forall|j: int| 0 <= j < nbrs.len() implies self.reaches(
                l,
                from,
                (#[trigger] nbrs[j]).id as int,
            ) by {
                assert(self.linked(c.id as int, l, nbrs[j].id as int));
                self.lemma_reach_step(l, from, c.id as int, nbrs[j].id as int);
            }
            self.lemma_expand_reach::<D>(q, l, ef, nbrs, 0, st.pop(), from);
            let st2 = self.expand::<D>(q, ef, nbrs, 0, st.pop());
            self.lemma_beam_run_reach::<D>(q, l, ef, st2, (fuel - 1) as nat, from);
            let r2 = self.beam_run::<D>(q, l, ef, st2, (fuel - 1) as nat);
            assert(r == r2);
            assert forall|i: int| 0 <= i < r.len() implies self.reaches(
                l,
                from,
                (#[trigger] r[i]).id as int,
            ) by {
                assert(self.reaches(l, from, r2[i].id as int));
            }
        }
    }

    /// A beam search finds only nodes that its seed reaches.
    pub proof fn lemma_beam_reach<D: Metric<T>>(self, q: Seq<T>, l: int, ef: int, seed: Edge)
        requires
            self.links_ok::<D>(),
            self.links.len() <= usize::MAX,
            self.node_ok::<D>(q, l, seed),
            ef >= 1,
        ensures
            forall|i: int|
                0 <= i < self.beam::<D>(q, l, ef, seed).len() ==> self.reaches(
                    l,
                    seed.id as int,
                    (#[trigger] self.beam::<D>(q, l, ef, seed)[i]).id as int,
                ),
    {
        let st = Self::beam_start(seed);
        self.lemma_beam_start::<D>(q, l, ef, seed);
        self.lemma_reach_self(l, seed.id as int);
        assert(self.seen_from(l, seed.id as int, st.seen));
        self.lemma_beam_run_reach::<D>(
            q,
            l,
            ef,
            st,
            (2 * self.links.len() + 1) as nat,
            seed.id as int,
        );
    }

    /// A set of nodes that holds the neighbours of each of its nodes holds
    /// every node that one of them reaches.
    pub proof fn lemma_closed_reach(self, l: int, s: Set<int>, a: int, b: int)
        requires
            s.contains(a),
            forall|x: int, y: int| s.contains(x) && #[trigger] self.linked(x, l, y) ==> s.contains(y),
            self.reaches(l, a, b),
        ensures
            s.contains(b),
    {
        let p = choose|p: Seq<int>| #[trigger] self.is_path(l, p) && p[0] == a && p.last() == b;
        self.lemma_path_stays(l, s, p, p.len() - 1);
    }

    /// Looking at a node of the layer keeps the state in order, makes the node
    /// seen and does not raise the weight; and a search that never dropped a node
    /// is still one.
    pub proof fn lemma_visit<D: Metric<T>>(
        self,
        q: Seq<T>,
        l: int,
        ef: int,
        b: usize,
        st: Beam,
        hole: int,
    )
        requires
            self.beam_ok::<D>(q, l, ef, st),
            ef >= 1,
            b < self.links.len(),
            0 <= l < self.links[b as int].len(),
        ensures
            self.beam_ok::<D>(q, l, ef, self.visit::<D>(q, ef, b, st)),
            self.visit::<D>(q, ef, b, st).seen == st.seen.insert(b as int),
            self.beam_weight(self.visit::<D>(q, ef, b, st)) <= self.beam_weight(st),
            ef >= self.links.len() && self.beam_full(l, st, hole) ==> self.beam_full(
                l,
                self.visit::<D>(q, ef, b, st),
                hole,
            ),
    {
        let r = self.visit::<D>(q, ef, b, st);
        let n = self.links.len() as int;
        lemma_seen_len(st.seen, n);
        if st.seen.contains(b as int) {
            assert(st.seen.insert(b as int) =~= st.seen);
        } else {
            let e = self.probe::<D>(q, b);
            let seen = st.seen.insert(b as int);
            lemma_seen_len(seen, n);
            assert(seen.len() == st.seen.len() + 1);
            if has_id(st.cand, b) {
                let j = choose|j: int| 0 <= j < st.cand.len() && (#[trigger] st.cand[j]).id == b;
                assert(self.item_ok::<D>(q, l, st.seen, st.cand[j]));
                assert(false);
            }
            if has_id(st.found, b) {
                let j = choose|j: int| 0 <= j < st.found.len() && (#[trigger] st.found[j]).id == b;
                assert(self.item_ok::<D>(q, l, st.seen, st.found[j]));
                assert(false);
            }
            if st.found.len() < ef || before(e, st.found.last()) {
                let ins = insert_sorted(st.found, e);
                lemma_insert_sorted_at(st.cand, e);
                lemma_insert_sorted_ok(st.cand, e);
                lemma_insert_sorted_ids(st.cand, e);
                lemma_insert_sorted_at(st.found, e);
                lemma_insert_sorted_ok(st.found, e);
                lemma_insert_sorted_ids(st.found, e);
                lemma_cap_ok(ins, ef);
                assert forall|i: int| 0 <= i < r.cand.len() implies #[trigger] self.item_ok::<D>(
                    q,
                    l,
                    r.seen,
                    r.cand[i],
                ) by {
                    let k = slot(st.cand, e);
                    if i != k {
                        let j = if i < k { i } else { i - 1 };
                        assert(r.cand[i] == st.cand[j]);
                        assert(self.item_ok::<D>(q, l, st.seen, st.cand[j]));
                    }
                }
                assert forall|i: int| 0 <= i < r.found.len() implies #[trigger] self.item_ok::<D>(
                    q,
                    l,
                    r.seen,
                    r.found[i],
                ) by {
                    let k = slot(st.found, e);
                    assert(r.found[i] == ins[i]);
                    if i != k {
                        let j = if i < k { i } else { i - 1 };
                        assert(ins[i] == st.found[j]);
                        assert(self.item_ok::<D>(q, l, st.seen, st.found[j]));
                    }
                }
                if ef >= n && self.beam_full(l, st, hole) {
                    assert(r.found == ins);
                    assert forall|x: usize| #[trigger] r.seen.contains(x as int) implies has_id(
                        r.found,
                        x,
                    ) by {
                        if x != b {
                            assert(st.seen.contains(x as int));
                        }
                    }
                    assert forall|x: int, y: int|
                        r.seen.contains(x) && x != hole && !has_id(r.cand, x as usize)
                            && #[trigger] self.linked(x, l, y) implies r.seen.contains(y) by {
                        assert(has_id(r.cand, b));
                        assert(x != b);
                        assert(st.seen.contains(x));
                        assert(!has_id(st.cand, x as usize));
                    }
                }
            } else {
                assert forall|i: int| 0 <= i < r.cand.len() implies #[trigger] self.item_ok::<D>(
                    q,
                    l,
                    r.seen,
                    r.cand[i],
                ) by {
                    assert(self.item_ok::<D>(q, l, st.seen, st.cand[i]));
                }
                assert forall|i: int| 0 <= i < r.found.len() implies #[trigger] self.item_ok::<D>(
                    q,
                    l,
                    r.seen,
                    r.found[i],
                ) by {
                    assert(self.item_ok::<D>(q, l, st.seen, st.found[i]));
                }
            }
        }
    }

    /// Looking at nodes of the layer keeps the state in order, makes them seen
    /// and does not raise the weight; and a search that never dropped a node is
    /// still one.
    pub proof fn lemma_expand<D: Metric<T>>(
        self,
        q: Seq<T>,
        l: int,
        ef: int,
        nbrs: Seq<Edge>,
        i: int,
        st: Beam,
        hole: int,
    )
        requires
            self.beam_ok::<D>(q, l, ef, st),
            ef >= 1,
            0 <= l,
            0 <= i <= nbrs.len(),
            forall|j: int|
                0 <= j < nbrs.len() ==> (#[trigger] nbrs[j]).id < self.links.len() && l
                    < self.links[nbrs[j].id as int].len(),
        ensures
            self.beam_ok::<D>(q, l, ef, self.expand::<D>(q, ef, nbrs, i, st)),
            forall|x: int| st.seen.contains(x) ==> self.expand::<D>(q, ef, nbrs, i, st).seen.contains(x),
            forall|j: int|
                i <= j < nbrs.len() ==> self.expand::<D>(q, ef, nbrs, i, st).seen.contains(
                    (#[trigger] nbrs[j]).id as int,
                ),
            self.beam_weight(self.expand::<D>(q, ef, nbrs, i, st)) <= self.beam_weight(st),
            ef >= self.links.len() && self.beam_full(l, st, hole) ==> self.beam_full(
                l,
                self.expand::<D>(q, ef, nbrs, i, st),
                hole,
            ),
        decreases nbrs.len() - i,
    {
        if i < nbrs.len() {
            let b = nbrs[i].id;
            self.lemma_visit::<D>(q, l, ef, b, st, hole);
            let st1 = self.visit::<D>(q, ef, b, st);
            self.lemma_expand::<D>(q, l, ef, nbrs, i + 1, st1, hole);
            let r = self.expand::<D>(q, ef, nbrs, i, st);
            assert(r == self.expand::<D>(q, ef, nbrs, i + 1, st1));
            assert(st1.seen.contains(b as int));
            assert(r.seen.contains(nbrs[i].id as int));
            assert forall|x: int| st.seen.contains(x) implies r.seen.contains(x) by {
                assert(st1.seen.contains(x));
            }
        }
    }

    /// Taking the first candidate keeps the state in order.
    pub proof fn lemma_pop<D: Metric<T>>(self, q: Seq<T>, l: int, ef: int, st: Beam)
        requires
            self.beam_ok::<D>(q, l, ef, st),
            st.cand.len() > 0,
        ensures
            self.beam_ok::<D>(q, l, ef, st.pop()),
            self.beam_weight(st.pop()) == self.beam_weight(st) - 1,
            self.beam_full(l, st, -1) ==> self.beam_full(l, st.pop(), st.cand[0].id as int),
            self.node_ok::<D>(q, l, st.cand[0]),
    {
        let r = st.pop();
        assert(self.item_ok::<D>(q, l, st.seen, st.cand[0]));
        assert forall|i: int| 0 <= i < r.cand.len() implies r.cand[i] == st.cand[i + 1] by {}
        assert forall|i: int| 0 <= i < r.cand.len() implies #[trigger] self.item_ok::<D>(
            q,
            l,
            r.seen,
            r.cand[i],
        ) by {
            assert(self.item_ok::<D>(q, l, st.seen, st.cand[i + 1]));
        }
        assert forall|i: int, j: int| 0 <= i < j < r.cand.len() implies before(
            #[trigger] r.cand[i],
            #[trigger] r.cand[j],
        ) && r.cand[i].id != r.cand[j].id by {
            assert(before(st.cand[i + 1], st.cand[j + 1]));
            assert(st.cand[i + 1].id != st.cand[j + 1].id);
        }
        if self.beam_full(l, st, -1) {
            assert forall|x: int, y: int|
                r.seen.contains(x) && x != st.cand[0].id as int && !has_id(r.cand, x as usize)
                    && #[trigger] self.linked(x, l, y) implies r.seen.contains(y) by {
                if has_id(st.cand, x as usize) {
                    let j = choose|j: int|
                        0 <= j < st.cand.len() && (#[trigger] st.cand[j]).id == x as usize;
                    assert(r.cand[j - 1] == st.cand[j]);
                    assert(false);
                }
            }
        }
    }

    /// What the search yields from a state in order: nodes of the layer in
    /// order, each with its distance; and, where `ef` is at least the number
    /// of nodes, every node that a node seen reaches.
    pub proof fn lemma_beam_run<D: Metric<T>>(
        self,
        q: Seq<T>,
        l: int,
        ef: int,
        st: Beam,
        fuel: nat,
    )
        requires
            self.links_ok::<D>(),
            self.beam_ok::<D>(q, l, ef, st),
            ef >= 1,
            0 <= l,
            fuel >= self.beam_weight(st),
            ef >= self.links.len() ==> self.beam_full(l, st, -1),
        ensures
            self.found_ok::<D>(q, l, ef, self.beam_run::<D>(q, l, ef, st, fuel)),
            ef >= self.links.len() ==> forall|x: int, y: int|
                st.seen.contains(x) && #[trigger] self.reaches(l, x, y) ==> 0 <= y
                    < self.links.len() && has_id(
                    self.beam_run::<D>(q, l, ef, st, fuel),
                    y as usize,
                ),
        decreases fuel,
    {
        let n = self.links.len() as int;
        let r = self.beam_run::<D>(q, l, ef, st, fuel);
        lemma_seen_len(st.seen, n);
        assert forall|i: int| 0 <= i < st.found.len() implies #[trigger] self.node_ok::<D>(
            q,
            l,
            st.found[i],
        ) by {
            assert(self.item_ok::<D>(q, l, st.seen, st.found[i]));
        }
        if st.cand.len() == 0 {
            if ef >= n {
                assert forall|x: int, y: int|
                    st.seen.contains(x) && #[trigger] self.reaches(l, x, y) implies 0 <= y < n
                    && has_id(r, y as usize) by {
                    self.lemma_closed_reach(l, st.seen, x, y);
                    assert(st.seen.contains((y as usize) as int));
                }
            }
        } else if st.cand[0].dist > st.found.last().dist {
            if ef >= n {
                let c = st.cand[0];
                assert(self.item_ok::<D>(q, l, st.seen, c));
                assert(st.seen.contains((c.id) as int));
                assert(has_id(st.found, c.id));
                let j = choose|j: int| 0 <= j < st.found.len() && (#[trigger] st.found[j]).id == c.id;
                assert(self.item_ok::<D>(q, l, st.seen, st.found[j]));
                assert(st.found[j] == c);
                if j < st.found.len() - 1 {
                    assert(before(st.found[j], st.found[st.found.len() - 1]));
                }
                assert(false);
            }
        } else {
            let c = st.cand[0];
            let nbrs = self.links[c.id as int][l];
            self.lemma_pop::<D>(q, l, ef, st);
            let st1 = st.pop();
            self.lemma_neighbours_stand::<D>(c.id as int, l);
            self.lemma_expand::<D>(q, l, ef, nbrs, 0, st1, c.id as int);
            let st2 = self.expand::<D>(q, ef, nbrs, 0, st1);
            if ef >= n {
                assert forall|x: int, y: int|
                    st2.seen.contains(x) && !has_id(st2.cand, x as usize) && #[trigger] self.linked(
                        x,
                        l,
                        y,
                    ) implies st2.seen.contains(y) by {
                    if x == c.id as int {
                        let j = choose|j: int|
                            0 <= j < nbrs.len() && (#[trigger] nbrs[j]).id == y as usize;
                        assert(st2.seen.contains(nbrs[j].id as int));
                    }
                }
                assert(self.beam_full(l, st2, -1));
            }
            self.lemma_beam_run::<D>(q, l, ef, st2, (fuel - 1) as nat);
            if ef >= n {
                assert forall|x: int, y: int|
                    st.seen.contains(x) && #[trigger] self.reaches(l, x, y) implies 0 <= y < n
                    && has_id(r, y as usize) by {
                    assert(st2.seen.contains(x));
                }
            }
        }
    }

    /// Looking at nodes other than `x` does not make `x` seen.
    pub proof fn lemma_expand_avoids<D: Metric<T>>(
        self,
        q: Seq<T>,
        ef: int,
        nbrs: Seq<Edge>,
        i: int,
        st: Beam,
        x: usize,
    )
        requires
            0 <= i,
            !st.seen.contains(x as int),
            forall|j: int| 0 <= j < nbrs.len() ==> (#[trigger] nbrs[j]).id != x,
        ensures
            !self.expand::<D>(q, ef, nbrs, i, st).seen.contains(x as int),
        decreases nbrs.len() - i,
    {
        if i < nbrs.len() {
            let st1 = self.visit::<D>(q, ef, nbrs[i].id, st);
            assert(!st1.seen.contains(x as int));
            self.lemma_expand_avoids::<D>(q, ef, nbrs, i + 1, st1, x);
        }
    }

    /// A search that has not seen a node which no node lists does not find it.
    pub proof fn lemma_beam_run_avoids<D: Metric<T>>(
        self,
        q: Seq<T>,
        l: int,
        ef: int,
        st: Beam,
        fuel: nat,
        x: usize,
    )
        requires
            self.links_ok::<D>(),
            self.beam_ok::<D>(q, l, ef, st),
            ef >= 1,
            0 <= l,
            self.lone(l, x),
            !st.seen.contains(x as int),
        ensures
            !has_id(self.beam_run::<D>(q, l, ef, st, fuel), x),
        decreases fuel,
    {
        if fuel == 0 || st.cand.len() == 0 || st.cand[0].dist > st.found.last().dist {
            if has_id(st.found, x) {
                let j = choose|j: int| 0 <= j < st.found.len() && (#[trigger] st.found[j]).id == x;
                assert(self.item_ok::<D>(q, l, st.seen, st.found[j]));
            }
        } else {
            let c = st.cand[0];
            let nbrs = self.links[c.id as int][l];
            self.lemma_pop::<D>(q, l, ef, st);
            self.lemma_neighbours_stand::<D>(c.id as int, l);
            self.lemma_expand::<D>(q, l, ef, nbrs, 0, st.pop(), c.id as int);
            assert(!has_id(nbrs, x));
            self.lemma_expand_avoids::<D>(q, ef, nbrs, 0, st.pop(), x);
            self.lemma_beam_run_avoids::<D>(
                q,
                l,
                ef,
                self.expand::<D>(q, ef, nbrs, 0, st.pop()),
                (fuel - 1) as nat,
                x,
            );
        }
    }

    /// A beam search does not find a node that no node lists, unless it
    /// starts there.
    pub proof fn lemma_beam_avoids<D: Metric<T>>(
        self,
        q: Seq<T>,
        l: int,
        ef: int,
        seed: Edge,
        x: usize,
    )
        requires
            self.links_ok::<D>(),
            self.links.len() <= usize::MAX,
            self.node_ok::<D>(q, l, seed),
            ef >= 1,
            seed.id != x,
            self.lone(l, x),
        ensures
            !has_id(self.beam::<D>(q, l, ef, seed), x),
    {
        self.lemma_beam_start::<D>(q, l, ef, seed);
        self.lemma_beam_run_avoids::<D>(
            q,
            l,
            ef,
            Self::beam_start(seed),
            (2 * self.links.len() + 1) as nat,
            x,
        );
    }

    /// What a beam search yields: between one and `ef` nodes of the layer, in
    /// order, each with its distance from the query; and every node that the
    /// seed reaches, where `ef` is at least the number of nodes.
    pub proof fn lemma_beam<D: Metric<T>>(self, q: Seq<T>, l: int, ef: int, seed: Edge)
        requires
            self.links_ok::<D>(),
            self.links.len() <= usize::MAX,
            self.node_ok::<D>(q, l, seed),
            ef >= 1,
        ensures
            self.found_ok::<D>(q, l, ef, self.beam::<D>(q, l, ef, seed)),
            ef >= self.links.len() ==> forall|y: int| #[trigger]
                self.reaches(l, seed.id as int, y) ==> 0 <= y < self.links.len() && has_id(
                    self.beam::<D>(q, l, ef, seed),
                    y as usize,
                ),
    {
        let st = Self::beam_start(seed);
        self.lemma_beam_start::<D>(q, l, ef, seed);
        self.lemma_beam_run::<D>(q, l, ef, st, (2 * self.links.len() + 1) as nat);
        assert(st.seen.contains(seed.id as int));
    }

    /// The state in which a search starts is in order, and nothing was dropped.
    pub proof fn lemma_beam_start<D: Metric<T>>(self, q: Seq<T>, l: int, ef: int, seed: Edge)
        requires
            self.node_ok::<D>(q, l, seed),
            self.links.len() <= usize::MAX,
            ef >= 1,
        ensures
            self.beam_ok::<D>(q, l, ef, Self::beam_start(seed)),
            self.beam_weight(Self::beam_start(seed)) == 2 * self.links.len() - 1,
            self.beam_full(l, Self::beam_start(seed), -1),
    {
        let st = Self::beam_start(seed);
        assert(st.seen.len() == 1);
        assert(self.item_ok::<D>(q, l, st.seen, seed));
        assert forall|x: usize| #[trigger] st.seen.contains(x as int) implies has_id(st.found, x) by {
            assert(st.found[0].id == x);
        }
        assert(has_id(st.cand, seed.id)) by {
            assert(st.cand[0].id == seed.id);
        }
    }
}

/// A vector of `n` flags, none of them set.
pub(crate) fn all_false(n: usize) -> (v: Vec<bool>)
    ensures
        v@.len() == n,
        forall|i: int| 0 <= i < n ==> !v@[i],
{
    let mut v: Vec<bool> = Vec::new();
    let mut i: usize = 0;
    while i < n
        invariant
            i <= n,
            v@.len() == i,
            forall|j: int| 0 <= j < i ==> !v@[j],
        decreases n - i,
    {
        v.push(false);
        i += 1;
    }
    v
}

impl<'b, T: Element, D: Metric<T>> Hnsw<'b, T, D> {
    /// Beam search of width `ef` at layer `l` from `seed`.
    #[verifier::loop_isolation(false)]
    pub(crate) fn beam(&self, q: &[T], l: usize, ef: usize, seed: Edge) -> (found: Vec<Edge>)
        requires
            self.store_ok(),
            self@.shape_ok(),
            self@.links_ok::<D>(),
            q@.len() == self@.params.dim,
            ef >= 1,
            self@.node_ok::<D>(q@, l as int, seed),
        ensures
            found@ == self@.beam::<D>(q@, l as int, ef as int, seed),
    {
        let n = self.links.len();
        let mut flags = all_false(n);
        flags.set(seed.id, true);
        let mut cand: Vec<Edge> = Vec::new();
        cand.push(seed);
        let mut found: Vec<Edge> = Vec::new();
        found.push(seed);
        let ghost mut st = Model::<T>::beam_start(seed);
        let ghost mut fuel: nat = (2 * n + 1) as nat;
        let mut done = false;
        proof {
            self@.lemma_beam_start::<D>(q@, l as int, ef as int, seed);
            assert(cand@ =~= st.cand);
            assert(found@ =~= st.found);
        }
        while !done && cand.len() > 0
            invariant
                cand@ == st.cand,
                found@ == st.found,
                flags@.len() == n,
                forall|x: int| 0 <= x < n ==> flags@[x] == st.seen.contains(x),
                self@.beam_ok::<D>(q@, l as int, ef as int, st),
                fuel >= self@.beam_weight(st),
                !done ==> self@.beam_run::<D>(q@, l as int, ef as int, st, fuel) == self@.beam::<D>(
                    q@,
                    l as int,
                    ef as int,
                    seed,
                ),
                done ==> found@ == self@.beam::<D>(q@, l as int, ef as int, seed),
            decreases
                    (if done {
                        0
                    } else {
                        fuel + 1
                    }),
        {
            proof {
                lemma_seen_len(st.seen, n as int);
                self@.lemma_pop::<D>(q@, l as int, ef as int, st);
            }
            let c = cand[0];
            let worst = found[found.len() - 1];
            if c.dist > worst.dist {
                done = true;
            } else {
                cand.remove(0);
                let nbrs = &self.links[c.id][l];
                let ghost st1 = st.pop();
                let ghost mut cur = st1;
                proof {
                    self@.lemma_neighbours_stand::<D>(c.id as int, l as int);
                }
                let mut i: usize = 0;
                while i < nbrs.len()
                    invariant
                        nbrs@ == self@.links[c.id as int][l as int],
                        0 <= i <= nbrs@.len(),
                        cand@ == cur.cand,
                        found@ == cur.found,
                        flags@.len() == n,
                        forall|x: int| 0 <= x < n ==> flags@[x] == cur.seen.contains(x),
                        self@.beam_ok::<D>(q@, l as int, ef as int, cur),
                        self@.beam_weight(cur) <= self@.beam_weight(st1),
                        self@.expand::<D>(q@, ef as int, nbrs@, i as int, cur) == self@.expand::<D>(
                            q@,
                            ef as int,
                            nbrs@,
                            0,
                            st1,
                        ),
                    decreases nbrs@.len() - i,
                {
                    let b = nbrs[i].id;
                    let ghost next = self@.visit::<D>(q@, ef as int, b, cur);
                    proof {
                        self@.lemma_visit::<D>(q@, l as int, ef as int, b, cur, -1);
                    }
                    if !flags[b] {
                        flags.set(b, true);
                        let e = self.probe(q, b);
                        if found.len() < ef || is_before(e, found[found.len() - 1]) {
                            insert_edge(&mut cand, e);
                            insert_edge(&mut found, e);
                            if found.len() > ef {
                                found.truncate(ef);
                            }
                        }
                    }
                    proof {
                        cur = next;
                    }
                    i += 1;
                }
                proof {
                    st = cur;
                    fuel = (fuel - 1) as nat;
                }
            }
        }
        found
    }
}

} // verus!
