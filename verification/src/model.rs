//! The mathematical model of an index: parameters, points, and the layered
//! graph, with what it means for them to be well formed.

use crate::edge::{
    distinct, has_id, index_of, insert_sorted, lemma_insert_sorted_at, lemma_insert_sorted_ids,
    lemma_insert_sorted_ok, lemma_without_id_absent, lemma_without_id_at, lemma_without_id_ok, slot,
    sorted, without_id, Edge,
};
use crate::metric::Metric;
use vstd::prelude::*;

verus! {

/// The most layers an index can have.
pub const MAX_LAYERS: usize = 16;

/// The most neighbours a node is given at a layer above the lowest.
pub const MAX_CONNECTIONS: usize = 256;

/// Tuning parameters of an index.
#[derive(Clone, Copy, Debug, PartialEq, Eq, Structural)]
pub struct Params {
    /// Length of every vector.
    pub dim: usize,
    /// Neighbours given to a new node at a layer above the lowest.
    pub m: usize,
    /// Most neighbours a node keeps at a layer above the lowest.
    pub m_max: usize,
    /// Most neighbours a node keeps at the lowest layer.
    pub m_max0: usize,
    /// Beam width while inserting.
    pub ef_construction: usize,
    /// The base `B` of layer sampling: a node reaches layer `l` with
    /// probability `B^-l`, which is the scale `1 / ln(B)`.
    pub level_base: u64,
    /// Number of layers.
    pub max_layers: usize,
    /// Most points the index takes.
    pub max_elements: usize,
    /// Whether neighbour selection fills up with rejected candidates.
    pub keep_pruned: bool,
}

impl Params {
    /// The parameters are in the ranges in which an index works.
    pub open spec fn valid(self) -> bool {
        &&& 1 <= self.m <= self.m_max
        &&& 1 <= self.m_max0
        &&& self.m_max < usize::MAX
        &&& self.m_max0 < usize::MAX
        &&& 1 <= self.ef_construction
        &&& 2 <= self.level_base
        &&& 1 <= self.max_layers <= MAX_LAYERS
    }

    /// Most neighbours a node keeps at layer `l`.
    pub open spec fn bound(self, l: int) -> int {
        if l == 0 {
            self.m_max0 as int
        } else {
            self.m_max as int
        }
    }

    /// Neighbours given to a new node at layer `l`.
    pub open spec fn target(self, l: int) -> int {
        if l == 0 {
            self.m_max0 as int
        } else {
            self.m as int
        }
    }
}

/// The neighbour lists of a graph: `links[a][l]` is the list of node `a` at
/// layer `l`. Node `a` stands at the layers below `links[a].len()`.
pub type Links = Seq<Seq<Seq<Edge>>>;

/// An index as a mathematical value.
pub struct Model<T> {
    pub params: Params,
    /// The vector of each point, by internal id.
    pub points: Seq<Seq<T>>,
    /// The caller's id of each point, by internal id.
    pub ext_ids: Seq<usize>,
    pub links: Links,
    /// The node at which every descent starts.
    pub entry: Option<usize>,
    /// State of the generator that samples layers.
    pub rng: u64,
}

impl<T> Model<T> {
    /// Number of points.
    pub open spec fn len(self) -> int {
        self.points.len() as int
    }

    /// The highest layer of node `a`.
    pub open spec fn level(self, a: int) -> int {
        self.links[a].len() - 1
    }

    /// Whether node `a` lists node `b` as a neighbour at layer `l`.
    pub open spec fn linked(self, a: int, l: int, b: int) -> bool {
        &&& 0 <= a < self.links.len()
        &&& 0 <= l < self.links[a].len()
        &&& 0 <= b <= usize::MAX
        &&& has_id(self.links[a][l], b as usize)
    }

    /// Counts and lengths fit together: there are as many vectors and caller's
    /// ids as nodes and no more than `max_elements`, every vector has the
    /// dimension of the index, and every node stands at between one and
    /// `max_layers` layers.
    pub open spec fn shape_ok(self) -> bool {
        &&& self.params.valid()
        &&& self.points.len() == self.links.len()
        &&& self.ext_ids.len() == self.links.len()
        &&& self.links.len() <= self.params.max_elements
        &&& forall|a: int|
            0 <= a < self.points.len() ==> (#[trigger] self.points[a]).len() == self.params.dim
        &&& forall|a: int|
            0 <= a < self.links.len() ==> 1 <= (#[trigger] self.links[a]).len()
                <= self.params.max_layers
    }

    /// What holds of an entry `e` in the list of node `a` at layer `l`: it
    /// names another node that stands at that layer, carries the distance from
    /// `a` to it, and that node lists `a` in turn.
    pub open spec fn edge_ok<D: Metric<T>>(self, a: int, l: int, e: Edge) -> bool {
        &&& e.id < self.links.len()
        &&& e.id != a
        &&& l < self.links[e.id as int].len()
        &&& e.dist == D::dist(self.points[a], self.points[e.id as int])
        &&& has_id(self.links[e.id as int][l], a as usize)
    }

    /// The list of node `a` at layer `l` is in order, names no node twice, and
    /// holds of each of its entries what `edge_ok` says.
    pub open spec fn list_ok<D: Metric<T>>(self, a: int, l: int) -> bool {
        &&& sorted(self.links[a][l])
        &&& distinct(self.links[a][l])
        &&& forall|i: int|
            0 <= i < self.links[a][l].len() ==> #[trigger] self.edge_ok::<D>(
                a,
                l,
                self.links[a][l][i],
            )
    }

    /// Every list is as `list_ok` says.
    pub open spec fn links_ok<D: Metric<T>>(self) -> bool {
        forall|a: int, l: int|
            0 <= a < self.links.len() && 0 <= l < self.links[a].len() ==> #[trigger] self.list_ok::<
                D,
            >(a, l)
    }

    /// No list is longer than its layer allows.
    pub open spec fn bounded(self) -> bool {
        forall|a: int, l: int|
            0 <= a < self.links.len() && 0 <= l < self.links[a].len() ==> (
            #[trigger] self.links[a][l]).len() <= self.params.bound(l)
    }

    /// The entry point is a node of the highest layer that any node has, and
    /// there is one as soon as there is a node.
    pub open spec fn entry_ok(self) -> bool {
        match self.entry {
            None => self.links.len() == 0,
            Some(e) => {
                &&& e < self.links.len()
                &&& forall|a: int|
                    0 <= a < self.links.len() ==> (#[trigger] self.links[a]).len()
                        <= self.links[e as int].len()
            },
        }
    }

    /// The index is well formed.
    pub open spec fn wf<D: Metric<T>>(self) -> bool {
        &&& self.shape_ok()
        &&& self.links_ok::<D>()
        &&& self.bounded()
        &&& self.entry_ok()
    }

    /// The index with the list of node `a` at layer `l` replaced by `s`.
    pub open spec fn set_list(self, a: int, l: int, s: Seq<Edge>) -> Model<T> {
        Model { links: self.links.update(a, self.links[a].update(l, s)), ..self }
    }

    /// The distance from point `a` to point `b`.
    pub open spec fn dist<D: Metric<T>>(self, a: int, b: int) -> u32 {
        D::dist(self.points[a], self.points[b])
    }

    /// The index with `a` and `b` made neighbours of each other at layer `l`.
    pub open spec fn link<D: Metric<T>>(self, a: usize, b: usize, l: int) -> Model<T> {
        let ea = Edge { id: b, dist: self.dist::<D>(a as int, b as int) };
        let eb = Edge { id: a, dist: self.dist::<D>(b as int, a as int) };
        let m1 = self.set_list(a as int, l, insert_sorted(self.links[a as int][l], ea));
        m1.set_list(b as int, l, insert_sorted(m1.links[b as int][l], eb))
    }

    /// The index with `a` and `b` no longer neighbours at layer `l`.
    pub open spec fn unlink(self, a: usize, b: usize, l: int) -> Model<T> {
        let m1 = self.set_list(a as int, l, without_id(self.links[a as int][l], b));
        m1.set_list(b as int, l, without_id(m1.links[b as int][l], a))
    }

    /// Linking two nodes that are not yet neighbours keeps every list in
    /// order and every edge two-way; only their two lists change.
    pub proof fn lemma_link_ok<D: Metric<T>>(self, a: usize, b: usize, l: int)
        requires
            self.shape_ok(),
            self.links_ok::<D>(),
            a < self.links.len(),
            b < self.links.len(),
            a != b,
            0 <= l < self.links[a as int].len(),
            l < self.links[b as int].len(),
            !has_id(self.links[a as int][l], b),
        ensures
            self.link::<D>(a, b, l).shape_ok(),
            self.link::<D>(a, b, l).links_ok::<D>(),
            !has_id(self.links[b as int][l], a),
            self.link::<D>(a, b, l).links.len() == self.links.len(),
            forall|x: int|
                0 <= x < self.links.len() ==> (#[trigger] self.link::<D>(a, b, l).links[x]).len()
                    == self.links[x].len(),
            self.link::<D>(a, b, l).links[a as int][l] == insert_sorted(
                self.links[a as int][l],
                Edge { id: b, dist: self.dist::<D>(a as int, b as int) },
            ),
            self.link::<D>(a, b, l).links[b as int][l] == insert_sorted(
                self.links[b as int][l],
                Edge { id: a, dist: self.dist::<D>(b as int, a as int) },
            ),
            self.link::<D>(a, b, l).links[a as int][l].len() == self.links[a as int][l].len() + 1,
            self.link::<D>(a, b, l).links[b as int][l].len() == self.links[b as int][l].len() + 1,
            forall|x: int, k: int|
                0 <= x < self.links.len() && 0 <= k < self.links[x].len() && !((x == a || x == b)
                    && k == l) ==> #[trigger] self.link::<D>(a, b, l).links[x][k]
                    == self.links[x][k],
    {
        let m2 = self.link::<D>(a, b, l);
        let ea = Edge { id: b, dist: self.dist::<D>(a as int, b as int) };
        let eb = Edge { id: a, dist: self.dist::<D>(b as int, a as int) };
        let sa = self.links[a as int][l];
        let sb = self.links[b as int][l];
        let la = insert_sorted(sa, ea);
        let lb = insert_sorted(sb, eb);
        assert(self.list_ok::<D>(a as int, l));
        assert(self.list_ok::<D>(b as int, l));
        if has_id(sb, a) {
            let j = choose|j: int| 0 <= j < sb.len() && (#[trigger] sb[j]).id == a;
            assert(self.edge_ok::<D>(b as int, l, sb[j]));
            assert(false);
        }
        assert(m2.links[a as int][l] == la);
        assert(m2.links[b as int][l] == lb);
        lemma_insert_sorted_at(sa, ea);
        lemma_insert_sorted_at(sb, eb);
        lemma_insert_sorted_ids(sa, ea);
        lemma_insert_sorted_ids(sb, eb);
        lemma_insert_sorted_ok(sa, ea);
        lemma_insert_sorted_ok(sb, eb);
        assert forall|x: int, k: int|
            0 <= x < self.links.len() && 0 <= k < self.links[x].len() && !((x == a || x == b) && k
                == l) implies #[trigger] m2.links[x][k] == self.links[x][k] by {}
        // a list never loses an id
        assert forall|y: int, k: int, x: usize|
            0 <= y < self.links.len() && 0 <= k < self.links[y].len() && has_id(
                self.links[y][k],
                x,
            ) implies #[trigger] has_id(m2.links[y][k], x) by {
            if (y == a || y == b) && k == l {
            } else {
                assert(m2.links[y][k] == self.links[y][k]);
            }
        }
        assert forall|x: int, k: int|
            0 <= x < m2.links.len() && 0 <= k < m2.links[x].len() implies #[trigger] m2.list_ok::<
            D,
        >(x, k) by {
            assert(self.list_ok::<D>(x, k));
            let s = self.links[x][k];
            let r = m2.links[x][k];
            assert forall|i: int| 0 <= i < r.len() implies #[trigger] m2.edge_ok::<D>(
                x,
                k,
                r[i],
            ) by {
                if x == a && k == l {
                    let p = slot(sa, ea);
                    if i == p {
                        assert(r[i] == ea);
                        assert(has_id(lb, a));
                    } else {
                        let j = if i < p { i } else { i - 1 };
                        assert(r[i] == s[j]);
                        assert(self.edge_ok::<D>(x, k, s[j]));
                        assert(has_id(m2.links[s[j].id as int][k], x as usize));
                    }
                } else if x == b && k == l {
                    let p = slot(sb, eb);
                    if i == p {
                        assert(r[i] == eb);
                        assert(has_id(la, b));
                    } else {
                        let j = if i < p { i } else { i - 1 };
                        assert(r[i] == s[j]);
                        assert(self.edge_ok::<D>(x, k, s[j]));
                        assert(has_id(m2.links[s[j].id as int][k], x as usize));
                    }
                } else {
                    assert(r == s);
                    assert(self.edge_ok::<D>(x, k, s[i]));
                    assert(has_id(m2.links[s[i].id as int][k], x as usize));
                }
            }
        }
    }

    /// Unlinking two nodes keeps every list in order and every edge two-way;
    /// only their two lists change, and neither grows.
    pub proof fn lemma_unlink_ok<D: Metric<T>>(self, a: usize, b: usize, l: int)
        requires
            self.shape_ok(),
            self.links_ok::<D>(),
            a < self.links.len(),
            b < self.links.len(),
            a != b,
            0 <= l < self.links[a as int].len(),
            l < self.links[b as int].len(),
        ensures
            self.unlink(a, b, l).shape_ok(),
            self.unlink(a, b, l).links_ok::<D>(),
            has_id(self.links[a as int][l], b) == has_id(self.links[b as int][l], a),
            self.unlink(a, b, l).links.len() == self.links.len(),
            forall|x: int|
                0 <= x < self.links.len() ==> (#[trigger] self.unlink(a, b, l).links[x]).len()
                    == self.links[x].len(),
            self.unlink(a, b, l).links[a as int][l] == without_id(self.links[a as int][l], b),
            self.unlink(a, b, l).links[b as int][l] == without_id(self.links[b as int][l], a),
            forall|x: int, k: int|
                0 <= x < self.links.len() && 0 <= k < self.links[x].len() && !((x == a || x == b)
                    && k == l) ==> #[trigger] self.unlink(a, b, l).links[x][k] == self.links[x][k],
    {
        let m2 = self.unlink(a, b, l);
        let sa = self.links[a as int][l];
        let sb = self.links[b as int][l];
        let la = without_id(sa, b);
        let lb = without_id(sb, a);
        assert(self.list_ok::<D>(a as int, l));
        assert(self.list_ok::<D>(b as int, l));
        if has_id(sb, a) {
            let j = choose|j: int| 0 <= j < sb.len() && (#[trigger] sb[j]).id == a;
            assert(self.edge_ok::<D>(b as int, l, sb[j]));
        }
        if has_id(sa, b) {
            let j = choose|j: int| 0 <= j < sa.len() && (#[trigger] sa[j]).id == b;
            assert(self.edge_ok::<D>(a as int, l, sa[j]));
        }
        assert(m2.links[a as int][l] == la);
        assert(m2.links[b as int][l] == lb);
        lemma_without_id_ok(sa, b);
        lemma_without_id_ok(sb, a);
        assert forall|x: int, k: int|
            0 <= x < self.links.len() && 0 <= k < self.links[x].len() && !((x == a || x == b) && k
                == l) implies #[trigger] m2.links[x][k] == self.links[x][k] by {}
        assert forall|x: int, k: int|
            0 <= x < m2.links.len() && 0 <= k < m2.links[x].len() implies #[trigger] m2.list_ok::<
            D,
        >(x, k) by {
            assert(self.list_ok::<D>(x, k));
            let s = self.links[x][k];
            let r = m2.links[x][k];
            assert forall|i: int| 0 <= i < r.len() implies #[trigger] m2.edge_ok::<D>(
                x,
                k,
                r[i],
            ) by {
                // r[i] is an entry of s
                let j: int = if x == a && k == l && has_id(sa, b) {
                    lemma_without_id_at(sa, b);
                    if i < index_of(sa, b) { i } else { i + 1 }
                } else if x == b && k == l && has_id(sb, a) {
                    lemma_without_id_at(sb, a);
                    if i < index_of(sb, a) { i } else { i + 1 }
                } else {
                    if x == a && k == l {
                        lemma_without_id_absent(sa, b);
                    }
                    if x == b && k == l {
                        lemma_without_id_absent(sb, a);
                    }
                    i
                };
                assert(r[i] == s[j]);
                assert(self.edge_ok::<D>(x, k, s[j]));
                let y = s[j].id;
                assert(has_id(self.links[y as int][k], x as usize));
                assert(has_id(r, y));
                if y == a && k == l {
                    assert(x != b);
                } else if y == b && k == l {
                    assert(x != a);
                } else {
                    assert(m2.links[y as int][k] == self.links[y as int][k]);
                }
            }
        }
    }
}

/// Every edge runs both ways: in a well-formed index, `a` lists `b` at layer
/// `l` exactly when `b` lists `a` at layer `l`.
pub proof fn lemma_edges_are_symmetric<T, D: Metric<T>>(m: Model<T>, a: int, b: int, l: int)
    requires
        m.wf::<D>(),
    ensures
        m.linked(a, l, b) <==> m.linked(b, l, a),
{
    if m.linked(a, l, b) {
        let s = m.links[a][l];
        let j = choose|j: int| 0 <= j < s.len() && (#[trigger] s[j]).id == b as usize;
        assert(m.list_ok::<D>(a, l));
        assert(m.edge_ok::<D>(a, l, s[j]));
    }
    if m.linked(b, l, a) {
        let s = m.links[b][l];
        let j = choose|j: int| 0 <= j < s.len() && (#[trigger] s[j]).id == a as usize;
        assert(m.list_ok::<D>(b, l));
        assert(m.edge_ok::<D>(b, l, s[j]));
    }
}

/// No node has more neighbours than its layer allows: at most `m_max0` at the
/// lowest layer and at most `m_max` at every other.
pub proof fn lemma_degree_is_bounded<T, D: Metric<T>>(m: Model<T>, a: int, l: int)
    requires
        m.wf::<D>(),
        0 <= a < m.len(),
        0 <= l <= m.level(a),
    ensures
        l == 0 ==> m.links[a][l].len() <= m.params.m_max0,
        l >= 1 ==> m.links[a][l].len() <= m.params.m_max,
{
    assert(m.links[a][l].len() <= m.params.bound(l));
}

} // verus!
