//! The index: its storage, its view as a mathematical value, and the two
//! operations that change the graph.

use crate::edge::{has_id, insert_edge, remove_id, Edge};
use crate::element::Element;
use crate::metric::Metric;
use crate::model::{Links, Model, Params, MAX_CONNECTIONS, MAX_LAYERS};
use crate::store::PointStore;
use vstd::prelude::*;

verus! {

/// The state in which the layer generator of a new index starts.
pub const DEFAULT_SEED: u64 = 0x9E37_79B9_7F4A_7C15;

/// A hierarchical navigable small-world index over vectors of `T` under the
/// metric `D`. The first vectors of the index may lie in a data stream that
/// lives for `'b`.
pub struct Hnsw<'b, T, D> {
    pub params: Params,
    pub metric: D,
    /// The vector of each point, by internal id.
    pub store: PointStore<'b, T>,
    /// The caller's id of each point, by internal id.
    pub ext_ids: Vec<usize>,
    /// `links[a][l]` is the neighbour list of node `a` at layer `l`.
    pub links: Vec<Vec<Vec<Edge>>>,
    pub entry: Option<usize>,
    /// State of the generator that samples layers.
    pub rng: u64,
}

/// The neighbour lists that `links` holds.
pub open spec fn links_view(links: Vec<Vec<Vec<Edge>>>) -> Links {
    Seq::new(links@.len(), |a: int| Seq::new(links@[a]@.len(), |l: int| links@[a]@[l]@))
}

impl Params {
    /// The parameters of an index whose nodes get `max_nb_connection`
    /// neighbours, each value brought into the range that is accepted.
    pub open spec fn spec_new(
        dim: usize,
        max_nb_connection: usize,
        max_elements: usize,
        max_layer: usize,
        ef_construction: usize,
    ) -> Params {
        let m = if max_nb_connection < 1 {
            1
        } else if max_nb_connection > MAX_CONNECTIONS {
            MAX_CONNECTIONS
        } else {
            max_nb_connection
        };
        Params {
            dim,
            m,
            m_max: m,
            m_max0: (2 * m) as usize,
            ef_construction: if ef_construction < 1 {
                1
            } else {
                ef_construction
            },
            level_base: if m < 2 {
                2
            } else {
                m as u64
            },
            max_layers: if max_layer < 1 {
                1
            } else if max_layer > MAX_LAYERS {
                MAX_LAYERS
            } else {
                max_layer
            },
            max_elements,
            keep_pruned: false,
        }
    }

    /// The parameters of an index whose nodes get `max_nb_connection`
    /// neighbours, each value brought into the range that is accepted.
    pub fn new(
        dim: usize,
        max_nb_connection: usize,
        max_elements: usize,
        max_layer: usize,
        ef_construction: usize,
    ) -> (p: Params)
        ensures
            p == Params::spec_new(dim, max_nb_connection, max_elements, max_layer, ef_construction),
            p.valid(),
    {
        let m: usize = if max_nb_connection < 1 {
            1
        } else if max_nb_connection > MAX_CONNECTIONS {
            MAX_CONNECTIONS
        } else {
            max_nb_connection
        };
        Params {
            dim,
            m,
            m_max: m,
            m_max0: 2 * m,
            ef_construction: if ef_construction < 1 {
                1
            } else {
                ef_construction
            },
            level_base: if m < 2 {
                2
            } else {
                m as u64
            },
            max_layers: if max_layer < 1 {
                1
            } else if max_layer > MAX_LAYERS {
                MAX_LAYERS
            } else {
                max_layer
            },
            max_elements,
            keep_pruned: false,
        }
    }
}

impl<T> Model<T> {
    /// The index that holds no point.
    pub open spec fn empty(params: Params, rng: u64) -> Model<T> {
        Model {
            params,
            points: Seq::empty(),
            ext_ids: Seq::empty(),
            links: Seq::empty(),
            entry: None,
            rng,
        }
    }
}

impl<'b, T: Element, D: Metric<T>> Hnsw<'b, T, D> {
    /// The index as a mathematical value.
    pub open spec fn view(&self) -> Model<T> {
        Model {
            params: self.params,
            points: self.store@,
            ext_ids: self.ext_ids@,
            links: links_view(self.links),
            entry: self.entry,
            rng: self.rng,
        }
    }

    /// Whether the index is well formed: every list in order, every edge
    /// two-way and carrying its distance, no list over its bound, and the
    /// entry point at the top.
    pub open spec fn wf(&self) -> bool {
        self.store_ok() && self@.wf::<D>()
    }

    /// The point store is well formed and holds vectors of the dimension of
    /// the index.
    pub open spec fn store_ok(&self) -> bool {
        self.store.wf() && self.store.dim == self.params.dim
    }

    /// Whether vectors of the index lie in a data stream.
    pub open spec fn datamap(&self) -> bool {
        self.store.is_mapped()
    }

    /// An empty index. Values out of range are brought into it:
    /// `max_nb_connection` into `1..=256`, `max_layer` into `1..=16`,
    /// `ef_construction` to at least 1.
    pub fn new(
        dim: usize,
        max_nb_connection: usize,
        max_elements: usize,
        max_layer: usize,
        ef_construction: usize,
        metric: D,
    ) -> (r: Self)
        ensures
            r.wf(),
            r@ == Model::<T>::empty(
                Params::spec_new(dim, max_nb_connection, max_elements, max_layer, ef_construction),
                DEFAULT_SEED,
            ),
            !r.datamap(),
    {
        let r = Hnsw {
            params: Params::new(dim, max_nb_connection, max_elements, max_layer, ef_construction),
            metric,
            store: PointStore::new(dim),
            ext_ids: Vec::new(),
            links: Vec::new(),
            entry: None,
            rng: DEFAULT_SEED,
        };
        assert(r@.links =~= Seq::<Seq<Seq<Edge>>>::empty());
        r
    }

    /// Chooses whether neighbour selection fills up with the nearest
    /// rejected candidates when the heuristic admits too few.
    pub fn set_keeping_pruned(&mut self, flag: bool)
        requires
            old(self).wf(),
        ensures
            final(self).wf(),
            final(self)@ == (Model {
                params: Params { keep_pruned: flag, ..old(self)@.params },
                ..old(self)@
            }),
            final(self).store == old(self).store,
    {
        self.params.keep_pruned = flag;
        proof {
            let m0 = old(self)@;
            let m1 = self@;
            assert(m1.links == m0.links);
            assert(m1.points == m0.points);
            assert forall|a: int, l: int|
                0 <= a < m1.links.len() && 0 <= l < m1.links[a].len() implies #[trigger] m1.list_ok::<
                D,
            >(a, l) by {
                assert(m0.list_ok::<D>(a, l));
                assert forall|i: int| 0 <= i < m1.links[a][l].len() implies #[trigger] m1.edge_ok::<
                    D,
                >(a, l, m1.links[a][l][i]) by {
                    assert(m0.edge_ok::<D>(a, l, m0.links[a][l][i]));
                }
            }
            assert forall|a: int, l: int|
                0 <= a < m1.links.len() && 0 <= l < m1.links[a].len() implies (
            #[trigger] m1.links[a][l]).len() <= m1.params.bound(l) by {
                assert(m0.links[a][l].len() <= m0.params.bound(l));
            }
        }
    }

    /// Sets the state of the generator that samples layers.
    pub fn set_seed(&mut self, seed: u64)
        requires
            old(self).wf(),
        ensures
            final(self).wf(),
            final(self)@ == (Model { rng: seed, ..old(self)@ }),
            final(self).store == old(self).store,
    {
        self.rng = seed;
        proof {
            old(self)@.lemma_frame::<D>(self@);
        }
    }

    /// Number of points.
    pub fn get_nb_point(&self) -> (n: usize)
        requires
            self.wf(),
        ensures
            n == self@.len(),
    {
        self.store.len()
    }

    /// Neighbours given to a new node at a layer above the lowest.
    pub fn get_max_nb_connection(&self) -> (m: usize)
        ensures
            m == self@.params.m,
    {
        self.params.m
    }

    /// Beam width while inserting.
    pub fn get_ef_construction(&self) -> (ef: usize)
        ensures
            ef == self@.params.ef_construction,
    {
        self.params.ef_construction
    }

    /// Number of layers that the index can have.
    pub fn get_max_level(&self) -> (l: usize)
        ensures
            l == self@.params.max_layers,
    {
        self.params.max_layers
    }

    /// Number of layers in use: one more than the layer of the entry point,
    /// and none in an empty index.
    pub fn get_max_level_observed(&self) -> (l: usize)
        requires
            self.wf(),
        ensures
            l == match self@.entry {
                None => 0,
                Some(e) => self@.level(e as int) + 1,
            },
    {
        match self.entry {
            None => 0,
            Some(e) => self.links[e].len(),
        }
    }

    /// A copy of the vector of the point with internal id `p_id`, if there
    /// is one.
    pub fn get_point_data(&self, p_id: usize) -> (r: Option<Vec<T>>)
        requires
            self.wf(),
        ensures
            match r {
                Some(v) => p_id < self@.len() && v@ == self@.points[p_id as int],
                None => p_id >= self@.len(),
            },
    {
        if p_id < self.store.len() {
            Some(self.store.vector(p_id))
        } else {
            None
        }
    }

    /// Whether vectors of the index lie in a data stream.
    pub fn get_datamap_opt(&self) -> (b: bool)
        ensures
            b == self.datamap(),
    {
        self.store.stream.is_some()
    }

    /// The entry point and its layer, if the index holds a point.
    pub fn entry_point(&self) -> (r: Option<(usize, usize)>)
        requires
            self.wf(),
        ensures
            r == match self@.entry {
                None => None::<(usize, usize)>,
                Some(e) => Some((e, self@.level(e as int) as usize)),
            },
    {
        match self.entry {
            None => None,
            Some(e) => Some((e, self.links[e].len() - 1)),
        }
    }

    /// The distance from point `a` to point `b`.
    pub(crate) fn dist_between(&self, a: usize, b: usize) -> (d: u32)
        requires
            self.store_ok(),
            a < self@.len(),
            b < self@.len(),
        ensures
            d == self@.dist::<D>(a as int, b as int),
    {
        self.store.eval_between(&self.metric, a, b)
    }

    /// Makes `a` and `b` neighbours of each other at layer `l`.
    pub(crate) fn link(&mut self, a: usize, b: usize, l: usize)
        requires
            old(self).store_ok(),
            old(self)@.shape_ok(),
            old(self)@.links_ok::<D>(),
            a < old(self)@.len(),
            b < old(self)@.len(),
            a != b,
            l < old(self)@.links[a as int].len(),
            l < old(self)@.links[b as int].len(),
            !has_id(old(self)@.links[a as int][l as int], b),
        ensures
            final(self)@ == old(self)@.link::<D>(a, b, l as int),
            final(self).store == old(self).store,
    {
        let dab = self.dist_between(a, b);
        let dba = self.dist_between(b, a);
        insert_edge(&mut self.links[a][l], Edge { id: b, dist: dab });
        insert_edge(&mut self.links[b][l], Edge { id: a, dist: dba });
        assert(self@.links =~~= old(self)@.link::<D>(a, b, l as int).links);
    }

    /// Ends the neighbourhood of `a` and `b` at layer `l`.
    pub(crate) fn unlink(&mut self, a: usize, b: usize, l: usize)
        requires
            old(self)@.shape_ok(),
            a < old(self)@.len(),
            b < old(self)@.len(),
            a != b,
            l < old(self)@.links[a as int].len(),
            l < old(self)@.links[b as int].len(),
        ensures
            final(self)@ == old(self)@.unlink(a, b, l as int),
            final(self).store == old(self).store,
    {
        remove_id(&mut self.links[a][l], b);
        remove_id(&mut self.links[b][l], a);
        assert(self@.links =~~= old(self)@.unlink(a, b, l as int).links);
    }
}

} // verus!
