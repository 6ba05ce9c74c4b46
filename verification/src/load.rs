//! Reading an index back from its two streams.

use crate::codec::{
    all_below, decode_graph, decode_raw, fits, ids_fit, lemma_parse_is_dump, links_of, list_of,
    parse, Raw, FORMAT_VERSION, GRAPH_MAGIC,
};
use crate::data_stream::{
    data_head, decode_data, lemma_dec_points_end, points_view, read_points, DATA_HEADER_BYTES,
    DATA_MAGIC,
};
use crate::edge::Edge;
use crate::element::Element;
use crate::error::HnswError;
use crate::graph_stream::{lemma_dec_nodes_end, nodes_view, read_nodes, HEADER_WORDS};
use crate::hnsw::{links_view, Hnsw};
use crate::metric::Metric;
use crate::model::Params;
use crate::store::PointStore;
use crate::words::from_bytes;
use vstd::prelude::*;
use vstd::slice::slice_subrange;

verus! {

/// Whether every word of `s` is below `n`.
fn list_below(s: &Vec<u64>, n: usize) -> (r: bool)
    ensures
        r == all_below(s@, n as int),
{
    let mut i: usize = 0;
    while i < s.len()
        invariant
            0 <= i <= s@.len(),
            forall|j: int| 0 <= j < i ==> (#[trigger] s@[j]) < n,
        decreases s@.len() - i,
    {
        if s[i] >= n as u64 {
            return false;
        }
        i += 1;
    }
    true
}

/// Whether every caller's id can be held and every neighbour is a node.
#[verifier::loop_isolation(false)]
fn check_ids(exts: &Vec<u64>, ids: &Vec<Vec<Vec<u64>>>) -> (r: bool)
    ensures
        r == ids_fit(exts@, nodes_view(*ids)),
{
    let ghost nv = nodes_view(*ids);
    let mut a: usize = 0;
    while a < exts.len()
        invariant
            0 <= a <= exts@.len(),
            forall|x: int| 0 <= x < a ==> fits(#[trigger] exts@[x]),
        decreases exts@.len() - a,
    {
        if exts[a] > usize::MAX as u64 {
            assert(!fits(exts@[a as int]));
            return false;
        }
        a += 1;
    }
    let n = ids.len();
    let mut b: usize = 0;
    while b < n
        invariant
            0 <= b <= n,
            forall|x: int, l: int|
                0 <= x < b && 0 <= l < nv[x].len() ==> all_below(#[trigger] nv[x][l], n as int),
        decreases n - b,
    {
        let layers = ids[b].len();
        let mut l: usize = 0;
        while l < layers
            invariant
                0 <= l <= layers,
                layers == nv[b as int].len(),
                forall|k: int| 0 <= k < l ==> all_below(#[trigger] nv[b as int][k], n as int),
            decreases layers - l,
        {
            assert(nv[b as int][l as int] == ids@[b as int]@[l as int]@);
            if !list_below(&ids[b][l], n) {
                assert(!all_below(nv[b as int][l as int], nv.len() as int));
                return false;
            }
            l += 1;
        }
        b += 1;
    }
    assert(nv.len() == n);
    assert(forall|x: int| 0 <= x < exts@.len() ==> fits(#[trigger] exts@[x]));
    assert(ids_fit(exts@, nv));
    true
}

/// Reads the `n` vectors of `dim` elements that a data stream holds.
fn read_data<T: Element>(data: &[u8], n: u64, dim: u64) -> (r: Option<Vec<Vec<T>>>)
    requires
        fits(n),
        fits(dim),
    ensures
        match r {
            Some(ps) => decode_data::<T>(data@, n, dim) == Some(points_view(ps)),
            None => decode_data::<T>(data@, n, dim).is_none(),
        },
{
    if data.len() < DATA_HEADER_BYTES {
        return None;
    }
    let head = match from_bytes(slice_subrange(data, 0, DATA_HEADER_BYTES)) {
        None => {
            return None;
        },
        Some(h) => h,
    };
    if head.len() != 4 || head[0] != DATA_MAGIC || head[1] != n || head[2] != dim || head[3]
        != T::elem_kind() {
        assert(head@ != data_head::<T>(n, dim));
        return None;
    }
    assert(head@ =~= data_head::<T>(n, dim));
    match read_points::<T>(data, DATA_HEADER_BYTES, n as usize, dim as usize) {
        None => None,
        Some((ps, q)) => if q == data.len() {
            Some(ps)
        } else {
            None
        },
    }
}

/// The caller's ids as they are held.
fn to_ext_ids(exts: &Vec<u64>) -> (r: Vec<usize>)
    requires
        forall|a: int| 0 <= a < exts@.len() ==> fits(#[trigger] exts@[a]),
    ensures
        r@ == Seq::new(exts@.len(), |a: int| exts@[a] as usize),
{
    let mut r: Vec<usize> = Vec::new();
    let mut a: usize = 0;
    while a < exts.len()
        invariant
            0 <= a <= exts@.len(),
            forall|x: int| 0 <= x < exts@.len() ==> fits(#[trigger] exts@[x]),
            r@.len() == a,
            forall|x: int| 0 <= x < a ==> r@[x] == exts@[x] as usize,
        decreases exts@.len() - a,
    {
        assert(fits(exts@[a as int]));
        r.push(exts[a] as usize);
        a += 1;
    }
    assert(r@ =~= Seq::new(exts@.len(), |a: int| exts@[a] as usize));
    r
}

/// The neighbour list of node `a` that names the nodes `s`, each with the
/// distance from `a` to it.
fn build_list<T: Element, D: Metric<T>>(
    metric: &D,
    store: &PointStore<T>,
    a: usize,
    s: &Vec<u64>,
) -> (r: Vec<Edge>)
    requires
        store.wf(),
        a < store@.len(),
        all_below(s@, store@.len() as int),
    ensures
        r@ == list_of::<T, D>(store@, a as int, s@),
{
    let ghost ps = store@;
    let n = store.len();
    let mut r: Vec<Edge> = Vec::new();
    let mut i: usize = 0;
    while i < s.len()
        invariant
            0 <= i <= s@.len(),
            store.wf(),
            n == ps.len(),
            ps == store@,
            a < n,
            all_below(s@, n as int),
            r@.len() == i,
            forall|j: int|
                0 <= j < i ==> r@[j] == (Edge {
                    id: s@[j] as usize,
                    dist: D::dist(ps[a as int], ps[s@[j] as int]),
                }),
        decreases s@.len() - i,
    {
        assert(s@[i as int] < n);
        let id: usize = s[i] as usize;
        let d = store.eval_between(metric, a, id);
        r.push(Edge { id, dist: d });
        i += 1;
    }
    assert(r@ =~= list_of::<T, D>(ps, a as int, s@));
    r
}

/// The neighbour lists that the records describe, each entry with its
/// distance.
#[verifier::loop_isolation(false)]
fn build_links<T: Element, D: Metric<T>>(
    metric: &D,
    store: &PointStore<T>,
    ids: &Vec<Vec<Vec<u64>>>,
) -> (r: Vec<Vec<Vec<Edge>>>)
    requires
        store.wf(),
        store@.len() == ids@.len(),
        ids_fit(Seq::empty(), nodes_view(*ids)),
    ensures
        links_view(r) == links_of::<T, D>(store@, nodes_view(*ids)),
{
    let ghost nv = nodes_view(*ids);
    let ghost ps = store@;
    let ghost want = links_of::<T, D>(ps, nv);
    let n = ids.len();
    let mut r: Vec<Vec<Vec<Edge>>> = Vec::new();
    let mut a: usize = 0;
    while a < n
        invariant
            0 <= a <= n,
            r@.len() == a,
            forall|x: int| 0 <= x < a ==> links_view(r)[x] == want[x],
        decreases n - a,
    {
        let layers = ids[a].len();
        let mut node: Vec<Vec<Edge>> = Vec::new();
        let mut l: usize = 0;
        while l < layers
            invariant
                0 <= l <= layers,
                layers == nv[a as int].len(),
                node@.len() == l,
                forall|k: int| 0 <= k < l ==> (#[trigger] node@[k])@ == want[a as int][k],
            decreases layers - l,
        {
            assert(nv[a as int][l as int] == ids@[a as int]@[l as int]@);
            assert(all_below(nv[a as int][l as int], n as int));
            let list = build_list::<T, D>(metric, store, a, &ids[a][l]);
            node.push(list);
            l += 1;
        }
        let ghost before = links_view(r);
        r.push(node);
        proof {
            assert(links_view(r)[a as int] =~= want[a as int]);
            assert forall|x: int| 0 <= x < a implies links_view(r)[x] == want[x] by {
                assert(links_view(r)[x] =~= before[x]);
            }
        }
        a += 1;
    }
    assert(links_view(r) =~= want);
    r
}

/// What a graph stream holds: its words, and the caller's ids and the
/// neighbours that its records name.
pub struct RawGraph {
    pub words: Vec<u64>,
    pub exts: Vec<u64>,
    pub ids: Vec<Vec<Vec<u64>>>,
}

impl RawGraph {
    /// What the stream holds, as a mathematical value.
    pub open spec fn view(&self) -> Raw {
        Raw {
            head: self.words@.subrange(0, HEADER_WORDS as int),
            exts: self.exts@,
            ids: nodes_view(self.ids),
        }
    }
}

/// Reads the header and the records of a graph stream.
pub fn read_graph<T, D: Metric<T>>(graph: &[u8], metric: &D) -> (r: Option<RawGraph>)
    ensures
        match r {
            Some(raw) => decode_graph::<T, D>(graph@) == Some(raw@) && raw.words@.len()
                >= HEADER_WORDS && raw.exts@.len() == raw.words@[13] && raw.ids@.len()
                == raw.words@[13],
            None => decode_graph::<T, D>(graph@).is_none(),
        },
{
    let w = match from_bytes(graph) {
        None => {
            return None;
        },
        Some(w) => w,
    };
    if w.len() < HEADER_WORDS {
        return None;
    }
    let (exts, ids, p) = match read_nodes(&w, HEADER_WORDS, w[13]) {
        None => {
            return None;
        },
        Some(x) => x,
    };
    if p != w.len() {
        return None;
    }
    let ghost raw = Raw {
        head: w@.subrange(0, HEADER_WORDS as int),
        exts: exts@,
        ids: nodes_view(ids),
    };
    proof {
        lemma_dec_nodes_end(w@, HEADER_WORDS as int, w@[13] as nat);
        assert(decode_raw(w@) == Some(raw));
    }
    let most: u64 = usize::MAX as u64;
    let tag = metric.metric_tag();
    if !(w[0] == GRAPH_MAGIC && w[1] == FORMAT_VERSION && w[2] <= most && w[3] == tag as u64
        && w[4] <= most && w[5] <= most && w[6] <= most && w[7] <= most && w[9] <= most && w[10]
        <= most && w[11] <= 1 && w[13] <= most && w[14] <= w[13]) {
        assert(!raw.head_ok::<T, D>());
        return None;
    }
    assert(raw.head_ok::<T, D>());
    if !check_ids(&exts, &ids) {
        return None;
    }
    Some(RawGraph { words: w, exts, ids })
}

impl<'b, T: Element, D: Metric<T>> Hnsw<'b, T, D> {
    /// The index that the header and the records describe together with the
    /// vectors of `store`, if it is well formed.
    fn build(raw: RawGraph, store: PointStore<'b, T>, metric: D) -> (r: Result<Self, HnswError>)
        requires
            raw.words@.len() >= HEADER_WORDS,
            raw@.head_ok::<T, D>(),
            raw@.ids_ok(),
            raw.exts@.len() == raw.words@[13],
            raw.ids@.len() == raw.words@[13],
            store.wf(),
            store.dim == raw.words@[2],
            store@.len() == raw.words@[13],
        ensures
            match r {
                Ok(h) => h@ == raw@.assemble::<T, D>(store@) && h.wf() && h.store == store,
                Err(e) => e == HnswError::FormatError && !raw@.assemble::<T, D>(store@).wf::<D>(),
            },
    {
        let ghost m = raw@.assemble::<T, D>(store@);
        let w = &raw.words;
        proof {
            assert(ids_fit(Seq::empty(), nodes_view(raw.ids)));
            assert(raw@.head[2] == w@[2]);
            assert(raw@.head[13] == w@[13]);
        }
        let links = build_links::<T, D>(&metric, &store, &raw.ids);
        let ext_ids = to_ext_ids(&raw.exts);
        let h = Hnsw {
            params: Params {
                dim: w[2] as usize,
                m: w[4] as usize,
                m_max: w[5] as usize,
                m_max0: w[6] as usize,
                ef_construction: w[7] as usize,
                level_base: w[8],
                max_layers: w[9] as usize,
                max_elements: w[10] as usize,
                keep_pruned: w[11] == 1,
            },
            metric,
            store,
            ext_ids,
            links,
            entry: if w[14] == 0 {
                None
            } else {
                Some((w[14] - 1) as usize)
            },
            rng: w[12],
        };
        proof {
            assert(h@.links == m.links);
            assert(h@.ext_ids =~= m.ext_ids);
            assert(h@.params == m.params);
            assert(h@ == m);
            assert(h.store_ok());
        }
        if h.validate() {
            Ok(h)
        } else {
            Err(HnswError::FormatError)
        }
    }

    /// Reads an index from its graph stream and its data stream, the vectors
    /// into memory.
    ///
    /// The result is the index that the two streams hold, and they are its
    /// dump, byte for byte. Streams that are cut short, that carry another
    /// format tag, version, metric or element type, or that hold no
    /// well-formed index are refused.
    pub fn load(graph: &[u8], data: &[u8], metric: D) -> (r: Result<Self, HnswError>)
        ensures
            match r {
                Ok(h) => parse::<T, D>(graph@, data@) == Some(h@) && h.wf() && !h.datamap()
                    && h@.graph_bytes::<D>() == graph@ && h@.data_bytes() == data@,
                Err(e) => e == HnswError::FormatError && parse::<T, D>(graph@, data@).is_none(),
            },
    {
        let raw = match read_graph::<T, D>(graph, &metric) {
            None => {
                return Err(HnswError::FormatError);
            },
            Some(raw) => raw,
        };
        let n: usize = raw.words[13] as usize;
        let dim: usize = raw.words[2] as usize;
        let store = match read_data::<T>(data, raw.words[13], raw.words[2]) {
            None => {
                return Err(HnswError::FormatError);
            },
            Some(ps) => {
                proof {
                    lemma_dec_points_end::<T>(data@, DATA_HEADER_BYTES as int, n as nat, dim as nat);
                    assert forall|i: int| 0 <= i < ps@.len() implies (#[trigger] ps@[i])@.len()
                        == dim by {
                        assert(points_view(ps)[i] == ps@[i]@);
                    }
                }
                PointStore::resident(dim, ps)
            },
        };
        proof {
            lemma_dec_points_end::<T>(data@, DATA_HEADER_BYTES as int, n as nat, dim as nat);
        }
        let r = Self::build(raw, store, metric);
        proof {
            if r.is_ok() {
                lemma_parse_is_dump::<T, D>(graph@, data@);
            }
        }
        r
    }

    /// Reads an index from its graph stream and leaves its vectors in the
    /// data stream.
    ///
    /// The result is the index that the two streams hold, as `load` gives
    /// it. Of the data stream only the header and the length are read; the
    /// vector of a point is read at its place when it is needed.
    pub fn load_mapped(graph: &[u8], data: &'b [u8], metric: D) -> (r: Result<Self, HnswError>)
        ensures
            match r {
                Ok(h) => parse::<T, D>(graph@, data@) == Some(h@) && h.wf() && h.datamap()
                    && h.store.stream == Some(data) && h@.graph_bytes::<D>() == graph@
                    && h@.data_bytes() == data@,
                Err(e) => e == HnswError::FormatError && parse::<T, D>(graph@, data@).is_none(),
            },
    {
        let raw = match read_graph::<T, D>(graph, &metric) {
            None => {
                return Err(HnswError::FormatError);
            },
            Some(raw) => raw,
        };
        let n: usize = raw.words[13] as usize;
        let dim: usize = raw.words[2] as usize;
        let store = match PointStore::<T>::open(data, n, dim) {
            None => {
                return Err(HnswError::FormatError);
            },
            Some(s) => s,
        };
        proof {
            lemma_dec_points_end::<T>(data@, DATA_HEADER_BYTES as int, n as nat, dim as nat);
        }
        let r = Self::build(raw, store, metric);
        proof {
            if r.is_ok() {
                lemma_parse_is_dump::<T, D>(graph@, data@);
            }
        }
        r
    }
}

} // verus!
