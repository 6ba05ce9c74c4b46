//! Persistence: an index is written as two streams of bytes, one for the
//! graph and one for the vectors, and read back from them.
//!
//! The graph stream holds words of 64 bits in little-endian order: a header
//! (format tag, version, dimension, metric tag, the tuning parameters, the
//! state of the layer generator, the number of nodes, the entry point) and
//! the record of each node. The data stream holds a header of four words
//! (format tag, number of vectors, dimension, element type tag) and the
//! vectors.

use crate::data_stream::{
    data_head, decode_data, enc_points, lemma_dec_points_end, lemma_points_back,
    lemma_points_round_trip, write_vec, DATA_HEADER_BYTES, DATA_MAGIC,
};
use crate::edge::Edge;
use crate::element::Element;
use crate::graph_stream::{
    dec_nodes, enc_layers, enc_list, enc_node, enc_nodes, has_at, lemma_dec_nodes_end,
    lemma_nodes_back, lemma_nodes_round_trip, HEADER_WORDS,
};
use crate::hnsw::Hnsw;
use crate::metric::Metric;
use crate::model::{Model, Params};
use crate::words::{
    bytes_words, lemma_bytes_round_trip, lemma_words_bytes_len, lemma_words_round_trip, put_word,
    to_bytes, words_bytes,
};
use vstd::bytes::spec_u64_to_le_bytes;
use vstd::prelude::*;

verus! {

/// The first word of a graph stream.
pub const GRAPH_MAGIC: u64 = 0x4850_4152_4757_534E;

/// The version of the layout.
pub const FORMAT_VERSION: u64 = 1;

/// The ids that a neighbour list names, as words.
pub open spec fn list_ids(s: Seq<Edge>) -> Seq<u64> {
    Seq::new(s.len(), |i: int| s[i].id as u64)
}

/// The ids that the lists of a node name, as words.
pub open spec fn node_ids(ls: Seq<Seq<Edge>>) -> Seq<Seq<u64>> {
    Seq::new(ls.len(), |l: int| list_ids(ls[l]))
}

impl<T> Model<T> {
    /// The word that stands for the entry point: 0 for none, else its
    /// internal id plus one.
    pub open spec fn entry_code(self) -> u64 {
        match self.entry {
            None => 0,
            Some(e) => (e + 1) as u64,
        }
    }

    /// The header of the graph stream.
    pub open spec fn head_words<D: Metric<T>>(self) -> Seq<u64> {
        seq![
            GRAPH_MAGIC,
            FORMAT_VERSION,
            self.params.dim as u64,
            D::tag() as u64,
            self.params.m as u64,
            self.params.m_max as u64,
            self.params.m_max0 as u64,
            self.params.ef_construction as u64,
            self.params.level_base,
            self.params.max_layers as u64,
            self.params.max_elements as u64,
            if self.params.keep_pruned { 1u64 } else { 0u64 },
            self.rng,
            self.links.len() as u64,
            self.entry_code(),
        ]
    }

    /// The caller's ids, as words.
    pub open spec fn ext_words(self) -> Seq<u64> {
        Seq::new(self.ext_ids.len(), |a: int| self.ext_ids[a] as u64)
    }

    /// The ids that the lists of all nodes name, as words.
    pub open spec fn id_words(self) -> Seq<Seq<Seq<u64>>> {
        Seq::new(self.links.len(), |a: int| node_ids(self.links[a]))
    }

    /// The words of the graph stream.
    pub open spec fn graph_words<D: Metric<T>>(self) -> Seq<u64> {
        self.head_words::<D>() + enc_nodes(self.ext_words(), self.id_words())
    }

    /// The graph stream of the index.
    pub open spec fn graph_bytes<D: Metric<T>>(self) -> Seq<u8> {
        words_bytes(self.graph_words::<D>())
    }
}

impl<T: Element> Model<T> {
    /// The data stream of the index.
    pub open spec fn data_bytes(self) -> Seq<u8> {
        words_bytes(data_head::<T>(self.points.len() as u64, self.params.dim as u64)) + enc_points(
            self.points,
        )
    }
}

/// What a graph stream holds, before it is known to describe an index.
pub struct Raw {
    pub head: Seq<u64>,
    pub exts: Seq<u64>,
    pub ids: Seq<Seq<Seq<u64>>>,
}

/// The header and the records that a stream of words holds, if it holds a
/// header and as many records as the header says, and nothing behind them.
pub open spec fn decode_raw(w: Seq<u64>) -> Option<Raw> {
    if w.len() < HEADER_WORDS {
        None
    } else {
        match dec_nodes(w, HEADER_WORDS as int, w[13] as nat) {
            None => None,
            Some((exts, ids, p)) => if p == w.len() {
                Some(Raw { head: w.subrange(0, HEADER_WORDS as int), exts, ids })
            } else {
                None
            },
        }
    }
}

/// The word can be held as a `usize`.
pub open spec fn fits(x: u64) -> bool {
    x <= usize::MAX
}

/// Every word of `s` is below `n`.
pub open spec fn all_below(s: Seq<u64>, n: int) -> bool {
    forall|i: int| 0 <= i < s.len() ==> (#[trigger] s[i]) < n
}

/// Every caller's id can be held, and every neighbour is a node.
pub open spec fn ids_fit(exts: Seq<u64>, ids: Seq<Seq<Seq<u64>>>) -> bool {
    &&& forall|a: int| 0 <= a < exts.len() ==> fits(#[trigger] exts[a])
    &&& forall|a: int, l: int|
        0 <= a < ids.len() && 0 <= l < ids[a].len() ==> all_below(
            #[trigger] ids[a][l],
            ids.len() as int,
        )
}

/// The neighbour list of node `a` that names the nodes `s`, each with the
/// distance from `a` to it.
pub open spec fn list_of<T, D: Metric<T>>(points: Seq<Seq<T>>, a: int, s: Seq<u64>) -> Seq<Edge> {
    Seq::new(
        s.len(),
        |i: int| Edge { id: s[i] as usize, dist: D::dist(points[a], points[s[i] as int]) },
    )
}

/// The neighbour lists that the records `ids` describe.
pub open spec fn links_of<T, D: Metric<T>>(points: Seq<Seq<T>>, ids: Seq<Seq<Seq<u64>>>) -> Seq<
    Seq<Seq<Edge>>,
> {
    Seq::new(
        ids.len(),
        |a: int| Seq::new(ids[a].len(), |l: int| list_of::<T, D>(points, a, ids[a][l])),
    )
}

impl Raw {
    /// The header names this layout and the metric `D`, and its numbers can
    /// be held.
    pub open spec fn head_ok<T, D: Metric<T>>(self) -> bool {
        &&& self.head[0] == GRAPH_MAGIC
        &&& self.head[1] == FORMAT_VERSION
        &&& fits(self.head[2])
        &&& self.head[3] == D::tag()
        &&& fits(self.head[4])
        &&& fits(self.head[5])
        &&& fits(self.head[6])
        &&& fits(self.head[7])
        &&& fits(self.head[9])
        &&& fits(self.head[10])
        &&& self.head[11] <= 1
        &&& fits(self.head[13])
        &&& self.head[14] <= self.head[13]
    }

    /// Every caller's id can be held, and every neighbour is a node.
    pub open spec fn ids_ok(self) -> bool {
        ids_fit(self.exts, self.ids)
    }

    /// The parameters that the header holds.
    pub open spec fn params(self) -> Params {
        Params {
            dim: self.head[2] as usize,
            m: self.head[4] as usize,
            m_max: self.head[5] as usize,
            m_max0: self.head[6] as usize,
            ef_construction: self.head[7] as usize,
            level_base: self.head[8],
            max_layers: self.head[9] as usize,
            max_elements: self.head[10] as usize,
            keep_pruned: self.head[11] == 1,
        }
    }

    /// The entry point that the header holds.
    pub open spec fn entry(self) -> Option<usize> {
        if self.head[14] == 0 {
            None
        } else {
            Some((self.head[14] - 1) as usize)
        }
    }

    /// The index that the header and the records describe together with the
    /// vectors `points`.
    pub open spec fn assemble<T, D: Metric<T>>(self, points: Seq<Seq<T>>) -> Model<T> {
        Model {
            params: self.params(),
            points,
            ext_ids: Seq::new(self.exts.len(), |a: int| self.exts[a] as usize),
            links: links_of::<T, D>(points, self.ids),
            entry: self.entry(),
            rng: self.head[12],
        }
    }
}

/// The header and the records that a graph stream holds, if it holds those
/// of an index under the metric `D` whose numbers can be held.
pub open spec fn decode_graph<T, D: Metric<T>>(g: Seq<u8>) -> Option<Raw> {
    match bytes_words(g) {
        None => None,
        Some(w) => match decode_raw(w) {
            None => None,
            Some(raw) => if raw.head_ok::<T, D>() && raw.ids_ok() {
                Some(raw)
            } else {
                None
            },
        },
    }
}

/// The index that a graph stream and a data stream hold, if they hold one
/// that is well formed under the metric `D`.
pub open spec fn parse<T: Element, D: Metric<T>>(g: Seq<u8>, d: Seq<u8>) -> Option<Model<T>> {
    match decode_graph::<T, D>(g) {
        None => None,
        Some(raw) => match decode_data::<T>(d, raw.head[13], raw.head[2]) {
            None => None,
            Some(ps) => if raw.assemble::<T, D>(ps).wf::<D>() {
                Some(raw.assemble::<T, D>(ps))
            } else {
                None
            },
        },
    }
}

/// The streams of a well-formed index hold that index: reading what was
/// written gives back every parameter, point, caller's id and neighbour
/// list, and so the same result for every search.
pub proof fn lemma_dump_load_round_trip<T: Element, D: Metric<T>>(m: Model<T>)
    requires
        m.wf::<D>(),
    ensures
        parse::<T, D>(m.graph_bytes::<D>(), m.data_bytes()) == Some(m),
{
    let head = m.head_words::<D>();
    let exts = m.ext_words();
    let ids = m.id_words();
    let w = m.graph_words::<D>();
    let n = m.links.len();
    lemma_words_round_trip(w);
    assert(head.len() == 15);
    assert(w[13] == head[13]);
    assert(has_at(w, 15, enc_nodes(exts, ids))) by {
        let e = enc_nodes(exts, ids);
        assert forall|i: int| 0 <= i < e.len() implies w[15 + i] == #[trigger] e[i] by {}
    }
    assert forall|a: int, j: int| 0 <= a < ids.len() && 0 <= j < ids[a].len() implies (
    #[trigger] ids[a][j]).len() <= u64::MAX by {
        assert(m.links[a][j].len() <= m.params.bound(j));
    }
    assert forall|a: int| 0 <= a < ids.len() implies (#[trigger] ids[a]).len() <= u64::MAX by {
        assert(m.links[a].len() <= m.params.max_layers);
    }
    lemma_nodes_round_trip(w, 15, exts, ids);
    let raw = Raw { head: w.subrange(0, 15), exts, ids };
    assert(raw.head =~= head);
    assert(decode_raw(w) == Some(raw));
    assert(raw.head_ok::<T, D>());
    assert forall|a: int, l: int|
        0 <= a < raw.ids.len() && 0 <= l < raw.ids[a].len() implies all_below(
        #[trigger] raw.ids[a][l],
        raw.ids.len() as int,
    ) by {
        assert(m.list_ok::<D>(a, l));
        assert forall|i: int| 0 <= i < raw.ids[a][l].len() implies (#[trigger] raw.ids[a][l][i])
            < raw.ids.len() by {
            assert(m.edge_ok::<D>(a, l, m.links[a][l][i]));
        }
    }
    assert(raw.ids_ok());
    // the data stream
    let d = m.data_bytes();
    let dh = data_head::<T>(n as u64, m.params.dim as u64);
    lemma_words_bytes_len(dh);
    lemma_words_round_trip(dh);
    assert(d.subrange(0, 32) =~= words_bytes(dh));
    assert(has_at(d, 32, enc_points(m.points))) by {
        let e = enc_points(m.points);
        assert forall|i: int| 0 <= i < e.len() implies d[32 + i] == #[trigger] e[i] by {}
    }
    lemma_points_round_trip::<T>(d, 32, m.points, m.params.dim as nat);
    assert(decode_data::<T>(d, raw.head[13], raw.head[2]) == Some(m.points));
    // the index
    let back = raw.assemble::<T, D>(m.points);
    assert(back.params == m.params);
    assert(back.ext_ids =~= m.ext_ids);
    assert(back.entry == m.entry);
    assert forall|a: int, l: int| 0 <= a < n && 0 <= l < m.links[a].len() implies back.links[a][l]
        =~= m.links[a][l] by {
        assert(m.list_ok::<D>(a, l));
        assert forall|i: int| 0 <= i < m.links[a][l].len() implies back.links[a][l][i]
            == m.links[a][l][i] by {
            assert(m.edge_ok::<D>(a, l, m.links[a][l][i]));
        }
    }
    assert(back.links =~~= m.links);
    assert(back == m);
}

/// Streams that hold an index are the streams of that index: what is read
/// is well formed and dumps to the very bytes that were read.
pub proof fn lemma_parse_is_dump<T: Element, D: Metric<T>>(g: Seq<u8>, d: Seq<u8>)
    requires
        parse::<T, D>(g, d).is_some(),
    ensures
        parse::<T, D>(g, d).unwrap().wf::<D>(),
        parse::<T, D>(g, d).unwrap().graph_bytes::<D>() == g,
        parse::<T, D>(g, d).unwrap().data_bytes() == d,
{
    let w = bytes_words(g).unwrap();
    let raw = decode_raw(w).unwrap();
    let n = raw.head[13];
    let dim = raw.head[2];
    let ps = decode_data::<T>(d, n, dim).unwrap();
    let m = raw.assemble::<T, D>(ps);
    assert(parse::<T, D>(g, d) == Some(m));
    // the graph stream
    lemma_bytes_round_trip(g);
    lemma_nodes_back(w, HEADER_WORDS as int, w[13] as nat);
    lemma_dec_nodes_end(w, HEADER_WORDS as int, w[13] as nat);
    let body = enc_nodes(raw.exts, raw.ids);
    assert(w =~= raw.head + body) by {
        assert forall|i: int| 0 <= i < body.len() implies w[15 + i] == #[trigger] body[i] by {}
    }
    assert(m.head_words::<D>() =~= raw.head);
    assert(m.ext_words() =~= raw.exts);
    assert forall|a: int, l: int| 0 <= a < raw.ids.len() && 0 <= l < raw.ids[a].len() implies (
    #[trigger] m.id_words()[a][l]) =~= raw.ids[a][l] by {
        assert(all_below(raw.ids[a][l], raw.ids.len() as int));
    }
    assert(m.id_words() =~~= raw.ids);
    assert(m.graph_words::<D>() == w);
    // the data stream
    let head = d.subrange(0, DATA_HEADER_BYTES as int);
    lemma_bytes_round_trip(head);
    lemma_points_back::<T>(d, DATA_HEADER_BYTES as int, n as nat, dim as nat);
    lemma_dec_points_end::<T>(d, DATA_HEADER_BYTES as int, n as nat, dim as nat);
    let rows = enc_points(ps);
    assert(d =~= head + rows) by {
        assert forall|i: int| 0 <= i < rows.len() implies d[32 + i] == #[trigger] rows[i] by {}
    }
    assert(m.points.len() as u64 == n);
    assert(m.params.dim as u64 == dim);
}

/// Streams are read as an index exactly if they are the streams of a
/// well-formed index.
pub proof fn lemma_only_dumps_are_read<T: Element, D: Metric<T>>(g: Seq<u8>, d: Seq<u8>)
    ensures
        parse::<T, D>(g, d).is_some() <==> exists|m: Model<T>|
            m.wf::<D>() && #[trigger] m.graph_bytes::<D>() == g && m.data_bytes() == d,
{
    if parse::<T, D>(g, d).is_some() {
        lemma_parse_is_dump::<T, D>(g, d);
        let m = parse::<T, D>(g, d).unwrap();
        assert(m.wf::<D>() && m.graph_bytes::<D>() == g && m.data_bytes() == d);
    }
    if exists|m: Model<T>|
        m.wf::<D>() && #[trigger] m.graph_bytes::<D>() == g && m.data_bytes() == d {
        let m = choose|m: Model<T>|
            m.wf::<D>() && #[trigger] m.graph_bytes::<D>() == g && m.data_bytes() == d;
        lemma_dump_load_round_trip::<T, D>(m);
    }
}

/// An index read back from its streams answers every search as the index
/// that was written does.
pub proof fn lemma_reloaded_index_answers_alike<T: Element, D: Metric<T>>(
    m: Model<T>,
    q: Seq<T>,
    k: int,
    ef: int,
)
    requires
        m.wf::<D>(),
    ensures
        parse::<T, D>(m.graph_bytes::<D>(), m.data_bytes()).is_some(),
        parse::<T, D>(m.graph_bytes::<D>(), m.data_bytes()).unwrap().search::<D>(q, k, ef)
            == m.search::<D>(q, k, ef),
{
    lemma_dump_load_round_trip::<T, D>(m);
}

/// Appends the words of one neighbour list to `out`.
fn write_list(s: &Vec<Edge>, out: &mut Vec<u64>)
    ensures
        final(out)@ == old(out)@ + enc_list(list_ids(s@)),
{
    let ghost ids = list_ids(s@);
    out.push(s.len() as u64);
    let mut i: usize = 0;
    assert(out@ =~= old(out)@ + (seq![s@.len() as u64] + ids.subrange(0, 0)));
    while i < s.len()
        invariant
            0 <= i <= s@.len(),
            ids == list_ids(s@),
            out@ == old(out)@ + (seq![s@.len() as u64] + ids.subrange(0, i as int)),
        decreases s@.len() - i,
    {
        out.push(s[i].id as u64);
        assert(ids.subrange(0, i as int).push(ids[i as int]) =~= ids.subrange(0, i + 1));
        assert(out@ =~= old(out)@ + (seq![s@.len() as u64] + ids.subrange(0, i + 1)));
        i += 1;
    }
    assert(ids.subrange(0, ids.len() as int) =~= ids);
}

/// Appends the words of the lists of one node to `out`.
fn write_layers(ls: &Vec<Vec<Edge>>, out: &mut Vec<u64>)
    ensures
        final(out)@ == old(out)@ + enc_layers(node_ids(Seq::new(ls@.len(), |l: int| ls@[l]@))),
{
    let ghost ids = node_ids(Seq::new(ls@.len(), |l: int| ls@[l]@));
    let mut i: usize = 0;
    assert(ids.subrange(0, 0) =~= Seq::<Seq<u64>>::empty());
    assert(out@ =~= old(out)@ + enc_layers(ids.subrange(0, 0)));
    while i < ls.len()
        invariant
            0 <= i <= ls@.len(),
            ids == node_ids(Seq::new(ls@.len(), |l: int| ls@[l]@)),
            out@ == old(out)@ + enc_layers(ids.subrange(0, i as int)),
        decreases ls@.len() - i,
    {
        write_list(&ls[i], out);
        proof {
            let next = ids.subrange(0, i + 1);
            assert(next.drop_last() =~= ids.subrange(0, i as int));
            assert(next.last() == list_ids(ls@[i as int]@));
            assert(out@ =~= old(out)@ + enc_layers(next));
        }
        i += 1;
    }
    assert(ids.subrange(0, ids.len() as int) =~= ids);
}

impl<'b, T: Element, D: Metric<T>> Hnsw<'b, T, D> {
    /// Appends the records of all nodes to `out`.
    fn write_nodes(&self, out: &mut Vec<u64>)
        requires
            self.ext_ids@.len() == self.links@.len(),
        ensures
            final(out)@ == old(out)@ + enc_nodes(self@.ext_words(), self@.id_words()),
    {
        let ghost exts = self@.ext_words();
        let ghost ids = self@.id_words();
        let mut a: usize = 0;
        assert(ids.subrange(0, 0) =~= Seq::<Seq<Seq<u64>>>::empty());
        assert(out@ =~= old(out)@ + enc_nodes(exts.subrange(0, 0), ids.subrange(0, 0)));
        while a < self.links.len()
            invariant
                0 <= a <= self.links@.len(),
                self.ext_ids@.len() == self.links@.len(),
                exts == self@.ext_words(),
                ids == self@.id_words(),
                out@ == old(out)@ + enc_nodes(exts.subrange(0, a as int), ids.subrange(0, a as int)),
            decreases self.links@.len() - a,
        {
            let ghost before = out@;
            out.push(self.ext_ids[a] as u64);
            out.push(self.links[a].len() as u64);
            let ghost mid = out@;
            write_layers(&self.links[a], out);
            proof {
                let ne = exts.subrange(0, a + 1);
                let ni = ids.subrange(0, a + 1);
                assert(ne.drop_last() =~= exts.subrange(0, a as int));
                assert(ni.drop_last() =~= ids.subrange(0, a as int));
                assert(ne.last() == self.ext_ids@[a as int] as u64);
                let here = node_ids(Seq::new(self.links@[a as int]@.len(), |l: int| self.links@[a as int]@[l]@));
                assert(self@.links[a as int] =~= Seq::new(
                    self.links@[a as int]@.len(),
                    |l: int| self.links@[a as int]@[l]@,
                ));
                assert(ni.last() == here);
                assert(mid =~= before + seq![ne.last(), here.len() as u64]);
                assert(out@ =~= before + enc_node(ne.last(), ni.last()));
                assert(out@ =~= old(out)@ + enc_nodes(ne, ni));
            }
            a += 1;
        }
        assert(exts.subrange(0, exts.len() as int) =~= exts);
        assert(ids.subrange(0, ids.len() as int) =~= ids);
    }

    /// The graph stream of the index.
    pub fn dump_graph(&self) -> (out: Vec<u8>)
        requires
            self.wf(),
        ensures
            out@ == self@.graph_bytes::<D>(),
    {
        let p = &self.params;
        let mut w: Vec<u64> = Vec::new();
        w.push(GRAPH_MAGIC);
        w.push(FORMAT_VERSION);
        w.push(p.dim as u64);
        w.push(self.metric.metric_tag() as u64);
        w.push(p.m as u64);
        w.push(p.m_max as u64);
        w.push(p.m_max0 as u64);
        w.push(p.ef_construction as u64);
        w.push(p.level_base);
        w.push(p.max_layers as u64);
        w.push(p.max_elements as u64);
        w.push(
            if p.keep_pruned {
                1
            } else {
                0
            },
        );
        w.push(self.rng);
        w.push(self.links.len() as u64);
        w.push(
            match self.entry {
                None => 0,
                Some(e) => (e + 1) as u64,
            },
        );
        assert(w@ =~= self@.head_words::<D>());
        self.write_nodes(&mut w);
        to_bytes(&w)
    }
}

impl<'b, T: Element, D: Metric<T>> Hnsw<'b, T, D> {
    /// The data stream of the index.
    pub fn dump_data(&self) -> (out: Vec<u8>)
        requires
            self.store_ok(),
        ensures
            out@ == self@.data_bytes(),
    {
        let n = self.store.len();
        let mut out: Vec<u8> = Vec::new();
        put_word(&mut out, DATA_MAGIC);
        put_word(&mut out, n as u64);
        put_word(&mut out, self.params.dim as u64);
        put_word(&mut out, T::elem_kind());
        let ghost h = data_head::<T>(n as u64, self.params.dim as u64);
        let ghost ps = self@.points;
        proof {
            let h3 = h.drop_last();
            let h2 = h3.drop_last();
            let h1 = h2.drop_last();
            assert(h1.drop_last() =~= Seq::<u64>::empty());
            assert(words_bytes(h1.drop_last()) =~= Seq::<u8>::empty());
            assert(words_bytes(h1) =~= spec_u64_to_le_bytes(DATA_MAGIC));
            assert(words_bytes(h2) =~= words_bytes(h1) + spec_u64_to_le_bytes(h[1]));
            assert(words_bytes(h3) =~= words_bytes(h2) + spec_u64_to_le_bytes(h[2]));
            assert(words_bytes(h) =~= words_bytes(h3) + spec_u64_to_le_bytes(h[3]));
            assert(out@ =~= words_bytes(h));
            assert(ps.subrange(0, 0) =~= Seq::<Seq<T>>::empty());
            assert(out@ =~= words_bytes(h) + enc_points(ps.subrange(0, 0)));
        }
        let mut a: usize = 0;
        while a < n
            invariant
                0 <= a <= n,
                n == ps.len(),
                ps == self@.points,
                self.store_ok(),
                out@ == words_bytes(h) + enc_points(ps.subrange(0, a as int)),
            decreases n - a,
        {
            let v = self.store.vector(a);
            write_vec(&v, &mut out);
            proof {
                let next = ps.subrange(0, a + 1);
                assert(next.drop_last() =~= ps.subrange(0, a as int));
                assert(next.last() == v@);
                assert(out@ =~= words_bytes(h) + enc_points(next));
            }
            a += 1;
        }
        assert(ps.subrange(0, ps.len() as int) =~= ps);
        out
    }
}

} // verus!
