//! The layout of a persisted graph as a stream of words: a header of fixed
//! length, then one record for each node in the order of the internal ids.
//! The record of a node holds the caller's id, the number of its layers, and
//! for each layer the number of its neighbours followed by their internal
//! ids.

use vstd::prelude::*;

verus! {

/// The number of words of the header.
pub const HEADER_WORDS: usize = 15;

/// `w` holds the words `e` from position `p` on.
pub open spec fn has_at<A>(w: Seq<A>, p: int, e: Seq<A>) -> bool {
    &&& 0 <= p
    &&& p + e.len() <= w.len()
    &&& forall|i: int| 0 <= i < e.len() ==> w[p + i] == #[trigger] e[i]
}

/// A stream that holds two runs of words as one holds each of them.
pub proof fn lemma_has_at_split<A>(w: Seq<A>, p: int, a: Seq<A>, b: Seq<A>)
    requires
        has_at(w, p, a + b),
    ensures
        has_at(w, p, a),
        has_at(w, p + a.len(), b),
{
    let e = a + b;
    assert forall|i: int| 0 <= i < a.len() implies w[p + i] == #[trigger] a[i] by {
        assert(e[i] == a[i]);
    }
    assert forall|i: int| 0 <= i < b.len() implies w[p + a.len() + i] == #[trigger] b[i] by {
        assert(e[a.len() + i] == b[i]);
    }
}

/// A stream that holds a run of words and another behind it holds the two
/// as one.
pub proof fn lemma_has_at_join<A>(w: Seq<A>, p: int, a: Seq<A>, b: Seq<A>)
    requires
        has_at(w, p, a),
        has_at(w, p + a.len(), b),
    ensures
        has_at(w, p, a + b),
{
    let e = a + b;
    assert forall|i: int| 0 <= i < e.len() implies w[p + i] == #[trigger] e[i] by {
        if i < a.len() {
            assert(w[p + i] == a[i]);
        } else {
            assert(w[p + a.len() + (i - a.len())] == b[i - a.len()]);
        }
    }
}

/// The words of one neighbour list: its length, then its ids.
pub open spec fn enc_list(s: Seq<u64>) -> Seq<u64> {
    seq![s.len() as u64] + s
}

/// The words of the lists of one node.
pub open spec fn enc_layers(ls: Seq<Seq<u64>>) -> Seq<u64>
    decreases ls.len(),
{
    if ls.len() == 0 {
        Seq::empty()
    } else {
        enc_layers(ls.drop_last()) + enc_list(ls.last())
    }
}

/// The words of the record of one node.
pub open spec fn enc_node(ext: u64, ls: Seq<Seq<u64>>) -> Seq<u64> {
    seq![ext, ls.len() as u64] + enc_layers(ls)
}

/// The words of the records of all nodes.
pub open spec fn enc_nodes(exts: Seq<u64>, nodes: Seq<Seq<Seq<u64>>>) -> Seq<u64>
    decreases nodes.len(),
{
    if nodes.len() == 0 {
        Seq::empty()
    } else {
        enc_nodes(exts.drop_last(), nodes.drop_last()) + enc_node(exts.last(), nodes.last())
    }
}

/// The list that stands at position `p`, and the position behind it.
pub open spec fn dec_list(w: Seq<u64>, p: int) -> Option<(Seq<u64>, int)> {
    if 0 <= p < w.len() && p + 1 + w[p] <= w.len() {
        Some((w.subrange(p + 1, p + 1 + w[p]), p + 1 + w[p]))
    } else {
        None
    }
}

/// The `k` lists that stand from position `p` on, and the position behind
/// them.
pub open spec fn dec_layers(w: Seq<u64>, p: int, k: nat) -> Option<(Seq<Seq<u64>>, int)>
    decreases k,
{
    if k == 0 {
        Some((Seq::empty(), p))
    } else {
        match dec_layers(w, p, (k - 1) as nat) {
            None => None,
            Some((ls, p1)) => match dec_list(w, p1) {
                None => None,
                Some((s, p2)) => Some((ls.push(s), p2)),
            },
        }
    }
}

/// The record that stands at position `p`: the caller's id and the lists of
/// a node, and the position behind it.
pub open spec fn dec_node(w: Seq<u64>, p: int) -> Option<(u64, Seq<Seq<u64>>, int)> {
    if 0 <= p && p + 2 <= w.len() {
        match dec_layers(w, p + 2, w[p + 1] as nat) {
            None => None,
            Some((ls, p2)) => Some((w[p], ls, p2)),
        }
    } else {
        None
    }
}

/// The `k` records that stand from position `p` on, and the position behind
/// them.
pub open spec fn dec_nodes(w: Seq<u64>, p: int, k: nat) -> Option<
    (Seq<u64>, Seq<Seq<Seq<u64>>>, int),
>
    decreases k,
{
    if k == 0 {
        Some((Seq::empty(), Seq::empty(), p))
    } else {
        match dec_nodes(w, p, (k - 1) as nat) {
            None => None,
            Some((exts, nodes, p1)) => match dec_node(w, p1) {
                None => None,
                Some((ext, ls, p2)) => Some((exts.push(ext), nodes.push(ls), p2)),
            },
        }
    }
}

/// Where lists cannot be read, more of them cannot either.
pub proof fn lemma_dec_layers_none(w: Seq<u64>, p: int, i: nat, k: nat)
    requires
        i <= k,
        dec_layers(w, p, i).is_none(),
    ensures
        dec_layers(w, p, k).is_none(),
    decreases k - i,
{
    if i < k {
        lemma_dec_layers_none(w, p, i, (k - 1) as nat);
    }
}

/// Where records cannot be read, more of them cannot either.
pub proof fn lemma_dec_nodes_none(w: Seq<u64>, p: int, i: nat, k: nat)
    requires
        i <= k,
        dec_nodes(w, p, i).is_none(),
    ensures
        dec_nodes(w, p, k).is_none(),
    decreases k - i,
{
    if i < k {
        lemma_dec_nodes_none(w, p, i, (k - 1) as nat);
    }
}

/// Where `k` lists are read, they end within the stream, and each takes at
/// least one word.
pub proof fn lemma_dec_layers_end(w: Seq<u64>, p: int, k: nat)
    requires
        0 <= p <= w.len(),
        dec_layers(w, p, k).is_some(),
    ensures
        dec_layers(w, p, k).unwrap().0.len() == k,
        p + k <= dec_layers(w, p, k).unwrap().1 <= w.len(),
    decreases k,
{
    if k > 0 {
        lemma_dec_layers_end(w, p, (k - 1) as nat);
    }
}

/// Where `k` records are read, they end within the stream, and each takes at
/// least two words.
pub proof fn lemma_dec_nodes_end(w: Seq<u64>, p: int, k: nat)
    requires
        0 <= p <= w.len(),
        dec_nodes(w, p, k).is_some(),
    ensures
        dec_nodes(w, p, k).unwrap().0.len() == k,
        dec_nodes(w, p, k).unwrap().1.len() == k,
        p + 2 * k <= dec_nodes(w, p, k).unwrap().2 <= w.len(),
    decreases k,
{
    if k > 0 {
        lemma_dec_nodes_end(w, p, (k - 1) as nat);
        let p1 = dec_nodes(w, p, (k - 1) as nat).unwrap().2;
        lemma_dec_layers_end(w, p1 + 2, w[p1 + 1] as nat);
    }
}

/// A list is read back from its words.
pub proof fn lemma_list_round_trip(w: Seq<u64>, p: int, s: Seq<u64>)
    requires
        has_at(w, p, enc_list(s)),
        s.len() <= u64::MAX,
    ensures
        dec_list(w, p) == Some((s, p + 1 + s.len())),
{
    let e = enc_list(s);
    assert(e[0] == s.len() as u64);
    assert(w[p + 0] == e[0]);
    assert forall|i: int| 0 <= i < s.len() implies w[p + 1 + i] == s[i] by {
        assert(e[1 + i] == s[i]);
        assert(w[p + (1 + i)] == e[1 + i]);
    }
    assert(w.subrange(p + 1, p + 1 + s.len()) =~= s);
}

/// The lists of a node are read back from their words.
pub proof fn lemma_layers_round_trip(w: Seq<u64>, p: int, ls: Seq<Seq<u64>>)
    requires
        has_at(w, p, enc_layers(ls)),
        forall|j: int| 0 <= j < ls.len() ==> (#[trigger] ls[j]).len() <= u64::MAX,
    ensures
        dec_layers(w, p, ls.len()) == Some((ls, p + enc_layers(ls).len())),
    decreases ls.len(),
{
    if ls.len() > 0 {
        let front = ls.drop_last();
        lemma_has_at_split(w, p, enc_layers(front), enc_list(ls.last()));
        lemma_layers_round_trip(w, p, front);
        lemma_list_round_trip(w, p + enc_layers(front).len(), ls.last());
        assert(front.push(ls.last()) =~= ls);
    }
}

/// The record of a node is read back from its words.
pub proof fn lemma_node_round_trip(w: Seq<u64>, p: int, ext: u64, ls: Seq<Seq<u64>>)
    requires
        has_at(w, p, enc_node(ext, ls)),
        ls.len() <= u64::MAX,
        forall|j: int| 0 <= j < ls.len() ==> (#[trigger] ls[j]).len() <= u64::MAX,
    ensures
        dec_node(w, p) == Some((ext, ls, p + enc_node(ext, ls).len())),
{
    let h = seq![ext, ls.len() as u64];
    lemma_has_at_split(w, p, h, enc_layers(ls));
    assert(w[p + 0] == h[0]);
    assert(w[p + 1] == h[1]);
    lemma_layers_round_trip(w, p + 2, ls);
}

/// The records of all nodes are read back from their words.
pub proof fn lemma_nodes_round_trip(
    w: Seq<u64>,
    p: int,
    exts: Seq<u64>,
    nodes: Seq<Seq<Seq<u64>>>,
)
    requires
        exts.len() == nodes.len(),
        has_at(w, p, enc_nodes(exts, nodes)),
        forall|a: int| 0 <= a < nodes.len() ==> (#[trigger] nodes[a]).len() <= u64::MAX,
        forall|a: int, j: int|
            0 <= a < nodes.len() && 0 <= j < nodes[a].len() ==> (#[trigger] nodes[a][j]).len()
                <= u64::MAX,
    ensures
        dec_nodes(w, p, nodes.len()) == Some((exts, nodes, p + enc_nodes(exts, nodes).len())),
    decreases nodes.len(),
{
    if nodes.len() > 0 {
        let fe = exts.drop_last();
        let fnodes = nodes.drop_last();
        let last = nodes.last();
        lemma_has_at_split(w, p, enc_nodes(fe, fnodes), enc_node(exts.last(), last));
        assert forall|a: int, j: int|
            0 <= a < fnodes.len() && 0 <= j < fnodes[a].len() implies (
        #[trigger] fnodes[a][j]).len() <= u64::MAX by {
            assert(fnodes[a] == nodes[a]);
            assert(nodes[a][j].len() <= u64::MAX);
        }
        assert forall|a: int| 0 <= a < fnodes.len() implies (#[trigger] fnodes[a]).len()
            <= u64::MAX by {
            assert(fnodes[a] == nodes[a]);
        }
        lemma_nodes_round_trip(w, p, fe, fnodes);
        assert forall|j: int| 0 <= j < last.len() implies (#[trigger] last[j]).len()
            <= u64::MAX by {
            assert(nodes[nodes.len() - 1][j].len() <= u64::MAX);
        }
        lemma_node_round_trip(w, p + enc_nodes(fe, fnodes).len(), exts.last(), last);
        assert(fe.push(exts.last()) =~= exts);
        assert(fnodes.push(last) =~= nodes);
    }
}

/// A list that is read stands in the stream as its words.
pub proof fn lemma_list_back(w: Seq<u64>, p: int)
    requires
        dec_list(w, p).is_some(),
    ensures
        has_at(w, p, enc_list(dec_list(w, p).unwrap().0)),
        dec_list(w, p).unwrap().1 == p + enc_list(dec_list(w, p).unwrap().0).len(),
{
    let s = dec_list(w, p).unwrap().0;
    let e = enc_list(s);
    assert forall|i: int| 0 <= i < e.len() implies w[p + i] == #[trigger] e[i] by {
        if i > 0 {
            assert(e[i] == s[i - 1]);
        }
    }
}

/// The lists that are read stand in the stream as their words.
pub proof fn lemma_layers_back(w: Seq<u64>, p: int, k: nat)
    requires
        0 <= p <= w.len(),
        dec_layers(w, p, k).is_some(),
    ensures
        has_at(w, p, enc_layers(dec_layers(w, p, k).unwrap().0)),
        dec_layers(w, p, k).unwrap().1 == p + enc_layers(dec_layers(w, p, k).unwrap().0).len(),
    decreases k,
{
    if k > 0 {
        lemma_layers_back(w, p, (k - 1) as nat);
        let (front, p1) = dec_layers(w, p, (k - 1) as nat).unwrap();
        lemma_list_back(w, p1);
        let s = dec_list(w, p1).unwrap().0;
        let ls = front.push(s);
        assert(ls.drop_last() =~= front);
        lemma_has_at_join(w, p, enc_layers(front), enc_list(s));
    }
}

/// The record that is read stands in the stream as its words.
pub proof fn lemma_node_back(w: Seq<u64>, p: int)
    requires
        dec_node(w, p).is_some(),
    ensures
        has_at(w, p, enc_node(dec_node(w, p).unwrap().0, dec_node(w, p).unwrap().1)),
        dec_node(w, p).unwrap().2 == p + enc_node(
            dec_node(w, p).unwrap().0,
            dec_node(w, p).unwrap().1,
        ).len(),
{
    let k = w[p + 1] as nat;
    lemma_layers_back(w, p + 2, k);
    lemma_dec_layers_end(w, p + 2, k);
    let (ext, ls, q) = dec_node(w, p).unwrap();
    let h = seq![ext, ls.len() as u64];
    assert(has_at(w, p, h)) by {
        assert forall|i: int| 0 <= i < h.len() implies w[p + i] == #[trigger] h[i] by {}
    }
    lemma_has_at_join(w, p, h, enc_layers(ls));
}

/// The records that are read stand in the stream as their words.
pub proof fn lemma_nodes_back(w: Seq<u64>, p: int, k: nat)
    requires
        0 <= p <= w.len(),
        dec_nodes(w, p, k).is_some(),
    ensures
        has_at(w, p, enc_nodes(dec_nodes(w, p, k).unwrap().0, dec_nodes(w, p, k).unwrap().1)),
        dec_nodes(w, p, k).unwrap().2 == p + enc_nodes(
            dec_nodes(w, p, k).unwrap().0,
            dec_nodes(w, p, k).unwrap().1,
        ).len(),
    decreases k,
{
    if k > 0 {
        lemma_nodes_back(w, p, (k - 1) as nat);
        lemma_dec_nodes_end(w, p, (k - 1) as nat);
        let (fe, fnodes, p1) = dec_nodes(w, p, (k - 1) as nat).unwrap();
        lemma_node_back(w, p1);
        let (ext, ls, p2) = dec_node(w, p1).unwrap();
        let exts = fe.push(ext);
        let nodes = fnodes.push(ls);
        assert(exts.drop_last() =~= fe);
        assert(nodes.drop_last() =~= fnodes);
        lemma_has_at_join(w, p, enc_nodes(fe, fnodes), enc_node(ext, ls));
    }
}

/// The ids that the records name.
pub open spec fn nodes_view(v: Vec<Vec<Vec<u64>>>) -> Seq<Seq<Seq<u64>>> {
    Seq::new(v@.len(), |a: int| layers_view(v@[a]))
}

/// The ids that the lists of one record name.
pub open spec fn layers_view(v: Vec<Vec<u64>>) -> Seq<Seq<u64>> {
    Seq::new(v@.len(), |l: int| v@[l]@)
}

/// Reads the list that stands at position `p`.
pub fn read_list(w: &Vec<u64>, p: usize) -> (r: Option<(Vec<u64>, usize)>)
    ensures
        match r {
            Some((s, q)) => dec_list(w@, p as int) == Some((s@, q as int)),
            None => dec_list(w@, p as int).is_none(),
        },
{
    if p >= w.len() {
        return None;
    }
    let len: u64 = w[p];
    let rest: usize = w.len() - p - 1;
    if len > rest as u64 {
        return None;
    }
    let n: usize = len as usize;
    let mut s: Vec<u64> = Vec::new();
    let mut i: usize = 0;
    while i < n
        invariant
            0 <= i <= n,
            p + 1 + n <= w@.len(),
            w@.len() <= usize::MAX,
            s@ == w@.subrange(p + 1, p + 1 + i),
        decreases n - i,
    {
        s.push(w[p + 1 + i]);
        assert(w@.subrange(p + 1, p + 1 + i).push(w@[p + 1 + i]) =~= w@.subrange(
            p + 1,
            p + 1 + (i + 1),
        ));
        i += 1;
    }
    Some((s, p + 1 + n))
}

/// Reads the `k` lists that stand from position `p` on.
pub fn read_layers(w: &Vec<u64>, p: usize, k: u64) -> (r: Option<(Vec<Vec<u64>>, usize)>)
    requires
        p <= w@.len(),
    ensures
        match r {
            Some((ls, q)) => dec_layers(w@, p as int, k as nat) == Some(
                (layers_view(ls), q as int),
            ),
            None => dec_layers(w@, p as int, k as nat).is_none(),
        },
{
    let mut ls: Vec<Vec<u64>> = Vec::new();
    let mut at: usize = p;
    let mut i: u64 = 0;
    assert(layers_view(ls) =~= Seq::<Seq<u64>>::empty());
    while i < k
        invariant
            0 <= i <= k,
            p <= w@.len(),
            dec_layers(w@, p as int, i as nat) == Some((layers_view(ls), at as int)),
        decreases k - i,
    {
        let ghost before = layers_view(ls);
        match read_list(w, at) {
            None => {
                proof {
                    assert(dec_layers(w@, p as int, (i + 1) as nat).is_none());
                    lemma_dec_layers_none(w@, p as int, (i + 1) as nat, k as nat);
                }
                return None;
            },
            Some((s, q)) => {
                ls.push(s);
                at = q;
                assert(layers_view(ls) =~= before.push(s@));
            },
        }
        i += 1;
    }
    Some((ls, at))
}

/// Reads the `k` records that stand from position `p` on.
pub fn read_nodes(w: &Vec<u64>, p: usize, k: u64) -> (r: Option<
    (Vec<u64>, Vec<Vec<Vec<u64>>>, usize),
>)
    requires
        p <= w@.len(),
    ensures
        match r {
            Some((exts, nodes, q)) => dec_nodes(w@, p as int, k as nat) == Some(
                (exts@, nodes_view(nodes), q as int),
            ),
            None => dec_nodes(w@, p as int, k as nat).is_none(),
        },
{
    let mut exts: Vec<u64> = Vec::new();
    let mut nodes: Vec<Vec<Vec<u64>>> = Vec::new();
    let mut at: usize = p;
    let mut i: u64 = 0;
    assert(nodes_view(nodes) =~= Seq::<Seq<Seq<u64>>>::empty());
    while i < k
        invariant
            0 <= i <= k,
            p <= w@.len(),
            at <= w@.len(),
            dec_nodes(w@, p as int, i as nat) == Some((exts@, nodes_view(nodes), at as int)),
        decreases k - i,
    {
        let ghost before = nodes_view(nodes);
        if w.len() - at < 2 {
            proof {
                assert(dec_nodes(w@, p as int, (i + 1) as nat).is_none());
                lemma_dec_nodes_none(w@, p as int, (i + 1) as nat, k as nat);
            }
            return None;
        }
        let ext: u64 = w[at];
        match read_layers(w, at + 2, w[at + 1]) {
            None => {
                proof {
                    assert(dec_nodes(w@, p as int, (i + 1) as nat).is_none());
                    lemma_dec_nodes_none(w@, p as int, (i + 1) as nat, k as nat);
                }
                return None;
            },
            Some((ls, q)) => {
                proof {
                    lemma_dec_layers_end(w@, at + 2, w@[at + 1] as nat);
                }
                exts.push(ext);
                nodes.push(ls);
                at = q;
                assert(nodes_view(nodes) =~= before.push(layers_view(ls)));
            },
        }
        i += 1;
    }
    Some((exts, nodes, at))
}

} // verus!
