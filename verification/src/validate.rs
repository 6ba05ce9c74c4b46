//! Checking that an index is well formed.

use crate::edge::{before, distinct, find_id, is_before, sorted, Edge};
use crate::element::Element;
use crate::hnsw::Hnsw;
use crate::metric::Metric;
use crate::model::MAX_LAYERS;
use crate::store::PointStore;
use vstd::prelude::*;

verus! {

/// In a list whose every entry comes after the one before it, an earlier
/// entry comes before a later one.
proof fn lemma_chain(s: Seq<Edge>, i: int, j: int)
    requires
        forall|k: int| 0 < k < s.len() ==> before(s[k - 1], #[trigger] s[k]),
        0 <= i < j < s.len(),
    ensures
        before(s[i], s[j]),
    decreases j - i,
{
    if j > i + 1 {
        lemma_chain(s, i, j - 1);
    }
    assert(before(s[j - 1], s[j]));
}

/// A list whose every entry comes after the one before it is in order.
pub proof fn lemma_adjacent_sorted(s: Seq<Edge>)
    requires
        forall|k: int| 0 < k < s.len() ==> before(s[k - 1], #[trigger] s[k]),
    ensures
        sorted(s),
{
    assert forall|i: int, j: int| 0 <= i < j < s.len() implies before(
        #[trigger] s[i],
        #[trigger] s[j],
    ) by {
        lemma_chain(s, i, j);
    }
}

impl<'b, T: Element, D: Metric<T>> Hnsw<'b, T, D> {
    /// Whether the point store is well formed and holds vectors of the
    /// dimension of the index.
    #[verifier::loop_isolation(false)]
    pub fn store_valid(&self) -> (r: bool)
        ensures
            r == self.store_ok(),
    {
        let st = &self.store;
        if st.dim != self.params.dim {
            return false;
        }
        match st.stream {
            None => {
                if st.mapped != 0 {
                    return false;
                }
            },
            Some(d) => {
                if PointStore::<T>::open(d, st.mapped, st.dim).is_none() {
                    return false;
                }
            },
        }
        if st.mapped.checked_add(st.points.len()).is_none() {
            return false;
        }
        let mut i: usize = 0;
        while i < st.points.len()
            invariant
                0 <= i <= st.points@.len(),
                forall|j: int| 0 <= j < i ==> (#[trigger] st.points@[j])@.len() == st.dim,
            decreases st.points@.len() - i,
        {
            if st.points[i].len() != st.dim {
                return false;
            }
            i += 1;
        }
        true
    }

    /// Whether counts and lengths fit together.
    #[verifier::loop_isolation(false)]
    pub fn shape_valid(&self) -> (r: bool)
        requires
            self.store_ok(),
        ensures
            r == self@.shape_ok(),
    {
        let p = &self.params;
        if !(1 <= p.m && p.m <= p.m_max && 1 <= p.m_max0 && p.m_max < usize::MAX && p.m_max0
            < usize::MAX && 1 <= p.ef_construction && 2 <= p.level_base && 1 <= p.max_layers
            && p.max_layers <= MAX_LAYERS) {
            return false;
        }
        let n = self.links.len();
        if self.store.len() != n || self.ext_ids.len() != n || n > p.max_elements {
            return false;
        }
        proof {
            self.store.lemma_lens();
        }
        let mut a: usize = 0;
        while a < n
            invariant
                0 <= a <= n,
                forall|x: int|
                    0 <= x < a ==> 1 <= (#[trigger] self@.links[x]).len()
                        <= self@.params.max_layers,
            decreases n - a,
        {
            assert(self@.links[a as int].len() == self.links@[a as int]@.len());
            if self.links[a].len() < 1 || self.links[a].len() > p.max_layers {
                return false;
            }
            a += 1;
        }
        true
    }

    /// Whether the list of node `a` at layer `l` is in order and within its
    /// bound, and each of its entries names a node that lists `a` in turn and
    /// carries the distance to it.
    #[verifier::loop_isolation(false)]
    pub fn list_valid(&self, a: usize, l: usize) -> (r: bool)
        requires
            self.store_ok(),
            self@.shape_ok(),
            a < self@.len(),
            l < self@.links[a as int].len(),
        ensures
            r == (self@.list_ok::<D>(a as int, l as int) && self@.links[a as int][l as int].len()
                <= self@.params.bound(l as int)),
    {
        let list = &self.links[a][l];
        let n = self.links.len();
        let bound = if l == 0 {
            self.params.m_max0
        } else {
            self.params.m_max
        };
        if list.len() > bound {
            return false;
        }
        let ghost m = self@;
        let ghost s = m.links[a as int][l as int];
        assert(s == list@);
        let mut i: usize = 0;
        while i < list.len()
            invariant
                0 <= i <= s.len(),
                forall|j: int| 0 <= j < i ==> #[trigger] m.edge_ok::<D>(a as int, l as int, s[j]),
                forall|j: int| 0 < j < i ==> before(s[j - 1], #[trigger] s[j]),
            decreases s.len() - i,
        {
            let e = list[i];
            proof {
                if m.list_ok::<D>(a as int, l as int) {
                    assert(m.edge_ok::<D>(a as int, l as int, s[i as int]));
                    if i > 0 {
                        assert(before(s[i - 1], s[i as int]));
                    }
                }
            }
            if e.id >= n || e.id == a {
                return false;
            }
            if l >= self.links[e.id].len() {
                return false;
            }
            if self.dist_between(a, e.id) != e.dist {
                return false;
            }
            let back = &self.links[e.id][l];
            if find_id(back, a) >= back.len() {
                return false;
            }
            if i > 0 && !is_before(list[i - 1], e) {
                return false;
            }
            i += 1;
        }
        proof {
            lemma_adjacent_sorted(s);
            assert forall|i: int, j: int| 0 <= i < j < s.len() implies (#[trigger] s[i]).id != (
            #[trigger] s[j]).id by {
                assert(m.edge_ok::<D>(a as int, l as int, s[i]));
                assert(m.edge_ok::<D>(a as int, l as int, s[j]));
                assert(before(s[i], s[j]));
            }
            assert(distinct(s));
        }
        true
    }

    /// Whether every list is in order and within its bound, and every edge
    /// runs both ways and carries its distance.
    #[verifier::loop_isolation(false)]
    pub fn lists_valid(&self) -> (r: bool)
        requires
            self.store_ok(),
            self@.shape_ok(),
        ensures
            r == (self@.links_ok::<D>() && self@.bounded()),
    {
        let n = self.links.len();
        let ghost m = self@;
        let mut a: usize = 0;
        while a < n
            invariant
                0 <= a <= n,
                forall|x: int, k: int|
                    0 <= x < a && 0 <= k < m.links[x].len() ==> #[trigger] m.list_ok::<D>(x, k),
                forall|x: int, k: int|
                    0 <= x < a && 0 <= k < m.links[x].len() ==> (#[trigger] m.links[x][k]).len()
                        <= m.params.bound(k),
            decreases n - a,
        {
            let layers = self.links[a].len();
            let mut l: usize = 0;
            while l < layers
                invariant
                    0 <= l <= layers,
                    layers == m.links[a as int].len(),
                    forall|k: int| 0 <= k < l ==> #[trigger] m.list_ok::<D>(a as int, k),
                    forall|k: int|
                        0 <= k < l ==> (#[trigger] m.links[a as int][k]).len() <= m.params.bound(k),
                decreases layers - l,
            {
                if !self.list_valid(a, l) {
                    proof {
                        if m.links_ok::<D>() && m.bounded() {
                            assert(m.list_ok::<D>(a as int, l as int));
                            assert(m.links[a as int][l as int].len() <= m.params.bound(l as int));
                        }
                    }
                    return false;
                }
                l += 1;
            }
            a += 1;
        }
        true
    }

    /// Whether the entry point is a node of the highest layer, and there is
    /// one as soon as there is a node.
    #[verifier::loop_isolation(false)]
    pub fn entry_valid(&self) -> (r: bool)
        ensures
            r == self@.entry_ok(),
    {
        let n = self.links.len();
        let ghost m = self@;
        match self.entry {
            None => n == 0,
            Some(e) => {
                if e >= n {
                    return false;
                }
                let top = self.links[e].len();
                let mut a: usize = 0;
                while a < n
                    invariant
                        0 <= a <= n,
                        top == m.links[e as int].len(),
                        forall|x: int| 0 <= x < a ==> (#[trigger] m.links[x]).len() <= top,
                    decreases n - a,
                {
                    assert(m.links[a as int].len() == self.links@[a as int]@.len());
                    if self.links[a].len() > top {
                        return false;
                    }
                    a += 1;
                }
                true
            },
        }
    }

    /// Whether the index is well formed.
    pub fn validate(&self) -> (r: bool)
        ensures
            r == self.wf(),
    {
        self.store_valid() && self.shape_valid() && self.lists_valid() && self.entry_valid()
    }
}

} // verus!
