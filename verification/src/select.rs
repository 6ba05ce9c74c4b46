//! Neighbour selection: among candidates in ascending order of distance, a
//! candidate is admitted if it is closer to the base point than to every
//! candidate admitted before it.

use crate::edge::Edge;
use crate::element::Element;
use crate::hnsw::Hnsw;
use crate::metric::Metric;
use crate::model::Model;
use vstd::prelude::*;

verus! {

/// How many of the first `n` marks are set.
pub open spec fn count(mask: Seq<bool>, n: int) -> int
    decreases n,
{
    if n <= 0 {
        0
    } else {
        count(mask, n - 1) + if mask[n - 1] {
            1int
        } else {
            0int
        }
    }
}

/// `mask` with the first `need` unset marks from position `i` on set.
pub open spec fn backfill(mask: Seq<bool>, need: int, i: int) -> Seq<bool>
    decreases mask.len() - i,
{
    if 0 <= i < mask.len() {
        if !mask[i] && need > 0 {
            backfill(mask.update(i, true), need - 1, i + 1)
        } else {
            backfill(mask, need, i + 1)
        }
    } else {
        mask
    }
}

/// Two sequences of marks that agree on the first `n` have as many set
/// among them.
pub proof fn lemma_count_agree(a: Seq<bool>, b: Seq<bool>, n: int)
    requires
        0 <= n <= a.len(),
        n <= b.len(),
        forall|j: int| 0 <= j < n ==> a[j] == b[j],
    ensures
        count(a, n) == count(b, n),
    decreases n,
{
    if n > 0 {
        lemma_count_agree(a, b, n - 1);
    }
}

/// Setting a mark raises the count by one where the mark is among those
/// counted.
pub proof fn lemma_count_set(mask: Seq<bool>, i: int, n: int)
    requires
        0 <= i < mask.len(),
        !mask[i],
        0 <= n <= mask.len(),
    ensures
        count(mask.update(i, true), n) == count(mask, n) + if i < n {
            1int
        } else {
            0int
        },
    decreases n,
{
    if n > 0 {
        lemma_count_set(mask, i, n - 1);
    }
}

/// Counting further marks does not lower the count.
pub proof fn lemma_count_grows(mask: Seq<bool>, i: int, n: int)
    requires
        0 <= i <= n,
    ensures
        count(mask, i) <= count(mask, n),
    decreases n - i,
{
    if i < n {
        lemma_count_grows(mask, i, n - 1);
    }
}

impl<T> Model<T> {
    /// Candidate `c` is closer to the base point than to each candidate that
    /// `mask` marks.
    pub open spec fn clear_of<D: Metric<T>>(self, cands: Seq<Edge>, mask: Seq<bool>, c: Edge) -> bool {
        forall|j: int|
            0 <= j < mask.len() && mask[j] ==> c.dist < self.dist::<D>(
                c.id as int,
                (#[trigger] cands[j]).id as int,
            )
    }

    /// The marks of the candidates that the rule admits, decided one by one
    /// after those that `mask` holds: a candidate is admitted while fewer
    /// than `target` are and it is clear of those admitted.
    pub open spec fn diversify<D: Metric<T>>(
        self,
        cands: Seq<Edge>,
        target: int,
        mask: Seq<bool>,
    ) -> Seq<bool>
        decreases cands.len() - mask.len(),
    {
        if mask.len() >= cands.len() {
            mask
        } else {
            let take = count(mask, mask.len() as int) < target && self.clear_of::<D>(
                cands,
                mask,
                cands[mask.len() as int],
            );
            self.diversify::<D>(cands, target, mask.push(take))
        }
    }

    /// Which of `cands` are selected: those that the rule admits; and, where
    /// `fill` is set and they are fewer than `target`, the nearest rejected
    /// ones up to `target` in all.
    pub open spec fn select<D: Metric<T>>(self, cands: Seq<Edge>, target: int, fill: bool) -> Seq<
        bool,
    > {
        let a = self.diversify::<D>(cands, target, Seq::empty());
        if fill {
            backfill(a, target - count(a, a.len() as int), 0)
        } else {
            a
        }
    }
}

impl<'b, T: Element, D: Metric<T>> Hnsw<'b, T, D> {
    /// Marks which of `cands` are selected as neighbours of their base
    /// point, at most `target` of them.
    #[verifier::loop_isolation(false)]
    pub(crate) fn select(&self, cands: &Vec<Edge>, target: usize) -> (mask: Vec<bool>)
        requires
            self.store_ok(),
            forall|j: int| 0 <= j < cands@.len() ==> (#[trigger] cands@[j]).id < self@.len(),
        ensures
            mask@ == self@.select::<D>(cands@, target as int, self@.params.keep_pruned),
            mask@.len() == cands@.len(),
            count(mask@, mask@.len() as int) <= target,
    {
        let n = cands.len();
        let mut mask: Vec<bool> = Vec::new();
        let mut taken: usize = 0;
        let mut i: usize = 0;
        while i < n
            invariant
                0 <= i <= n,
                mask@.len() == i,
                taken == count(mask@, i as int),
                taken <= target,
                taken <= i,
                self@.diversify::<D>(cands@, target as int, mask@) == self@.diversify::<D>(
                    cands@,
                    target as int,
                    Seq::empty(),
                ),
            decreases n - i,
        {
            let c = cands[i];
            let mut take = taken < target;
            let mut j: usize = 0;
            while take && j < i
                invariant
                    0 <= j <= i,
                    mask@.len() == i,
                    take ==> taken < target,
                    take ==> forall|x: int|
                        0 <= x < j && mask@[x] ==> c.dist < self@.dist::<D>(
                            c.id as int,
                            (#[trigger] cands@[x]).id as int,
                        ),
                    !take ==> !(taken < target && self@.clear_of::<D>(cands@, mask@, c)),
                decreases i - j + if take { 1int } else { 0int },
            {
                if mask[j] {
                    let d = self.dist_between(c.id, cands[j].id);
                    if !(c.dist < d) {
                        take = false;
                        assert(cands@[j as int].id == cands@[j as int].id);
                    }
                }
                if take {
                    j += 1;
                }
            }
            let ghost before = mask@;
            mask.push(take);
            proof {
                assert(take == (taken < target && self@.clear_of::<D>(cands@, before, c)));
                lemma_count_agree(before, mask@, i as int);
            }
            if take {
                taken += 1;
            }
            i += 1;
        }
        let ghost admitted = mask@;
        if self.params.keep_pruned {
            let mut need: usize = target - taken;
            let mut k: usize = 0;
            while k < n
                invariant
                    0 <= k <= n,
                    mask@.len() == n,
                    count(mask@, n as int) + need == target,
                    backfill(mask@, need as int, k as int) == backfill(
                        admitted,
                        target - count(admitted, n as int),
                        0,
                    ),
                decreases n - k,
            {
                if !mask[k] && need > 0 {
                    proof {
                        lemma_count_set(mask@, k as int, n as int);
                    }
                    mask.set(k, true);
                    need -= 1;
                }
                k += 1;
            }
        }
        mask
    }
}

} // verus!
