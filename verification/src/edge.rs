//! Neighbour entries and the ordered lists that hold them.
//!
//! A list is kept in ascending order of distance; entries at equal distance
//! are ordered by ascending internal id.

use vstd::prelude::*;

verus! {

/// One entry of a neighbour list: a node and a distance to it.
#[derive(Clone, Copy, Debug, PartialEq, Eq, Structural)]
pub struct Edge {
    pub id: usize,
    pub dist: u32,
}

/// The order of entries: by distance, then by id.
pub open spec fn before(a: Edge, b: Edge) -> bool {
    a.dist < b.dist || (a.dist == b.dist && a.id < b.id)
}

/// The list is in order.
pub open spec fn sorted(s: Seq<Edge>) -> bool {
    forall|i: int, j: int| 0 <= i < j < s.len() ==> before(#[trigger] s[i], #[trigger] s[j])
}

/// The list names no node twice.
pub open spec fn distinct(s: Seq<Edge>) -> bool {
    forall|i: int, j: int| 0 <= i < j < s.len() ==> (#[trigger] s[i]).id != (#[trigger] s[j]).id
}

/// The list names the node `id`.
pub open spec fn has_id(s: Seq<Edge>, id: usize) -> bool {
    exists|i: int| 0 <= i < s.len() && (#[trigger] s[i]).id == id
}

/// The first position at or after `i` whose entry is not before `e`.
pub open spec fn slot_from(s: Seq<Edge>, e: Edge, i: int) -> int
    decreases s.len() - i,
{
    if 0 <= i < s.len() && before(s[i], e) {
        slot_from(s, e, i + 1)
    } else {
        i
    }
}

/// The position at which `e` belongs in `s`.
pub open spec fn slot(s: Seq<Edge>, e: Edge) -> int {
    slot_from(s, e, 0)
}

/// `s` with `e` put in at its place in the order.
pub open spec fn insert_sorted(s: Seq<Edge>, e: Edge) -> Seq<Edge> {
    s.insert(slot(s, e), e)
}

/// The first position at or after `i` whose entry names `id`.
pub open spec fn index_from(s: Seq<Edge>, id: usize, i: int) -> int
    decreases s.len() - i,
{
    if 0 <= i < s.len() && s[i].id != id {
        index_from(s, id, i + 1)
    } else {
        i
    }
}

/// The position of the first entry of `s` that names `id`, or the length of
/// `s` where none does.
pub open spec fn index_of(s: Seq<Edge>, id: usize) -> int {
    index_from(s, id, 0)
}

/// `s` without its first entry that names `id`.
pub open spec fn without_id(s: Seq<Edge>, id: usize) -> Seq<Edge> {
    if index_of(s, id) < s.len() {
        s.remove(index_of(s, id))
    } else {
        s
    }
}

/// The first `n` entries of `s`, or all of `s` where it has fewer.
pub open spec fn cap(s: Seq<Edge>, n: int) -> Seq<Edge> {
    if 0 <= n < s.len() {
        s.subrange(0, n)
    } else {
        s
    }
}

/// Of two different entries one comes before the other, and never both do.
pub proof fn lemma_before_total(a: Edge, b: Edge)
    ensures
        a == b || before(a, b) || before(b, a),
        !(before(a, b) && before(b, a)),
{
}

/// Every entry from `i` up to the slot comes before `e`, and the entry at
/// the slot does not.
pub proof fn lemma_slot_from(s: Seq<Edge>, e: Edge, i: int)
    requires
        0 <= i <= s.len(),
    ensures
        i <= slot_from(s, e, i) <= s.len(),
        forall|j: int| i <= j < slot_from(s, e, i) ==> before(#[trigger] s[j], e),
        slot_from(s, e, i) < s.len() ==> !before(s[slot_from(s, e, i)], e),
    decreases s.len() - i,
{
    if i < s.len() && before(s[i], e) {
        lemma_slot_from(s, e, i + 1);
    }
}

/// No entry from `i` up to the position found names `id`, and the entry
/// there does.
pub proof fn lemma_index_from(s: Seq<Edge>, id: usize, i: int)
    requires
        0 <= i <= s.len(),
    ensures
        i <= index_from(s, id, i) <= s.len(),
        forall|j: int| i <= j < index_from(s, id, i) ==> (#[trigger] s[j]).id != id,
        index_from(s, id, i) < s.len() ==> s[index_from(s, id, i)].id == id,
    decreases s.len() - i,
{
    if i < s.len() && s[i].id != id {
        lemma_index_from(s, id, i + 1);
    }
}

/// An entry that names `id` is found exactly if the list names `id`.
pub proof fn lemma_index_of(s: Seq<Edge>, id: usize)
    ensures
        0 <= index_of(s, id) <= s.len(),
        has_id(s, id) <==> index_of(s, id) < s.len(),
        index_of(s, id) < s.len() ==> s[index_of(s, id)].id == id,
        forall|j: int| 0 <= j < index_of(s, id) ==> (#[trigger] s[j]).id != id,
{
    lemma_index_from(s, id, 0);
}

/// What `insert_sorted` does to a list, position by position.
pub proof fn lemma_insert_sorted_at(s: Seq<Edge>, e: Edge)
    ensures
        0 <= slot(s, e) <= s.len(),
        insert_sorted(s, e).len() == s.len() + 1,
        insert_sorted(s, e)[slot(s, e)] == e,
        forall|i: int| 0 <= i < slot(s, e) ==> #[trigger] insert_sorted(s, e)[i] == s[i],
        forall|i: int|
            slot(s, e) < i <= s.len() ==> #[trigger] insert_sorted(s, e)[i] == s[i - 1],
{
    lemma_slot_from(s, e, 0);
}

/// Which ids a list names once `e` is put in.
pub proof fn lemma_insert_sorted_ids(s: Seq<Edge>, e: Edge)
    ensures
        forall|x: usize| has_id(insert_sorted(s, e), x) <==> (has_id(s, x) || x == e.id),
{
    lemma_insert_sorted_at(s, e);
    let r = insert_sorted(s, e);
    let k = slot(s, e);
    assert forall|x: usize| has_id(r, x) <==> (has_id(s, x) || x == e.id) by {
        if has_id(r, x) {
            let i = choose|i: int| 0 <= i < r.len() && (#[trigger] r[i]).id == x;
            if i < k {
                assert(s[i].id == x);
            } else if i > k {
                assert(s[i - 1].id == x);
            }
        }
        if has_id(s, x) {
            let j = choose|j: int| 0 <= j < s.len() && (#[trigger] s[j]).id == x;
            if j < k {
                assert(r[j].id == x);
            } else {
                assert(r[j + 1].id == x);
            }
        }
        if x == e.id {
            assert(r[k].id == x);
        }
    }
}

/// Putting in an entry whose id the list does not name keeps it in order and
/// free of repeated ids.
pub proof fn lemma_insert_sorted_ok(s: Seq<Edge>, e: Edge)
    requires
        sorted(s),
        distinct(s),
        !has_id(s, e.id),
    ensures
        sorted(insert_sorted(s, e)),
        distinct(insert_sorted(s, e)),
{
    lemma_insert_sorted_at(s, e);
    lemma_slot_from(s, e, 0);
    let r = insert_sorted(s, e);
    let k = slot(s, e);
    assert forall|i: int| 0 <= i < s.len() implies (#[trigger] s[i]).id != e.id by {}
    assert forall|i: int| k <= i < s.len() implies before(e, #[trigger] s[i]) by {
        lemma_before_total(e, s[k]);
        assert(s[k].id != e.id);
        if i > k {
            assert(before(s[k], s[i]));
        }
    }
    assert forall|i: int, j: int| 0 <= i < j < r.len() implies before(
        #[trigger] r[i],
        #[trigger] r[j],
    ) && r[i].id != r[j].id by {
        let a = if i < k { i } else { i - 1 };
        let b = if j < k { j } else { j - 1 };
        if i == k {
            assert(r[j] == s[b]);
            assert(before(e, s[b]));
        } else if j == k {
            assert(r[i] == s[a]);
            assert(before(s[a], e));
        } else {
            assert(r[i] == s[a]);
            assert(r[j] == s[b]);
            assert(before(s[a], s[b]));
        }
    }
}

/// What `without_id` does to a list that names `id`, position by position.
pub proof fn lemma_without_id_at(s: Seq<Edge>, id: usize)
    requires
        has_id(s, id),
    ensures
        0 <= index_of(s, id) < s.len(),
        s[index_of(s, id)].id == id,
        without_id(s, id).len() == s.len() - 1,
        forall|i: int| 0 <= i < index_of(s, id) ==> #[trigger] without_id(s, id)[i] == s[i],
        forall|i: int|
            index_of(s, id) <= i < s.len() - 1 ==> #[trigger] without_id(s, id)[i] == s[i + 1],
{
    lemma_index_of(s, id);
}

/// Taking out an id that the list does not name leaves the list as it is.
pub proof fn lemma_without_id_absent(s: Seq<Edge>, id: usize)
    requires
        !has_id(s, id),
    ensures
        without_id(s, id) == s,
{
    lemma_index_of(s, id);
}

/// Which ids a list names once `id` is taken out, and that it stays in order.
pub proof fn lemma_without_id_ok(s: Seq<Edge>, id: usize)
    requires
        distinct(s),
    ensures
        distinct(without_id(s, id)),
        sorted(s) ==> sorted(without_id(s, id)),
        forall|x: usize| has_id(without_id(s, id), x) <==> (has_id(s, x) && x != id),
        without_id(s, id).len() == if has_id(s, id) { s.len() - 1 } else { s.len() as int },
{
    lemma_index_of(s, id);
    let r = without_id(s, id);
    let k = index_of(s, id);
    if has_id(s, id) {
        lemma_without_id_at(s, id);
        assert forall|i: int, j: int| 0 <= i < j < r.len() implies (#[trigger] r[i]).id != (
        #[trigger] r[j]).id && (sorted(s) ==> before(r[i], r[j])) by {
            let a = if i < k { i } else { i + 1 };
            let b = if j < k { j } else { j + 1 };
            assert(r[i] == s[a]);
            assert(r[j] == s[b]);
            assert(s[a].id != s[b].id);
            if sorted(s) {
                assert(before(s[a], s[b]));
            }
        }
        assert forall|x: usize| has_id(r, x) <==> (has_id(s, x) && x != id) by {
            if has_id(r, x) {
                let i = choose|i: int| 0 <= i < r.len() && (#[trigger] r[i]).id == x;
                let a = if i < k { i } else { i + 1 };
                assert(r[i] == s[a]);
                assert(s[a].id == x);
                if a < k {
                    assert(s[a].id != s[k].id);
                } else {
                    assert(s[k].id != s[a].id);
                }
            }
            if has_id(s, x) && x != id {
                let j = choose|j: int| 0 <= j < s.len() && (#[trigger] s[j]).id == x;
                if j < k {
                    assert(r[j].id == x);
                } else {
                    assert(r[j - 1] == s[j]);
                    assert(r[j - 1].id == x);
                }
            }
        }
    } else {
        assert forall|x: usize| has_id(r, x) <==> (has_id(s, x) && x != id) by {}
    }
}

/// A list that names no node twice, and only nodes of a finite set, is no
/// longer than the set is large.
pub proof fn lemma_distinct_within(s: Seq<Edge>, t: Set<int>)
    requires
        distinct(s),
        t.finite(),
        forall|i: int| 0 <= i < s.len() ==> t.contains((#[trigger] s[i]).id as int),
    ensures
        s.len() <= t.len(),
    decreases s.len(),
{
    if s.len() > 0 {
        let n = s.len() - 1;
        let front = s.drop_last();
        let rest = t.remove(s[n].id as int);
        assert(t.contains(s[n].id as int));
        assert forall|i: int| 0 <= i < front.len() implies rest.contains(
            (#[trigger] front[i]).id as int,
        ) by {
            assert(front[i] == s[i]);
            assert(s[i].id != s[n].id);
        }
        assert forall|i: int, j: int| 0 <= i < j < front.len() implies (#[trigger] front[i]).id != (
        #[trigger] front[j]).id by {
            assert(front[i] == s[i]);
            assert(front[j] == s[j]);
            assert(s[i].id != s[j].id);
        }
        lemma_distinct_within(front, rest);
    }
}

/// Cutting a list short keeps it in order and free of repeated ids.
pub proof fn lemma_cap_ok(s: Seq<Edge>, n: int)
    requires
        n >= 0,
    ensures
        cap(s, n).len() == if n < s.len() { n } else { s.len() as int },
        forall|i: int| 0 <= i < cap(s, n).len() ==> #[trigger] cap(s, n)[i] == s[i],
        sorted(s) ==> sorted(cap(s, n)),
        distinct(s) ==> distinct(cap(s, n)),
{
    let r = cap(s, n);
    assert forall|i: int| 0 <= i < r.len() implies #[trigger] r[i] == s[i] by {}
    if sorted(s) {
        assert forall|i: int, j: int| 0 <= i < j < r.len() implies before(
            #[trigger] r[i],
            #[trigger] r[j],
        ) by {
            assert(before(s[i], s[j]));
        }
    }
    if distinct(s) {
        assert forall|i: int, j: int| 0 <= i < j < r.len() implies (#[trigger] r[i]).id != (
        #[trigger] r[j]).id by {
            assert(s[i].id != s[j].id);
        }
    }
}

/// Whether `a` comes before `b` in the order of entries.
pub fn is_before(a: Edge, b: Edge) -> (r: bool)
    ensures
        r == before(a, b),
{
    a.dist < b.dist || (a.dist == b.dist && a.id < b.id)
}

/// The position at which `e` belongs in `v`.
pub fn find_slot(v: &Vec<Edge>, e: Edge) -> (k: usize)
    ensures
        k == slot(v@, e),
        k <= v@.len(),
{
    let mut i: usize = 0;
    while i < v.len() && is_before(v[i], e)
        invariant
            0 <= i <= v@.len(),
            slot_from(v@, e, i as int) == slot(v@, e),
        decreases v@.len() - i,
    {
        i += 1;
    }
    proof {
        lemma_slot_from(v@, e, 0);
    }
    i
}

/// Puts `e` into `v` at its place in the order.
pub fn insert_edge(v: &mut Vec<Edge>, e: Edge)
    ensures
        final(v)@ == insert_sorted(old(v)@, e),
{
    let k = find_slot(v, e);
    v.insert(k, e);
}

/// The position of the first entry of `v` that names `id`, or the length of
/// `v` where none does.
pub fn find_id(v: &Vec<Edge>, id: usize) -> (k: usize)
    ensures
        k == index_of(v@, id),
        k <= v@.len(),
        (k < v@.len()) == has_id(v@, id),
{
    let mut i: usize = 0;
    while i < v.len() && v[i].id != id
        invariant
            0 <= i <= v@.len(),
            index_from(v@, id, i as int) == index_of(v@, id),
        decreases v@.len() - i,
    {
        i += 1;
    }
    proof {
        lemma_index_of(v@, id);
    }
    i
}

/// A copy of `v`.
pub fn copy_edges(v: &Vec<Edge>) -> (r: Vec<Edge>)
    ensures
        r@ == v@,
{
    let mut r: Vec<Edge> = Vec::new();
    let mut i: usize = 0;
    while i < v.len()
        invariant
            0 <= i <= v@.len(),
            r@ == v@.subrange(0, i as int),
        decreases v@.len() - i,
    {
        r.push(v[i]);
        assert(v@.subrange(0, i as int).push(v@[i as int]) =~= v@.subrange(0, i + 1));
        i += 1;
    }
    assert(v@.subrange(0, v@.len() as int) =~= v@);
    r
}

/// Takes the first entry that names `id` out of `v`, and says whether there
/// was one.
pub fn remove_id(v: &mut Vec<Edge>, id: usize) -> (found: bool)
    ensures
        final(v)@ == without_id(old(v)@, id),
        found == has_id(old(v)@, id),
{
    let k = find_id(v, id);
    if k < v.len() {
        v.remove(k);
        true
    } else {
        false
    }
}

} // verus!
