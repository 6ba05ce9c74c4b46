//! The operations of an index as a capability: what a caller needs who holds
//! an index without knowing its kind.

use crate::dump::{Dump, DumpMode};
use crate::element::Element;
use crate::error::HnswError;
use crate::hnsw::Hnsw;
use crate::metric::Metric;
use crate::model::Model;
use crate::search::Neighbour;
use vstd::prelude::*;

verus! {

/// The vectors and caller's ids of a batch.
pub open spec fn batch_items<T>(data: Seq<(&Vec<T>, usize)>) -> Seq<(Seq<T>, usize)> {
    Seq::new(data.len(), |i: int| (data[i].0@, data[i].1))
}

impl<T> Model<T> {
    /// The index after the items of a batch have been inserted one after
    /// another, from position `i` on.
    pub open spec fn insert_all<D: Metric<T>>(self, items: Seq<(Seq<T>, usize)>, i: int) -> Model<T>
        decreases items.len() - i,
    {
        if 0 <= i < items.len() {
            self.insert_one::<D>(items[i].0, items[i].1).insert_all::<D>(items, i + 1)
        } else {
            self
        }
    }

    /// What the insertions of a batch return, from position `i` on.
    pub open spec fn batch_results<D: Metric<T>>(
        self,
        items: Seq<(Seq<T>, usize)>,
        i: int,
    ) -> Seq<Result<usize, HnswError>>
        decreases items.len() - i,
    {
        if 0 <= i < items.len() {
            seq![self.insert_result(items[i].0)] + self.insert_one::<D>(
                items[i].0,
                items[i].1,
            ).batch_results::<D>(items, i + 1)
        } else {
            Seq::empty()
        }
    }
}

/// How many of the first `n` results are an internal id.
pub open spec fn accepted(r: Seq<Result<usize, HnswError>>, n: int) -> int
    decreases n,
{
    if n <= 0 {
        0
    } else {
        accepted(r, n - 1) + if r[n - 1].is_ok() {
            1int
        } else {
            0int
        }
    }
}

/// Two sequences of results that agree on the first `n` have as many
/// internal ids among them.
pub proof fn lemma_accepted_agree(
    a: Seq<Result<usize, HnswError>>,
    b: Seq<Result<usize, HnswError>>,
    n: int,
)
    requires
        0 <= n <= a.len(),
        n <= b.len(),
        forall|j: int| 0 <= j < n ==> a[j] == b[j],
    ensures
        accepted(a, n) == accepted(b, n),
    decreases n,
{
    if n > 0 {
        lemma_accepted_agree(a, b, n - 1);
    }
}

impl<T> Model<T> {
    /// `after` has the parameters of `self` and every point of `self`, with
    /// its vector, its caller's id and its highest layer.
    pub open spec fn kept_in(self, after: Model<T>) -> bool {
        &&& after.params == self.params
        &&& self.points.len() <= after.points.len()
        &&& self.ext_ids.len() <= after.ext_ids.len()
        &&& self.links.len() <= after.links.len()
        &&& forall|a: int| 0 <= a < self.points.len() ==> #[trigger] after.points[a] == self.points[a]
        &&& forall|a: int|
            0 <= a < self.ext_ids.len() ==> #[trigger] after.ext_ids[a] == self.ext_ids[a]
        &&& forall|a: int|
            0 <= a < self.links.len() ==> (#[trigger] after.links[a]).len() == self.links[a].len()
    }

    /// `after` holds each item of a batch that was taken, at the internal id
    /// that was returned for it.
    pub open spec fn holds_batch(
        after: Model<T>,
        items: Seq<(Seq<T>, usize)>,
        r: Seq<Result<usize, HnswError>>,
        n: int,
    ) -> bool {
        forall|i: int|
            0 <= i < n && (#[trigger] r[i]).is_ok() ==> r[i].unwrap() < after.points.len()
                && r[i].unwrap() < after.ext_ids.len() && after.points[r[i].unwrap() as int]
                == items[i].0 && after.ext_ids[r[i].unwrap() as int] == items[i].1
    }
}

/// Insertion and search on an index of vectors of `Val`.
pub trait AnnT: Sized {
    /// The type of the elements of a vector.
    type Val;

    /// The index is well formed.
    spec fn valid(&self) -> bool;

    /// `after` and `r` are what inserting `data` under `id` makes of `self`
    /// and returns.
    spec fn insert_post(
        &self,
        after: &Self,
        data: Seq<Self::Val>,
        id: usize,
        r: Result<usize, HnswError>,
    ) -> bool;

    /// `r` is what the search for the `knbn` nearest neighbours of `data`
    /// with beam width `ef_s` returns.
    spec fn search_post(
        &self,
        data: Seq<Self::Val>,
        knbn: usize,
        ef_s: usize,
        r: Result<Vec<Neighbour>, HnswError>,
    ) -> bool;

    /// `after` and `r` are what inserting the items of a batch, each vector
    /// under its id, makes of `self` and returns.
    spec fn batch_post(
        &self,
        after: &Self,
        data: Seq<(Seq<Self::Val>, usize)>,
        r: Seq<Result<usize, HnswError>>,
    ) -> bool;

    /// `r` is the full dump of the index under the name asked for, where
    /// `same_file` says whether the data file of that name is the file in
    /// which vectors of the index lie, and `nonce` is the number for a name
    /// of its own.
    spec fn dump_post(
        &self,
        file_basename: Seq<char>,
        same_file: bool,
        nonce: u64,
        r: Dump,
    ) -> bool;

    /// Inserts one vector under the caller's id `id`.
    fn insert_data(&mut self, data: &[Self::Val], id: usize) -> (r: Result<usize, HnswError>)
        requires
            old(self).valid(),
        ensures
            final(self).valid(),
            old(self).insert_post(final(self), data@, id, r),
    ;

    /// Searches the `knbn` nearest neighbours of one vector.
    fn search_neighbours(&self, data: &[Self::Val], knbn: usize, ef_s: usize) -> (r: Result<
        Vec<Neighbour>,
        HnswError,
    >)
        requires
            self.valid(),
        ensures
            self.search_post(data@, knbn, ef_s, r),
    ;

    /// Inserts the vectors of a batch, each under its id. A vector that is
    /// refused does not keep the others from being inserted. The results
    /// stand in the order of the batch.
    fn parallel_insert_data(&mut self, data: &[(&Vec<Self::Val>, usize)]) -> (r: Vec<
        Result<usize, HnswError>,
    >)
        requires
            old(self).valid(),
        ensures
            final(self).valid(),
            r@.len() == data@.len(),
            old(self).batch_post(final(self), batch_items(data@), r@),
    ;

    /// Searches the `knbn` nearest neighbours of each vector of a batch. Each
    /// result is what `search_neighbours` returns for that vector, and the
    /// results stand in the order of the batch.
    fn parallel_search_neighbours(&self, data: &[Vec<Self::Val>], knbn: usize, ef_s: usize) -> (r:
        Vec<Result<Vec<Neighbour>, HnswError>>)
        requires
            self.valid(),
        ensures
            r@.len() == data@.len(),
            forall|i: int|
                0 <= i < data@.len() ==> self.search_post(data@[i]@, knbn, ef_s, #[trigger] r@[i]),
    ;

    /// Dumps the graph and the vectors, to be written as the files
    /// `<name>.hnsw.graph` and `<name>.hnsw.data`. The name is
    /// `file_basename`, unless the file `file_basename.hnsw.data` is the
    /// mapped data file in which vectors of this index lie (`same_file`):
    /// that file is not written over, and the dump gets the name
    /// `file_basename-nonce`. Any other file of the name is written over.
    /// The name used is returned with the streams.
    fn file_dump(&self, file_basename: &str, same_file: bool, nonce: u64) -> (r: Dump)
        requires
            self.valid(),
        ensures
            self.dump_post(file_basename@, same_file, nonce, r),
    ;
}

impl<'b, T: Element, D: Metric<T>> AnnT for Hnsw<'b, T, D> {
    type Val = T;

    open spec fn valid(&self) -> bool {
        self.wf()
    }

    open spec fn insert_post(
        &self,
        after: &Self,
        data: Seq<T>,
        id: usize,
        r: Result<usize, HnswError>,
    ) -> bool {
        &&& r == self@.insert_result(data)
        &&& after@ == self@.insert_one::<D>(data, id)
        &&& after.datamap() == self.datamap()
        &&& self@.kept_in(after@)
        &&& r.is_err() ==> after@ == self@
        &&& r.is_ok() ==> {
            &&& after@.len() == self@.len() + 1
            &&& after@.points == self@.points.push(data)
            &&& after@.ext_ids == self@.ext_ids.push(id)
            &&& after@.level(self@.len()) == self@.sampled_level()
        }
    }

    open spec fn batch_post(
        &self,
        after: &Self,
        data: Seq<(Seq<T>, usize)>,
        r: Seq<Result<usize, HnswError>>,
    ) -> bool {
        &&& r == self@.batch_results::<D>(data, 0)
        &&& after@ == self@.insert_all::<D>(data, 0)
        &&& after.datamap() == self.datamap()
        &&& self@.kept_in(after@)
        &&& after@.len() == self@.len() + accepted(r, r.len() as int)
        &&& Model::<T>::holds_batch(after@, data, r, r.len() as int)
    }

    open spec fn search_post(
        &self,
        data: Seq<T>,
        knbn: usize,
        ef_s: usize,
        r: Result<Vec<Neighbour>, HnswError>,
    ) -> bool {
        match r {
            Ok(v) => data.len() == self@.params.dim && v@ == self@.search::<D>(
                data,
                knbn as int,
                ef_s as int,
            ),
            Err(e) => data.len() != self@.params.dim && e == HnswError::DimensionMismatch,
        }
    }

    open spec fn dump_post(
        &self,
        file_basename: Seq<char>,
        same_file: bool,
        nonce: u64,
        r: Dump,
    ) -> bool {
        Hnsw::dump_post(self, DumpMode::Full, file_basename, same_file, nonce, r)
    }

    fn insert_data(&mut self, data: &[T], id: usize) -> (r: Result<usize, HnswError>) {
        let r = self.insert(data, id);
        proof {
            let m0 = old(self)@;
            let m1 = self@;
            assert(m0.points.len() == m0.links.len());
            assert(m0.ext_ids.len() == m0.links.len());
            if r.is_ok() {
                assert(m1.points.len() == m1.links.len());
                assert(m1.ext_ids.len() == m1.links.len());
                assert forall|a: int| 0 <= a < m0.links.len() implies (#[trigger] m1.links[a]).len()
                    == m0.links[a].len() by {
                    assert(m1.level(a) == m0.level(a));
                }
                assert forall|a: int| 0 <= a < m0.points.len() implies #[trigger] m1.points[a]
                    == m0.points[a] by {}
                assert forall|a: int| 0 <= a < m0.ext_ids.len() implies #[trigger] m1.ext_ids[a]
                    == m0.ext_ids[a] by {}
            }
            assert(m0.kept_in(m1));
        }
        r
    }

    fn file_dump(&self, file_basename: &str, same_file: bool, nonce: u64) -> (r: Dump) {
        self.dump(DumpMode::Full, file_basename, same_file, nonce)
    }

    fn search_neighbours(&self, data: &[T], knbn: usize, ef_s: usize) -> (r: Result<
        Vec<Neighbour>,
        HnswError,
    >) {
        self.search(data, knbn, ef_s)
    }

    fn parallel_insert_data(&mut self, data: &[(&Vec<T>, usize)]) -> (r: Vec<
        Result<usize, HnswError>,
    >) {
        let ghost items = batch_items(data@);
        let ghost m0 = self@;
        let mut out: Vec<Result<usize, HnswError>> = Vec::new();
        let mut i: usize = 0;
        while i < data.len()
            invariant
                0 <= i <= data@.len(),
                items == batch_items(data@),
                m0 == old(self)@,
                self.wf(),
                self.datamap() == old(self).datamap(),
                out@.len() == i,
                self@.insert_all::<D>(items, i as int) == m0.insert_all::<D>(items, 0),
                out@ + self@.batch_results::<D>(items, i as int) == m0.batch_results::<D>(items, 0),
                m0.kept_in(self@),
                self@.len() == m0.len() + accepted(out@, i as int),
                Model::<T>::holds_batch(self@, items, out@, i as int),
            decreases data@.len() - i,
        {
            let ghost before = self@;
            let ghost done = out@;
            let r = self.insert(data[i].0.as_slice(), data[i].1);
            out.push(r);
            proof {
                let now = self@;
                assert(items[i as int] == (data@[i as int].0@, data@[i as int].1));
                let rest = now.batch_results::<D>(items, i + 1);
                assert(before.batch_results::<D>(items, i as int) == seq![r] + rest);
                assert(out@ + rest =~= done + (seq![r] + rest));
                lemma_accepted_agree(done, out@, i as int);
                assert(before.points.len() == before.links.len());
                assert(before.ext_ids.len() == before.links.len());
                assert(m0.kept_in(now)) by {
                    if r.is_ok() {
                        assert forall|a: int| 0 <= a < m0.points.len() implies #[trigger] now.points[a]
                            == m0.points[a] by {
                            assert(before.points[a] == m0.points[a]);
                        }
                        assert forall|a: int| 0 <= a < m0.ext_ids.len() implies #[trigger] now.ext_ids[a]
                            == m0.ext_ids[a] by {
                            assert(before.ext_ids[a] == m0.ext_ids[a]);
                        }
                        assert forall|a: int| 0 <= a < m0.links.len() implies (
                        #[trigger] now.links[a]).len() == m0.links[a].len() by {
                            assert(before.links[a].len() == m0.links[a].len());
                            assert(now.level(a) == before.level(a));
                        }
                    }
                }
                assert forall|j: int| 0 <= j < i + 1 && (#[trigger] out@[j]).is_ok() implies out@[j].unwrap()
                    < now.points.len() && out@[j].unwrap() < now.ext_ids.len()
                    && now.points[out@[j].unwrap() as int] == items[j].0
                    && now.ext_ids[out@[j].unwrap() as int] == items[j].1 by {
                    if j < i {
                        assert(out@[j] == done[j]);
                        assert(done[j].unwrap() < before.points.len());
                    }
                }
            }
            i += 1;
        }
        assert(out@ + Seq::<Result<usize, HnswError>>::empty() =~= out@);
        out
    }

    fn parallel_search_neighbours(&self, data: &[Vec<T>], knbn: usize, ef_s: usize) -> (r: Vec<
        Result<Vec<Neighbour>, HnswError>,
    >) {
        let mut out: Vec<Result<Vec<Neighbour>, HnswError>> = Vec::new();
        let mut i: usize = 0;
        while i < data.len()
            invariant
                0 <= i <= data@.len(),
                self.wf(),
                out@.len() == i,
                forall|j: int|
                    0 <= j < i ==> self.search_post(data@[j]@, knbn, ef_s, #[trigger] out@[j]),
            decreases data@.len() - i,
        {
            let r = self.search(data[i].as_slice(), knbn, ef_s);
            out.push(r);
            i += 1;
        }
        out
    }
}

} // verus!
