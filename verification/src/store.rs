//! The point store: the vectors of the points, by internal id.
//!
//! The store grows at its end and never changes a vector it holds. Its
//! first vectors may lie in a data stream that the store does not own, such
//! as a mapped file; each of them is read at its place in the stream when it
//! is asked for, and the stream is never read as a whole. The vectors that
//! follow are held in memory.

use crate::data_stream::{
    data_head, decode_data, lemma_dec_points_end, lemma_dec_points_iff, lemma_point_at,
    points_view, read_vec_at, row, vec_at, DATA_HEADER_BYTES, DATA_MAGIC,
};
use crate::element::Element;
use crate::metric::Metric;
use crate::words::from_bytes;
use vstd::prelude::*;
use vstd::slice::{slice_subrange, slice_to_vec};

verus! {

pub struct PointStore<'b, T> {
    /// The data stream in which the first vectors lie, if any do.
    pub stream: Option<&'b [u8]>,
    /// Number of vectors that lie in the stream.
    pub mapped: usize,
    /// Length of every vector.
    pub dim: usize,
    /// The vectors held in memory: those of the points from `mapped` on.
    pub points: Vec<Vec<T>>,
}

/// The vector of point `a`, where the first `mapped` vectors lie in `stream`
/// and the others are `points`.
pub open spec fn stored_at<T: Element>(
    stream: Option<&[u8]>,
    mapped: usize,
    dim: usize,
    points: Vec<Vec<T>>,
    a: int,
) -> Seq<T> {
    if a < mapped {
        vec_at::<T>(stream.unwrap()@, dim as nat, a)
    } else {
        points@[a - mapped]@
    }
}

/// The vectors of which the first `mapped` lie in `stream` and the others
/// are `points`.
pub open spec fn stored<T: Element>(
    stream: Option<&[u8]>,
    mapped: usize,
    dim: usize,
    points: Vec<Vec<T>>,
) -> Seq<Seq<T>> {
    Seq::new((mapped + points@.len()) as nat, |a: int| stored_at(stream, mapped, dim, points, a))
}

impl<'b, T: Element> PointStore<'b, T> {
    /// The vectors of the store, by internal id.
    pub open spec fn view(&self) -> Seq<Seq<T>> {
        stored(self.stream, self.mapped, self.dim, self.points)
    }

    /// The stream, where there is one, is the data stream of `mapped`
    /// vectors; every vector in memory has the length `dim`; and the
    /// internal ids can be held.
    pub open spec fn wf(&self) -> bool {
        &&& match self.stream {
            None => self.mapped == 0,
            Some(d) => decode_data::<T>(d@, self.mapped as u64, self.dim as u64).is_some(),
        }
        &&& self.mapped + self.points@.len() <= usize::MAX
        &&& forall|i: int|
            0 <= i < self.points@.len() ==> (#[trigger] self.points@[i])@.len() == self.dim
    }

    /// Whether vectors lie in a data stream.
    pub open spec fn is_mapped(&self) -> bool {
        self.stream.is_some()
    }

    /// A vector that lies in the stream is the one that reading the whole
    /// stream gives for its point.
    pub proof fn lemma_mapped(&self, a: int)
        requires
            self.wf(),
            0 <= a < self.mapped,
        ensures
            self.stream.is_some(),
            DATA_HEADER_BYTES + (a + 1) * row::<T>(self.dim as int) <= self.stream.unwrap()@.len(),
            self@[a] == decode_data::<T>(
                self.stream.unwrap()@,
                self.mapped as u64,
                self.dim as u64,
            ).unwrap()[a],
            self@[a].len() == self.dim,
    {
        let d = self.stream.unwrap()@;
        lemma_point_at::<T>(d, DATA_HEADER_BYTES as int, self.mapped as nat, self.dim as nat, a);
        lemma_dec_points_end::<T>(d, DATA_HEADER_BYTES as int, self.mapped as nat, self.dim as nat);
    }

    /// Every vector has the length `dim`.
    pub proof fn lemma_lens(&self)
        requires
            self.wf(),
        ensures
            forall|a: int| 0 <= a < self@.len() ==> (#[trigger] self@[a]).len() == self.dim,
    {
        assert forall|a: int| 0 <= a < self@.len() implies (#[trigger] self@[a]).len()
            == self.dim by {
            if a < self.mapped {
                self.lemma_mapped(a);
            } else {
                assert(self.points@[a - self.mapped]@.len() == self.dim);
            }
        }
    }

    /// A store without vectors.
    pub fn new(dim: usize) -> (r: Self)
        ensures
            r.wf(),
            r@ == Seq::<Seq<T>>::empty(),
            !r.is_mapped(),
            r.dim == dim,
    {
        let r = PointStore { stream: None, mapped: 0, dim, points: Vec::new() };
        assert(r@ =~= Seq::<Seq<T>>::empty());
        r
    }

    /// A store that holds the vectors `points` in memory.
    pub fn resident(dim: usize, points: Vec<Vec<T>>) -> (r: Self)
        requires
            forall|i: int| 0 <= i < points@.len() ==> (#[trigger] points@[i])@.len() == dim,
        ensures
            r.wf(),
            r@ == points_view(points),
            !r.is_mapped(),
            r.dim == dim,
    {
        let ghost want = points_view(points);
        assert(points@.len() == points.len());
        let r = PointStore { stream: None, mapped: 0, dim, points };
        assert(r@ =~= want);
        r
    }

    /// A store over the data stream `data` of `n` vectors of `dim` elements.
    /// Only the header and the length of the stream are looked at: the
    /// stream is the data stream of `n` such vectors exactly if it starts
    /// with their header and has the length of the header and `n` rows.
    pub fn open(data: &'b [u8], n: usize, dim: usize) -> (r: Option<Self>)
        ensures
            match r {
                Some(s) => decode_data::<T>(data@, n as u64, dim as u64) == Some(s@) && s.wf()
                    && s.stream == Some(data) && s.mapped == n && s.dim == dim && s.points@.len()
                    == 0,
                None => decode_data::<T>(data@, n as u64, dim as u64).is_none(),
            },
    {
        if data.len() < DATA_HEADER_BYTES {
            return None;
        }
        let head = match from_bytes(slice_subrange(data, 0, DATA_HEADER_BYTES)) {
            None => {
                return None;
            },
            Some(h) => h,
        };
        if head.len() != 4 || head[0] != DATA_MAGIC || head[1] != n as u64 || head[2] != dim as u64
            || head[3] != T::elem_kind() {
            assert(head@ != data_head::<T>(n as u64, dim as u64));
            return None;
        }
        assert(head@ =~= data_head::<T>(n as u64, dim as u64));
        let width: usize = T::elem_width();
        let ghost r = row::<T>(dim as int);
        proof {
            T::lemma_width();
            lemma_dec_points_iff::<T>(data@, DATA_HEADER_BYTES as int, n as nat, dim as nat);
            assert(r >= 0) by (nonlinear_arith)
                requires
                    r == dim * T::width(),
                    T::width() >= 1,
                    dim >= 0,
            ;
            assert(n >= 1 ==> n * r >= r) by (nonlinear_arith)
                requires
                    r >= 0,
            ;
            assert(n == 0 ==> n * r == 0) by (nonlinear_arith);
        }
        let total: usize = if n == 0 {
            DATA_HEADER_BYTES
        } else {
            let bytes = match dim.checked_mul(width) {
                None => {
                    return None;
                },
                Some(b) => b,
            };
            let body = match n.checked_mul(bytes) {
                None => {
                    return None;
                },
                Some(b) => b,
            };
            match body.checked_add(DATA_HEADER_BYTES) {
                None => {
                    return None;
                },
                Some(t) => t,
            }
        };
        if total != data.len() {
            return None;
        }
        let s = PointStore { stream: Some(data), mapped: n, dim, points: Vec::new() };
        proof {
            lemma_dec_points_end::<T>(data@, DATA_HEADER_BYTES as int, n as nat, dim as nat);
            let ps = decode_data::<T>(data@, n as u64, dim as u64).unwrap();
            assert forall|a: int| 0 <= a < n implies s@[a] == ps[a] by {
                lemma_point_at::<T>(data@, DATA_HEADER_BYTES as int, n as nat, dim as nat, a);
            }
            assert(s@ =~= ps);
        }
        Some(s)
    }

    /// Number of vectors.
    pub fn len(&self) -> (n: usize)
        requires
            self.wf(),
        ensures
            n == self@.len(),
    {
        self.mapped + self.points.len()
    }

    /// Appends the vector `v`.
    pub fn push(&mut self, v: Vec<T>)
        requires
            old(self).wf(),
            v@.len() == old(self).dim,
            old(self)@.len() < usize::MAX,
        ensures
            final(self).wf(),
            final(self)@ == old(self)@.push(v@),
            final(self).stream == old(self).stream,
            final(self).mapped == old(self).mapped,
            final(self).dim == old(self).dim,
    {
        self.points.push(v);
        assert(self@ =~= old(self)@.push(v@));
    }

    /// A copy of the vector of point `a`.
    pub fn vector(&self, a: usize) -> (v: Vec<T>)
        requires
            self.wf(),
            a < self@.len(),
        ensures
            v@ == self@[a as int],
            v@.len() == self.dim,
    {
        if a < self.mapped {
            proof {
                self.lemma_mapped(a as int);
            }
            read_vec_at::<T>(self.stream.unwrap(), self.dim, a)
        } else {
            slice_to_vec(self.points[a - self.mapped].as_slice())
        }
    }

    /// The distance from `q` to the vector of point `b`.
    pub fn eval_to<D: Metric<T>>(&self, metric: &D, q: &[T], b: usize) -> (d: u32)
        requires
            self.wf(),
            b < self@.len(),
            q@.len() == self.dim,
        ensures
            d == D::dist(q@, self@[b as int]),
    {
        if b < self.mapped {
            let v = self.vector(b);
            metric.eval(q, v.as_slice())
        } else {
            metric.eval(q, self.points[b - self.mapped].as_slice())
        }
    }

    /// The distance from the vector of point `a` to the vector of point `b`.
    pub fn eval_between<D: Metric<T>>(&self, metric: &D, a: usize, b: usize) -> (d: u32)
        requires
            self.wf(),
            a < self@.len(),
            b < self@.len(),
        ensures
            d == D::dist(self@[a as int], self@[b as int]),
    {
        if a < self.mapped {
            let v = self.vector(a);
            self.eval_to(metric, v.as_slice(), b)
        } else {
            self.eval_to(metric, self.points[a - self.mapped].as_slice(), b)
        }
    }
}

} // verus!
