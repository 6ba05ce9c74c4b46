//! The layout of persisted vectors: the elements of each vector one after
//! another, the vectors in the order of the internal ids. Every element
//! takes as many bytes as its type is wide, so that the vector of a point is
//! found at its internal id times the dimension times that width.

use crate::element::Element;
use crate::graph_stream::{has_at, lemma_has_at_join, lemma_has_at_split};
use crate::words::bytes_words;
use vstd::prelude::*;

verus! {

/// The first word of a data stream.
pub const DATA_MAGIC: u64 = 0x4154_4144_5757_534E;

/// The number of bytes of the header of a data stream.
pub const DATA_HEADER_BYTES: usize = 32;

/// The vectors that `points` holds.
pub open spec fn points_view<T>(points: Vec<Vec<T>>) -> Seq<Seq<T>> {
    Seq::new(points@.len(), |a: int| points@[a]@)
}

/// The header of a data stream that holds `n` vectors of `dim` elements.
pub open spec fn data_head<T: Element>(n: u64, dim: u64) -> Seq<u64> {
    seq![DATA_MAGIC, n, dim, T::kind()]
}

/// The number of bytes of a vector of `dim` elements.
pub open spec fn row<T: Element>(dim: int) -> int {
    dim * T::width()
}

/// The bytes of one vector.
pub open spec fn enc_vec<T: Element>(v: Seq<T>) -> Seq<u8>
    decreases v.len(),
{
    if v.len() == 0 {
        Seq::empty()
    } else {
        enc_vec(v.drop_last()) + v.last().bytes()
    }
}

/// The bytes of all vectors.
pub open spec fn enc_points<T: Element>(ps: Seq<Seq<T>>) -> Seq<u8>
    decreases ps.len(),
{
    if ps.len() == 0 {
        Seq::empty()
    } else {
        enc_points(ps.drop_last()) + enc_vec(ps.last())
    }
}

/// The vector of `k` elements that stands at position `p`, and the position
/// behind it.
pub open spec fn dec_vec<T: Element>(d: Seq<u8>, p: int, k: nat) -> Option<(Seq<T>, int)>
    decreases k,
{
    if k == 0 {
        Some((Seq::empty(), p))
    } else {
        match dec_vec::<T>(d, p, (k - 1) as nat) {
            None => None,
            Some((v, p1)) => if 0 <= p1 && p1 + T::width() <= d.len() {
                Some((v.push(T::from_bytes(d.subrange(p1, p1 + T::width()))), p1 + T::width()))
            } else {
                None
            },
        }
    }
}

/// The `n` vectors of `dim` elements that stand from position `p` on, and
/// the position behind them.
pub open spec fn dec_points<T: Element>(d: Seq<u8>, p: int, n: nat, dim: nat) -> Option<
    (Seq<Seq<T>>, int),
>
    decreases n,
{
    if n == 0 {
        Some((Seq::empty(), p))
    } else {
        match dec_points::<T>(d, p, (n - 1) as nat, dim) {
            None => None,
            Some((ps, p1)) => match dec_vec::<T>(d, p1, dim) {
                None => None,
                Some((v, p2)) => Some((ps.push(v), p2)),
            },
        }
    }
}

/// The vectors that a data stream holds, if it is the data stream of `n`
/// vectors of `dim` elements of type `T` and holds nothing behind them.
pub open spec fn decode_data<T: Element>(d: Seq<u8>, n: u64, dim: u64) -> Option<Seq<Seq<T>>> {
    if d.len() < DATA_HEADER_BYTES {
        None
    } else if bytes_words(d.subrange(0, DATA_HEADER_BYTES as int)) != Some(data_head::<T>(n, dim)) {
        None
    } else {
        match dec_points::<T>(d, DATA_HEADER_BYTES as int, n as nat, dim as nat) {
            None => None,
            Some((ps, p)) => if p == d.len() {
                Some(ps)
            } else {
                None
            },
        }
    }
}

/// The vector that stands in a data stream at the place of the point with
/// internal id `a`.
pub open spec fn vec_at<T: Element>(d: Seq<u8>, dim: nat, a: int) -> Seq<T> {
    dec_vec::<T>(d, DATA_HEADER_BYTES + a * row::<T>(dim as int), dim).unwrap().0
}

/// A vector of `k` elements is read at position `p` exactly where the
/// stream has `k` times the width of an element from there on.
pub proof fn lemma_dec_vec_iff<T: Element>(d: Seq<u8>, p: int, k: nat)
    requires
        0 <= p <= d.len(),
    ensures
        dec_vec::<T>(d, p, k).is_some() <==> p + k * T::width() <= d.len(),
        dec_vec::<T>(d, p, k).is_some() ==> dec_vec::<T>(d, p, k).unwrap().1 == p + k * T::width(),
    decreases k,
{
    T::lemma_width();
    let w = T::width() as int;
    if k > 0 {
        lemma_dec_vec_iff::<T>(d, p, (k - 1) as nat);
        assert((k - 1) * w + w == k * w) by (nonlinear_arith);
        assert((k - 1) * w >= 0) by (nonlinear_arith)
            requires
                k >= 1,
                w >= 1,
        ;
    } else {
        assert(k * w == 0) by (nonlinear_arith)
            requires
                k == 0,
        ;
    }
}

/// `n` vectors of `dim` elements are read at position `p` exactly where the
/// stream has `n` rows from there on.
pub proof fn lemma_dec_points_iff<T: Element>(d: Seq<u8>, p: int, n: nat, dim: nat)
    requires
        0 <= p <= d.len(),
    ensures
        dec_points::<T>(d, p, n, dim).is_some() <==> p + n * row::<T>(dim as int) <= d.len(),
        dec_points::<T>(d, p, n, dim).is_some() ==> dec_points::<T>(d, p, n, dim).unwrap().1 == p
            + n * row::<T>(dim as int),
    decreases n,
{
    T::lemma_width();
    let r = row::<T>(dim as int);
    assert(r >= 0) by (nonlinear_arith)
        requires
            r == dim * T::width(),
            T::width() >= 1,
    ;
    if n > 0 {
        lemma_dec_points_iff::<T>(d, p, (n - 1) as nat, dim);
        assert((n - 1) * r + r == n * r) by (nonlinear_arith);
        assert((n - 1) * r >= 0) by (nonlinear_arith)
            requires
                n >= 1,
                r >= 0,
        ;
        if dec_points::<T>(d, p, (n - 1) as nat, dim).is_some() {
            let p1 = dec_points::<T>(d, p, (n - 1) as nat, dim).unwrap().1;
            lemma_dec_vec_iff::<T>(d, p1, dim);
        }
    } else {
        assert(n * r == 0) by (nonlinear_arith)
            requires
                n == 0,
        ;
    }
}

/// Where `n` vectors are read from position `p` on, the vector number `a`
/// is the one that is read at `a` rows behind `p`.
pub proof fn lemma_point_at<T: Element>(d: Seq<u8>, p: int, n: nat, dim: nat, a: int)
    requires
        0 <= p <= d.len(),
        dec_points::<T>(d, p, n, dim).is_some(),
        0 <= a < n,
    ensures
        p + (a + 1) * row::<T>(dim as int) <= d.len(),
        0 <= a * row::<T>(dim as int),
        dec_vec::<T>(d, p + a * row::<T>(dim as int), dim).is_some(),
        dec_vec::<T>(d, p + a * row::<T>(dim as int), dim).unwrap().0 == dec_points::<T>(
            d,
            p,
            n,
            dim,
        ).unwrap().0[a],
    decreases n,
{
    T::lemma_width();
    let r = row::<T>(dim as int);
    assert(r >= 0) by (nonlinear_arith)
        requires
            r == dim * T::width(),
            T::width() >= 1,
    ;
    assert(a * r >= 0) by (nonlinear_arith)
        requires
            a >= 0,
            r >= 0,
    ;
    assert((a + 1) * r == a * r + r) by (nonlinear_arith);
    lemma_dec_points_iff::<T>(d, p, (n - 1) as nat, dim);
    lemma_dec_points_end::<T>(d, p, (n - 1) as nat, dim);
    let (ps, p1) = dec_points::<T>(d, p, (n - 1) as nat, dim).unwrap();
    lemma_dec_vec_iff::<T>(d, p1, dim);
    let (v, p2) = dec_vec::<T>(d, p1, dim).unwrap();
    let all = dec_points::<T>(d, p, n, dim).unwrap().0;
    assert(all == ps.push(v));
    if a < n - 1 {
        lemma_point_at::<T>(d, p, (n - 1) as nat, dim, a);
        assert(all[a] == ps[a]);
    } else {
        assert(p + a * r == p1);
        assert(all[a] == v);
    }
}

/// Where a vector cannot be read, a longer one cannot either.
pub proof fn lemma_dec_vec_none<T: Element>(d: Seq<u8>, p: int, i: nat, k: nat)
    requires
        i <= k,
        dec_vec::<T>(d, p, i).is_none(),
    ensures
        dec_vec::<T>(d, p, k).is_none(),
    decreases k - i,
{
    if i < k {
        lemma_dec_vec_none::<T>(d, p, i, (k - 1) as nat);
    }
}

/// Where vectors cannot be read, more of them cannot either.
pub proof fn lemma_dec_points_none<T: Element>(d: Seq<u8>, p: int, i: nat, n: nat, dim: nat)
    requires
        i <= n,
        dec_points::<T>(d, p, i, dim).is_none(),
    ensures
        dec_points::<T>(d, p, n, dim).is_none(),
    decreases n - i,
{
    if i < n {
        lemma_dec_points_none::<T>(d, p, i, (n - 1) as nat, dim);
    }
}

/// Where a vector is read, it has `k` elements and ends within the stream.
pub proof fn lemma_dec_vec_end<T: Element>(d: Seq<u8>, p: int, k: nat)
    requires
        0 <= p <= d.len(),
        dec_vec::<T>(d, p, k).is_some(),
    ensures
        dec_vec::<T>(d, p, k).unwrap().0.len() == k,
        p <= dec_vec::<T>(d, p, k).unwrap().1 <= d.len(),
    decreases k,
{
    if k > 0 {
        lemma_dec_vec_end::<T>(d, p, (k - 1) as nat);
    }
}

/// Where vectors are read, there are `n` of them, each of `dim` elements,
/// and they end within the stream.
pub proof fn lemma_dec_points_end<T: Element>(d: Seq<u8>, p: int, n: nat, dim: nat)
    requires
        0 <= p <= d.len(),
        dec_points::<T>(d, p, n, dim).is_some(),
    ensures
        dec_points::<T>(d, p, n, dim).unwrap().0.len() == n,
        forall|a: int| 0 <= a < n ==> (#[trigger] dec_points::<T>(d, p, n, dim).unwrap().0[a]).len()
            == dim,
        p <= dec_points::<T>(d, p, n, dim).unwrap().1 <= d.len(),
    decreases n,
{
    if n > 0 {
        lemma_dec_points_end::<T>(d, p, (n - 1) as nat, dim);
        let (ps, p1) = dec_points::<T>(d, p, (n - 1) as nat, dim).unwrap();
        lemma_dec_vec_end::<T>(d, p1, dim);
        let (v, p2) = dec_vec::<T>(d, p1, dim).unwrap();
        let all = ps.push(v);
        assert forall|a: int| 0 <= a < n implies (#[trigger] all[a]).len() == dim by {
            if a < n - 1 {
                assert(all[a] == ps[a]);
            }
        }
    }
}

/// A vector is read back from its bytes.
pub proof fn lemma_vec_round_trip<T: Element>(d: Seq<u8>, p: int, v: Seq<T>)
    requires
        has_at(d, p, enc_vec(v)),
    ensures
        dec_vec::<T>(d, p, v.len()) == Some((v, p + enc_vec(v).len())),
    decreases v.len(),
{
    if v.len() > 0 {
        let front = v.drop_last();
        let x = v.last();
        lemma_has_at_split(d, p, enc_vec(front), x.bytes());
        lemma_vec_round_trip::<T>(d, p, front);
        T::lemma_round_trip(x);
        let p1 = p + enc_vec(front).len();
        assert(d.subrange(p1, p1 + T::width()) =~= x.bytes()) by {
            assert forall|i: int| 0 <= i < T::width() implies d[p1 + i] == x.bytes()[i] by {
                assert(d[p1 + i] == x.bytes()[i]);
            }
        }
        assert(front.push(x) =~= v);
    }
}

/// All vectors are read back from their bytes.
pub proof fn lemma_points_round_trip<T: Element>(d: Seq<u8>, p: int, ps: Seq<Seq<T>>, dim: nat)
    requires
        has_at(d, p, enc_points(ps)),
        forall|a: int| 0 <= a < ps.len() ==> (#[trigger] ps[a]).len() == dim,
    ensures
        dec_points::<T>(d, p, ps.len(), dim) == Some((ps, p + enc_points(ps).len())),
    decreases ps.len(),
{
    if ps.len() > 0 {
        let front = ps.drop_last();
        let v = ps.last();
        lemma_has_at_split(d, p, enc_points(front), enc_vec(v));
        assert forall|a: int| 0 <= a < front.len() implies (#[trigger] front[a]).len() == dim by {
            assert(front[a] == ps[a]);
        }
        lemma_points_round_trip::<T>(d, p, front, dim);
        lemma_vec_round_trip::<T>(d, p + enc_points(front).len(), v);
        assert(front.push(v) =~= ps);
    }
}

/// A vector that is read stands in the stream as its bytes.
pub proof fn lemma_vec_back<T: Element>(d: Seq<u8>, p: int, k: nat)
    requires
        0 <= p <= d.len(),
        dec_vec::<T>(d, p, k).is_some(),
    ensures
        has_at(d, p, enc_vec(dec_vec::<T>(d, p, k).unwrap().0)),
        dec_vec::<T>(d, p, k).unwrap().1 == p + enc_vec(dec_vec::<T>(d, p, k).unwrap().0).len(),
    decreases k,
{
    if k > 0 {
        lemma_vec_back::<T>(d, p, (k - 1) as nat);
        lemma_dec_vec_end::<T>(d, p, (k - 1) as nat);
        let (front, p1) = dec_vec::<T>(d, p, (k - 1) as nat).unwrap();
        let s = d.subrange(p1, p1 + T::width());
        let x = T::from_bytes(s);
        T::lemma_from_bytes(s);
        let v = front.push(x);
        assert(v.drop_last() =~= front);
        assert(has_at(d, p1, x.bytes())) by {
            assert forall|i: int| 0 <= i < x.bytes().len() implies d[p1 + i]
                == #[trigger] x.bytes()[i] by {
                assert(s[i] == d[p1 + i]);
            }
        }
        lemma_has_at_join(d, p, enc_vec(front), x.bytes());
    }
}

/// The vectors that are read stand in the stream as their bytes.
pub proof fn lemma_points_back<T: Element>(d: Seq<u8>, p: int, n: nat, dim: nat)
    requires
        0 <= p <= d.len(),
        dec_points::<T>(d, p, n, dim).is_some(),
    ensures
        has_at(d, p, enc_points(dec_points::<T>(d, p, n, dim).unwrap().0)),
        dec_points::<T>(d, p, n, dim).unwrap().1 == p + enc_points(
            dec_points::<T>(d, p, n, dim).unwrap().0,
        ).len(),
    decreases n,
{
    if n > 0 {
        lemma_points_back::<T>(d, p, (n - 1) as nat, dim);
        lemma_dec_points_end::<T>(d, p, (n - 1) as nat, dim);
        let (front, p1) = dec_points::<T>(d, p, (n - 1) as nat, dim).unwrap();
        lemma_vec_back::<T>(d, p1, dim);
        let v = dec_vec::<T>(d, p1, dim).unwrap().0;
        let ps = front.push(v);
        assert(ps.drop_last() =~= front);
        lemma_has_at_join(d, p, enc_points(front), enc_vec(v));
    }
}

/// Appends the bytes of one vector to `out`.
pub fn write_vec<T: Element>(v: &Vec<T>, out: &mut Vec<u8>)
    ensures
        final(out)@ == old(out)@ + enc_vec(v@),
{
    let mut i: usize = 0;
    assert(v@.subrange(0, 0) =~= Seq::<T>::empty());
    assert(out@ =~= old(out)@ + enc_vec(v@.subrange(0, 0)));
    while i < v.len()
        invariant
            0 <= i <= v@.len(),
            out@ == old(out)@ + enc_vec(v@.subrange(0, i as int)),
        decreases v@.len() - i,
    {
        let ghost before = out@;
        v[i].put(out);
        proof {
            let next = v@.subrange(0, i + 1);
            assert(next.drop_last() =~= v@.subrange(0, i as int));
            assert(next.last() == v@[i as int]);
            assert(out@ =~= old(out)@ + enc_vec(next));
        }
        i += 1;
    }
    assert(v@.subrange(0, v@.len() as int) =~= v@);
}

/// Reads the vector of `k` elements that stands at position `p` of a stream
/// that is long enough.
pub fn read_vec_exact<T: Element>(d: &[u8], p: usize, k: usize) -> (v: Vec<T>)
    requires
        p + k * T::width() <= d@.len(),
    ensures
        dec_vec::<T>(d@, p as int, k as nat) == Some((v@, p + k * T::width())),
        v@.len() == k,
{
    let width: usize = T::elem_width();
    let total: usize = d.len();
    let mut v: Vec<T> = Vec::new();
    let mut at: usize = p;
    let mut i: usize = 0;
    proof {
        assert(0 * T::width() == 0) by (nonlinear_arith);
    }
    while i < k
        invariant
            0 <= i <= k,
            width == T::width(),
            total == d@.len(),
            p + k * T::width() <= d@.len(),
            at == p + i * T::width(),
            v@.len() == i,
            dec_vec::<T>(d@, p as int, i as nat) == Some((v@, at as int)),
        decreases k - i,
    {
        proof {
            assert((i + 1) * T::width() == i * T::width() + T::width()) by (nonlinear_arith);
            assert((i + 1) * T::width() <= k * T::width()) by (nonlinear_arith)
                requires
                    i + 1 <= k,
                    T::width() >= 0,
            ;
        }
        v.push(T::get(d, at));
        at = at + width;
        i += 1;
    }
    v
}

/// Reads the vector that stands in a data stream at the place of the point
/// with internal id `a`, without reading what stands before it.
pub fn read_vec_at<T: Element>(d: &[u8], dim: usize, a: usize) -> (v: Vec<T>)
    requires
        DATA_HEADER_BYTES + (a + 1) * row::<T>(dim as int) <= d@.len(),
    ensures
        v@ == vec_at::<T>(d@, dim as nat, a as int),
        v@.len() == dim,
{
    let width: usize = T::elem_width();
    let total: usize = d.len();
    proof {
        T::lemma_width();
        let r = row::<T>(dim as int);
        assert(r >= 0 && dim <= r) by (nonlinear_arith)
            requires
                r == dim * T::width(),
                T::width() >= 1,
                dim >= 0,
        ;
        assert((a + 1) * r == a * r + r) by (nonlinear_arith);
        assert(a * r >= 0) by (nonlinear_arith)
            requires
                a >= 0,
                r >= 0,
        ;
    }
    let bytes: usize = dim * width;
    let at: usize = DATA_HEADER_BYTES + a * bytes;
    read_vec_exact::<T>(d, at, dim)
}

/// Reads the vector of `k` elements that stands at position `p`.
pub fn read_vec<T: Element>(d: &[u8], p: usize, k: usize) -> (r: Option<(Vec<T>, usize)>)
    requires
        p <= d@.len(),
    ensures
        match r {
            Some((v, q)) => dec_vec::<T>(d@, p as int, k as nat) == Some((v@, q as int)),
            None => dec_vec::<T>(d@, p as int, k as nat).is_none(),
        },
{
    let width: usize = T::elem_width();
    let mut v: Vec<T> = Vec::new();
    let mut at: usize = p;
    let mut i: usize = 0;
    while i < k
        invariant
            0 <= i <= k,
            width == T::width(),
            at <= d@.len(),
            dec_vec::<T>(d@, p as int, i as nat) == Some((v@, at as int)),
        decreases k - i,
    {
        if d.len() - at < width {
            proof {
                assert(dec_vec::<T>(d@, p as int, (i + 1) as nat).is_none());
                lemma_dec_vec_none::<T>(d@, p as int, (i + 1) as nat, k as nat);
            }
            return None;
        }
        v.push(T::get(d, at));
        at = at + width;
        i += 1;
    }
    Some((v, at))
}

/// Reads the `n` vectors of `dim` elements that stand from position `p` on.
pub fn read_points<T: Element>(d: &[u8], p: usize, n: usize, dim: usize) -> (r: Option<
    (Vec<Vec<T>>, usize),
>)
    requires
        p <= d@.len(),
    ensures
        match r {
            Some((ps, q)) => dec_points::<T>(d@, p as int, n as nat, dim as nat) == Some(
                (points_view(ps), q as int),
            ),
            None => dec_points::<T>(d@, p as int, n as nat, dim as nat).is_none(),
        },
{
    let mut ps: Vec<Vec<T>> = Vec::new();
    let mut at: usize = p;
    let mut i: usize = 0;
    assert(points_view(ps) =~= Seq::<Seq<T>>::empty());
    while i < n
        invariant
            0 <= i <= n,
            at <= d@.len(),
            dec_points::<T>(d@, p as int, i as nat, dim as nat) == Some(
                (points_view(ps), at as int),
            ),
        decreases n - i,
    {
        let ghost before = points_view(ps);
        match read_vec::<T>(d, at, dim) {
            None => {
                proof {
                    assert(dec_points::<T>(d@, p as int, (i + 1) as nat, dim as nat).is_none());
                    lemma_dec_points_none::<T>(d@, p as int, (i + 1) as nat, n as nat, dim as nat);
                }
                return None;
            },
            Some((v, q)) => {
                proof {
                    lemma_dec_vec_end::<T>(d@, at as int, dim as nat);
                }
                ps.push(v);
                at = q;
                assert(points_view(ps) =~= before.push(v@));
            },
        }
        i += 1;
    }
    Some((ps, at))
}

} // verus!
