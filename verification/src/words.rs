//! Streams of 64-bit words in little-endian order.

use vstd::bytes::{
    lemma_auto_spec_u64_to_from_le_bytes, spec_u64_from_le_bytes, spec_u64_to_le_bytes,
    u64_from_le_bytes, u64_to_le_bytes,
};
use vstd::prelude::*;
use vstd::slice::slice_subrange;

verus! {

/// The bytes of a sequence of words.
pub open spec fn words_bytes(w: Seq<u64>) -> Seq<u8>
    decreases w.len(),
{
    if w.len() == 0 {
        Seq::empty()
    } else {
        words_bytes(w.drop_last()) + spec_u64_to_le_bytes(w.last())
    }
}

/// The word that stands at position `i` of a stream of bytes.
pub open spec fn word_at(b: Seq<u8>, i: int) -> u64 {
    spec_u64_from_le_bytes(b.subrange(8 * i, 8 * i + 8))
}

/// The words that a stream of bytes holds, if it holds whole words.
pub open spec fn bytes_words(b: Seq<u8>) -> Option<Seq<u64>> {
    if b.len() % 8 != 0 {
        None
    } else {
        Some(Seq::new(b.len() / 8, |i: int| word_at(b, i)))
    }
}

/// A word takes eight bytes.
pub proof fn lemma_words_bytes_len(w: Seq<u64>)
    ensures
        words_bytes(w).len() == 8 * w.len(),
    decreases w.len(),
{
    lemma_auto_spec_u64_to_from_le_bytes();
    if w.len() > 0 {
        lemma_words_bytes_len(w.drop_last());
    }
}

/// The word at position `i` of the bytes of `w` is `w[i]`.
pub proof fn lemma_word_at(w: Seq<u64>, i: int)
    requires
        0 <= i < w.len(),
    ensures
        word_at(words_bytes(w), i) == w[i],
    decreases w.len(),
{
    lemma_auto_spec_u64_to_from_le_bytes();
    lemma_words_bytes_len(w);
    lemma_words_bytes_len(w.drop_last());
    let front = words_bytes(w.drop_last());
    let back = spec_u64_to_le_bytes(w.last());
    if i == w.len() - 1 {
        assert(words_bytes(w).subrange(8 * i, 8 * i + 8) =~= back);
    } else {
        lemma_word_at(w.drop_last(), i);
        assert(words_bytes(w).subrange(8 * i, 8 * i + 8) =~= front.subrange(8 * i, 8 * i + 8));
    }
}

/// The words of a stream are read back from its bytes.
pub proof fn lemma_words_round_trip(w: Seq<u64>)
    ensures
        bytes_words(words_bytes(w)) == Some(w),
{
    lemma_words_bytes_len(w);
    let b = words_bytes(w);
    assert(b.len() / 8 == w.len());
    assert forall|i: int| 0 <= i < w.len() implies word_at(b, i) == w[i] by {
        lemma_word_at(w, i);
    }
    assert(Seq::new(b.len() / 8, |i: int| word_at(b, i)) =~= w);
}

/// A stream of whole words is the bytes of the words that it holds.
pub proof fn lemma_bytes_round_trip(b: Seq<u8>)
    requires
        b.len() % 8 == 0,
    ensures
        words_bytes(bytes_words(b).unwrap()) == b,
    decreases b.len(),
{
    lemma_auto_spec_u64_to_from_le_bytes();
    let w = bytes_words(b).unwrap();
    if b.len() > 0 {
        let n = (b.len() / 8) as int;
        let front = b.subrange(0, 8 * (n - 1));
        let back = b.subrange(8 * (n - 1), 8 * n);
        lemma_bytes_round_trip(front);
        assert forall|i: int| 0 <= i < n - 1 implies word_at(front, i) == word_at(b, i) by {
            assert(front.subrange(8 * i, 8 * i + 8) =~= b.subrange(8 * i, 8 * i + 8));
        }
        assert(bytes_words(front).unwrap() =~= w.drop_last());
        assert(w.last() == spec_u64_from_le_bytes(back));
        assert(spec_u64_to_le_bytes(spec_u64_from_le_bytes(back)) == back);
        assert(front + back =~= b);
    } else {
        assert(w =~= Seq::<u64>::empty());
        assert(b =~= Seq::<u8>::empty());
    }
}

/// Appends a word to a stream of bytes.
pub fn put_word(out: &mut Vec<u8>, x: u64)
    ensures
        final(out)@ == old(out)@ + spec_u64_to_le_bytes(x),
{
    let mut b = u64_to_le_bytes(x);
    out.append(&mut b);
}

/// The bytes of `w`.
pub fn to_bytes(w: &Vec<u64>) -> (out: Vec<u8>)
    ensures
        out@ == words_bytes(w@),
{
    let mut out: Vec<u8> = Vec::new();
    let mut i: usize = 0;
    while i < w.len()
        invariant
            0 <= i <= w@.len(),
            out@ == words_bytes(w@.subrange(0, i as int)),
        decreases w@.len() - i,
    {
        put_word(&mut out, w[i]);
        assert(w@.subrange(0, i + 1).drop_last() =~= w@.subrange(0, i as int));
        i += 1;
    }
    assert(w@.subrange(0, w@.len() as int) =~= w@);
    out
}

/// The words that `b` holds, if it holds whole words.
pub fn from_bytes(b: &[u8]) -> (r: Option<Vec<u64>>)
    ensures
        match r {
            Some(w) => bytes_words(b@) == Some(w@),
            None => bytes_words(b@).is_none(),
        },
{
    if b.len() % 8 != 0 {
        return None;
    }
    let n: usize = b.len() / 8;
    let mut out: Vec<u64> = Vec::new();
    let mut i: usize = 0;
    while i < n
        invariant
            0 <= i <= n,
            n == b@.len() / 8,
            b@.len() % 8 == 0,
            b@.len() <= usize::MAX,
            out@.len() == i,
            forall|j: int| 0 <= j < i ==> out@[j] == word_at(b@, j),
        decreases n - i,
    {
        let x = u64_from_le_bytes(slice_subrange(b, 8 * i, 8 * i + 8));
        out.push(x);
        i += 1;
    }
    assert(out@ =~= Seq::new(b@.len() / 8, |j: int| word_at(b@, j)));
    Some(out)
}

} // verus!
