//! The element types of vectors, and how an element is laid out in a data
//! stream: in little-endian order, in as many bytes as its type is wide.

use vstd::bytes::{
    lemma_auto_spec_u16_to_from_le_bytes, lemma_auto_spec_u32_to_from_le_bytes,
    spec_u16_from_le_bytes, spec_u16_to_le_bytes, spec_u32_from_le_bytes, spec_u32_to_le_bytes,
    u16_from_le_bytes, u16_to_le_bytes, u32_from_le_bytes, u32_to_le_bytes,
};
use vstd::prelude::*;
use vstd::slice::slice_subrange;

verus! {

/// An element of a vector that can be written to a data stream and read back.
pub trait Element: Copy + Sized {
    /// The number of bytes of an element.
    spec fn width() -> nat;

    /// The tag that names the element type in a data stream.
    spec fn kind() -> u64;

    /// The bytes of an element.
    spec fn bytes(self) -> Seq<u8>;

    /// The element that `s` holds.
    spec fn from_bytes(s: Seq<u8>) -> Self;

    /// An element takes `width` bytes and is read back from them.
    proof fn lemma_round_trip(x: Self)
        ensures
            x.bytes().len() == Self::width(),
            Self::from_bytes(x.bytes()) == x,
    ;

    /// The element that is read from as many bytes as an element takes has
    /// these bytes.
    proof fn lemma_from_bytes(s: Seq<u8>)
        requires
            s.len() == Self::width(),
        ensures
            Self::from_bytes(s).bytes() == s,
    ;

    /// An element takes at least one byte and at most eight.
    proof fn lemma_width()
        ensures
            1 <= Self::width() <= 8,
    ;

    /// The number of bytes of an element.
    fn elem_width() -> (w: usize)
        ensures
            w == Self::width(),
            1 <= w <= 8,
    ;

    /// The tag that names the element type in a data stream.
    fn elem_kind() -> (k: u64)
        ensures
            k == Self::kind(),
    ;

    /// Appends the bytes of the element to `out`.
    fn put(&self, out: &mut Vec<u8>)
        ensures
            final(out)@ == old(out)@ + self.bytes(),
    ;

    /// Reads the element that stands at position `at` of `src`.
    fn get(src: &[u8], at: usize) -> (x: Self)
        requires
            at + Self::width() <= src@.len(),
        ensures
            x == Self::from_bytes(src@.subrange(at as int, at + Self::width())),
    ;
}

impl Element for u8 {
    open spec fn width() -> nat {
        1
    }

    open spec fn kind() -> u64 {
        1
    }

    open spec fn bytes(self) -> Seq<u8> {
        seq![self]
    }

    open spec fn from_bytes(s: Seq<u8>) -> u8 {
        s[0]
    }

    proof fn lemma_round_trip(x: u8) {
    }

    proof fn lemma_from_bytes(s: Seq<u8>) {
        assert(seq![s[0]] =~= s);
    }

    proof fn lemma_width() {
    }

    fn elem_width() -> (w: usize) {
        1
    }

    fn elem_kind() -> (k: u64) {
        1
    }

    fn put(&self, out: &mut Vec<u8>) {
        out.push(*self);
    }

    fn get(src: &[u8], at: usize) -> (x: u8) {
        src[at]
    }
}

impl Element for u16 {
    open spec fn width() -> nat {
        2
    }

    open spec fn kind() -> u64 {
        2
    }

    open spec fn bytes(self) -> Seq<u8> {
        spec_u16_to_le_bytes(self)
    }

    open spec fn from_bytes(s: Seq<u8>) -> u16 {
        spec_u16_from_le_bytes(s)
    }

    proof fn lemma_round_trip(x: u16) {
        lemma_auto_spec_u16_to_from_le_bytes();
        assert(x.bytes() == spec_u16_to_le_bytes(x));
        assert(spec_u16_from_le_bytes(spec_u16_to_le_bytes(x)) == x);
    }

    proof fn lemma_from_bytes(s: Seq<u8>) {
        lemma_auto_spec_u16_to_from_le_bytes();
        assert(spec_u16_to_le_bytes(spec_u16_from_le_bytes(s)) == s);
    }

    proof fn lemma_width() {
    }

    fn elem_width() -> (w: usize) {
        2
    }

    fn elem_kind() -> (k: u64) {
        2
    }

    fn put(&self, out: &mut Vec<u8>) {
        let mut b = u16_to_le_bytes(*self);
        out.append(&mut b);
    }

    fn get(src: &[u8], at: usize) -> (x: u16) {
        let n: usize = src.len();
        assert(at + 2 <= n);
        u16_from_le_bytes(slice_subrange(src, at, at + 2))
    }
}

impl Element for i32 {
    open spec fn width() -> nat {
        4
    }

    open spec fn kind() -> u64 {
        3
    }

    open spec fn bytes(self) -> Seq<u8> {
        spec_u32_to_le_bytes(#[verifier::truncate] (self as u32))
    }

    open spec fn from_bytes(s: Seq<u8>) -> i32 {
        #[verifier::truncate]
        (spec_u32_from_le_bytes(s) as i32)
    }

    proof fn lemma_round_trip(x: i32) {
        lemma_auto_spec_u32_to_from_le_bytes();
        let y = x as u32;
        assert(x.bytes() == spec_u32_to_le_bytes(y));
        assert(spec_u32_from_le_bytes(spec_u32_to_le_bytes(y)) == y);
        assert((x as u32) as i32 == x) by (bit_vector);
    }

    proof fn lemma_from_bytes(s: Seq<u8>) {
        lemma_auto_spec_u32_to_from_le_bytes();
        let u = spec_u32_from_le_bytes(s);
        assert((u as i32) as u32 == u) by (bit_vector);
        assert(spec_u32_to_le_bytes(spec_u32_from_le_bytes(s)) == s);
    }

    proof fn lemma_width() {
    }

    fn elem_width() -> (w: usize) {
        4
    }

    fn elem_kind() -> (k: u64) {
        3
    }

    fn put(&self, out: &mut Vec<u8>) {
        let mut b = u32_to_le_bytes(#[verifier::truncate] (*self as u32));
        out.append(&mut b);
    }

    fn get(src: &[u8], at: usize) -> (x: i32) {
        let n: usize = src.len();
        assert(at + 4 <= n);
        #[verifier::truncate]
        (u32_from_le_bytes(slice_subrange(src, at, at + 4)) as i32)
    }
}

} // verus!
