//! Distance metrics over fixed-length vectors.
//!
//! A distance is carried as the bit pattern of an IEEE-754 single precision
//! number. On non-negative numbers the order of the bit patterns is the
//! numeric order, and the pattern `0` is the number `+0.0`.

use anndists::dist::distances::Distance;
use vstd::prelude::*;

verus! {

/// A dissimilarity between two vectors of equal length.
///
/// `dist` is the mathematical value of the metric; `eval` computes it.
pub trait Metric<T> {
    /// The distance from `a` to `b`, as a bit pattern.
    spec fn dist(a: Seq<T>, b: Seq<T>) -> u32;

    /// The tag that identifies this metric in a persisted graph.
    spec fn tag() -> u8;

    /// The distance from `a` to `b`.
    fn eval(&self, a: &[T], b: &[T]) -> (d: u32)
        requires
            a@.len() == b@.len(),
        ensures
            d == Self::dist(a@, b@),
    ;

    /// The tag that identifies this metric in a persisted graph.
    fn metric_tag(&self) -> (t: u8)
        ensures
            t == Self::tag(),
    ;
}

/// Sum of absolute differences.
#[derive(Clone, Copy, Debug, Default)]
pub struct DistL1;

/// Euclidean distance.
#[derive(Clone, Copy, Debug, Default)]
pub struct DistL2;

/// What `anndists`' `DistL1::eval` returns on two `u8` vectors, as bits.
pub uninterp spec fn l1_u8(a: Seq<u8>, b: Seq<u8>) -> u32;

/// What `anndists`' `DistL1::eval` returns on two `u16` vectors, as bits.
pub uninterp spec fn l1_u16(a: Seq<u16>, b: Seq<u16>) -> u32;

/// What `anndists`' `DistL1::eval` returns on two `i32` vectors, as bits.
pub uninterp spec fn l1_i32(a: Seq<i32>, b: Seq<i32>) -> u32;

/// What `anndists`' `DistL2::eval` returns on two `u8` vectors, as bits.
pub uninterp spec fn l2_u8(a: Seq<u8>, b: Seq<u8>) -> u32;

/// What `anndists`' `DistL2::eval` returns on two `u16` vectors, as bits.
pub uninterp spec fn l2_u16(a: Seq<u16>, b: Seq<u16>) -> u32;

/// What `anndists`' `DistL2::eval` returns on two `i32` vectors, as bits.
pub uninterp spec fn l2_i32(a: Seq<i32>, b: Seq<i32>) -> u32;

/// Calls `<anndists::dist::distances::DistL1 as Distance<u8>>::eval`.
/// The call panics on vectors of different lengths, which `requires` leaves
/// out. The result depends on the two vectors alone; nothing else is claimed.
#[verifier::external_body]
fn eval_l1_u8(a: &[u8], b: &[u8]) -> (d: u32)
    requires
        a@.len() == b@.len(),
    ensures
        d == l1_u8(a@, b@),
{
    anndists::dist::distances::DistL1.eval(a, b).to_bits()
}

/// Calls `<anndists::dist::distances::DistL1 as Distance<u16>>::eval`.
/// The call panics on vectors of different lengths, which `requires` leaves
/// out. The result depends on the two vectors alone; nothing else is claimed.
#[verifier::external_body]
fn eval_l1_u16(a: &[u16], b: &[u16]) -> (d: u32)
    requires
        a@.len() == b@.len(),
    ensures
        d == l1_u16(a@, b@),
{
    anndists::dist::distances::DistL1.eval(a, b).to_bits()
}

/// Calls `<anndists::dist::distances::DistL1 as Distance<i32>>::eval`.
/// The call panics on vectors of different lengths, which `requires` leaves
/// out. The result depends on the two vectors alone; nothing else is claimed.
#[verifier::external_body]
fn eval_l1_i32(a: &[i32], b: &[i32]) -> (d: u32)
    requires
        a@.len() == b@.len(),
    ensures
        d == l1_i32(a@, b@),
{
    anndists::dist::distances::DistL1.eval(a, b).to_bits()
}

/// Calls `<anndists::dist::distances::DistL2 as Distance<u8>>::eval`.
/// The call panics on vectors of different lengths, which `requires` leaves
/// out. The result depends on the two vectors alone; nothing else is claimed.
#[verifier::external_body]
fn eval_l2_u8(a: &[u8], b: &[u8]) -> (d: u32)
    requires
        a@.len() == b@.len(),
    ensures
        d == l2_u8(a@, b@),
{
    anndists::dist::distances::DistL2.eval(a, b).to_bits()
}

/// Calls `<anndists::dist::distances::DistL2 as Distance<u16>>::eval`.
/// The call panics on vectors of different lengths, which `requires` leaves
/// out. The result depends on the two vectors alone; nothing else is claimed.
#[verifier::external_body]
fn eval_l2_u16(a: &[u16], b: &[u16]) -> (d: u32)
    requires
        a@.len() == b@.len(),
    ensures
        d == l2_u16(a@, b@),
{
    anndists::dist::distances::DistL2.eval(a, b).to_bits()
}

/// Calls `<anndists::dist::distances::DistL2 as Distance<i32>>::eval`.
/// The call panics on vectors of different lengths, which `requires` leaves
/// out. The result depends on the two vectors alone; nothing else is claimed.
#[verifier::external_body]
fn eval_l2_i32(a: &[i32], b: &[i32]) -> (d: u32)
    requires
        a@.len() == b@.len(),
    ensures
        d == l2_i32(a@, b@),
{
    anndists::dist::distances::DistL2.eval(a, b).to_bits()
}

impl Metric<u8> for DistL1 {
    open spec fn dist(a: Seq<u8>, b: Seq<u8>) -> u32 {
        l1_u8(a, b)
    }

    open spec fn tag() -> u8 {
        1
    }

    fn eval(&self, a: &[u8], b: &[u8]) -> (d: u32) {
        eval_l1_u8(a, b)
    }

    fn metric_tag(&self) -> (t: u8) {
        1
    }
}

impl Metric<u16> for DistL1 {
    open spec fn dist(a: Seq<u16>, b: Seq<u16>) -> u32 {
        l1_u16(a, b)
    }

    open spec fn tag() -> u8 {
        1
    }

    fn eval(&self, a: &[u16], b: &[u16]) -> (d: u32) {
        eval_l1_u16(a, b)
    }

    fn metric_tag(&self) -> (t: u8) {
        1
    }
}

impl Metric<i32> for DistL1 {
    open spec fn dist(a: Seq<i32>, b: Seq<i32>) -> u32 {
        l1_i32(a, b)
    }

    open spec fn tag() -> u8 {
        1
    }

    fn eval(&self, a: &[i32], b: &[i32]) -> (d: u32) {
        eval_l1_i32(a, b)
    }

    fn metric_tag(&self) -> (t: u8) {
        1
    }
}

impl Metric<u8> for DistL2 {
    open spec fn dist(a: Seq<u8>, b: Seq<u8>) -> u32 {
        l2_u8(a, b)
    }

    open spec fn tag() -> u8 {
        2
    }

    fn eval(&self, a: &[u8], b: &[u8]) -> (d: u32) {
        eval_l2_u8(a, b)
    }

    fn metric_tag(&self) -> (t: u8) {
        2
    }
}

impl Metric<u16> for DistL2 {
    open spec fn dist(a: Seq<u16>, b: Seq<u16>) -> u32 {
        l2_u16(a, b)
    }

    open spec fn tag() -> u8 {
        2
    }

    fn eval(&self, a: &[u16], b: &[u16]) -> (d: u32) {
        eval_l2_u16(a, b)
    }

    fn metric_tag(&self) -> (t: u8) {
        2
    }
}

impl Metric<i32> for DistL2 {
    open spec fn dist(a: Seq<i32>, b: Seq<i32>) -> u32 {
        l2_i32(a, b)
    }

    open spec fn tag() -> u8 {
        2
    }

    fn eval(&self, a: &[i32], b: &[i32]) -> (d: u32) {
        eval_l2_i32(a, b)
    }

    fn metric_tag(&self) -> (t: u8) {
        2
    }
}

} // verus!
