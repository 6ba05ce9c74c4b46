//! Layer sampling.
//!
//! A node reaches layer `l` with probability `B^-l`, where `B` is the base
//! of the index: the layer is `floor(-ln(u) / ln(B))` for `u` uniform in
//! `(0, 1]`. With `u = (sample + 1) / 2^64` that is the greatest `l` with
//! `(sample + 1) * B^l <= 2^64`, which is computed here in integers.

use vstd::arithmetic::div_mod::{lemma_div_denominator, lemma_fundamental_div_mod, lemma_mod_bound};
use vstd::arithmetic::power::{lemma_pow0, lemma_pow_positive, pow};
use vstd::prelude::*;

verus! {

/// The number of values that a sample can take.
pub open spec fn span() -> int {
    0x1_0000_0000_0000_0000
}

/// The state that follows `s` in the generator.
pub open spec fn next_state(s: u64) -> u64 {
    s.wrapping_add(0x9E37_79B9_7F4A_7C15)
}

/// The sample that the generator gives in state `s`.
pub open spec fn sample_of(s: u64) -> u64 {
    let a = (s ^ (s >> 30)).wrapping_mul(0xBF58_476D_1CE4_E5B9);
    let b = (a ^ (a >> 27)).wrapping_mul(0x94D0_49BB_1331_11EB);
    b ^ (b >> 31)
}

/// `l` is the greatest layer up to `cap` with `x * base^l <= 2^64`.
pub open spec fn is_level(x: int, base: int, cap: int, l: int) -> bool {
    &&& 0 <= l <= cap
    &&& x * pow(base, l as nat) <= span()
    &&& l < cap ==> x * pow(base, (l + 1) as nat) > span()
}

/// The layer found from layer `l` on, where `t` is `2^64 / base^l`.
pub open spec fn level_from(x: int, t: int, base: int, l: int, cap: int) -> int
    decreases cap - l,
{
    if l < cap && base >= 2 && x <= t / base {
        level_from(x, t / base, base, l + 1, cap)
    } else {
        l
    }
}

/// The layer of a node whose sample is `sample`, in an index of base `base`
/// whose highest layer is `cap`.
pub open spec fn level_of(sample: u64, base: u64, cap: int) -> int {
    level_from(sample + 1, span(), base as int, 0, cap)
}

/// `x` is at most `n / d` exactly if `x * d` is at most `n`.
proof fn lemma_under(x: int, n: int, d: int)
    requires
        0 <= n,
        0 < d,
    ensures
        x <= n / d <==> x * d <= n,
{
    lemma_fundamental_div_mod(n, d);
    lemma_mod_bound(n, d);
    let q = n / d;
    let r = n % d;
    assert(n == d * q + r);
    if x <= q {
        assert(x * d <= q * d) by (nonlinear_arith)
            requires
                x <= q,
                0 < d,
        ;
        assert(q * d == d * q) by (nonlinear_arith);
    } else {
        assert(x * d >= (q + 1) * d) by (nonlinear_arith)
            requires
                x >= q + 1,
                0 < d,
        ;
        assert((q + 1) * d == d * q + d) by (nonlinear_arith);
    }
}

/// The layer found from layer `l` on is the greatest that the sample
/// reaches.
proof fn lemma_level_from(x: int, t: int, base: int, l: int, cap: int)
    requires
        base >= 2,
        x >= 1,
        0 <= l <= cap,
        t == span() / pow(base, l as nat),
        x <= t,
    ensures
        is_level(x, base, cap, level_from(x, t, base, l, cap)),
    decreases cap - l,
{
    let p = pow(base, l as nat);
    let p1 = pow(base, (l + 1) as nat);
    lemma_pow_positive(base, l as nat);
    lemma_pow_positive(base, (l + 1) as nat);
    assert(p1 == base * p) by {
        reveal(pow);
    }
    assert(p * base == base * p) by (nonlinear_arith);
    lemma_div_denominator(span(), p, base);
    assert(t / base == span() / p1);
    lemma_under(x, span(), p);
    lemma_under(x, span(), p1);
    if l < cap && x <= t / base {
        lemma_level_from(x, t / base, base, l + 1, cap);
    }
}

/// The layer of a sample is the greatest layer up to `cap` with
/// `(sample + 1) * base^l <= 2^64`.
pub proof fn lemma_level_of(sample: u64, base: u64, cap: int)
    requires
        base >= 2,
        0 <= cap,
    ensures
        is_level(sample + 1, base as int, cap, level_of(sample, base, cap)),
{
    lemma_pow0(base as int);
    lemma_level_from(sample + 1, span(), base as int, 0, cap);
}

/// Advances the generator and returns its sample.
pub fn next_sample(state: &mut u64) -> (sample: u64)
    ensures
        *final(state) == next_state(*old(state)),
        sample == sample_of(next_state(*old(state))),
{
    let s = state.wrapping_add(0x9E37_79B9_7F4A_7C15);
    *state = s;
    let a = (s ^ (s >> 30)).wrapping_mul(0xBF58_476D_1CE4_E5B9);
    let b = (a ^ (a >> 27)).wrapping_mul(0x94D0_49BB_1331_11EB);
    b ^ (b >> 31)
}

/// The layer of a node whose sample is `sample`.
pub fn sample_level(sample: u64, base: u64, cap: usize) -> (l: usize)
    requires
        base >= 2,
    ensures
        l == level_of(sample, base, cap as int),
        is_level(sample + 1, base as int, cap as int, l as int),
{
    let x: u128 = sample as u128 + 1;
    let mut t: u128 = 0x1_0000_0000_0000_0000;
    let mut l: usize = 0;
    while l < cap && x <= t / (base as u128)
        invariant
            0 <= l <= cap,
            base >= 2,
            x == sample + 1,
            t <= span(),
            level_from(x as int, t as int, base as int, l as int, cap as int) == level_of(
                sample,
                base,
                cap as int,
            ),
        decreases cap - l,
    {
        t = t / (base as u128);
        l += 1;
    }
    proof {
        lemma_level_of(sample, base, cap as int);
    }
    l
}

} // verus!
