//! The normalization curve: a raw iteration count and its budget become
//! a unit scalar `sqrt(count/max_iters)`, in fixed point. The square
//! root is a deliberate contrast stretch and is part of the visual
//! contract, so it is stated exactly: the result is the integer square
//! root of `count * SCALE^2 / max_iters`.
use vstd::prelude::*;
use vstd::arithmetic::div_mod::{
    lemma_div_is_ordered, lemma_div_multiples_vanish, lemma_div_of0,
};
use vstd::arithmetic::mul::{lemma_mul_inequality, lemma_mul_upper_bound};

verus! {

use crate::SCALE;

/// The integer square root: the greatest `r` with `r*r <= x`.
pub open spec fn spec_isqrt(x: nat) -> nat
    decreases x,
{
    if x == 0 {
        0
    } else {
        let r = spec_isqrt((x - 1) as nat);
        if (r + 1) * (r + 1) <= x {
            r + 1
        } else {
            r
        }
    }
}

/// `spec_isqrt(x)` is the root: its square is at most `x` and the next
/// square is beyond `x`.
pub proof fn lemma_isqrt_bounds(x: nat)
    ensures
        spec_isqrt(x) * spec_isqrt(x) <= x,
        x < (spec_isqrt(x) + 1) * (spec_isqrt(x) + 1),
    decreases x,
{
    if x == 0 {
        assert(spec_isqrt(0) == 0);
        assert((spec_isqrt(x) + 1) * (spec_isqrt(x) + 1) == 1) by (nonlinear_arith)
            requires spec_isqrt(x) == 0;
    } else {
        lemma_isqrt_bounds((x - 1) as nat);
        let r = spec_isqrt((x - 1) as nat);
        if (r + 1) * (r + 1) <= x {
            assert(spec_isqrt(x) == r + 1);
            assert(x <= (r + 1) * (r + 1));
            assert((r + 1) * (r + 1) < (r + 2) * (r + 2)) by (nonlinear_arith);
            assert(spec_isqrt(x) + 1 == r + 2);
            assert((spec_isqrt(x) + 1) * (spec_isqrt(x) + 1) == (r + 2) * (r + 2));
        } else {
            assert(spec_isqrt(x) == r);
        }
    }
}

/// Any `r` whose square is at most `x` while the next square is beyond
/// `x` is the integer square root.
pub proof fn lemma_isqrt_unique(x: nat, r: nat)
    requires
        r * r <= x,
        x < (r + 1) * (r + 1),
    ensures
        r == spec_isqrt(x),
{
    lemma_isqrt_bounds(x);
    let s = spec_isqrt(x);
    assert(r == s) by (nonlinear_arith)
        requires
            r * r <= x,
            x < (r + 1) * (r + 1),
            s * s <= x,
            x < (s + 1) * (s + 1);
}

/// The normalized scalar `sqrt(count/max_iters)` in fixed point.
pub open spec fn spec_normalize(count: nat, max_iters: nat) -> nat {
    spec_isqrt((count * (SCALE as nat) * (SCALE as nat)) / max_iters)
}

/// A full budget normalizes to one, an untouched budget to zero.
pub proof fn lemma_normalize_endpoints(max_iters: nat)
    requires
        max_iters >= 1,
    ensures
        spec_normalize(max_iters, max_iters) == SCALE,
        spec_normalize(0, max_iters) == 0,
{
    let ss: nat = (SCALE as nat) * (SCALE as nat);
    assert(max_iters * (SCALE as nat) * (SCALE as nat)
        == max_iters * ((SCALE as nat) * (SCALE as nat))) by (nonlinear_arith);
    lemma_div_multiples_vanish(ss as int, max_iters as int);
    assert((max_iters * (SCALE as nat) * (SCALE as nat)) / max_iters == ss);
    assert((SCALE as nat) * (SCALE as nat) < ((SCALE as nat) + 1) * ((SCALE as nat) + 1))
        by (nonlinear_arith)
        requires SCALE == 1000000;
    lemma_isqrt_unique(ss, SCALE as nat);
    assert(0 * (SCALE as nat) * (SCALE as nat) == 0) by (nonlinear_arith);
    lemma_div_of0(max_iters as int);
}

/// A count within its budget normalizes to at most one.
pub proof fn lemma_normalize_le_scale(count: nat, max_iters: nat)
    requires
        max_iters >= 1,
        count <= max_iters,
    ensures
        spec_normalize(count, max_iters) <= SCALE,
{
    lemma_mul_inequality(count as int, max_iters as int, SCALE as int);
    lemma_mul_inequality(
        count as int * SCALE as int,
        max_iters as int * SCALE as int,
        SCALE as int,
    );
    lemma_div_is_ordered(
        count as int * SCALE as int * SCALE as int,
        max_iters as int * SCALE as int * SCALE as int,
        max_iters as int,
    );
    let ss: int = SCALE as int * SCALE as int;
    assert(max_iters as int * SCALE as int * SCALE as int
        == max_iters as int * (SCALE as int * SCALE as int)) by (nonlinear_arith);
    lemma_div_multiples_vanish(ss, max_iters as int);
    let q: nat = (count * (SCALE as nat) * (SCALE as nat)) / max_iters;
    assert(q <= ss);
    lemma_isqrt_bounds(q);
    assert(spec_isqrt(q) <= SCALE) by (nonlinear_arith)
        requires
            spec_isqrt(q) * spec_isqrt(q) <= q,
            q <= SCALE as int * SCALE as int,
            SCALE == 1000000;
}

/// The integer square root, by bisection on the root.
fn isqrt(x: u64) -> (r: u64)
    ensures
        r == spec_isqrt(x as nat),
{
    let mut lo: u64 = 0;
    let mut hi: u64 = 4294967296;
    while lo + 1 < hi
        invariant
            lo < hi <= 4294967296,
            lo as int * lo as int <= x,
            x < hi as int * hi as int,
        decreases hi - lo,
    {
        let mid: u64 = lo + (hi - lo) / 2;
        proof {
            lemma_mul_upper_bound(mid as int, 4294967296, mid as int, 4294967296);
        }
        let m2: u128 = (mid as u128) * (mid as u128);
        if m2 <= x as u128 {
            lo = mid;
        } else {
            hi = mid;
        }
    }
    proof {
        lemma_isqrt_unique(x as nat, lo as nat);
    }
    lo
}

/// Normalize a raw iteration count against its budget into a unit
/// scalar: `sqrt(count/max_iters)` in fixed point, so `0` maps to `0`
/// and a full budget maps exactly to `SCALE`.
pub fn normalize(count: u32, max_iters: u32) -> (r: u32)
    requires
        max_iters >= 1,
        count <= max_iters,
    ensures
        r == spec_normalize(count as nat, max_iters as nat),
        r <= SCALE,
{
    proof {
        lemma_mul_inequality(count as int, max_iters as int, SCALE as int);
        lemma_mul_inequality(
            count as int * SCALE as int,
            max_iters as int * SCALE as int,
            SCALE as int,
        );
        lemma_mul_upper_bound(count as int, 4294967296, SCALE as int, SCALE as int);
        lemma_mul_upper_bound(
            count as int * SCALE as int,
            4294967296 * (SCALE as int),
            SCALE as int,
            SCALE as int,
        );
        lemma_mul_upper_bound(max_iters as int, 4294967296, SCALE as int, SCALE as int);
        lemma_mul_upper_bound(
            max_iters as int * SCALE as int,
            4294967296 * (SCALE as int),
            SCALE as int,
            SCALE as int,
        );
        lemma_div_is_ordered(
            count as int * SCALE as int * SCALE as int,
            max_iters as int * SCALE as int * SCALE as int,
            max_iters as int,
        );
        let ss: int = SCALE as int * SCALE as int;
        assert(max_iters as int * SCALE as int * SCALE as int
            == max_iters as int * (SCALE as int * SCALE as int)) by (nonlinear_arith);
        lemma_div_multiples_vanish(ss, max_iters as int);
        assert(count as int * SCALE as int * SCALE as int / (max_iters as int) <= ss);
    }
    let q: u128 = (count as u128) * (SCALE as u128) * (SCALE as u128) / (max_iters as u128);
    let root: u64 = isqrt(q as u64);
    proof {
        lemma_isqrt_bounds(q as nat);
        assert(root <= SCALE) by (nonlinear_arith)
            requires
                root as int * root as int <= q,
                q <= SCALE as int * SCALE as int,
                root >= 0;
    }
    root as u32
}

} // verus!
