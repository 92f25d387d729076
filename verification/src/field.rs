//! The escape-time kernel: iterate `z = z*z + k` from a seed until the
//! magnitude of `z` leaves the escape radius or the iteration budget is
//! exhausted, and return the iteration count reached.
//!
//! Both classic fractal families share this loop and differ only in the
//! two degrees of freedom: the Mandelbrot set seeds `z` at the origin
//! and adds the pixel's own coordinate, a Julia set seeds `z` at the
//! pixel and adds a fixed constant.
//!
//! Coordinates are fixed point (see `SCALE`); squared magnitudes are
//! compared against the squared radius, so no root is ever taken.
use vstd::prelude::*;
use vstd::arithmetic::div_mod::lemma_div_is_ordered;
use vstd::arithmetic::mul::lemma_mul_upper_bound;

verus! {

use crate::SCALE;

/// Largest magnitude, in fixed point, accepted for a coordinate or for
/// the escape radius (1000 in plane units): keeps every intermediate
/// product of the iteration inside machine integers.
pub const COORD_LIMIT: i64 = 1000000000;

/// The fixed additive constant of the Julia kernel, real part.
pub const JULIA_RE: i64 = -800000;

/// The fixed additive constant of the Julia kernel, imaginary part.
pub const JULIA_IM: i64 = 156000;

/// Absolute value.
pub open spec fn iabs(a: int) -> int {
    if a < 0 {
        -a
    } else {
        a
    }
}

/// `2*a*b / SCALE`, truncated toward zero, as the iteration computes
/// the doubled cross product of the two components.
pub open spec fn dbl_prod_div(a: int, b: int) -> int {
    if a * b >= 0 {
        2 * iabs(a) * iabs(b) / (SCALE as int)
    } else {
        -(2 * iabs(a) * iabs(b) / (SCALE as int))
    }
}

/// Real part of `z*z + k`: `(zr^2 - zi^2)/SCALE + kr`, each square
/// truncated separately.
pub open spec fn step_re(zr: int, zi: int, kr: int) -> int {
    zr * zr / (SCALE as int) - zi * zi / (SCALE as int) + kr
}

/// Imaginary part of `z*z + k`: `2*zr*zi/SCALE + ki`, truncated toward
/// zero.
pub open spec fn step_im(zr: int, zi: int, ki: int) -> int {
    dbl_prod_div(zr, zi) + ki
}

/// Whether `z` has left the escape radius: squared magnitude against
/// squared radius.
pub open spec fn escaped(zr: int, zi: int, dist: int) -> bool {
    zr * zr + zi * zi > dist * dist
}

/// The escape count: iterations of `z = z*z + k` from `(zr, zi)` until
/// the magnitude of `z` exceeds `dist` or `fuel` iterations are spent.
/// A point that never escapes gets exactly `fuel`.
pub open spec fn spec_escape(zr: int, zi: int, kr: int, ki: int, dist: int, fuel: nat) -> nat
    decreases fuel,
{
    if fuel == 0 {
        0
    } else if escaped(zr, zi, dist) {
        0
    } else {
        1 + spec_escape(
            step_re(zr, zi, kr),
            step_im(zr, zi, ki),
            kr,
            ki,
            dist,
            (fuel - 1) as nat,
        )
    }
}

/// The escape count never exceeds the iteration budget.
pub proof fn lemma_escape_le_fuel(zr: int, zi: int, kr: int, ki: int, dist: int, fuel: nat)
    ensures
        spec_escape(zr, zi, kr, ki, dist, fuel) <= fuel,
    decreases fuel,
{
    if fuel > 0 && !escaped(zr, zi, dist) {
        lemma_escape_le_fuel(
            step_re(zr, zi, kr),
            step_im(zr, zi, ki),
            kr,
            ki,
            dist,
            (fuel - 1) as nat,
        );
    }
}

/// The origin never escapes the Mandelbrot iteration for the origin
/// point: the escape count is exactly the full budget.
pub proof fn lemma_origin_never_escapes(dist: int, fuel: nat)
    requires
        dist >= 0,
    ensures
        spec_escape(0, 0, 0, 0, dist, fuel) == fuel,
    decreases fuel,
{
    if fuel > 0 {
        assert(dist * dist >= 0) by (nonlinear_arith)
            requires dist >= 0;
        assert(!escaped(0, 0, dist));
        assert(step_re(0, 0, 0) == 0);
        assert(dbl_prod_div(0, 0) == 0);
        assert(step_im(0, 0, 0) == 0);
        lemma_origin_never_escapes(dist, (fuel - 1) as nat);
    }
}

/// Conjugating the seed and the additive constant conjugates every
/// iterate and leaves the escape count unchanged: the kernel is
/// symmetric about the real axis.
pub proof fn lemma_conjugate_symmetry(zr: int, zi: int, kr: int, ki: int, dist: int, fuel: nat)
    ensures
        spec_escape(zr, -zi, kr, -ki, dist, fuel) == spec_escape(zr, zi, kr, ki, dist, fuel),
    decreases fuel,
{
    if fuel > 0 {
        assert((-zi) * (-zi) == zi * zi) by (nonlinear_arith);
        if !escaped(zr, zi, dist) {
            assert(step_re(zr, -zi, kr) == step_re(zr, zi, kr));
            assert(dbl_prod_div(zr, -zi) == -dbl_prod_div(zr, zi)) by {
                assert(iabs(-zi) == iabs(zi));
                if zr * zi == 0 {
                    assert(zr * (-zi) == 0) by (nonlinear_arith)
                        requires zr * zi == 0;
                    let x = iabs(zr);
                    let y = iabs(zi);
                    assert(x == 0 || y == 0) by (nonlinear_arith)
                        requires zr * zi == 0, x == iabs(zr), y == iabs(zi);
                    assert(2 * x * y == 0) by (nonlinear_arith)
                        requires x == 0 || y == 0;
                    assert(2 * iabs(zr) * iabs(zi) / (SCALE as int) == 0);
                } else {
                    assert(zr * (-zi) == -(zr * zi)) by (nonlinear_arith);
                }
            }
            assert(step_im(zr, -zi, -ki) == -step_im(zr, zi, ki));
            lemma_conjugate_symmetry(
                step_re(zr, zi, kr),
                step_im(zr, zi, ki),
                kr,
                ki,
                dist,
                (fuel - 1) as nat,
            );
        }
    }
}

/// The Mandelbrot field is symmetric about the real axis: a point and
/// its conjugate have the same escape count.
pub proof fn lemma_mandelbrot_real_axis_symmetry(c_re: int, c_im: int, dist: int, fuel: nat)
    ensures
        spec_escape(0, 0, c_re, -c_im, dist, fuel) == spec_escape(0, 0, c_re, c_im, dist, fuel),
{
    lemma_conjugate_symmetry(0, 0, c_re, c_im, dist, fuel);
}

/// Relates the sign test of the doubled cross product to its
/// magnitude form: `q` computed on absolute values, negated when the
/// factors have strictly opposite signs, is `dbl_prod_div`.
proof fn lemma_dbl_prod_signs(a: int, b: int, q: int)
    requires
        q == 2 * iabs(a) * iabs(b) / (SCALE as int),
    ensures
        dbl_prod_div(a, b) == if (a < 0) != (b < 0) {
            -q
        } else {
            q
        },
{
    if a == 0 || b == 0 {
        assert(a * b == 0) by (nonlinear_arith)
            requires a == 0 || b == 0;
        let x = iabs(a);
        let y = iabs(b);
        assert(x == 0 || y == 0);
        assert(2 * x * y == 0) by (nonlinear_arith)
            requires x == 0 || y == 0;
        assert(2 * iabs(a) * iabs(b) / (SCALE as int) == 0);
    } else if (a < 0) == (b < 0) {
        assert(a * b > 0) by (nonlinear_arith)
            requires a != 0, b != 0, (a < 0) == (b < 0);
    } else {
        assert(a * b < 0) by (nonlinear_arith)
            requires a != 0, b != 0, (a < 0) != (b < 0);
    }
}

/// The general escape-time loop. The seed and the additive constant
/// are the two degrees of freedom shared by the fractal families.
pub fn escape_count(
    seed_re: i64,
    seed_im: i64,
    k_re: i64,
    k_im: i64,
    dist: i64,
    max_iters: u32,
) -> (n: u32)
    requires
        -COORD_LIMIT <= seed_re <= COORD_LIMIT,
        -COORD_LIMIT <= seed_im <= COORD_LIMIT,
        -COORD_LIMIT <= k_re <= COORD_LIMIT,
        -COORD_LIMIT <= k_im <= COORD_LIMIT,
        0 <= dist <= COORD_LIMIT,
    ensures
        n == spec_escape(seed_re as int, seed_im as int, k_re as int, k_im as int, dist as int, max_iters as nat),
        n <= max_iters,
{
    let mut zr: i64 = seed_re;
    let mut zi: i64 = seed_im;
    let mut n: u32 = 0;
    while n < max_iters
        invariant_except_break
            n <= max_iters,
            -2000000000000 <= zr <= 2000000000000,
            -2000000000000 <= zi <= 2000000000000,
            -COORD_LIMIT <= k_re <= COORD_LIMIT,
            -COORD_LIMIT <= k_im <= COORD_LIMIT,
            0 <= dist <= COORD_LIMIT,
            spec_escape(seed_re as int, seed_im as int, k_re as int, k_im as int, dist as int, max_iters as nat)
                == n + spec_escape(zr as int, zi as int, k_re as int, k_im as int, dist as int, (max_iters - n) as nat),
        ensures
            n <= max_iters,
            spec_escape(seed_re as int, seed_im as int, k_re as int, k_im as int, dist as int, max_iters as nat) == n,
        decreases max_iters - n,
    {
        let mr: u64 = if zr >= 0 { zr as u64 } else { (-zr) as u64 };
        let mi: u64 = if zi >= 0 { zi as u64 } else { (-zi) as u64 };
        proof {
            assert(mr == iabs(zr as int) && mi == iabs(zi as int));
            lemma_mul_upper_bound(mr as int, 2000000000000, mr as int, 2000000000000);
            lemma_mul_upper_bound(mi as int, 2000000000000, mi as int, 2000000000000);
            assert(mr as int * mr as int == zr as int * zr as int) by (nonlinear_arith)
                requires mr == iabs(zr as int);
            assert(mi as int * mi as int == zi as int * zi as int) by (nonlinear_arith)
                requires mi == iabs(zi as int);
            lemma_mul_upper_bound(dist as int, COORD_LIMIT as int, dist as int, COORD_LIMIT as int);
        }
        let nr2: u128 = (mr as u128) * (mr as u128) + (mi as u128) * (mi as u128);
        let d2: u128 = (dist as u128) * (dist as u128);
        if nr2 > d2 {
            proof {
                assert(escaped(zr as int, zi as int, dist as int));
            }
            break;
        }
        proof {
            assert(mr as int * mr as int <= dist as int * dist as int);
            assert(mi as int * mi as int <= dist as int * dist as int);
            assert(mr <= dist) by (nonlinear_arith)
                requires
                    mr as int * mr as int <= dist as int * dist as int,
                    mr >= 0,
                    dist >= 0;
            assert(mi <= dist) by (nonlinear_arith)
                requires
                    mi as int * mi as int <= dist as int * dist as int,
                    mi >= 0,
                    dist >= 0;
            assert(2 * (mr as int) * (mi as int) <= (mr as int) * (mr as int) + (mi as int) * (mi as int))
                by (nonlinear_arith);
            lemma_div_is_ordered(
                mr as int * mr as int,
                dist as int * dist as int,
                SCALE as int,
            );
            lemma_div_is_ordered(
                mi as int * mi as int,
                dist as int * dist as int,
                SCALE as int,
            );
            lemma_div_is_ordered(
                2 * (mr as int) * (mi as int),
                dist as int * dist as int,
                SCALE as int,
            );
            lemma_div_is_ordered(
                dist as int * dist as int,
                1000000000000000000,
                SCALE as int,
            );
            assert(dist as int * dist as int / (SCALE as int) <= 1000000000000);
            assert(2 * (mr as int) * (mi as int) >= 0) by (nonlinear_arith)
                requires mr >= 0, mi >= 0;
        }
        let zr2: u128 = (mr as u128) * (mr as u128) / (SCALE as u128);
        let zi2: u128 = (mi as u128) * (mi as u128) / (SCALE as u128);
        let cross: u128 = 2 * (mr as u128) * (mi as u128) / (SCALE as u128);
        let new_re: i128 = zr2 as i128 - zi2 as i128 + k_re as i128;
        let cross_signed: i128 = if (zr < 0) != (zi < 0) {
            -(cross as i128)
        } else {
            cross as i128
        };
        let new_im: i128 = cross_signed + k_im as i128;
        proof {
            assert(zr2 == zr as int * zr as int / (SCALE as int));
            assert(zi2 == zi as int * zi as int / (SCALE as int));
            lemma_dbl_prod_signs(zr as int, zi as int, cross as int);
            assert(new_re == step_re(zr as int, zi as int, k_re as int));
            assert(new_im == step_im(zr as int, zi as int, k_im as int));
            assert(spec_escape(zr as int, zi as int, k_re as int, k_im as int, dist as int, (max_iters - n) as nat)
                == 1 + spec_escape(new_re as int, new_im as int, k_re as int, k_im as int, dist as int, (max_iters - n - 1) as nat));
        }
        zr = new_re as i64;
        zi = new_im as i64;
        n += 1;
    }
    n
}

/// Mandelbrot kernel: seed at the origin, add the point itself each
/// iteration.
pub fn mandelbrot(c_re: i64, c_im: i64, dist: i64, max_iters: u32) -> (n: u32)
    requires
        -COORD_LIMIT <= c_re <= COORD_LIMIT,
        -COORD_LIMIT <= c_im <= COORD_LIMIT,
        0 <= dist <= COORD_LIMIT,
    ensures
        n == spec_escape(0, 0, c_re as int, c_im as int, dist as int, max_iters as nat),
        n <= max_iters,
{
    escape_count(0, 0, c_re, c_im, dist, max_iters)
}

/// Julia kernel: seed at the point itself, add the fixed Julia
/// constant each iteration.
pub fn julia(c_re: i64, c_im: i64, dist: i64, max_iters: u32) -> (n: u32)
    requires
        -COORD_LIMIT <= c_re <= COORD_LIMIT,
        -COORD_LIMIT <= c_im <= COORD_LIMIT,
        0 <= dist <= COORD_LIMIT,
    ensures
        n == spec_escape(c_re as int, c_im as int, JULIA_RE as int, JULIA_IM as int, dist as int, max_iters as nat),
        n <= max_iters,
{
    escape_count(c_re, c_im, JULIA_RE, JULIA_IM, dist, max_iters)
}

} // verus!
