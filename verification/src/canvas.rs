//! The canvas evaluator: maps every pixel of a `width x height` raster
//! to a point of the viewport rectangle, runs the escape-time kernel
//! there, and collects the normalized scalars into a row-major grid
//! (index `y*width + x`, row `0` at the bottom edge of the viewport).
//!
//! Pixels are independent, so the grid is filled by a parallel
//! iterator; the contract of the evaluation is per index, never about
//! an order.
use vstd::prelude::*;
use vstd::arithmetic::div_mod::{
    lemma_div_pos_is_pos, lemma_fundamental_div_mod, lemma_mod_division_less_than_divisor,
    lemma_multiply_divide_lt,
};
use vstd::arithmetic::mul::{lemma_mul_inequality, lemma_mul_upper_bound};
use rayon::iter::{IntoParallelIterator, ParallelIterator};

verus! {

use crate::SCALE;
use crate::field::{
    COORD_LIMIT, JULIA_IM, JULIA_RE, escape_count, lemma_escape_le_fuel, spec_escape,
};
use crate::normalize::{lemma_normalize_le_scale, normalize, spec_normalize};

/// A rectangle of the complex plane, in fixed point. Row 0 of the
/// raster maps to the bottom edge.
#[derive(Clone, Copy, PartialEq, Eq, Structural, Debug)]
pub struct Viewport {
    pub left: i64,
    pub right: i64,
    pub top: i64,
    pub bottom: i64,
}

impl Viewport {
    /// A viewport is a proper rectangle within the coordinate range.
    pub open spec fn wf(self) -> bool {
        &&& self.left < self.right
        &&& self.bottom < self.top
        &&& -COORD_LIMIT <= self.left
        &&& self.right <= COORD_LIMIT
        &&& -COORD_LIMIT <= self.bottom
        &&& self.top <= COORD_LIMIT
    }
}

/// The escape-time family evaluated at each point.
#[derive(Clone, Copy, PartialEq, Eq, Structural, Debug)]
pub enum Kernel {
    Mandelbrot,
    Julia,
}

/// Kernel family, escape radius and iteration budget of one render.
#[derive(Clone, Copy, PartialEq, Eq, Structural, Debug)]
pub struct FieldParams {
    pub kernel: Kernel,
    pub dist: i64,
    pub max_iters: u32,
}

impl FieldParams {
    /// A nonnegative in-range radius and at least one iteration.
    pub open spec fn wf(self) -> bool {
        0 <= self.dist <= COORD_LIMIT && self.max_iters >= 1
    }
}

/// The raw escape count of the chosen kernel at a point: Mandelbrot
/// seeds at the origin and adds the point, Julia seeds at the point
/// and adds the fixed constant.
pub open spec fn spec_field_count(k: Kernel, dist: int, max_iters: nat, x: int, y: int) -> nat {
    match k {
        Kernel::Mandelbrot => spec_escape(0, 0, x, y, dist, max_iters),
        Kernel::Julia => spec_escape(x, y, JULIA_RE as int, JULIA_IM as int, dist, max_iters),
    }
}

/// The normalized unit scalar of the chosen kernel at a point.
pub open spec fn spec_field_scalar(k: Kernel, dist: int, max_iters: nat, x: int, y: int) -> nat {
    spec_normalize(spec_field_count(k, dist, max_iters, x, y), max_iters)
}

/// The field scalar never exceeds one.
pub proof fn lemma_field_scalar_le_scale(k: Kernel, dist: int, max_iters: nat, x: int, y: int)
    requires
        max_iters >= 1,
    ensures
        spec_field_scalar(k, dist, max_iters, x, y) <= SCALE,
{
    match k {
        Kernel::Mandelbrot => lemma_escape_le_fuel(0, 0, x, y, dist, max_iters),
        Kernel::Julia => lemma_escape_le_fuel(x, y, JULIA_RE as int, JULIA_IM as int, dist, max_iters),
    }
    lemma_normalize_le_scale(spec_field_count(k, dist, max_iters, x, y), max_iters);
}

/// The per-point scalar of a render: kernel, then normalization.
pub fn fractal(kernel: Kernel, dist: i64, max_iters: u32, x: i64, y: i64) -> (r: u32)
    requires
        -COORD_LIMIT <= x <= COORD_LIMIT,
        -COORD_LIMIT <= y <= COORD_LIMIT,
        0 <= dist <= COORD_LIMIT,
        max_iters >= 1,
    ensures
        r == spec_field_scalar(kernel, dist as int, max_iters as nat, x as int, y as int),
        r <= SCALE,
{
    let count: u32 = match kernel {
        Kernel::Mandelbrot => escape_count(0, 0, x, y, dist, max_iters),
        Kernel::Julia => escape_count(x, y, JULIA_RE, JULIA_IM, dist, max_iters),
    };
    normalize(count, max_iters)
}

/// One render's evaluation state: the viewport's lower-left corner,
/// the per-pixel steps, the resolution, and the field parameters.
#[derive(Clone, Copy, PartialEq, Eq, Structural, Debug)]
pub struct CanvasJob {
    pub left: i64,
    pub bottom: i64,
    pub scale_x: i64,
    pub scale_y: i64,
    pub width: u32,
    pub height: u32,
    pub params: FieldParams,
}

impl CanvasJob {
    /// Steps are nonnegative and every pixel's point stays inside the
    /// coordinate range.
    pub open spec fn wf(self) -> bool {
        &&& self.width >= 1
        &&& self.height >= 1
        &&& self.width * self.height <= usize::MAX
        &&& 0 <= self.scale_x
        &&& 0 <= self.scale_y
        &&& -COORD_LIMIT <= self.left
        &&& -COORD_LIMIT <= self.bottom
        &&& self.left + (self.width - 1) * self.scale_x <= COORD_LIMIT
        &&& self.bottom + (self.height - 1) * self.scale_y <= COORD_LIMIT
        &&& self.params.wf()
    }

    /// Plane x-coordinate of flat index `i`: column times step from
    /// the left edge.
    pub open spec fn point_x(self, i: int) -> int {
        (i % (self.width as int)) * self.scale_x + self.left
    }

    /// Plane y-coordinate of flat index `i`: row times step up from
    /// the bottom edge.
    pub open spec fn point_y(self, i: int) -> int {
        (i / (self.width as int)) * self.scale_y + self.bottom
    }

    /// The scalar the grid holds at flat index `i`.
    pub open spec fn scalar_at(self, i: int) -> nat {
        spec_field_scalar(
            self.params.kernel,
            self.params.dist as int,
            self.params.max_iters as nat,
            self.point_x(i),
            self.point_y(i),
        )
    }
}

/// Every pixel of a well-formed job maps into the coordinate range.
proof fn lemma_point_in_range(job: CanvasJob, i: int)
    requires
        job.wf(),
        0 <= i < job.width * job.height,
    ensures
        -COORD_LIMIT <= job.point_x(i) <= COORD_LIMIT,
        -COORD_LIMIT <= job.point_y(i) <= COORD_LIMIT,
        0 <= i % (job.width as int) < job.width,
        0 <= i / (job.width as int) < job.height,
{
    let w = job.width as int;
    let px = i % w;
    let py = i / w;
    lemma_mod_division_less_than_divisor(i, w);
    lemma_div_pos_is_pos(i, w);
    lemma_multiply_divide_lt(i, w, job.height as int);
    assert(px * job.scale_x >= 0) by (nonlinear_arith)
        requires px >= 0, job.scale_x >= 0;
    assert(py * job.scale_y >= 0) by (nonlinear_arith)
        requires py >= 0, job.scale_y >= 0;
    lemma_mul_inequality(px, job.width - 1, job.scale_x as int);
    lemma_mul_inequality(py, job.height - 1, job.scale_y as int);
}

/// The scalar at one flat index of the grid.
pub fn pixel_scalar(job: &CanvasJob, i: usize) -> (r: u32)
    requires
        job.wf(),
        i < job.width * job.height,
    ensures
        r == job.scalar_at(i as int),
        r <= SCALE,
{
    proof {
        lemma_point_in_range(*job, i as int);
        let px = (i as int) % (job.width as int);
        let py = (i as int) / (job.width as int);
        lemma_mul_upper_bound(px, 4294967296, job.scale_x as int, 0x7fffffffffffffff);
        lemma_mul_upper_bound(py, 4294967296, job.scale_y as int, 0x7fffffffffffffff);
    }
    let w = job.width as usize;
    let px = i % w;
    let py = i / w;
    let cx: i64 = ((px as i128) * (job.scale_x as i128) + (job.left as i128)) as i64;
    let cy: i64 = ((py as i128) * (job.scale_y as i128) + (job.bottom as i128)) as i64;
    fractal(job.params.kernel, job.params.dist, job.params.max_iters, cx, cy)
}

/// Relies on rayon's indexed parallel iterator over `0..n`: `map`
/// applies a pure function to every index and `collect` into a `Vec`
/// places each result at its own index, so the buffer equals the
/// sequential map of the verified per-pixel function. Each parallel
/// task reads only the shared immutable job.
#[verifier::external_body]
fn par_map_scalars(job: &CanvasJob, n: usize) -> (r: Vec<u32>)
    requires
        job.wf(),
        n == job.width * job.height,
    ensures
        r@.len() == n,
        forall|i: int| 0 <= i < n ==> r@[i] == job.scalar_at(i),
{
    (0..n).into_par_iter().map(|i| pixel_scalar(job, i)).collect()
}

/// The job a viewport, resolution and field parameters determine:
/// steps are the viewport extent divided by the resolution.
pub open spec fn spec_canvas_job(
    bounds: Viewport,
    width: u32,
    height: u32,
    params: FieldParams,
) -> CanvasJob {
    CanvasJob {
        left: bounds.left,
        bottom: bounds.bottom,
        scale_x: ((bounds.right - bounds.left) / (width as int)) as i64,
        scale_y: ((bounds.top - bounds.bottom) / (height as int)) as i64,
        width: width,
        height: height,
        params: params,
    }
}

/// Evaluate the scalar field over a viewport at a resolution: a
/// row-major grid of exactly `width*height` unit scalars, the entry at
/// index `i` being the field scalar at the point that index maps to.
pub fn canvas(bounds: Viewport, width: u32, height: u32, params: FieldParams) -> (r: Vec<u32>)
    requires
        bounds.wf(),
        params.wf(),
        width >= 1,
        height >= 1,
        width * height <= usize::MAX,
    ensures
        r@.len() == width * height,
        forall|i: int|
            0 <= i < r@.len() ==> r@[i] == spec_canvas_job(bounds, width, height, params).scalar_at(
                i,
            ),
        forall|i: int| 0 <= i < r@.len() ==> r@[i] <= SCALE,
{
    let dx: u64 = (bounds.right - bounds.left) as u64;
    let dy: u64 = (bounds.top - bounds.bottom) as u64;
    let sx: i64 = (dx / (width as u64)) as i64;
    let sy: i64 = (dy / (height as u64)) as i64;
    proof {
        lemma_div_pos_is_pos(dx as int, width as int);
        lemma_div_pos_is_pos(dy as int, height as int);
        lemma_fundamental_div_mod(dx as int, width as int);
        lemma_mod_division_less_than_divisor(dx as int, width as int);
        lemma_fundamental_div_mod(dy as int, height as int);
        lemma_mod_division_less_than_divisor(dy as int, height as int);
        assert((width - 1) * sx <= width * sx) by (nonlinear_arith)
            requires sx >= 0, width >= 1;
        assert(width * sx == (width as int) * (dx as int / (width as int)));
        assert((height - 1) * sy <= height * sy) by (nonlinear_arith)
            requires sy >= 0, height >= 1;
        assert(height * sy == (height as int) * (dy as int / (height as int)));
    }
    let job = CanvasJob {
        left: bounds.left,
        bottom: bounds.bottom,
        scale_x: sx,
        scale_y: sy,
        width: width,
        height: height,
        params: params,
    };
    proof {
        assert(job.wf());
        assert(job == spec_canvas_job(bounds, width, height, params));
    }
    let n: usize = (width as usize) * (height as usize);
    let data = par_map_scalars(&job, n);
    proof {
        assert forall|i: int| 0 <= i < data@.len() implies data@[i] <= SCALE by {
            assert(data@[i] == job.scalar_at(i));
            lemma_field_scalar_le_scale(
                job.params.kernel,
                job.params.dist as int,
                job.params.max_iters as nat,
                job.point_x(i),
                job.point_y(i),
            );
        }
    }
    data
}

} // verus!
