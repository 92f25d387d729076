use fractal_render::SCALE;
use fractal_render::canvas::{canvas, fractal, FieldParams, Kernel, Viewport};
use fractal_render::color::Palette;
use fractal_render::raster::{draw, draw_nearest};

fn classic_viewport() -> Viewport {
    Viewport { left: -2000000, right: 500000, top: 1125000, bottom: -1125000 }
}

fn classic_params() -> FieldParams {
    FieldParams { kernel: Kernel::Mandelbrot, dist: 4000000, max_iters: 255 }
}

#[test]
fn grid_has_width_times_height_unit_scalars() {
    let grid = canvas(classic_viewport(), 4, 4, classic_params());
    assert_eq!(grid.len(), 16);
    assert!(grid.iter().all(|&v| v <= SCALE));
}

#[test]
fn grid_matches_pointwise_evaluation() {
    // The parallel evaluation must place at index i exactly the scalar
    // of the point that index maps to: column steps right from the
    // left edge, row steps up from the bottom edge.
    let vp = classic_viewport();
    let params = classic_params();
    let (w, h): (u32, u32) = (5, 3);
    let grid = canvas(vp, w, h, params);
    let sx = ((vp.right - vp.left) as u64 / w as u64) as i64;
    let sy = ((vp.top - vp.bottom) as u64 / h as u64) as i64;
    for i in 0..grid.len() {
        let px = (i as u32) % w;
        let py = (i as u32) / w;
        let x = px as i64 * sx + vp.left;
        let y = py as i64 * sy + vp.bottom;
        let expected = fractal(params.kernel, params.dist, params.max_iters, x, y);
        assert_eq!(grid[i], expected, "index {i}");
    }
}

#[test]
fn repeated_renders_are_identical() {
    // End to end: the classic viewport at 4x4 through a two-stop
    // black-to-white gradient, twice; parallel evaluation may not
    // change a single pixel between runs.
    let ramp = || Palette::new(vec![[0, 0, 0], [255, 255, 255]]);
    let first_grid = canvas(classic_viewport(), 4, 4, classic_params());
    let second_grid = canvas(classic_viewport(), 4, 4, classic_params());
    assert_eq!(first_grid, second_grid);
    let first = draw(first_grid, 4, 4, ramp());
    let second = draw(second_grid, 4, 4, ramp());
    assert_eq!(first.len(), 16);
    assert_eq!(first, second);
}

#[test]
fn julia_grid_is_deterministic_too() {
    let params = FieldParams { kernel: Kernel::Julia, dist: 2000000, max_iters: 64 };
    let vp = Viewport { left: -1500000, right: 1500000, top: 1000000, bottom: -1000000 };
    let a = canvas(vp, 6, 4, params);
    let b = canvas(vp, 6, 4, params);
    assert_eq!(a.len(), 24);
    assert_eq!(a, b);
}

#[test]
fn pixel_scalar_uses_row_major_bottom_up_mapping() {
    // Index 0 is the bottom-left corner of the viewport.
    let vp = classic_viewport();
    let params = classic_params();
    let grid = canvas(vp, 2, 2, params);
    let corner = fractal(params.kernel, params.dist, params.max_iters, vp.left, vp.bottom);
    assert_eq!(grid[0], corner);
}

#[test]
fn canvas_scalar_bounds_hold_on_large_budget() {
    let params = FieldParams { kernel: Kernel::Mandelbrot, dist: 2000000, max_iters: 1000 };
    let grid = canvas(classic_viewport(), 3, 3, params);
    assert!(grid.iter().all(|&v| v <= SCALE));
    // An interior point (the origin is inside) reaches the full budget
    // and normalizes to exactly one.
    assert_eq!(fractal(params.kernel, params.dist, params.max_iters, 0, 0), SCALE);
}

#[test]
fn draw_maps_each_scalar_through_interpolation() {
    let p = Palette::new(vec![[0, 0, 0], [255, 255, 255]]);
    let data = vec![0u32, 500000, 1000000, 250000];
    let out = draw(data, 2, 2, p);
    assert_eq!(out, vec![[0, 0, 0], [127, 127, 127], [255, 255, 255], [63, 63, 63]]);
}

#[test]
fn draw_nearest_maps_each_scalar_to_a_stop() {
    let p = Palette::new(vec![[10, 10, 10], [20, 20, 20], [30, 30, 30]]);
    let data = vec![0u32, 240000, 260000, 500000, 750000, 1000000];
    let out = draw_nearest(data, 6, 1, p);
    assert_eq!(
        out,
        vec![
            [10, 10, 10],
            [10, 10, 10],
            [20, 20, 20],
            [20, 20, 20],
            [20, 20, 20],
            [30, 30, 30],
        ]
    );
}
