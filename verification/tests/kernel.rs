use fractal_render::field::{escape_count, julia, mandelbrot};
use fractal_render::normalize::normalize;

#[test]
fn origin_never_escapes() {
    // The Mandelbrot iteration at the origin stays at the origin, so
    // the full budget is always spent, whatever it is.
    assert_eq!(mandelbrot(0, 0, 2000000, 1), 1);
    assert_eq!(mandelbrot(0, 0, 2000000, 57), 57);
    assert_eq!(mandelbrot(0, 0, 2000000, 255), 255);
}

#[test]
fn far_point_escapes_after_one_step() {
    // Seeded at the origin, the first step lands on the point itself;
    // a point outside the radius is then already out.
    assert_eq!(mandelbrot(3000000, 0, 2000000, 255), 1);
    assert_eq!(mandelbrot(0, -3000000, 2000000, 255), 1);
}

#[test]
fn julia_far_seed_escapes_immediately() {
    // The Julia kernel seeds at the point itself: a far point escapes
    // before any iteration is spent.
    assert_eq!(julia(3000000, 0, 2000000, 255), 0);
    assert_eq!(julia(0, 0, 2000000, 8), 8);
}

#[test]
fn conjugation_leaves_mandelbrot_count_unchanged() {
    let samples: [(i64, i64); 4] = [
        (-500000, 600000),
        (250000, 250000),
        (-1200000, 300000),
        (100000, -900000),
    ];
    for (re, im) in samples {
        let a = mandelbrot(re, im, 2000000, 100);
        let b = mandelbrot(re, -im, 2000000, 100);
        assert_eq!(a, b);
    }
}

#[test]
fn conjugation_of_seed_and_constant() {
    // The general kernel is symmetric when both the seed and the
    // additive constant are conjugated.
    let a = escape_count(300000, 400000, -500000, 250000, 2000000, 64);
    let b = escape_count(300000, -400000, -500000, -250000, 2000000, 64);
    assert_eq!(a, b);
}

#[test]
fn interior_point_spends_full_budget() {
    // -1 + 0i cycles between -1 and 0 and never escapes.
    assert_eq!(mandelbrot(-1000000, 0, 2000000, 200), 200);
}

#[test]
fn normalize_endpoints() {
    assert_eq!(normalize(0, 255), 0);
    assert_eq!(normalize(255, 255), 1000000);
    assert_eq!(normalize(0, 1), 0);
    assert_eq!(normalize(1, 1), 1000000);
}

#[test]
fn normalize_exact_squares() {
    // sqrt(1/4) = 1/2 and sqrt(1/100) = 1/10, exactly in fixed point.
    assert_eq!(normalize(1, 4), 500000);
    assert_eq!(normalize(1, 100), 100000);
    // sqrt(1/2) truncated.
    assert_eq!(normalize(1, 2), 707106);
}
