use fractal_render::SCALE;
use fractal_render::color::{GradientStop, Palette};

fn stop(pos: u32, color: [u8; 3]) -> GradientStop {
    GradientStop { pos, color }
}

#[test]
fn uniform_positions() {
    let p = Palette::new(vec![[1, 2, 3], [4, 5, 6], [7, 8, 9]]);
    assert_eq!(p.stops.len(), 3);
    assert_eq!(p.stops[0].pos, 0);
    assert_eq!(p.stops[1].pos, 500000);
    assert_eq!(p.stops[2].pos, 1000000);
    assert_eq!(p.stops[0].color, [1, 2, 3]);
    assert_eq!(p.stops[1].color, [4, 5, 6]);
    assert_eq!(p.stops[2].color, [7, 8, 9]);
}

#[test]
fn uniform_positions_truncate() {
    let p = Palette::new(vec![[0, 0, 0], [1, 1, 1], [2, 2, 2], [3, 3, 3]]);
    assert_eq!(p.stops[0].pos, 0);
    assert_eq!(p.stops[1].pos, 333333);
    assert_eq!(p.stops[2].pos, 666666);
    assert_eq!(p.stops[3].pos, 1000000);
}

#[test]
fn levels_sorts_by_position() {
    let p = Palette::levels(vec![
        stop(900000, [9, 9, 9]),
        stop(100000, [1, 1, 1]),
        stop(500000, [5, 5, 5]),
    ]);
    assert_eq!(p.stops[0], stop(100000, [1, 1, 1]));
    assert_eq!(p.stops[1], stop(500000, [5, 5, 5]));
    assert_eq!(p.stops[2], stop(900000, [9, 9, 9]));
}

#[test]
fn levels_keeps_duplicate_positions() {
    let p = Palette::levels(vec![
        stop(500000, [5, 5, 5]),
        stop(500000, [6, 6, 6]),
        stop(0, [0, 0, 0]),
    ]);
    assert_eq!(p.stops.len(), 3);
    assert_eq!(p.stops[0].pos, 0);
    assert_eq!(p.stops[1].pos, 500000);
    assert_eq!(p.stops[2].pos, 500000);
}

#[test]
fn inverse_mirrors_positions() {
    let p = Palette::levels(vec![
        stop(0, [0, 0, 0]),
        stop(250000, [2, 2, 2]),
        stop(1000000, [9, 9, 9]),
    ]);
    let q = p.inverse();
    assert_eq!(q.stops[0], stop(0, [9, 9, 9]));
    assert_eq!(q.stops[1], stop(750000, [2, 2, 2]));
    assert_eq!(q.stops[2], stop(1000000, [0, 0, 0]));
}

#[test]
fn inverse_twice_is_identity() {
    let p = Palette::levels(vec![
        stop(0, [0, 0, 0]),
        stop(300000, [30, 60, 90]),
        stop(650000, [12, 34, 56]),
        stop(1000000, [255, 255, 255]),
    ]);
    let q = p.inverse().inverse();
    assert_eq!(q.stops, p.stops);
}

#[test]
fn color_clamps_to_first_stop() {
    let p = Palette::levels(vec![
        stop(200000, [10, 20, 30]),
        stop(800000, [90, 80, 70]),
    ]);
    assert_eq!(p.color(0), [10, 20, 30]);
    assert_eq!(p.color(100000), [10, 20, 30]);
    assert_eq!(p.color(200000), [10, 20, 30]);
}

#[test]
fn color_clamps_to_last_stop() {
    let p = Palette::levels(vec![
        stop(200000, [10, 20, 30]),
        stop(800000, [90, 80, 70]),
    ]);
    assert_eq!(p.color(1000000), [90, 80, 70]);
    assert_eq!(p.color(900000), [90, 80, 70]);
    assert_eq!(p.color(800000), [90, 80, 70]);
}

#[test]
fn color_midpoint_truncates() {
    let p = Palette::new(vec![[0, 0, 0], [255, 255, 255]]);
    assert_eq!(p.color(500000), [127, 127, 127]);
}

#[test]
fn color_interior_blend_exact() {
    let p = Palette::new(vec![[0, 0, 0], [100, 200, 50]]);
    assert_eq!(p.color(250000), [25, 50, 12]);
    assert_eq!(p.color(750000), [75, 150, 37]);
}

#[test]
fn color_picks_first_bracketing_segment() {
    let p = Palette::levels(vec![
        stop(0, [0, 0, 0]),
        stop(500000, [100, 100, 100]),
        stop(500000, [200, 200, 200]),
        stop(1000000, [255, 255, 255]),
    ]);
    // Exactly at the duplicated position, the earlier segment wins and
    // its right end is returned whole.
    assert_eq!(p.color(500000), [100, 100, 100]);
}

#[test]
fn nearest_color_picks_closest() {
    let p = Palette::levels(vec![
        stop(0, [1, 1, 1]),
        stop(600000, [2, 2, 2]),
        stop(1000000, [3, 3, 3]),
    ]);
    assert_eq!(p.nearest_color(100000), [1, 1, 1]);
    assert_eq!(p.nearest_color(550000), [2, 2, 2]);
    assert_eq!(p.nearest_color(990000), [3, 3, 3]);
}

#[test]
fn nearest_color_tie_breaks_to_earlier_stop() {
    let p = Palette::levels(vec![
        stop(250000, [11, 11, 11]),
        stop(750000, [22, 22, 22]),
    ]);
    // 500000 is equally far from both stops: the first in ascending
    // order wins.
    assert_eq!(p.nearest_color(500000), [11, 11, 11]);
}

#[test]
fn nearest_color_stays_in_color_set() {
    let p = Palette::new(vec![[10, 0, 0], [0, 10, 0], [0, 0, 10]]);
    for v in [0u32, 123456, 499999, 500000, 777777, 1000000] {
        let c = p.nearest_color(v);
        assert!(p.stops.iter().any(|st| st.color == c));
    }
}

#[test]
fn presets_are_well_formed() {
    for p in [
        Palette::monochrome(),
        Palette::ocean(),
        Palette::dragon(),
        Palette::fire(),
        Palette::wiki(),
        Palette::rgb(),
    ] {
        assert!(p.stops.len() >= 2);
        for w in p.stops.windows(2) {
            assert!(w[0].pos <= w[1].pos);
        }
        assert!(p.stops.iter().all(|st| st.pos <= SCALE));
    }
    assert_eq!(Palette::monochrome().stops.len(), 5);
    assert_eq!(Palette::wiki().stops.len(), 12);
    assert_eq!(Palette::rgb().stops.len(), 3);
}

#[test]
fn monochrome_ramp_endpoints() {
    let p = Palette::monochrome();
    assert_eq!(p.color(0), [0, 0, 0]);
    assert_eq!(p.color(1000000), [255, 255, 255]);
}
