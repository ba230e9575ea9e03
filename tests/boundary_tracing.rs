use std::cell::Cell;

use fractal_engine::palette::{color_for, shade, EscapeResult};
use fractal_engine::pixels::Pixels;
use fractal_engine::tracer::{evaluate_at, plan_step, render_tile, render_tile_traced, FillPlan, Tile};

/// Every pixel is in the set, as for c = 0; counts its calls.
fn all_interior(calls: &Cell<usize>) -> impl Fn(usize, usize) -> EscapeResult + '_ {
    move |_x, _y| {
        calls.set(calls.get() + 1);
        EscapeResult::Interior
    }
}

/// Interior inside a disc, escaped outside with a position-dependent index;
/// counts its calls.
fn disc(cx: i64, cy: i64, r: i64, calls: &Cell<usize>) -> impl Fn(usize, usize) -> EscapeResult + '_ {
    move |x, y| {
        calls.set(calls.get() + 1);
        let dx = x as i64 - cx;
        let dy = y as i64 - cy;
        let d = dx * dx + dy * dy;
        if d <= r * r {
            EscapeResult::Interior
        } else {
            EscapeResult::Escaped { smooth: d * 37 }
        }
    }
}

/// Everything escapes; the index follows the pixel position.
fn gradient(x: usize, y: usize) -> EscapeResult {
    EscapeResult::Escaped { smooth: (x * 50 + y * 300) as i64 }
}

fn per_pixel<F: Fn(usize, usize) -> EscapeResult>(f: &F, width: usize, height: usize) -> Vec<u8> {
    let mut out = Vec::new();
    for y in 0..height {
        for x in 0..width {
            let p = shade(f(x, y));
            out.extend_from_slice(&[p.0, p.1, p.2, p.3]);
        }
    }
    out
}

fn render_whole<F: Fn(usize, usize) -> EscapeResult>(f: &F, width: usize, height: usize, workers: usize) -> Vec<u8> {
    let mut p = Pixels::tiled(width, height, workers).unwrap();
    p.render(f);
    p.to_bytes()
}

#[test]
fn mixed_eight_by_eight_is_split_before_forced_fill() {
    assert_eq!(plan_step(true, true, 8, 8), FillPlan::Split);
    assert_eq!(plan_step(true, true, 6, 6), FillPlan::Split);
    assert_eq!(plan_step(true, true, 5, 8), FillPlan::EvaluateAll);
    assert_eq!(plan_step(true, true, 8, 5), FillPlan::EvaluateAll);
}

#[test]
fn uniform_borders_choose_flat_or_evaluated_fill() {
    assert_eq!(plan_step(true, false, 3, 3), FillPlan::FlatInterior);
    assert_eq!(plan_step(true, false, 100, 100), FillPlan::FlatInterior);
    assert_eq!(plan_step(false, true, 100, 100), FillPlan::EvaluateAll);
}

#[test]
fn interior_fill_matches_per_pixel_evaluation() {
    let calls = Cell::new(0);
    let f = all_interior(&calls);
    let expected = per_pixel(&f, 32, 32);
    calls.set(0);
    let got = render_whole(&f, 32, 32, 1);
    assert_eq!(got, expected);
    // Only the border of the single 32 by 32 rectangle is evaluated.
    assert_eq!(calls.get(), 4 * 32 - 4);
}

#[test]
fn disc_renders_exactly() {
    let calls = Cell::new(0);
    let f = disc(20, 15, 9, &calls);
    let expected = per_pixel(&f, 40, 30);
    assert_eq!(render_whole(&f, 40, 30, 1), expected);
}

#[test]
fn escaped_border_evaluates_every_pixel() {
    let calls = Cell::new(0);
    let f = disc(32, 32, 28, &calls);
    let _ = render_whole(&f, 64, 64, 1);
    assert_eq!(calls.get(), 64 * 64);
}

#[test]
fn disc_rendering_skips_interior_pixels() {
    let calls = Cell::new(0);
    // The disc crosses the image border, so the border is mixed and the
    // image is split until whole rectangles lie inside the disc.
    let f = disc(32, 32, 40, &calls);
    let _ = render_whole(&f, 64, 64, 1);
    assert!(calls.get() < 64 * 64);
}

#[test]
fn tile_count_does_not_change_output() {
    let calls = Cell::new(0);
    let f = disc(23, 17, 12, &calls);
    let single = render_whole(&f, 47, 35, 1);
    for workers in 2..12 {
        assert_eq!(render_whole(&f, 47, 35, workers), single, "workers = {}", workers);
    }
    assert_eq!(single, per_pixel(&f, 47, 35));
}

#[test]
fn escaped_everywhere_is_evaluated_per_pixel() {
    let f = gradient;
    assert_eq!(render_whole(&f, 19, 13, 3), per_pixel(&f, 19, 13));
}

#[test]
fn tile_starting_mid_row_covers_its_pixels_only() {
    let f = gradient;
    let width = 10;
    let mut tile = Tile::new(5, 37);
    render_tile(&f, width, &mut tile);
    assert!(tile.is_well_formed());
    assert_eq!(tile.data.len(), 4 * 32);
    let all = per_pixel(&f, 10, 4);
    assert_eq!(tile.data[..], all[4 * 5..4 * 37]);
}

#[test]
fn empty_tile_is_left_alone() {
    let f = gradient;
    let mut tile = Tile::new(7, 7);
    render_tile(&f, 3, &mut tile);
    assert!(tile.data.is_empty());
    assert_eq!((tile.start, tile.end), (7, 7));
}

#[test]
fn single_row_image_renders_exactly() {
    let calls = Cell::new(0);
    let f = disc(10, 0, 4, &calls);
    assert_eq!(render_whole(&f, 25, 1, 4), per_pixel(&f, 25, 1));
    assert_eq!(render_whole(&f, 1, 25, 4), per_pixel(&f, 1, 25));
}

/// Interior everywhere but one pixel.
fn pinhole(x: usize, y: usize) -> EscapeResult {
    if (x, y) == (3, 3) {
        EscapeResult::Escaped { smooth: 0 }
    } else {
        EscapeResult::Interior
    }
}

#[test]
fn hole_inside_interior_border_is_filled_flat() {
    let one = render_whole(&pinhole, 8, 8, 1);
    let i = 4 * (3 * 8 + 3);
    assert_eq!(&one[i..i + 4], &[0, 0, 0, 255]);
    // One tile per row: every rectangle is one pixel high and nothing is
    // filled flat, so the hole shows.
    let rows = render_whole(&pinhole, 8, 8, 8);
    let c = color_for(0);
    assert_eq!(&rows[i..i + 4], &[c.0, c.1, c.2, c.3]);
    assert_eq!(rows, per_pixel(&pinhole, 8, 8));
}

#[test]
fn evaluate_at_calls_the_evaluator() {
    assert_eq!(evaluate_at(&gradient, 2, 3), EscapeResult::Escaped { smooth: 1000 });
    assert_eq!(evaluate_at(&pinhole, 3, 3), EscapeResult::Escaped { smooth: 0 });
}

#[test]
fn traced_rendering_matches_plain_rendering() {
    let calls = Cell::new(0);
    let f = disc(12, 9, 11, &calls);
    let mut a = Tile::new(3, 200);
    let mut b = Tile::new(3, 200);
    render_tile(&f, 24, &mut a);
    let first = calls.get();
    calls.set(0);
    let _log = render_tile_traced(&f, 24, &mut b);
    assert_eq!(a.data, b.data);
    assert_eq!(calls.get(), first);
    // No pixel is evaluated twice.
    assert!(first <= 197);
}
