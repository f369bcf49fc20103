use fractal::fractal::escape_iterate;
use fractal::render::{render, render_rows, rows_per_band, RenderError};

type C = (f64, f64);

fn pixel_to_point(bounds: (usize, usize), pixel: (usize, usize), ul: C, lr: C) -> C {
    let (width, height) = (lr.0 - ul.0, ul.1 - lr.1);
    (
        ul.0 + pixel.0 as f64 * width / bounds.0 as f64,
        ul.1 - pixel.1 as f64 * height / bounds.1 as f64,
    )
}

fn mandelbrot_pixel(bounds: (usize, usize), col: usize, row: usize) -> (u32, C) {
    let c = pixel_to_point(bounds, (col, row), (-2.0, 1.25), (0.5, -1.25));
    escape_iterate(
        (0.0, 0.0),
        96,
        move |z: C| (z.0 * z.0 - z.1 * z.1 + c.0, 2.0 * z.0 * z.1 + c.1),
        |_z: C, nz: C| nz.0 * nz.0 + nz.1 * nz.1 > 4.0,
    )
}

#[test]
fn render_fills_row_major() {
    let mut out: Vec<usize> = vec![0; 6];
    let res = render(&mut out, (3, 2), 2, |c: usize, r: usize| 10 * r + c);
    assert_eq!(res, Ok(()));
    assert_eq!(out, vec![0, 1, 2, 10, 11, 12]);
}

#[test]
fn render_rows_computes_one_band_at_global_coordinates() {
    let band = render_rows(4, 2, 2, |c: usize, r: usize| 10 * r + c);
    assert_eq!(band, vec![20, 21, 22, 23, 30, 31, 32, 33]);
}

#[test]
fn banded_render_is_band_count_invariant() {
    // The core correctness invariant of the parallel decomposition: one
    // band, a few bands, or one band per row must give bit-identical
    // buffers.
    let bounds = (16, 12);
    let eval = |c: usize, r: usize| mandelbrot_pixel((16, 12), c, r);
    let mut one: Vec<(u32, C)> = vec![(0, (0.0, 0.0)); 192];
    let mut two: Vec<(u32, C)> = vec![(0, (0.0, 0.0)); 192];
    let mut five: Vec<(u32, C)> = vec![(0, (0.0, 0.0)); 192];
    let mut many: Vec<(u32, C)> = vec![(0, (0.0, 0.0)); 192];
    assert_eq!(render(&mut one, bounds, 1, eval), Ok(()));
    assert_eq!(render(&mut two, bounds, 2, eval), Ok(()));
    assert_eq!(render(&mut five, bounds, 5, eval), Ok(()));
    assert_eq!(render(&mut many, bounds, 12, eval), Ok(()));
    assert_eq!(one, two);
    assert_eq!(one, five);
    assert_eq!(one, many);
}

#[test]
fn render_is_deterministic_across_runs() {
    let bounds = (9, 7);
    let eval = |c: usize, r: usize| mandelbrot_pixel((9, 7), c, r);
    let mut first: Vec<(u32, C)> = vec![(0, (0.0, 0.0)); 63];
    let mut second: Vec<(u32, C)> = vec![(0, (0.0, 0.0)); 63];
    assert_eq!(render(&mut first, bounds, 3, eval), Ok(()));
    assert_eq!(render(&mut second, bounds, 3, eval), Ok(()));
    assert_eq!(first, second);
}

#[test]
fn render_rejects_a_mismatched_buffer() {
    let eval = |c: usize, r: usize| 10 * r + c;
    let mut short: Vec<usize> = vec![7; 5];
    assert_eq!(
        render(&mut short, (3, 2), 1, eval),
        Err(RenderError::PreconditionViolation)
    );
    assert_eq!(short, vec![7; 5], "a refused render must leave the buffer untouched");
    let mut long: Vec<usize> = vec![7; 9];
    assert_eq!(
        render(&mut long, (3, 2), 1, eval),
        Err(RenderError::PreconditionViolation)
    );
    assert_eq!(long, vec![7; 9]);
}

#[test]
fn render_rejects_zero_bounds() {
    let eval = |c: usize, r: usize| 10 * r + c;
    let mut empty: Vec<usize> = Vec::new();
    assert_eq!(
        render(&mut empty, (0, 5), 1, eval),
        Err(RenderError::PreconditionViolation)
    );
    assert_eq!(
        render(&mut empty, (5, 0), 1, eval),
        Err(RenderError::PreconditionViolation)
    );
    let mut out: Vec<usize> = vec![0; 4];
    assert_eq!(
        render(&mut out, (2, 2), 0, eval),
        Err(RenderError::PreconditionViolation)
    );
    assert_eq!(out, vec![0; 4]);
    assert_ne!(RenderError::WorkerFault, RenderError::PreconditionViolation);
}

#[test]
fn rows_per_band_rounds_up() {
    assert_eq!(rows_per_band(750, 8), 94);
    assert_eq!(rows_per_band(750, 750), 1);
    assert_eq!(rows_per_band(750, 1000), 1);
    assert_eq!(rows_per_band(8, 3), 3);
    assert_eq!(rows_per_band(9, 3), 3);
    assert_eq!(rows_per_band(1, 1), 1);
}

#[test]
fn render_accepts_more_bands_than_rows() {
    let mut out: Vec<usize> = vec![0; 4];
    let res = render(&mut out, (2, 2), 64, |c: usize, r: usize| 10 * r + c);
    assert_eq!(res, Ok(()));
    assert_eq!(out, vec![0, 1, 10, 11]);
}
