use mandelbrot::render::{bands, intensity, render, render_band, render_bands, Band};

#[test]
fn bands_uneven_split() {
    // 10 rows among 8 workers: 10 / 8 + 1 = 2 rows per band, five bands.
    let b = bands(10, 8);
    assert_eq!(
        b,
        vec![
            Band { top: 0, height: 2 },
            Band { top: 2, height: 2 },
            Band { top: 4, height: 2 },
            Band { top: 6, height: 2 },
            Band { top: 8, height: 2 },
        ]
    );
}

#[test]
fn bands_truncated_last_band() {
    // 8 rows among 4 workers: 8 / 4 + 1 = 3 rows per band; 3, 3, then 2.
    let b = bands(8, 4);
    assert_eq!(
        b,
        vec![
            Band { top: 0, height: 3 },
            Band { top: 3, height: 3 },
            Band { top: 6, height: 2 },
        ]
    );
}

#[test]
fn bands_more_workers_than_rows() {
    // A worker count above the row count: single-row bands, no crash, and
    // the bands still cover every row exactly once.
    let b = bands(4, 16);
    assert_eq!(
        b,
        vec![
            Band { top: 0, height: 1 },
            Band { top: 1, height: 1 },
            Band { top: 2, height: 1 },
            Band { top: 3, height: 1 },
        ]
    );
    let mut covered = vec![false; 4];
    for band in &b {
        for row in band.top..band.top + band.height {
            assert!(!covered[row]);
            covered[row] = true;
        }
    }
    assert!(covered.iter().all(|&c| c));
}

#[test]
fn bands_no_rows() {
    assert_eq!(bands(0, 3), vec![]);
}

#[test]
fn bands_single_worker() {
    // One worker, 2 rows: 2 / 1 + 1 = 3 rows per band, one band of all rows.
    assert_eq!(bands(2, 1), vec![Band { top: 0, height: 2 }]);
}

#[test]
fn render_fills_row_major() {
    let mut pixels = vec![0u8; 6];
    render(&mut pixels, (3, 2), &|col: usize, row: usize| (10 * row + col) as u8);
    assert_eq!(pixels, vec![0, 1, 2, 10, 11, 12]);
}

#[test]
fn render_band_uses_global_rows() {
    // A band starting at row 5 shades with full-raster row numbers.
    let mut band_buf = vec![0u8; 4];
    render_band(&mut band_buf, 2, 5, 2, &|col: usize, row: usize| (10 * row + col) as u8);
    assert_eq!(band_buf, vec![50, 51, 60, 61]);
}

#[test]
fn render_twice_is_identical() {
    let shade = |col: usize, row: usize| (col * 31 + row * 17) as u8;
    let mut first = vec![0u8; 35];
    let mut second = vec![0u8; 35];
    render(&mut first, (7, 5), &shade);
    render(&mut second, (7, 5), &shade);
    assert_eq!(first, second);
}

#[test]
fn banded_render_equals_whole_render() {
    let shade = |col: usize, row: usize| (col * 7 + row * 13) as u8;
    let mut whole = vec![0u8; 11 * 9];
    render(&mut whole, (11, 9), &shade);
    for workers in 1..=12 {
        let banded = render_bands((11, 9), workers, &shade);
        assert_eq!(banded, whole, "worker count {workers}");
    }
}

#[test]
fn intensity_values() {
    assert_eq!(intensity(None), 0);
    assert_eq!(intensity(Some(0)), 255);
    assert_eq!(intensity(Some(1)), 254);
    assert_eq!(intensity(Some(254)), 1);
    assert_eq!(intensity(Some(255)), 0);
}
