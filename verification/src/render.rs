//! The raster core of the escape-time renderer: partitioning the rows of a
//! raster into disjoint horizontal bands, shading loops that fill a raster
//! through a caller-supplied pixel function, and uniqueness of the raster
//! that a deterministic shading function produces.

use vstd::prelude::*;

verus! {

/// Number of rows offered to each band when `height` rows are split among
/// `threads` workers: one more than the integer quotient, so that the bands
/// always cover every row without an exact remainder calculation.
pub open spec fn rows_per_band(height: int, threads: int) -> int
    recommends
        threads >= 1,
{
    height / threads + 1
}

/// A contiguous run of raster rows `[top, top + height)` handed to one
/// worker.
#[derive(Clone, Copy, Debug, PartialEq, Eq, Structural)]
pub struct Band {
    pub top: usize,
    pub height: usize,
}

/// Splits `height` rows into consecutive bands of `rows_per_band(height,
/// threads)` rows each, the last band taking whatever remains. Every band
/// holds at least one row; a worker count above the row count simply
/// yields fewer bands than workers.
pub fn bands(height: usize, threads: usize) -> (r: Vec<Band>)
    requires
        threads >= 1,
        height < usize::MAX,
    ensures
        forall|k: int|
            0 <= k ==> (k < r@.len() <==> #[trigger] (k * rows_per_band(
                height as int,
                threads as int,
            )) < height),
        forall|k: int|
            0 <= k < r@.len() ==> (#[trigger] r@[k]).top == k * rows_per_band(height as int, threads as int),
        forall|k: int|
            0 <= k < r@.len() ==> (#[trigger] r@[k]).height == ({
                let rpb = rows_per_band(height as int, threads as int);
                if (k + 1) * rpb <= height {
                    rpb
                } else {
                    height - k * rpb
                }
            }),
        forall|k: int| 0 <= k < r@.len() ==> 1 <= (#[trigger] r@[k]).height,
        forall|k: int|
            0 <= k < r@.len() ==> (#[trigger] r@[k]).top + r@[k].height <= height,
{
    let rpb: usize = height / threads + 1;
    let mut r: Vec<Band> = Vec::new();
    let mut top: usize = 0;
    proof {
        assert(r@.len() == 0);
        assert(0int * (rpb as int) == 0) by (nonlinear_arith);
    }
    while top < height
        invariant
            threads >= 1,
            height < usize::MAX,
            rpb == rows_per_band(height as int, threads as int),
            rpb >= 1,
            top == (if r@.len() * (rpb as int) <= height {
                r@.len() * (rpb as int)
            } else {
                height as int
            }),
            forall|k: int| 0 <= k < r@.len() ==> (#[trigger] r@[k]).top == k * (rpb as int),
            forall|k: int|
                0 <= k < r@.len() ==> (#[trigger] r@[k]).height == (if (k + 1) * (rpb as int)
                    <= height {
                    rpb as int
                } else {
                    height - k * (rpb as int)
                }),
            forall|k: int| 0 <= k < r@.len() ==> 1 <= (#[trigger] r@[k]).height,
            forall|k: int| 0 <= k < r@.len() ==> #[trigger] (k * (rpb as int)) < height,
        decreases height - top,
    {
        let ghost n0 = r@.len() as int;
        proof {
            assert(n0 * (rpb as int) + rpb as int == (n0 + 1) * (rpb as int)) by (nonlinear_arith);
            // top < height rules out the exhausted case, so top == n0 * rpb.
            assert(top == n0 * (rpb as int));
        }
        let h: usize = if height - top < rpb {
            height - top
        } else {
            rpb
        };
        r.push(Band { top, height: h });
        top = top + h;
    }
    proof {
        let rpbi = rows_per_band(height as int, threads as int);
        let n = r@.len() as int;
        assert forall|k: int| 0 <= k && !(k < n) implies !(#[trigger] (k * rpbi) < height) by {
            assert(n * rpbi >= top) by {
                if n * rpbi <= height {
                } else {
                }
            }
            assert(k * rpbi >= n * rpbi) by (nonlinear_arith)
                requires
                    k >= n,
                    rpbi >= 1,
            ;
        }
        assert forall|k: int| 0 <= k < r@.len() implies (#[trigger] r@[k]).top + r@[k].height
            <= height by {
            assert((k + 1) * rpbi == k * rpbi + rpbi) by (nonlinear_arith);
        }
    }
    r
}

/// Every raster row lies in exactly one band: row `row` falls in band
/// `row / rows_per_band(height, threads)`, and in no other, whatever the
/// worker count.
pub proof fn lemma_bands_cover(height: int, threads: int, row: int)
    requires
        threads >= 1,
        0 <= row < height,
    ensures
        ({
            let rpb = rows_per_band(height, threads);
            let k = row / rpb;
            &&& 0 <= k
            &&& k * rpb < height
            &&& k * rpb <= row < k * rpb + rpb
            &&& forall|j: int|
                0 <= j && j != k && #[trigger] (j * rpb) < height ==> !(j * rpb <= row < j * rpb
                    + rpb)
        }),
{
    let rpb = rows_per_band(height, threads);
    assert(rpb >= 1) by {
        vstd::arithmetic::div_mod::lemma_div_pos_is_pos(height, threads);
    }
    let k = row / rpb;
    vstd::arithmetic::div_mod::lemma_fundamental_div_mod(row, rpb);
    vstd::arithmetic::div_mod::lemma_mod_bound(row, rpb);
    assert(0 <= k && k * rpb <= row && row < k * rpb + rpb) by (nonlinear_arith)
        requires
            row == rpb * k + row % rpb,
            0 <= row % rpb < rpb,
            0 <= row,
            rpb >= 1,
    ;
    assert forall|j: int| 0 <= j && j != k && #[trigger] (j * rpb) < height implies !(j * rpb <= row
        < j * rpb + rpb) by {
        assert(!(j * rpb <= row < j * rpb + rpb)) by (nonlinear_arith)
            requires
                k * rpb <= row < k * rpb + rpb,
                j != k,
                rpb >= 1,
        ;
    }
}

/// The fixed orbit-iteration limit of the escape-time evaluation.
pub const ESCAPE_LIMIT: usize = 255;

/// The intensity byte a pixel receives for an escape result: black for a
/// point that never escaped, `255 - count` for one whose orbit left the
/// threshold after `count` steps, so the fastest escapes render brightest.
pub open spec fn intensity_spec(escape: Option<usize>) -> u8 {
    match escape {
        Option::None => 0,
        Option::Some(count) => (255 - count) as u8,
    }
}

/// Packs an escape result into a grayscale intensity byte.
pub fn intensity(escape: Option<usize>) -> (v: u8)
    requires
        escape matches Some(count) ==> count <= 255,
    ensures
        v == intensity_spec(escape),
{
    match escape {
        None => 0,
        Some(count) => 255 - (count as u8),
    }
}

/// Shades one band of rows `[top, top + band_height)` of a raster `width`
/// pixels wide into `pixels`, row-major: each byte of the band buffer
/// receives a value that the shading function admits for its own pixel,
/// the shading function being applied to full-raster coordinates.
pub fn render_band<F: Fn(usize, usize) -> u8>(
    pixels: &mut Vec<u8>,
    width: usize,
    top: usize,
    band_height: usize,
    shade: &F,
)
    requires
        old(pixels)@.len() == width * band_height,
        width * band_height <= usize::MAX,
        top + band_height <= usize::MAX,
        forall|c: usize, r: usize|
            c < width && top <= r < top + band_height ==> call_requires(*shade, (c, r)),
    ensures
        final(pixels)@.len() == old(pixels)@.len(),
        forall|r: int, c: int|
            0 <= r < band_height && 0 <= c < width ==> call_ensures(
                *shade,
                ((c as usize), ((top + r) as usize)),
                #[trigger] final(pixels)@[r * width + c],
            ),
{
    let mut row: usize = 0;
    while row < band_height
        invariant
            row <= band_height,
            width * band_height <= usize::MAX,
            top + band_height <= usize::MAX,
            pixels@.len() == width * band_height,
            forall|c: usize, r: usize|
                c < width && top <= r < top + band_height ==> call_requires(*shade, (c, r)),
            forall|i: int, j: int|
                0 <= i < row && 0 <= j < width ==> call_ensures(
                    *shade,
                    ((j as usize), ((top + i) as usize)),
                    #[trigger] pixels@[i * width + j],
                ),
        decreases band_height - row,
    {
        let mut col: usize = 0;
        while col < width
            invariant
                row < band_height,
                col <= width,
                width * band_height <= usize::MAX,
                top + band_height <= usize::MAX,
                pixels@.len() == width * band_height,
                forall|c: usize, r: usize|
                    c < width && top <= r < top + band_height ==> call_requires(*shade, (c, r)),
                forall|i: int, j: int|
                    0 <= i < row && 0 <= j < width ==> call_ensures(
                        *shade,
                        ((j as usize), ((top + i) as usize)),
                        #[trigger] pixels@[i * width + j],
                    ),
                forall|j: int|
                    0 <= j < col ==> call_ensures(
                        *shade,
                        ((j as usize), ((top + row) as usize)),
                        #[trigger] pixels@[row * width + j],
                    ),
            decreases width - col,
        {
            let v: u8 = shade(col, top + row);
            proof {
                assert(row * width + col < width * band_height && row * width + width <= width
                    * band_height && 0 <= row * width) by (nonlinear_arith)
                    requires
                        row < band_height,
                        col < width,
                ;
            }
            let idx: usize = row * width + col;
            let ghost before = pixels@;
            pixels.set(idx, v);
            proof {
                assert forall|i: int, j: int| 0 <= i < row && 0 <= j < width implies call_ensures(
                    *shade,
                    ((j as usize), ((top + i) as usize)),
                    #[trigger] pixels@[i * width + j],
                ) by {
                    assert(i * width + j < row * width) by (nonlinear_arith)
                        requires
                            0 <= i < row,
                            0 <= j < width,
                    ;
                    assert(pixels@[i * width + j] == before[i * width + j]);
                }
            }
            col = col + 1;
        }
        row = row + 1;
    }
}

/// Shades the whole raster, row-major: every pixel of `pixels` receives a
/// value that the shading function admits for its coordinates. The buffer
/// length must equal `width * height`, as a band that starts at row zero
/// and spans every row.
pub fn render<F: Fn(usize, usize) -> u8>(
    pixels: &mut Vec<u8>,
    bounds: (usize, usize),
    shade: &F,
)
    requires
        old(pixels)@.len() == bounds.0 * bounds.1,
        bounds.0 * bounds.1 <= usize::MAX,
        forall|c: usize, r: usize| c < bounds.0 && r < bounds.1 ==> call_requires(*shade, (c, r)),
    ensures
        final(pixels)@.len() == old(pixels)@.len(),
        forall|r: int, c: int|
            0 <= r < bounds.1 && 0 <= c < bounds.0 ==> call_ensures(
                *shade,
                ((c as usize), (r as usize)),
                #[trigger] final(pixels)@[r * bounds.0 + c],
            ),
{
    render_band(pixels, bounds.0, 0, bounds.1, shade);
}

/// The scheduler's sequential shape: splits the rows into consecutive
/// bands, shades each band into a buffer of its own against the full
/// raster's coordinates, and assembles the bands in order. The assembled
/// raster satisfies exactly the contract of one whole `render`, whatever
/// the worker count.
pub fn render_bands<F: Fn(usize, usize) -> u8>(
    bounds: (usize, usize),
    threads: usize,
    shade: &F,
) -> (pixels: Vec<u8>)
    requires
        threads >= 1,
        bounds.1 < usize::MAX,
        bounds.0 * bounds.1 <= usize::MAX,
        forall|c: usize, r: usize| c < bounds.0 && r < bounds.1 ==> call_requires(*shade, (c, r)),
    ensures
        pixels@.len() == bounds.0 * bounds.1,
        forall|r: int, c: int|
            0 <= r < bounds.1 && 0 <= c < bounds.0 ==> call_ensures(
                *shade,
                ((c as usize), (r as usize)),
                #[trigger] pixels@[r * bounds.0 + c],
            ),
{
    let width: usize = bounds.0;
    let height: usize = bounds.1;
    let parts: Vec<Band> = bands(height, threads);
    let mut pixels: Vec<u8> = Vec::new();
    let mut i: usize = 0;
    let mut rows: usize = 0;
    let ghost rpb: int = rows_per_band(height as int, threads as int);
    proof {
        assert(0int * rpb == 0) by (nonlinear_arith);
        assert(0int * (width as int) == 0) by (nonlinear_arith);
        if parts@.len() == 0 {
            assert(!(0int * rpb < height));
        }
    }
    while i < parts.len()
        invariant
            width == bounds.0,
            height == bounds.1,
            threads >= 1,
            height < usize::MAX,
            width * height <= usize::MAX,
            rpb == rows_per_band(height as int, threads as int),
            i <= parts@.len(),
            forall|k: int| 0 <= k ==> (k < parts@.len() <==> #[trigger] (k * rpb) < height),
            forall|k: int| 0 <= k < parts@.len() ==> (#[trigger] parts@[k]).top == k * rpb,
            forall|k: int|
                0 <= k < parts@.len() ==> (#[trigger] parts@[k]).height == (if (k + 1) * rpb
                    <= height {
                    rpb
                } else {
                    height - k * rpb
                }),
            forall|k: int|
                0 <= k < parts@.len() ==> (#[trigger] parts@[k]).top + parts@[k].height <= height,
            rows == (if i < parts@.len() {
                (#[trigger] parts@[i as int]).top as int
            } else {
                height as int
            }),
            rows <= height,
            pixels@.len() == rows * width,
            forall|c: usize, r: usize|
                c < bounds.0 && r < bounds.1 ==> call_requires(*shade, (c, r)),
            forall|r: int, c: int|
                0 <= r < rows && 0 <= c < width ==> call_ensures(
                    *shade,
                    ((c as usize), (r as usize)),
                    #[trigger] pixels@[r * width + c],
                ),
        decreases parts@.len() - i,
    {
        let band: Band = parts[i];
        let bh: usize = band.height;
        proof {
            assert(bh * width <= height * width && height * width == width * height && width * bh
                == bh * width) by (nonlinear_arith)
                requires
                    bh <= height,
                    width >= 0,
            ;
        }
        let mut tmp: Vec<u8> = vec![0u8; bh * width];
        render_band(&mut tmp, width, band.top, bh, shade);
        let ghost before = pixels@;
        let ghost shaded = tmp@;
        pixels.append(&mut tmp);
        proof {
            assert((rows + bh) * width == rows * width + bh * width) by (nonlinear_arith);
            assert forall|r: int, c: int| 0 <= r < rows + bh && 0 <= c < width implies call_ensures(
                *shade,
                ((c as usize), (r as usize)),
                #[trigger] pixels@[r * width + c],
            ) by {
                if r < rows {
                    assert(0 <= r * width + c < rows * width) by (nonlinear_arith)
                        requires
                            0 <= r < rows,
                            0 <= c < width,
                    ;
                    assert(pixels@[r * width + c] == before[r * width + c]);
                } else {
                    let loc = r - rows;
                    assert(r * width + c == rows * width + (loc * width + c) && 0 <= loc * width
                        + c < bh * width) by (nonlinear_arith)
                        requires
                            0 <= loc < bh,
                            0 <= c < width,
                            r == rows + loc,
                    ;
                    assert(pixels@[r * width + c] == shaded[loc * width + c]);
                    assert(call_ensures(
                        *shade,
                        ((c as usize), ((band.top + loc) as usize)),
                        shaded[loc * width + c],
                    ));
                }
            }
            assert((i as int + 1) * rpb == i as int * rpb + rpb) by (nonlinear_arith);
        }
        rows = rows + bh;
        i = i + 1;
    }
    proof {
        assert(height * width == width * height) by (nonlinear_arith);
    }
    pixels
}

/// Two rasters of the same dimensions whose pixels each carry the value of
/// one per-pixel map are identical byte for byte. This is the heart of why
/// a render is repeatable and why banded and whole renders agree: the
/// raster is a function of the per-pixel map alone.
pub proof fn lemma_raster_unique(
    m: spec_fn(int, int) -> u8,
    a: Seq<u8>,
    b: Seq<u8>,
    width: int,
    height: int,
)
    requires
        width >= 0,
        height >= 0,
        a.len() == width * height,
        b.len() == width * height,
        forall|r: int, c: int|
            0 <= r < height && 0 <= c < width ==> #[trigger] a[r * width + c] == m(c, r),
        forall|r: int, c: int|
            0 <= r < height && 0 <= c < width ==> #[trigger] b[r * width + c] == m(c, r),
    ensures
        a == b,
{
    assert forall|i: int| 0 <= i < a.len() implies a[i] == b[i] by {
        assert(width > 0) by (nonlinear_arith)
            requires
                0 <= i < width * height,
                width >= 0,
        ;
        let r = i / width;
        let c = i % width;
        vstd::arithmetic::div_mod::lemma_fundamental_div_mod(i, width);
        vstd::arithmetic::div_mod::lemma_mod_bound(i, width);
        assert(0 <= r < height && i == r * width + c) by (nonlinear_arith)
            requires
                i == width * r + c,
                0 <= c < width,
                0 <= i < width * height,
                width > 0,
        ;
        assert(a[r * width + c] == m(c, r));
        assert(b[r * width + c] == m(c, r));
    }
    assert(a =~= b);
}

/// A shading function that admits only the values of one per-pixel map is
/// deterministic, and then any two rasters that satisfy the shading
/// contract — two repeated renders, or a banded and a whole render — agree
/// byte for byte.
pub proof fn lemma_deterministic_renders_agree<F: Fn(usize, usize) -> u8>(
    shade: F,
    m: spec_fn(int, int) -> u8,
    a: Seq<u8>,
    b: Seq<u8>,
    width: int,
    height: int,
)
    requires
        0 <= width <= usize::MAX,
        0 <= height <= usize::MAX,
        a.len() == width * height,
        b.len() == width * height,
        forall|c: usize, r: usize, v: u8|
            call_ensures(shade, (c, r), v) ==> v == m(c as int, r as int),
        forall|r: int, c: int|
            0 <= r < height && 0 <= c < width ==> call_ensures(
                shade,
                ((c as usize), (r as usize)),
                #[trigger] a[r * width + c],
            ),
        forall|r: int, c: int|
            0 <= r < height && 0 <= c < width ==> call_ensures(
                shade,
                ((c as usize), (r as usize)),
                #[trigger] b[r * width + c],
            ),
    ensures
        a == b,
{
    assert forall|r: int, c: int|
        0 <= r < height && 0 <= c < width implies #[trigger] a[r * width + c] == m(c, r) && b[r
        * width + c] == m(c, r) by {
        assert(call_ensures(shade, ((c as usize), (r as usize)), a[r * width + c]));
        assert(call_ensures(shade, ((c as usize), (r as usize)), b[r * width + c]));
    }
    lemma_raster_unique(m, a, b, width, height);
}

} // verus!
