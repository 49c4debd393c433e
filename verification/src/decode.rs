//! Image → [`Spectrogram`] decoding and column reading.
//!
//! Values are 8-bit ink levels: a pixel of luma `l` reads as ink `255 - l`
//! (white paper `0`, black ink `255`), i.e. amplitude `ink / 255`.  Each
//! frequency bin is read from the centre row of the rows that the encoder
//! assigns to it, the row given by [`spec_bin_row`].

use vstd::prelude::*;

use crate::error::PhonoPaperError;
use crate::format::TOTAL_BINS;
use crate::markers::{detect_markers, spec_detect_markers, DataBounds};
use crate::raster::{pixel_luma, Raster};
use crate::raster::spec_luma;
use crate::render::{
    fits, spec_band_height, spec_bin_row, spec_data_height, spec_image_height, spec_image_pixel,
    spec_last_bin, RenderOptions,
};
use crate::spectrogram::Spectrogram;

verus! {

/// The ink level read for bin `bin` of column `col` of an image whose data
/// area starts at row `top` and is `h` rows high.
pub open spec fn spec_read_ink(img: &Raster, top: int, h: int, col: int, bin: int) -> u8 {
    (255 - img.luma_at(col, top + spec_bin_row(bin, h))) as u8
}

/// The bounds used for an image: the given ones, or the detected ones.
pub open spec fn spec_effective_bounds(img: &Raster, bounds: Option<DataBounds>) -> Option<DataBounds> {
    match bounds {
        Some(b) => Some(b),
        None => spec_detect_markers(img),
    }
}

/// Given bounds lie inside the image, top above bottom.
pub open spec fn bounds_inside(img: &Raster, bounds: Option<DataBounds>) -> bool {
    bounds matches Some(b) ==> b.data_top <= b.data_bottom <= img.spec_height()
}

/// Fill a spectrogram of ink levels from a raw grayscale buffer.
///
/// `pixels[row * width + col]` is the gray value of row `row`, column `col`
/// of the data area; row 0 is the top (highest frequency).  Bin `b` is read
/// from row `⌊(2b + 1)·height / (2·TOTAL_BINS)⌋` (kept below `height`), and
/// gray `p` becomes ink `255 - p`.
pub fn fill_spectrogram_from_pixels(
    spec: &mut Spectrogram<u8>,
    pixels: &[u8],
    width: usize,
    height: usize,
)
    requires
        old(spec).spec_num_columns() == width,
        pixels@.len() == width * height,
        width > 0 ==> height > 0,
    ensures
        final(spec).spec_num_columns() == width,
        forall|col: int, bin: int|
            0 <= col < width && 0 <= bin < TOTAL_BINS ==> #[trigger] final(spec).at(col, bin) == (255
                - pixels@[spec_bin_row(bin, height as int) * width + col]) as u8,
{
    let ghost w = width as int;
    let _ = spec.num_columns();
    let plen = pixels.len();
    let mut col: usize = 0;
    while col < width
        invariant
            spec.spec_num_columns() == width,
            spec.values().len() == width * TOTAL_BINS,
            pixels@.len() == width * height,
            plen == pixels@.len(),
            width > 0 ==> height > 0,
            w == width,
            col <= width,
            forall|c: int, b: int|
                0 <= c < col && 0 <= b < TOTAL_BINS ==> #[trigger] spec.at(c, b) == (255
                    - pixels@[spec_bin_row(b, height as int) * w + c]) as u8,
        decreases width - col,
    {
        let mut bin: usize = 0;
        while bin < TOTAL_BINS
            invariant
                spec.spec_num_columns() == width,
                spec.values().len() == width * TOTAL_BINS,
                pixels@.len() == width * height,
                plen == pixels@.len(),
                0 < height,
                w == width,
                col < width,
                bin <= TOTAL_BINS,
                forall|c: int, b: int|
                    0 <= c < col && 0 <= b < TOTAL_BINS ==> #[trigger] spec.at(c, b) == (255
                        - pixels@[spec_bin_row(b, height as int) * w + c]) as u8,
                forall|b: int|
                    0 <= b < bin ==> #[trigger] spec.at(col as int, b) == (255 - pixels@[spec_bin_row(
                        b,
                        height as int,
                    ) * w + col]) as u8,
            decreases TOTAL_BINS - bin,
        {
            let src_row = read_row(bin, height);
            proof {
                lemma_pixel_index(src_row as int, col as int, height as int, w);
            }
            let pixel = pixels[src_row * width + col];
            let ghost prev = spec.values();
            proof {
                assert forall|c: int, b: int|
                    0 <= c < col && 0 <= b < TOTAL_BINS implies #[trigger] cell(prev, c, b) == (255
                        - pixels@[spec_bin_row(b, height as int) * w + c]) as u8 by {
                    assert(spec.at(c, b) == prev[c * TOTAL_BINS + b]);
                }
                assert forall|b: int|
                    0 <= b < bin implies #[trigger] cell(prev, col as int, b) == (255 - pixels@[spec_bin_row(
                        b,
                        height as int,
                    ) * w + col]) as u8 by {
                    assert(spec.at(col as int, b) == prev[col * TOTAL_BINS + b]);
                }
            }
            spec.set(col, bin, 255 - pixel);
            proof {
                assert forall|c: int, b: int|
                    0 <= c < col && 0 <= b < TOTAL_BINS implies #[trigger] spec.at(c, b) == (255
                        - pixels@[spec_bin_row(b, height as int) * w + c]) as u8 by {
                    lemma_cell_index_distinct(c, b, col as int, bin as int);
                    assert(spec.values()[c * TOTAL_BINS + b] == prev[c * TOTAL_BINS + b]);
                    assert(cell(prev, c, b) == prev[c * TOTAL_BINS + b]);
                }
                assert forall|b: int|
                    0 <= b < bin + 1 implies #[trigger] spec.at(col as int, b) == (255
                        - pixels@[spec_bin_row(b, height as int) * w + col]) as u8 by {
                    if b < bin {
                        lemma_cell_index_distinct(col as int, b, col as int, bin as int);
                        assert(spec.values()[col * TOTAL_BINS + b] == prev[col * TOTAL_BINS + b]);
                        assert(cell(prev, col as int, b) == prev[col * TOTAL_BINS + b]);
                    }
                }
            }
            bin += 1;
        }
        col += 1;
    }
}

/// The value of cell `(c, b)` in column-major spectrogram storage.
spec fn cell(v: Seq<u8>, c: int, b: int) -> u8 {
    v[c * TOTAL_BINS + b]
}

/// Two different cells of a spectrogram have different storage indices.
proof fn lemma_cell_index_distinct(c1: int, b1: int, c2: int, b2: int)
    requires
        0 <= c1,
        0 <= c2,
        0 <= b1 < TOTAL_BINS,
        0 <= b2 < TOTAL_BINS,
        c1 != c2 || b1 != b2,
    ensures
        c1 * TOTAL_BINS + b1 != c2 * TOTAL_BINS + b2,
{
    if c1 == c2 {
    } else if c1 < c2 {
        assert(c1 * TOTAL_BINS + TOTAL_BINS <= c2 * TOTAL_BINS) by (nonlinear_arith)
            requires
                c1 < c2,
        ;
    } else {
        assert(c2 * TOTAL_BINS + TOTAL_BINS <= c1 * TOTAL_BINS) by (nonlinear_arith)
            requires
                c2 < c1,
        ;
    }
}

/// Row-major index of `(col, row)` in a `width × height` buffer.
proof fn lemma_pixel_index(row: int, col: int, height: int, width: int)
    requires
        0 <= row < height,
        0 <= col < width,
    ensures
        0 <= row * width + col < width * height,
{
    assert(row * width + col < width * height) by (nonlinear_arith)
        requires
            0 <= row < height,
            0 <= col < width,
    ;
    assert(0 <= row * width) by (nonlinear_arith)
        requires
            0 <= row,
            0 <= col < width,
    ;
}

/// The data-area row read for bin `bin` of a data area `height > 0` rows
/// high.
fn read_row(bin: usize, height: usize) -> (r: usize)
    requires
        bin < TOTAL_BINS,
        0 < height,
    ensures
        r == spec_bin_row(bin as int, height as int),
        r < height,
{
    let h = height as u128;
    proof {
        assert((2 * bin + 1) * h <= 767 * h) by (nonlinear_arith)
            requires
                bin < 384,
                h > 0,
        ;
        assert(767 * h <= 767 * 0xFFFF_FFFF_FFFF_FFFFu128) by (nonlinear_arith)
            requires
                h <= 0xFFFF_FFFF_FFFF_FFFFu128,
        ;
    }
    let r = (2 * (bin as u128) + 1) * h / 768;
    if r <= h - 1 {
        r as usize
    } else {
        height - 1
    }
}

/// Build a spectrogram of ink levels from a raw grayscale buffer; see
/// [`fill_spectrogram_from_pixels`].
pub fn spectrogram_from_pixels(pixels: &[u8], width: usize, height: usize) -> (r: Spectrogram<u8>)
    requires
        pixels@.len() == width * height,
        width > 0 ==> height > 0,
        width * TOTAL_BINS <= usize::MAX,
    ensures
        r.spec_num_columns() == width,
        forall|col: int, bin: int|
            0 <= col < width && 0 <= bin < TOTAL_BINS ==> #[trigger] r.at(col, bin) == (255
                - pixels@[spec_bin_row(bin, height as int) * width + col]) as u8,
{
    let mut spec = Spectrogram::<u8>::new(width);
    fill_spectrogram_from_pixels(&mut spec, pixels, width, height);
    spec
}

/// Extract the audio data of a PhonoPaper image as ink levels.
///
/// When `bounds` is `None` the markers are detected first
/// ([`detect_markers`]).  The data area spans every image column and the
/// rows of the bounds; bin `b` of column `c` is the ink read at data row
/// [`spec_bin_row`]`(b, height)`.
pub fn image_to_spectrogram(image: &Raster, bounds: Option<DataBounds>) -> (r: Result<
    Spectrogram<u8>,
    PhonoPaperError,
>)
    requires
        bounds_inside(image, bounds),
        image.spec_width() * TOTAL_BINS <= usize::MAX,
    ensures
        spec_effective_bounds(image, bounds) is None ==> (r matches Err(
            PhonoPaperError::MarkerNotFound(m),
        ) && m@ == (if image.spec_width() == 0 {
            "image has zero width"@
        } else {
            "no sufficiently wide cluster of consistent marker detections found"@
        })),
        spec_effective_bounds(image, bounds) matches Some(b) ==> {
            let h = b.data_bottom - b.data_top;
            &&& ((h == 0 || image.spec_width() == 0) ==> (r matches Err(
                PhonoPaperError::InvalidFormat(m),
            ) && m@ == "Data area has zero size after marker detection."@))
            &&& ((h > 0 && image.spec_width() > 0) ==> r is Ok)
        },
        r matches Ok(s) ==> (spec_effective_bounds(image, bounds) matches Some(b) && {
            &&& s.spec_num_columns() == image.spec_width()
            &&& forall|col: int, bin: int|
                0 <= col < image.spec_width() && 0 <= bin < TOTAL_BINS ==> #[trigger] s.at(col, bin)
                    == spec_read_ink(
                    image,
                    b.data_top as int,
                    (b.data_bottom - b.data_top) as int,
                    col,
                    bin,
                )
        }),
{
    let bounds = match bounds {
        Some(b) => b,
        None => {
            let d = detect_markers(image);
            proof {
                crate::markers::lemma_detected_bounds_come_from_a_column(image);
            }
            match d {
                Ok(b) => b,
                Err(e) => {
                    return Err(e);
                },
            }
        },
    };
    let img_width = image.width();
    let data_height = bounds.height() as usize;
    let data_width = img_width as usize;
    if data_height == 0 || data_width == 0 {
        return Err(
            PhonoPaperError::InvalidFormat(
                "Data area has zero size after marker detection.".to_string(),
            ),
        );
    }
    let ghost w = data_width as int;
    let ghost top = bounds.data_top as int;
    let mut pixels: Vec<u8> = Vec::new();
    let mut row: usize = 0;
    while row < data_height
        invariant
            data_height == bounds.data_bottom - bounds.data_top,
            bounds.data_bottom <= image.spec_height(),
            data_width == image.spec_width(),
            w == data_width,
            top == bounds.data_top,
            row <= data_height,
            pixels@.len() == row * w,
            forall|r: int, c: int|
                0 <= r < row && 0 <= c < w ==> #[trigger] pixels@[r * w + c] == image.luma_at(
                    c,
                    top + r,
                ),
        decreases data_height - row,
    {
        let img_row = bounds.data_top + row as u32;
        let mut col: usize = 0;
        while col < data_width
            invariant
                data_height == bounds.data_bottom - bounds.data_top,
                bounds.data_bottom <= image.spec_height(),
                data_width == image.spec_width(),
                w == data_width,
                top == bounds.data_top,
                row < data_height,
                img_row == top + row,
                col <= data_width,
                pixels@.len() == row * w + col,
                forall|r: int, c: int|
                    0 <= r < row && 0 <= c < w ==> #[trigger] pixels@[r * w + c] == image.luma_at(
                        c,
                        top + r,
                    ),
                forall|c: int| 0 <= c < col ==> #[trigger] pixels@[row * w + c] == image.luma_at(
                    c,
                    top + row,
                ),
            decreases data_width - col,
        {
            let luma = pixel_luma(image.get_pixel(col as u32, img_row));
            let ghost prev = pixels@;
            pixels.push(luma);
            proof {
                assert forall|r: int, c: int|
                    0 <= r < row && 0 <= c < w implies #[trigger] pixels@[r * w + c] == image.luma_at(
                        c,
                        top + r,
                    ) by {
                    crate::render::lemma_row_index_below(r, c, row as int, w);
                    assert(pixels@[r * w + c] == prev[r * w + c]);
                }
            }
            col += 1;
        }
        proof {
            assert((row + 1) * w == row * w + w) by (nonlinear_arith);
        }
        row += 1;
    }
    proof {
        assert(pixels@.len() == data_width * data_height) by (nonlinear_arith)
            requires
                pixels@.len() == data_height * w,
                w == data_width,
        ;
    }
    let spec = spectrogram_from_pixels(&pixels, data_width, data_height);
    proof {
        assert forall|col: int, bin: int|
            0 <= col < w && 0 <= bin < TOTAL_BINS implies #[trigger] spec.at(col, bin)
                == spec_read_ink(image, top, data_height as int, col, bin) by {
            let r = spec_bin_row(bin, data_height as int);
            lemma_bin_row_inside(bin, data_height as int);
            assert(pixels@[r * w + col] == image.luma_at(col, top + r));
        }
    }
    Ok(spec)
}

/// The row of a bin lies inside a non-empty data area.
pub proof fn lemma_bin_row_inside(bin: int, h: int)
    requires
        0 <= bin < TOTAL_BINS,
        h > 0,
    ensures
        0 <= spec_bin_row(bin, h) < h,
{
    assert((2 * bin + 1) * h >= 0) by (nonlinear_arith)
        requires
            bin >= 0,
            h > 0,
    ;
    vstd::arithmetic::div_mod::lemma_div_pos_is_pos((2 * bin + 1) * h, 2 * TOTAL_BINS as int);
}

/// Read the ink levels of one image column, bin by bin, into `out`.
///
/// `col_x` is the image-wide column.  When `bounds` is `None` the markers
/// are detected first.  `out[b]` is the ink read at data row
/// [`spec_bin_row`]`(b, height)` of the column.
pub fn column_amplitudes_from_image_into(
    image: &Raster,
    bounds: Option<DataBounds>,
    col_x: u32,
    out: &mut [u8; TOTAL_BINS],
) -> (r: Result<(), PhonoPaperError>)
    requires
        bounds_inside(image, bounds),
    ensures
        spec_effective_bounds(image, bounds) is None ==> (r matches Err(
            PhonoPaperError::MarkerNotFound(m),
        ) && m@ == (if image.spec_width() == 0 {
            "image has zero width"@
        } else {
            "no sufficiently wide cluster of consistent marker detections found"@
        })),
        spec_effective_bounds(image, bounds) matches Some(b) ==> {
            let h = b.data_bottom - b.data_top;
            &&& (col_x >= image.spec_width() ==> (r matches Err(PhonoPaperError::InvalidFormat(m))
                && m@ == "col_x is out of range for image width"@))
            &&& ((col_x < image.spec_width() && h == 0) ==> (r matches Err(
                PhonoPaperError::InvalidFormat(m),
            ) && m@ == "Data area has zero height after marker detection."@))
            &&& ((col_x < image.spec_width() && h > 0) ==> r is Ok)
        },
        r is Ok ==> (spec_effective_bounds(image, bounds) matches Some(b) && forall|bin: int|
            0 <= bin < TOTAL_BINS ==> #[trigger] final(out)@[bin] == spec_read_ink(
                image,
                b.data_top as int,
                (b.data_bottom - b.data_top) as int,
                col_x as int,
                bin,
            )),
{
    let bounds = match bounds {
        Some(b) => b,
        None => {
            let d = detect_markers(image);
            proof {
                crate::markers::lemma_detected_bounds_come_from_a_column(image);
            }
            match d {
                Ok(b) => b,
                Err(e) => {
                    return Err(e);
                },
            }
        },
    };
    if col_x >= image.width() {
        return Err(
            PhonoPaperError::InvalidFormat("col_x is out of range for image width".to_string()),
        );
    }
    let data_height = bounds.height() as usize;
    if data_height == 0 {
        return Err(
            PhonoPaperError::InvalidFormat(
                "Data area has zero height after marker detection.".to_string(),
            ),
        );
    }
    let ghost top = bounds.data_top as int;
    let mut bin: usize = 0;
    while bin < TOTAL_BINS
        invariant
            data_height == bounds.data_bottom - bounds.data_top,
            0 < data_height,
            bounds.data_bottom <= image.spec_height(),
            col_x < image.spec_width(),
            top == bounds.data_top,
            bin <= TOTAL_BINS,
            forall|b: int| 0 <= b < bin ==> #[trigger] out@[b] == spec_read_ink(
                image,
                top,
                data_height as int,
                col_x as int,
                b,
            ),
        decreases TOTAL_BINS - bin,
    {
        let src_row = read_row(bin, data_height);
        let img_row = bounds.data_top + src_row as u32;
        let luma = pixel_luma(image.get_pixel(col_x, img_row));
        out[bin] = 255 - luma;
        bin += 1;
    }
    Ok(())
}

/// Read the ink levels of one image column, bin by bin; see
/// [`column_amplitudes_from_image_into`].  The result has
/// [`TOTAL_BINS`] entries, index 0 being the highest frequency.
pub fn column_amplitudes_from_image(image: &Raster, bounds: Option<DataBounds>, col_x: u32) -> (r:
    Result<Vec<u8>, PhonoPaperError>)
    requires
        bounds_inside(image, bounds),
    ensures
        spec_effective_bounds(image, bounds) is None ==> (r matches Err(
            PhonoPaperError::MarkerNotFound(m),
        ) && m@ == (if image.spec_width() == 0 {
            "image has zero width"@
        } else {
            "no sufficiently wide cluster of consistent marker detections found"@
        })),
        spec_effective_bounds(image, bounds) matches Some(b) ==> {
            let h = b.data_bottom - b.data_top;
            &&& (col_x >= image.spec_width() ==> (r matches Err(PhonoPaperError::InvalidFormat(m))
                && m@ == "col_x is out of range for image width"@))
            &&& ((col_x < image.spec_width() && h == 0) ==> (r matches Err(
                PhonoPaperError::InvalidFormat(m),
            ) && m@ == "Data area has zero height after marker detection."@))
            &&& ((col_x < image.spec_width() && h > 0) ==> r is Ok)
        },
        r matches Ok(v) ==> (spec_effective_bounds(image, bounds) matches Some(b) && v@.len()
            == TOTAL_BINS && forall|bin: int|
            0 <= bin < TOTAL_BINS ==> #[trigger] v@[bin] == spec_read_ink(
                image,
                b.data_top as int,
                (b.data_bottom - b.data_top) as int,
                col_x as int,
                bin,
            )),
{
    let mut out = [0u8; TOTAL_BINS];
    match column_amplitudes_from_image_into(image, bounds, col_x, &mut out) {
        Ok(()) => {},
        Err(e) => {
            return Err(e);
        },
    }
    let mut v: Vec<u8> = Vec::new();
    let mut i: usize = 0;
    while i < TOTAL_BINS
        invariant
            i <= TOTAL_BINS,
            out@.len() == TOTAL_BINS,
            v@ == out@.take(i as int),
        decreases TOTAL_BINS - i,
    {
        v.push(out[i]);
        proof {
            assert(out@.take(i + 1) =~= out@.take(i as int).push(out@[i as int]));
        }
        i += 1;
    }
    proof {
        assert(out@.take(TOTAL_BINS as int) =~= out@);
    }
    Ok(v)
}

/// Rows of different bins are strictly ordered when the data area has at
/// least one row per bin, and none is capped at the last row.
proof fn lemma_bin_rows_increase(b1: int, b2: int, h: int)
    requires
        0 <= b1 < b2 < TOTAL_BINS,
        h >= TOTAL_BINS,
    ensures
        spec_bin_row(b1, h) < spec_bin_row(b2, h),
        spec_bin_row(b2, h) == (2 * b2 + 1) * h / (2 * TOTAL_BINS as int),
{
    let d = 2 * TOTAL_BINS as int;
    let x1 = (2 * b1 + 1) * h;
    let x2 = (2 * b2 + 1) * h;
    assert(x1 + d <= x2 && x2 < h * d && 0 <= x1) by (nonlinear_arith)
        requires
            x1 == (2 * b1 + 1) * h,
            x2 == (2 * b2 + 1) * h,
            d == 768,
            0 <= b1 < b2 < 384,
            h >= 384,
    ;
    vstd::arithmetic::div_mod::lemma_div_plus_one(x1, d);
    vstd::arithmetic::div_mod::lemma_div_is_ordered(d + x1, x2, d);
    vstd::arithmetic::div_mod::lemma_div_by_multiple_is_strongly_ordered(x2, h * d, h, d);
    vstd::arithmetic::div_mod::lemma_div_by_multiple(h, d);
    assert((x1 + d) / d <= x2 / d);
    assert(x1 / d < x2 / d);
    assert(x2 / d < h);
    assert(x1 / d < h);
}

/// With no later bin on row `r`, the last bin on `r` among the first `k`
/// bins is `bin`.
proof fn lemma_last_bin_is(r: int, h: int, k: int, bin: int)
    requires
        0 <= bin < k <= TOTAL_BINS,
        spec_bin_row(bin, h) == r,
        forall|b: int| bin < b < k ==> spec_bin_row(b, h) != r,
    ensures
        spec_last_bin(r, h, k) == bin,
    decreases k,
{
    if k - 1 > bin {
        lemma_last_bin_is(r, h, k - 1, bin);
    }
}

/// Rendering ink levels and reading the rendered image back over the data
/// area gives the same ink levels, bin for bin, whenever the data area has
/// at least one row per bin and no octave lines are drawn.
///
/// `buf` is the buffer written by
/// [`crate::render::spectrogram_to_image_buf`] and `img` the gray image
/// built from it by [`Raster::from_luma`].
pub proof fn lemma_render_read_round_trip(
    o: RenderOptions,
    ink: &Spectrogram<u8>,
    buf: Seq<u8>,
    img: &Raster,
    col: int,
    bin: int,
)
    requires
        fits(o),
        !o.draw_octave_lines,
        spec_data_height(o) >= TOTAL_BINS,
        0 <= col < ink.spec_num_columns(),
        0 <= bin < TOTAL_BINS,
        img.holds_luma(ink.spec_num_columns() as u32, spec_image_height(o) as u32, buf),
        ink.spec_num_columns() <= u32::MAX,
        forall|y: int, c: int|
            0 <= y < spec_image_height(o) && 0 <= c < ink.spec_num_columns() ==> #[trigger] buf[y
                * ink.spec_num_columns() + c] == spec_image_pixel(o, ink, c, y),
    ensures
        spec_read_ink(img, spec_band_height(o), spec_data_height(o), col, bin) == ink.at(col, bin),
{
    let h = spec_data_height(o);
    let band = spec_band_height(o);
    let r = spec_bin_row(bin, h);
    let y = band + r;
    let w = ink.spec_num_columns() as int;
    lemma_bin_row_inside(bin, h);
    assert forall|b: int| bin < b < TOTAL_BINS implies spec_bin_row(b, h) != r by {
        lemma_bin_rows_increase(bin, b, h);
    }
    lemma_last_bin_is(r, h, TOTAL_BINS as int, bin);
    assert(buf[y * w + col] == spec_image_pixel(o, ink, col, y));
    let l = buf[y * w + col];
    assert(img.channel(col, y, 0) == l && img.channel(col, y, 1) == l && img.channel(col, y, 2)
        == l);
    assert(spec_luma(l, l, l) == l) by (nonlinear_arith)
        requires
            0 <= l <= 255,
            spec_luma(l, l, l) == ((l as int * 299 + l as int * 587 + l as int * 114) / 1000) as u8,
    ;
}

/// Bin `bin` of a data area `h` rows high, whatever `h`, is read from the
/// row that holds the centre of the bin's share of the area: the row `r`
/// with `r ≤ (2·bin + 1)·h / 768 < r + 1`, which always lies inside the
/// area.
pub proof fn lemma_bin_row_is_centre_row(bin: int, h: int)
    requires
        0 <= bin < TOTAL_BINS,
        h > 0,
    ensures
        0 <= spec_bin_row(bin, h) < h,
        768 * spec_bin_row(bin, h) <= (2 * bin + 1) * h < 768 * (spec_bin_row(bin, h) + 1),
{
    let x = (2 * bin + 1) * h;
    assert(0 <= x < 768 * h) by (nonlinear_arith)
        requires
            x == (2 * bin + 1) * h,
            0 <= bin < 384,
            h > 0,
    ;
    let q = x / 768;
    vstd::arithmetic::div_mod::lemma_fundamental_div_mod(x, 768);
    assert(q < h) by (nonlinear_arith)
        requires
            x == 768 * q + x % 768,
            0 <= x % 768,
            x < 768 * h,
    ;
    assert(spec_bin_row(bin, h) == q);
}

} // verus!
