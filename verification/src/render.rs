//! Rendering a [`Spectrogram`] of ink levels into a PhonoPaper pixel image.
//!
//! The image is, top to bottom: the top marker band
//! (`margin | thin | gap | thin | gap | thick | gap | thin`), the data area
//! of `8 × px_per_octave` rows, and the bottom marker band (the top band
//! mirrored, so the thin stripe is innermost on both sides).  Pixel value
//! `255` is white paper and `0` black ink.

use vstd::prelude::*;

use crate::format::TOTAL_BINS;
use crate::spectrogram::Spectrogram;

verus! {

/// Geometry of a rendered PhonoPaper image.
#[derive(Debug, Clone, Copy)]
pub struct RenderOptions {
    /// Height (in pixels) of the data area per octave; the data area is
    /// `px_per_octave * 8` rows high.  Defaults to `90`.
    pub px_per_octave: u32,
    /// Height (in pixels) of each thin stripe in the marker bands.  Defaults
    /// to `9`.
    pub thin_stripe: u32,
    /// Height (in pixels) of the thick stripe in the marker bands.  Should be
    /// at least three times `thin_stripe`.  Defaults to `39`.
    pub thick_stripe: u32,
    /// Height (in pixels) of the white gap between marker stripes.  Defaults
    /// to `10`.
    pub marker_gap: u32,
    /// Height (in pixels) of the white margin above/below the marker bands.
    /// Defaults to `88`.
    pub margin: u32,
    /// Whether to draw light-gray (luma 200) octave separator lines.
    /// Defaults to `false`: decoders read such lines as a constant hum.
    pub draw_octave_lines: bool,
}

/// The default options: 90 rows per octave, thin stripes of 9 rows, a
/// thick stripe of 39, gaps of 10 and margins of 88, no octave lines.
pub open spec fn default_options() -> RenderOptions {
    RenderOptions {
        px_per_octave: 90,
        thin_stripe: 9,
        thick_stripe: 39,
        marker_gap: 10,
        margin: 88,
        draw_octave_lines: false,
    }
}

impl Default for RenderOptions {
    fn default() -> (r: Self)
        ensures
            r == default_options(),
    {
        RenderOptions {
            px_per_octave: 90,
            thin_stripe: 9,
            thick_stripe: 39,
            marker_gap: 10,
            margin: 88,
            draw_octave_lines: false,
        }
    }
}

/// Height of one marker band: `margin | thin | gap | thin | gap | thick |
/// gap | thin`.
pub open spec fn spec_band_height(o: RenderOptions) -> int {
    o.margin + 3 * o.thin_stripe + 3 * o.marker_gap + o.thick_stripe
}

/// Height of the data area: eight octaves.
pub open spec fn spec_data_height(o: RenderOptions) -> int {
    8 * o.px_per_octave
}

/// Height of the whole image: two bands around the data area.
pub open spec fn spec_image_height(o: RenderOptions) -> int {
    2 * spec_band_height(o) + spec_data_height(o)
}

/// The image height of these options fits in a `u32`.
pub open spec fn fits(o: RenderOptions) -> bool {
    spec_image_height(o) <= u32::MAX
}

/// The eight stripes of a marker band from its outer edge inward, as
/// `(luma, height)`.
pub open spec fn spec_marker_rows(o: RenderOptions) -> Seq<(u8, u32)> {
    seq![
        (255u8, o.margin),
        (0u8, o.thin_stripe),
        (255u8, o.marker_gap),
        (0u8, o.thin_stripe),
        (255u8, o.marker_gap),
        (0u8, o.thick_stripe),
        (255u8, o.marker_gap),
        (0u8, o.thin_stripe),
    ]
}

/// Luma of the band row at distance `d` from the band's outer edge.
pub open spec fn spec_stripe_luma(o: RenderOptions, d: int) -> u8 {
    let m = o.margin as int;
    let t = o.thin_stripe as int;
    let g = o.marker_gap as int;
    let k = o.thick_stripe as int;
    if d < m {
        255
    } else if d < m + t {
        0
    } else if d < m + t + g {
        255
    } else if d < m + 2 * t + g {
        0
    } else if d < m + 2 * t + 2 * g {
        255
    } else if d < m + 2 * t + 2 * g + k {
        0
    } else if d < m + 2 * t + 3 * g + k {
        255
    } else {
        0
    }
}

/// The data-area row of frequency bin `bin` in a data area `h` rows high:
/// the centre of the rows that map to the bin,
/// `⌊(2·bin + 1)·h / (2·TOTAL_BINS)⌋`, kept inside the area.
pub open spec fn spec_bin_row(bin: int, h: int) -> int {
    let r = (2 * bin + 1) * h / (2 * TOTAL_BINS as int);
    if r <= h - 1 {
        r
    } else {
        h - 1
    }
}

/// The last of the first `k` bins whose row is `r`, or `-1`.
pub open spec fn spec_last_bin(r: int, h: int, k: int) -> int
    decreases k,
{
    if k <= 0 {
        -1
    } else if spec_bin_row(k - 1, h) == r {
        k - 1
    } else {
        spec_last_bin(r, h, k - 1)
    }
}

/// Row `y` is one of the seven light-gray octave separator rows.
pub open spec fn spec_octave_row(o: RenderOptions, y: int) -> bool {
    let b = spec_band_height(o);
    let p = o.px_per_octave as int;
    ||| y == b + p
    ||| y == b + 2 * p
    ||| y == b + 3 * p
    ||| y == b + 4 * p
    ||| y == b + 5 * p
    ||| y == b + 6 * p
    ||| y == b + 7 * p
}

/// The pixel at column `col` and row `y` of the image rendered from the ink
/// levels `ink`.
///
/// Data row `r` shows the last bin drawn onto it (`255 - ink`) and stays
/// white when no bin maps to it; octave separators, when drawn, cover
/// everything else.
pub open spec fn spec_image_pixel(
    o: RenderOptions,
    ink: &Spectrogram<u8>,
    col: int,
    y: int,
) -> u8 {
    let band = spec_band_height(o);
    let data = spec_data_height(o);
    if o.draw_octave_lines && spec_octave_row(o, y) {
        200
    } else if y < band {
        spec_stripe_luma(o, y)
    } else if y < band + data {
        let b = spec_last_bin(y - band, data, TOTAL_BINS as int);
        if b >= 0 {
            (255 - ink.at(col, b)) as u8
        } else {
            255
        }
    } else {
        spec_stripe_luma(o, band - 1 - (y - band - data))
    }
}

impl RenderOptions {
    /// Height in pixels of one marker band (top or bottom), including its
    /// outer margin.
    pub fn marker_band_height(&self) -> (r: u32)
        requires
            fits(*self),
        ensures
            r == spec_band_height(*self),
    {
        self.margin + self.thin_stripe + self.marker_gap + self.thin_stripe + self.marker_gap
            + self.thick_stripe + self.marker_gap + self.thin_stripe
    }

    /// Total image height in pixels for a spectrogram rendered with these
    /// options.
    pub fn image_height(&self) -> (r: u32)
        requires
            fits(*self),
        ensures
            r == spec_image_height(*self),
    {
        let data_height = self.px_per_octave * 8;
        2 * self.marker_band_height() + data_height
    }
}

/// The eight stripes of the top marker band from the outer edge inward, as
/// `(is_black, height)`.  The bottom band is the same list reversed.
pub fn marker_stripe_layout(opts: &RenderOptions) -> (r: [(bool, u32); 8])
    ensures
        forall|i: int|
            0 <= i < 8 ==> (#[trigger] r@[i]).0 == (spec_marker_rows(*opts)[i].0 == 0u8) && r@[i].1
                == spec_marker_rows(*opts)[i].1,
{
    [
        (false, opts.margin),
        (true, opts.thin_stripe),
        (false, opts.marker_gap),
        (true, opts.thin_stripe),
        (false, opts.marker_gap),
        (true, opts.thick_stripe),
        (false, opts.marker_gap),
        (true, opts.thin_stripe),
    ]
}

/// Output buffer size (in bytes) of [`spectrogram_to_image_buf`] for
/// `num_columns` time steps: `num_columns * opts.image_height()`.
pub fn image_buf_size(num_columns: usize, opts: &RenderOptions) -> (r: usize)
    requires
        fits(*opts),
        num_columns * spec_image_height(*opts) <= usize::MAX,
    ensures
        r == num_columns * spec_image_height(*opts),
{
    num_columns * (opts.image_height() as usize)
}

/// Luma of the band row at distance `d` from the band's outer edge.
fn stripe_luma(opts: &RenderOptions, d: u64) -> (r: u8)
    ensures
        r == spec_stripe_luma(*opts, d as int),
{
    let m = opts.margin as u64;
    let t = opts.thin_stripe as u64;
    let g = opts.marker_gap as u64;
    let k = opts.thick_stripe as u64;
    if d < m {
        255
    } else if d < m + t {
        0
    } else if d < m + t + g {
        255
    } else if d < m + 2 * t + g {
        0
    } else if d < m + 2 * t + 2 * g {
        255
    } else if d < m + 2 * t + 2 * g + k {
        0
    } else if d < m + 2 * t + 3 * g + k {
        255
    } else {
        0
    }
}

/// Whether row `y` is an octave separator row.
fn is_octave_row(opts: &RenderOptions, y: u64, band: u64) -> (r: bool)
    requires
        band == spec_band_height(*opts),
    ensures
        r == spec_octave_row(*opts, y as int),
{
    let px = opts.px_per_octave as u64;
    if px == 0 {
        proof {
            if y == band {
                assert(y == spec_band_height(*opts) + 1 * opts.px_per_octave);
            }
        }
        y == band
    } else if y < band {
        y < band && false
    } else {
        let d = y - band;
        let q = d / px;
        let r = d % px == 0 && q >= 1 && q <= 7;
        proof {
            vstd::arithmetic::div_mod::lemma_fundamental_div_mod(d as int, px as int);
            let pp = px as int;
            let dd = d as int;
            if r {
                assert(dd == q * pp) by (nonlinear_arith)
                    requires
                        dd == pp * (dd / pp) + dd % pp,
                        q == dd / pp,
                        dd % pp == 0,
                ;
                assert(q == 1 || q == 2 || q == 3 || q == 4 || q == 5 || q == 6 || q == 7);
            } else {
                lemma_multiple_quotient(dd, pp, 1);
                lemma_multiple_quotient(dd, pp, 2);
                lemma_multiple_quotient(dd, pp, 3);
                lemma_multiple_quotient(dd, pp, 4);
                lemma_multiple_quotient(dd, pp, 5);
                lemma_multiple_quotient(dd, pp, 6);
                lemma_multiple_quotient(dd, pp, 7);
                assert(dd != 1 * pp && dd != 2 * pp && dd != 3 * pp && dd != 4 * pp);
                assert(dd != 5 * pp && dd != 6 * pp && dd != 7 * pp);
            }
        }
        r
    }
}

/// The data-area row of bin `bin` in a data area `h > 0` rows high.
fn bin_row(bin: u64, h: u64) -> (r: u64)
    requires
        bin < TOTAL_BINS,
        0 < h <= 8 * 0xFFFF_FFFFu64,
    ensures
        r == spec_bin_row(bin as int, h as int),
        r < h,
{
    proof {
        assert((2 * bin + 1) * h <= 767 * (8 * 0xFFFF_FFFFu64)) by (nonlinear_arith)
            requires
                bin < 384,
                h <= 8 * 0xFFFF_FFFFu64,
        ;
    }
    let r = (2 * bin + 1) * h / 768;
    if r <= h - 1 {
        r
    } else {
        h - 1
    }
}

/// For every data row, the last bin drawn onto it (`-1` when none).
fn last_bins(h: u64) -> (r: Vec<i64>)
    requires
        0 < h <= 8 * 0xFFFF_FFFFu64,
        h <= usize::MAX,
    ensures
        r@.len() == h,
        forall|y: int| 0 <= y < h ==> #[trigger] r@[y] == spec_last_bin(y, h as int, TOTAL_BINS as int),
{
    let mut table: Vec<i64> = Vec::new();
    let mut y: u64 = 0;
    while y < h
        invariant
            y <= h,
            h <= usize::MAX,
            table@.len() == y,
            forall|i: int| 0 <= i < y ==> #[trigger] table@[i] == -1,
        decreases h - y,
    {
        table.push(-1);
        y += 1;
    }
    let mut bin: u64 = 0;
    while bin < 384
        invariant
            bin <= 384,
            0 < h <= 8 * 0xFFFF_FFFFu64,
            h <= usize::MAX,
            table@.len() == h,
            forall|i: int| 0 <= i < h ==> #[trigger] table@[i] == spec_last_bin(i, h as int, bin as int),
        decreases 384 - bin,
    {
        let row = bin_row(bin, h);
        let ghost before = table@;
        table.set(row as usize, bin as i64);
        proof {
            assert(table@ == before.update(row as int, bin as i64));
            assert forall|i: int| 0 <= i < h implies #[trigger] table@[i] == spec_last_bin(
                i,
                h as int,
                bin + 1,
            ) by {
                if i != row {
                    assert(table@[i] == before[i]);
                }
                assert(spec_last_bin(i, h as int, bin + 1) == if spec_bin_row(bin as int, h as int)
                    == i {
                    bin as int
                } else {
                    spec_last_bin(i, h as int, bin as int)
                });
            }
        }
        bin += 1;
    }
    table
}

/// Render a PhonoPaper image from ink levels into a caller-supplied
/// grayscale buffer, row-major: `out[row * width + col]` is the pixel at
/// `(col, row)` and `width` is `ink.num_columns()`.
///
/// Data bin `b` of a column is drawn on data row `⌊(2b + 1)·h / 768⌋`
/// (kept below `h`), with luma `255 - ink`; the decoder reads the same row,
/// so rendering and decoding agree bin for bin.
pub fn spectrogram_to_image_buf(ink: &Spectrogram<u8>, opts: &RenderOptions, out: &mut [u8])
    requires
        fits(*opts),
        old(out)@.len() == ink.spec_num_columns() * spec_image_height(*opts),
        ink.spec_num_columns() > 0 ==> opts.px_per_octave > 0,
    ensures
        final(out)@.len() == old(out)@.len(),
        forall|y: int, col: int|
            0 <= y < spec_image_height(*opts) && 0 <= col < ink.spec_num_columns()
                ==> #[trigger] final(out)@[y * ink.spec_num_columns() + col]
                == spec_image_pixel(*opts, ink, col, y),
{
    let width = ink.num_columns();
    let band = opts.marker_band_height() as u64;
    let data_height = (opts.px_per_octave as u64) * 8;
    let img_height = opts.image_height() as u64;
    if width == 0 {
        proof {
            assert forall|y: int, col: int|
                0 <= y < spec_image_height(*opts) && 0 <= col < ink.spec_num_columns() implies #[trigger] out@[y
                    * ink.spec_num_columns() + col] == spec_image_pixel(*opts, ink, col, y) by {}
        }
        return;
    }
    let ghost w = width as int;
    let table = last_bins(data_height);
    let out_len = out.len();
    let mut y: u64 = 0;
    while y < img_height
        invariant
            width == ink.spec_num_columns(),
            w == width,
            width > 0,
            band == spec_band_height(*opts),
            data_height == spec_data_height(*opts),
            img_height == spec_image_height(*opts),
            0 < data_height <= 8 * 0xFFFF_FFFFu64,
            ink.values().len() == width * TOTAL_BINS,
            table@.len() == data_height,
            forall|i: int|
                0 <= i < data_height ==> #[trigger] table@[i] == spec_last_bin(
                    i,
                    data_height as int,
                    TOTAL_BINS as int,
                ),
            out@.len() == width * img_height,
            out_len == out@.len(),
            y <= img_height,
            forall|yy: int, col: int|
                0 <= yy < y && 0 <= col < width ==> #[trigger] out@[yy * w + col]
                    == spec_image_pixel(*opts, ink, col, yy),
        decreases img_height - y,
    {
        let octave = opts.draw_octave_lines && is_octave_row(opts, y, band);
        let mut col: usize = 0;
        proof {
            assert((y + 1) * w <= img_height * w) by (nonlinear_arith)
                requires
                    y < img_height,
                    w > 0,
            ;
            assert(y * w + w == (y + 1) * w) by (nonlinear_arith);
        }
        proof {
            assert(y * w <= y * w + w);
            assert(y * w + w <= out_len);
            assert(y <= y * w) by (nonlinear_arith)
                requires
                    w >= 1,
                    y >= 0,
            ;
        }
        let row_base: usize = (y as usize) * width;
        while col < width
            invariant
                width == ink.spec_num_columns(),
                w == width,
                band == spec_band_height(*opts),
                data_height == spec_data_height(*opts),
                img_height == spec_image_height(*opts),
                0 < data_height <= 8 * 0xFFFF_FFFFu64,
                ink.values().len() == width * TOTAL_BINS,
                table@.len() == data_height,
                forall|i: int|
                    0 <= i < data_height ==> #[trigger] table@[i] == spec_last_bin(
                        i,
                        data_height as int,
                        TOTAL_BINS as int,
                    ),
                out@.len() == width * img_height,
                out_len == out@.len(),
                y < img_height,
                row_base == y * w,
                y * w + w <= width * img_height,
                octave == (opts.draw_octave_lines && spec_octave_row(*opts, y as int)),
                col <= width,
                forall|yy: int, c: int|
                    0 <= yy < y && 0 <= c < width ==> #[trigger] out@[yy * w + c]
                        == spec_image_pixel(*opts, ink, c, yy),
                forall|c: int|
                    0 <= c < col ==> #[trigger] out@[y * w + c] == spec_image_pixel(
                        *opts,
                        ink,
                        c,
                        y as int,
                    ),
            decreases width - col,
        {
            let value: u8 = if octave {
                200
            } else if y < band {
                stripe_luma(opts, y)
            } else if y < band + data_height {
                let b = table[(y - band) as usize];
                if b >= 0 {
                    proof {
                        lemma_last_bin_range(
                            (y - band) as int,
                            data_height as int,
                            TOTAL_BINS as int,
                        );
                    }
                    255 - ink.get(col, b as usize)
                } else {
                    255
                }
            } else {
                stripe_luma(opts, band - 1 - (y - band - data_height))
            };
            let ghost prev = out@;
            out[row_base + col] = value;
            proof {
                assert forall|yy: int, c: int| 0 <= yy < y && 0 <= c < width implies #[trigger] out@[yy
                    * w + c] == spec_image_pixel(*opts, ink, c, yy) by {
                    lemma_row_index_below(yy, c, y as int, w);
                    assert(out@[yy * w + c] == prev[yy * w + c]);
                }
            }
            col += 1;
        }
        y += 1;
    }
}

pub(crate) proof fn lemma_row_index_below(yy: int, c: int, y: int, w: int)
    requires
        0 <= yy < y,
        0 <= c < w,
    ensures
        yy * w + c < y * w,
{
    vstd::arithmetic::mul::lemma_mul_inequality(yy + 1, y, w);
    vstd::arithmetic::mul::lemma_mul_is_distributive_add_other_way(w, yy, 1);
}

proof fn lemma_multiple_quotient(d: int, p: int, k: int)
    requires
        p > 0,
    ensures
        d == k * p ==> d % p == 0 && d / p == k,
{
    if d == k * p {
        vstd::arithmetic::div_mod::lemma_fundamental_div_mod_converse(d, p, k, 0);
    }
}

pub(crate) proof fn lemma_last_bin_range(r: int, h: int, k: int)
    requires
        k >= 0,
    ensures
        -1 <= spec_last_bin(r, h, k) < k,
    decreases k,
{
    if k > 0 {
        lemma_last_bin_range(r, h, k - 1);
        assert(spec_last_bin(r, h, k) == if spec_bin_row(k - 1, h) == r {
            k - 1
        } else {
            spec_last_bin(r, h, k - 1)
        });
    }
}

/// The total height of the stripes.
pub open spec fn rows_height(rows: Seq<(u8, u32)>) -> int
    decreases rows.len(),
{
    if rows.len() == 0 {
        0
    } else {
        rows_height(rows.drop_last()) + rows.last().1
    }
}

/// The eight stripes of a marker band add up to the band's height, read
/// from the outer edge inward or in the mirrored order of the bottom band.
pub proof fn lemma_marker_rows_height(o: RenderOptions)
    ensures
        rows_height(spec_marker_rows(o)) == spec_band_height(o),
        rows_height(spec_marker_rows(o).reverse()) == spec_band_height(o),
{
    let rows = spec_marker_rows(o);
    let rev = rows.reverse();
    assert(rev =~= seq![
        (0u8, o.thin_stripe),
        (255u8, o.marker_gap),
        (0u8, o.thick_stripe),
        (255u8, o.marker_gap),
        (0u8, o.thin_stripe),
        (255u8, o.marker_gap),
        (0u8, o.thin_stripe),
        (255u8, o.margin),
    ]);
    reveal_with_fuel(rows_height, 9);
    assert(rows.drop_last().drop_last().drop_last().drop_last().drop_last().drop_last().drop_last().drop_last()
        =~= Seq::<(u8, u32)>::empty());
    assert(rev.drop_last().drop_last().drop_last().drop_last().drop_last().drop_last().drop_last().drop_last()
        =~= Seq::<(u8, u32)>::empty());
}


/// The bottom marker band mirrors the top one: row `y` of the bottom band
/// looks exactly like row `H − 1 − y` of the top band, `H` being the image
/// height.  (With no data rows, an octave line would fall on the first
/// row of the bottom band; such options are left out.)
pub proof fn lemma_bands_mirror(o: RenderOptions, ink: &Spectrogram<u8>, col: int, y: int)
    requires
        spec_band_height(o) + spec_data_height(o) <= y < spec_image_height(o),
        o.draw_octave_lines ==> o.px_per_octave > 0,
    ensures
        spec_image_pixel(o, ink, col, y) == spec_image_pixel(
            o,
            ink,
            col,
            spec_image_height(o) - 1 - y,
        ),
{
}

/// The row-major grayscale image rendered from the ink levels: pixel
/// `(col, y)` at `y * width + col`.
pub open spec fn spec_rendered(ink: &Spectrogram<u8>, o: RenderOptions) -> Seq<u8> {
    let w = ink.spec_num_columns() as int;
    Seq::new(
        (w * spec_image_height(o)) as nat,
        |i: int| spec_image_pixel(o, ink, i % w, i / w),
    )
}

} // verus!
