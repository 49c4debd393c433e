//! The marker detector reads back what the renderer draws.
//!
//! In detectable geometry (positive lengths, a thick stripe of at least
//! three thin ones, gaps between half a thin stripe and four, and each
//! band's thick stripe inside the zone where the detector searches for it)
//! every column of the rendering of a faint spectrogram (no cell inked at
//! half strength or more, so that the data area is light) has the
//! seventeen runs of margin, stripes, gaps and data area, the detector reads
//! the data area exactly, and decoding without given bounds gives back
//! every ink level.

use vstd::prelude::*;

use crate::markers::{
    lemma_runs_unique, lemma_uniform_scan, partitions, run_follows, spec_best_cluster,
    spec_candidate, spec_cluster_scan, spec_consistent_family, spec_dark_column,
    spec_detect_markers, spec_evenly_spaced, spec_find, spec_marker_bounds, spec_match, spec_max,
    spec_bands_agree, spec_match_bottom, spec_match_top, spec_runs, DataBounds, MarkerCandidate,
    MarkerSide, Run,
};
use crate::decode::{lemma_render_read_round_trip, spec_effective_bounds, spec_read_ink};
use crate::format::TOTAL_BINS;
use crate::raster::{lemma_gray_luma, Raster};
use crate::render::{
    default_options, fits, lemma_last_bin_range, spec_band_height, spec_data_height,
    spec_image_height, spec_image_pixel, spec_last_bin, spec_octave_row, spec_rendered,
    spec_stripe_luma, RenderOptions,
};
use crate::spectrogram::Spectrogram;

verus! {

/// A two-member family is consistent when both are non-zero and within a
/// factor of three of each other.
proof fn lemma_family2(a: u32, b: u32)
    ensures
        spec_consistent_family(seq![a, b]) <==> (a > 0 && b > 0 && a <= 3 * b && b <= 3 * a),
{
    let l = seq![a, b];
    if a > 0 && b > 0 && a <= 3 * b && b <= 3 * a {
        assert forall|i: int, j: int|
            0 <= i < l.len() && 0 <= j < l.len() implies #[trigger] l[i] <= 3 * #[trigger] l[j] by {
        }
    } else {
        assert(l[0] == a && l[1] == b);
    }
}

/// A three-member family of equal non-zero lengths is consistent.
proof fn lemma_family3_equal(a: u32)
    requires
        a > 0,
    ensures
        spec_consistent_family(seq![a, a, a]),
{
    let l = seq![a, a, a];
    assert forall|i: int, j: int|
        0 <= i < l.len() && 0 <= j < l.len() implies #[trigger] l[i] <= 3 * #[trigger] l[j] by {}
}

/// Marker geometry that the detector reads back: every length positive, the
/// thick stripe at least three thin stripes, each gap between half a thin
/// stripe and four of them, the top band's thick stripe starting in the top
/// 30 % of the image and the bottom band's in the bottom 30 %.
pub open spec fn detectable(o: RenderOptions) -> bool {
    let h = spec_image_height(o);
    let m = o.margin as int;
    let t = o.thin_stripe as int;
    let g = o.marker_gap as int;
    let k = o.thick_stripe as int;
    &&& fits(o)
    &&& m > 0 && t > 0 && g > 0 && o.px_per_octave > 0
    &&& k >= 3 * t
    &&& g <= 4 * t && 2 * g >= t
    &&& m + 2 * t + 2 * g < h * 3 / 10
    &&& spec_band_height(o) + spec_data_height(o) + t + g >= h * 7 / 10
}

/// Whether row `y` of the rendering of a faint spectrogram is dark: the
/// four black stripes of each band.
pub open spec fn rendered_dark(o: RenderOptions, y: int) -> bool {
    let b = spec_band_height(o);
    let e = b + spec_data_height(o);
    if y < b {
        spec_stripe_luma(o, y) == 0
    } else if y < e {
        false
    } else {
        spec_stripe_luma(o, spec_image_height(o) - 1 - y) == 0
    }
}

/// The seventeen runs of a column of the rendering of a faint spectrogram,
/// as `(dark, start, length)`: margin, the four stripes and three gaps of
/// the top band, the data area, and the bottom band mirrored.
pub open spec fn rendered_runs(o: RenderOptions) -> Seq<Run> {
    let m = o.margin as int;
    let t = o.thin_stripe as int;
    let g = o.marker_gap as int;
    let k = o.thick_stripe as int;
    let b = spec_band_height(o);
    let e = b + spec_data_height(o);
    seq![
        (false, 0u32, o.margin),
        (true, o.margin, o.thin_stripe),
        (false, (m + t) as u32, o.marker_gap),
        (true, (m + t + g) as u32, o.thin_stripe),
        (false, (m + 2 * t + g) as u32, o.marker_gap),
        (true, (m + 2 * t + 2 * g) as u32, o.thick_stripe),
        (false, (m + 2 * t + 2 * g + k) as u32, o.marker_gap),
        (true, (m + 2 * t + 3 * g + k) as u32, o.thin_stripe),
        (false, b as u32, spec_data_height(o) as u32),
        (true, e as u32, o.thin_stripe),
        (false, (e + t) as u32, o.marker_gap),
        (true, (e + t + g) as u32, o.thick_stripe),
        (false, (e + t + g + k) as u32, o.marker_gap),
        (true, (e + t + 2 * g + k) as u32, o.thin_stripe),
        (false, (e + 2 * t + 2 * g + k) as u32, o.marker_gap),
        (true, (e + 2 * t + 3 * g + k) as u32, o.thin_stripe),
        (false, (e + 3 * t + 3 * g + k) as u32, o.margin),
    ]
}

/// Every cell of the spectrogram is faint: its ink is below half, so that
/// its pixel is light.
pub open spec fn faint(ink: &Spectrogram<u8>) -> bool {
    forall|c: int, b: int|
        0 <= c < ink.spec_num_columns() && 0 <= b < 384 ==> #[trigger] ink.at(c, b) < 128
}

/// The pixels of the rendering of a faint spectrogram are dark exactly on
/// the stripes: the data area, octave lines included, is light.
proof fn lemma_rendered_pixel(o: RenderOptions, ink: &Spectrogram<u8>, x: int, y: int)
    requires
        faint(ink),
        o.px_per_octave > 0,
        0 <= x < ink.spec_num_columns(),
        0 <= y < spec_image_height(o),
    ensures
        (spec_image_pixel(o, ink, x, y) < 128) == rendered_dark(o, y),
{
    let b = spec_band_height(o);
    let e = b + spec_data_height(o);
    if o.draw_octave_lines && spec_octave_row(o, y) {
        assert(b < y < e);
    } else if b <= y < e {
        lemma_last_bin_range(y - b, spec_data_height(o), 384);
        let bin = spec_last_bin(y - b, spec_data_height(o), 384);
        if bin >= 0 {
            assert(ink.at(x, bin) < 128);
        }
    }
}

/// A column of the rendering of a faint spectrogram is dark exactly on the
/// stripes.
proof fn lemma_rendered_column(o: RenderOptions, ink: &Spectrogram<u8>, img: &Raster, x: int)
    requires
        faint(ink),
        fits(o),
        o.px_per_octave > 0,
        1 <= ink.spec_num_columns() <= u32::MAX,
        0 <= x < ink.spec_num_columns(),
        img.holds_luma(
            ink.spec_num_columns() as u32,
            spec_image_height(o) as u32,
            spec_rendered(ink, o),
        ),
    ensures
        spec_dark_column(img, x) == Seq::new(
            spec_image_height(o) as nat,
            |y: int| rendered_dark(o, y),
        ),
{
    let w = ink.spec_num_columns() as int;
    let h = spec_image_height(o);
    assert forall|y: int| 0 <= y < h implies #[trigger] spec_dark_column(img, x)[y]
        == rendered_dark(o, y) by {
        lemma_gray_luma(img, w as u32, h as u32, spec_rendered(ink, o), x, y);
        let i = y * w + x;
        assert(0 <= i < w * h && i % w == x && i / w == y) by (nonlinear_arith)
            requires
                0 <= x < w,
                0 <= y < h,
                i == y * w + x,
        {
            vstd::arithmetic::div_mod::lemma_fundamental_div_mod_converse(i, w, y, x);
        }
        lemma_rendered_pixel(o, ink, x, y);
    }
    assert(spec_dark_column(img, x) =~= Seq::new(h as nat, |y: int| rendered_dark(o, y)));
}

/// The runs of that column.
#[verifier::rlimit(40)]
proof fn lemma_rendered_runs(o: RenderOptions)
    requires
        detectable(o),
    ensures
        spec_runs(Seq::new(spec_image_height(o) as nat, |y: int| rendered_dark(o, y)))
            == rendered_runs(o),
{
    let h = spec_image_height(o);
    let d = Seq::new(h as nat, |y: int| rendered_dark(o, y));
    let r = rendered_runs(o);
    assert(r.len() == 17);
    assert forall|i: int| 1 <= i < r.len() implies #[trigger] run_follows(r, i) by {}
    assert forall|i: int| 0 <= i < r.len() implies #[trigger] r[i].2 >= 1 by {}
    assert forall|i: int, y: int|
        0 <= i < r.len() && r[i].1 <= y < r[i].1 + r[i].2 implies #[trigger] d[y]
            == #[trigger] r[i].0 by {
        assert(d[y] == rendered_dark(o, y));
    }
    assert(partitions(r, d));
    lemma_runs_unique(d, r);
}

/// The candidate bands of that column.
#[verifier::rlimit(40)]
proof fn lemma_rendered_find(o: RenderOptions)
    requires
        detectable(o),
    ensures
        ({
            let r = rendered_runs(o);
            let h = spec_image_height(o);
            let b = spec_band_height(o);
            let e = b + spec_data_height(o);
            &&& spec_find(r, MarkerSide::Top, 0, h * 3 / 10, 17) == Some(
                MarkerCandidate {
                    data_edge: b as u32,
                    thick_len: o.thick_stripe,
                    thin_ref: o.thin_stripe,
                    gap_ref: o.marker_gap,
                },
            )
            &&& spec_find(r, MarkerSide::Bottom, h * 7 / 10, h, 17) == Some(
                MarkerCandidate {
                    data_edge: e as u32,
                    thick_len: o.thick_stripe,
                    thin_ref: o.thin_stripe,
                    gap_ref: o.marker_gap,
                },
            )
        }),
{
    let r = rendered_runs(o);
    let h = spec_image_height(o);
    let b = spec_band_height(o);
    let e = b + spec_data_height(o);
    let t = o.thin_stripe;
    let g = o.marker_gap;
    let k = o.thick_stripe;
    lemma_family2(t, t);
    lemma_family3_equal(g);
    assert(h * 3 / 10 <= e) by {
        assert(3 * h <= 10 * e);
    }
    assert(h * 3 / 10 <= h * 7 / 10);
    assert(spec_match_top(r, 5) == spec_candidate(t, t, g, g, g, k, b as u32));
    assert(spec_match_top(r, 7) is None);
    assert(spec_match_top(r, 9) is None);
    assert(spec_match_top(r, 13) is None);
    assert(spec_match_bottom(r, 3) is None);
    assert(spec_match_bottom(r, 7) is None);
    assert(spec_match_bottom(r, 9) is None);
    assert(spec_match_bottom(r, 11) == spec_candidate(t, t, g, g, g, k, e as u32));
    reveal_with_fuel(spec_find, 18);
    assert(spec_match(r, MarkerSide::Top, 1) is None);
    assert(spec_match(r, MarkerSide::Top, 3) is None);
    assert(spec_match(r, MarkerSide::Top, 15) is None);
    assert(spec_match(r, MarkerSide::Bottom, 1) is None);
    assert(spec_match(r, MarkerSide::Bottom, 13) is None);
    assert(spec_match(r, MarkerSide::Bottom, 15) is None);
}


/// The bounds read from one column of the rendering of a faint spectrogram.
#[verifier::rlimit(40)]
proof fn lemma_rendered_column_bounds(
    o: RenderOptions,
    ink: &Spectrogram<u8>,
    img: &Raster,
    x: int,
)
    requires
        detectable(o),
        faint(ink),
        1 <= ink.spec_num_columns() <= u32::MAX,
        0 <= x < ink.spec_num_columns(),
        img.holds_luma(
            ink.spec_num_columns() as u32,
            spec_image_height(o) as u32,
            spec_rendered(ink, o),
        ),
    ensures
        spec_marker_bounds(img, x) == Some(
            DataBounds {
                data_top: spec_band_height(o) as u32,
                data_bottom: (spec_band_height(o) + spec_data_height(o)) as u32,
            },
        ),
{
    let h = spec_image_height(o);
    let band = spec_band_height(o);
    let e = band + spec_data_height(o);
    lemma_rendered_column(o, ink, img, x);
    lemma_rendered_runs(o);
    lemma_rendered_find(o);
    let runs = spec_runs(spec_dark_column(img, x));
    assert(runs == rendered_runs(o));
    assert(runs.len() == 17);
    assert(img.spec_height() as int == h);
    let t = MarkerCandidate {
        data_edge: band as u32,
        thick_len: o.thick_stripe,
        thin_ref: o.thin_stripe,
        gap_ref: o.marker_gap,
    };
    let bt = MarkerCandidate {
        data_edge: e as u32,
        thick_len: o.thick_stripe,
        thin_ref: o.thin_stripe,
        gap_ref: o.marker_gap,
    };
    assert(spec_find(runs, MarkerSide::Top, 0, h * 3 / 10, runs.len() as int) == Some(t));
    assert(spec_find(runs, MarkerSide::Bottom, h * 7 / 10, h, runs.len() as int) == Some(bt));
    assert(spec_bands_agree(t, bt));
}

/// The marker detector finds the data area that the renderer drew: in the
/// rendering of a faint spectrogram with at least one column, in detectable
/// geometry, every column, and [`crate::markers::detect_markers`], read the
/// data area as the rows from the end of the top band to the start of the
/// bottom band.
pub proof fn lemma_rendering_is_detected(o: RenderOptions, ink: &Spectrogram<u8>, img: &Raster)
    requires
        detectable(o),
        faint(ink),
        1 <= ink.spec_num_columns() <= u32::MAX,
        img.holds_luma(
            ink.spec_num_columns() as u32,
            spec_image_height(o) as u32,
            spec_rendered(ink, o),
        ),
    ensures
        ({
            let bounds = DataBounds {
                data_top: spec_band_height(o) as u32,
                data_bottom: (spec_band_height(o) + spec_data_height(o)) as u32,
            };
            &&& forall|x: int|
                0 <= x < ink.spec_num_columns() ==> #[trigger] spec_marker_bounds(img, x) == Some(
                    bounds,
                )
            &&& spec_detect_markers(img) == Some(bounds)
        }),
{
    let band = spec_band_height(o);
    let e = band + spec_data_height(o);
    let b = DataBounds { data_top: band as u32, data_bottom: e as u32 };
    let w = ink.spec_num_columns() as int;
    assert forall|x: int| 0 <= x < w implies #[trigger] spec_marker_bounds(img, x) == Some(b) by {
        lemma_rendered_column_bounds(o, ink, img, x);
    }
    let xs = spec_evenly_spaced(img.spec_width(), 9);
    crate::markers::lemma_evenly_spaced_columns(img.spec_width(), 9);
    let samples = Seq::new(xs.len(), |i: int| (xs[i], spec_marker_bounds(img, xs[i] as int)));
    assert forall|i: int| 0 <= i < samples.len() implies (#[trigger] samples[i]).1 == Some(b) by {
        assert(xs[i] < w);
        assert(spec_marker_bounds(img, xs[i] as int) == Some(b));
    }
    lemma_uniform_scan(samples, b);
    let best = spec_best_cluster(samples);
    assert(best == spec_cluster_scan(samples).1);
    assert(best.len() == xs.len());
    assert(best[(best.len() / 2) as int].1 == b);
}

/// For the default geometry, the detector reads the data area of the
/// rendering of a faint spectrogram as rows `184..904` (the band height and
/// the band plus the eight octaves of 90 rows).
pub proof fn lemma_default_rendering_is_detected(ink: &Spectrogram<u8>, img: &Raster)
    requires
        faint(ink),
        1 <= ink.spec_num_columns() <= u32::MAX,
        img.holds_luma(
            ink.spec_num_columns() as u32,
            spec_image_height(default_options()) as u32,
            spec_rendered(ink, default_options()),
        ),
    ensures
        forall|x: int|
            0 <= x < ink.spec_num_columns() ==> #[trigger] spec_marker_bounds(img, x) == Some(
                DataBounds { data_top: 184, data_bottom: 904 },
            ),
        spec_detect_markers(img) == Some(DataBounds { data_top: 184, data_bottom: 904 }),
{
    let o = default_options();
    assert(spec_image_height(o) == 1088);
    assert(detectable(o));
    lemma_rendering_is_detected(o, ink, img);
}

/// Decoding without given bounds reads back what was rendered: for a faint
/// spectrogram with at least one column, rendered in detectable geometry
/// with at least one data row per bin and no octave lines, the detected
/// bounds are the drawn data area and every bin of every column reads back
/// its ink level.
pub proof fn lemma_faint_rendering_decodes(o: RenderOptions, ink: &Spectrogram<u8>, img: &Raster)
    requires
        detectable(o),
        !o.draw_octave_lines,
        spec_data_height(o) >= TOTAL_BINS,
        faint(ink),
        1 <= ink.spec_num_columns() <= u32::MAX,
        img.holds_luma(
            ink.spec_num_columns() as u32,
            spec_image_height(o) as u32,
            spec_rendered(ink, o),
        ),
    ensures
        spec_effective_bounds(img, None) == Some(
            DataBounds {
                data_top: spec_band_height(o) as u32,
                data_bottom: (spec_band_height(o) + spec_data_height(o)) as u32,
            },
        ),
        forall|col: int, bin: int|
            0 <= col < ink.spec_num_columns() && 0 <= bin < TOTAL_BINS ==> #[trigger] spec_read_ink(
                img,
                spec_band_height(o),
                spec_data_height(o),
                col,
                bin,
            ) == ink.at(col, bin),
{
    lemma_rendering_is_detected(o, ink, img);
    let w = ink.spec_num_columns() as int;
    let h = spec_image_height(o);
    let buf = spec_rendered(ink, o);
    assert forall|y: int, c: int| 0 <= y < h && 0 <= c < w implies #[trigger] buf[y * w + c]
        == spec_image_pixel(o, ink, c, y) by {
        let i = y * w + c;
        assert(0 <= i < w * h && i % w == c && i / w == y) by (nonlinear_arith)
            requires
                0 <= c < w,
                0 <= y < h,
                i == y * w + c,
        {
            vstd::arithmetic::div_mod::lemma_fundamental_div_mod_converse(i, w, y, c);
        }
    }
    assert forall|col: int, bin: int|
        0 <= col < w && 0 <= bin < TOTAL_BINS implies #[trigger] spec_read_ink(
        img,
        spec_band_height(o),
        spec_data_height(o),
        col,
        bin,
    ) == ink.at(col, bin) by {
        lemma_render_read_round_trip(o, ink, buf, img, col, bin);
    }
}

// ─── Unequal thin stripes ──────────────────────────────────────────────────

/// A three-member family of non-zero lengths, each within a factor of three
/// of the others, is consistent.
proof fn lemma_family3(a: u32, b: u32, c: u32)
    requires
        a > 0 && b > 0 && c > 0,
        a <= 3 * b && b <= 3 * a && a <= 3 * c && c <= 3 * a && b <= 3 * c && c <= 3 * b,
    ensures
        spec_consistent_family(seq![a, b, c]),
{
    let l = seq![a, b, c];
    assert forall|i: int, j: int|
        0 <= i < l.len() && 0 <= j < l.len() implies #[trigger] l[i] <= 3 * #[trigger] l[j] by {}
}

/// How far the rows below the first gap of the top band move when its
/// outer thin stripe is `a` rows and its first gap `c` rows.
pub open spec fn band_shift(o: RenderOptions, a: int, c: int) -> int {
    a + c - o.thin_stripe - o.marker_gap
}

/// Whether row `y` of a column is dark when the column reads as the
/// rendering of a faint spectrogram, except that the top band's outer thin
/// stripe is `a` rows and the gap after it `c` rows: what a printed and
/// scanned sheet gives when ink spreads or fades at one edge of a stripe.
pub open spec fn banded_dark(o: RenderOptions, a: int, c: int, y: int) -> bool {
    let m = o.margin as int;
    if y < m {
        false
    } else if y < m + a {
        true
    } else if y < m + a + c {
        false
    } else {
        rendered_dark(o, y - band_shift(o, a, c))
    }
}

/// Geometry in which a band with an outer thin stripe of `a` rows and a
/// first gap of `c` rows has PhonoPaper proportions: every length positive;
/// the two thin stripes within a factor of three of each other, and the
/// three gaps too; the thick stripe at least one and a half times the two
/// thin stripes together; no gap longer than four of the longer thin
/// stripe nor shorter than half of it; the bottom band as
/// [`detectable`] asks; and each band's thick stripe inside the zone where
/// the detector searches for it.
pub open spec fn detectable_with_stripes(o: RenderOptions, a: int, c: int) -> bool {
    let m = o.margin as int;
    let t = o.thin_stripe as int;
    let g = o.marker_gap as int;
    let k = o.thick_stripe as int;
    let h = spec_image_height(o) + band_shift(o, a, c);
    let e = spec_band_height(o) + band_shift(o, a, c) + spec_data_height(o);
    &&& m > 0 && t > 0 && g > 0 && o.px_per_octave > 0
    &&& k >= 3 * t && g <= 4 * t && 2 * g >= t
    &&& a > 0 && a <= 3 * t && t <= 3 * a
    &&& c > 0 && c <= 3 * g && g <= 3 * c
    &&& 2 * k >= 3 * (a + t)
    &&& c <= 4 * t || c <= 4 * a
    &&& 2 * c >= a && 2 * c >= t && 2 * g >= a
    &&& h <= u32::MAX
    &&& m + a + c + t + g < h * 3 / 10
    &&& e + t + g >= h * 7 / 10
}

/// The seventeen runs of such a column.
pub open spec fn banded_runs(o: RenderOptions, a: int, c: int) -> Seq<Run> {
    let m = o.margin as int;
    let t = o.thin_stripe as int;
    let g = o.marker_gap as int;
    let k = o.thick_stripe as int;
    let q = m + a + c;
    let b = spec_band_height(o) + band_shift(o, a, c);
    let e = b + spec_data_height(o);
    seq![
        (false, 0u32, o.margin),
        (true, o.margin, a as u32),
        (false, (m + a) as u32, c as u32),
        (true, q as u32, o.thin_stripe),
        (false, (q + t) as u32, o.marker_gap),
        (true, (q + t + g) as u32, o.thick_stripe),
        (false, (q + t + g + k) as u32, o.marker_gap),
        (true, (q + t + 2 * g + k) as u32, o.thin_stripe),
        (false, b as u32, spec_data_height(o) as u32),
        (true, e as u32, o.thin_stripe),
        (false, (e + t) as u32, o.marker_gap),
        (true, (e + t + g) as u32, o.thick_stripe),
        (false, (e + t + g + k) as u32, o.marker_gap),
        (true, (e + t + 2 * g + k) as u32, o.thin_stripe),
        (false, (e + 2 * t + 2 * g + k) as u32, o.marker_gap),
        (true, (e + 2 * t + 3 * g + k) as u32, o.thin_stripe),
        (false, (e + 3 * t + 3 * g + k) as u32, o.margin),
    ]
}

/// The runs of such a column are those seventeen.
#[verifier::rlimit(60)]
proof fn lemma_banded_runs(o: RenderOptions, a: int, c: int)
    requires
        detectable_with_stripes(o, a, c),
    ensures
        spec_runs(
            Seq::new(
                (spec_image_height(o) + band_shift(o, a, c)) as nat,
                |y: int| banded_dark(o, a, c, y),
            ),
        ) == banded_runs(o, a, c),
{
    let h = spec_image_height(o) + band_shift(o, a, c);
    let d = Seq::new(h as nat, |y: int| banded_dark(o, a, c, y));
    let r = banded_runs(o, a, c);
    assert(r.len() == 17);
    assert forall|i: int| 1 <= i < r.len() implies #[trigger] run_follows(r, i) by {}
    assert forall|i: int| 0 <= i < r.len() implies #[trigger] r[i].2 >= 1 by {}
    assert forall|i: int, y: int|
        0 <= i < r.len() && r[i].1 <= y < r[i].1 + r[i].2 implies #[trigger] d[y]
            == #[trigger] r[i].0 by {
        assert(d[y] == banded_dark(o, a, c, y));
        lemma_banded_run_rows(o, a, c, i, y);
    }
    assert(partitions(r, d));
    lemma_runs_unique(d, r);
}

/// Each row of a run of such a column has the run's flag.
#[verifier::rlimit(60)]
proof fn lemma_banded_run_rows(o: RenderOptions, a: int, c: int, i: int, y: int)
    requires
        detectable_with_stripes(o, a, c),
        0 <= i < 17,
        banded_runs(o, a, c)[i].1 <= y < banded_runs(o, a, c)[i].1 + banded_runs(o, a, c)[i].2,
    ensures
        banded_dark(o, a, c, y) == banded_runs(o, a, c)[i].0,
{
    let sh = band_shift(o, a, c);
    let b = spec_band_height(o);
    let e = b + spec_data_height(o);
    let z = y - sh;
    if i >= 3 {
        assert(y >= o.margin + a + c);
        if i <= 7 {
            assert(z < b);
            assert(rendered_dark(o, z) == (spec_stripe_luma(o, z) == 0));
        } else if i == 8 {
            assert(b <= z < e);
        } else {
            assert(z >= e);
            assert(rendered_dark(o, z) == (spec_stripe_luma(o, spec_image_height(o) - 1 - z)
                == 0));
        }
    }
}

/// The candidate bands of such a column.
#[verifier::rlimit(60)]
proof fn lemma_banded_find(o: RenderOptions, a: int, c: int)
    requires
        detectable_with_stripes(o, a, c),
    ensures
        ({
            let r = banded_runs(o, a, c);
            let h = spec_image_height(o) + band_shift(o, a, c);
            let b = spec_band_height(o) + band_shift(o, a, c);
            let e = b + spec_data_height(o);
            &&& spec_find(r, MarkerSide::Top, 0, h * 3 / 10, 17) == Some(
                MarkerCandidate {
                    data_edge: b as u32,
                    thick_len: o.thick_stripe,
                    thin_ref: spec_max(a as u32, o.thin_stripe),
                    gap_ref: spec_max(c as u32, o.marker_gap),
                },
            )
            &&& spec_find(r, MarkerSide::Bottom, h * 7 / 10, h, 17) == Some(
                MarkerCandidate {
                    data_edge: e as u32,
                    thick_len: o.thick_stripe,
                    thin_ref: o.thin_stripe,
                    gap_ref: o.marker_gap,
                },
            )
        }),
{
    let r = banded_runs(o, a, c);
    let h = spec_image_height(o) + band_shift(o, a, c);
    let b = spec_band_height(o) + band_shift(o, a, c);
    let e = b + spec_data_height(o);
    let t = o.thin_stripe;
    let g = o.marker_gap;
    let k = o.thick_stripe;
    lemma_family2(t, t);
    lemma_family2(a as u32, t);
    lemma_family3_equal(g);
    lemma_family3(c as u32, g, g);
    assert(h * 3 / 10 <= e) by {
        assert(3 * h <= 10 * e);
    }
    assert(h * 3 / 10 <= h * 7 / 10);
    assert(spec_match_top(r, 5) == spec_candidate(a as u32, t, c as u32, g, g, k, b as u32));
    assert(spec_match_top(r, 7) is None);
    assert(spec_match_top(r, 9) is None);
    assert(spec_match_top(r, 13) is None);
    assert(spec_match_bottom(r, 3) is None);
    assert(spec_match_bottom(r, 7) is None);
    assert(spec_match_bottom(r, 9) is None);
    assert(spec_match_bottom(r, 11) == spec_candidate(t, t, g, g, g, k, e as u32));
    reveal_with_fuel(spec_find, 18);
    assert(spec_match(r, MarkerSide::Top, 1) is None);
    assert(spec_match(r, MarkerSide::Top, 3) is None);
    assert(spec_match(r, MarkerSide::Top, 15) is None);
    assert(spec_match(r, MarkerSide::Bottom, 1) is None);
    assert(spec_match(r, MarkerSide::Bottom, 13) is None);
    assert(spec_match(r, MarkerSide::Bottom, 15) is None);
}

/// A marker band whose two outer thin stripes differ, or whose first gap
/// differs from the others, is still read as long as they keep PhonoPaper
/// proportions: a column that reads as the rendering of a faint
/// spectrogram, except that the top band's outer thin stripe is `a` rows
/// and the gap after it `c` rows, gives the data area from the end of that
/// top band to the start of the bottom band.
#[verifier::rlimit(40)]
pub proof fn lemma_unequal_thin_stripes_detected(
    o: RenderOptions,
    a: int,
    c: int,
    img: &Raster,
    x: int,
)
    requires
        detectable_with_stripes(o, a, c),
        0 <= x < img.spec_width(),
        img.spec_height() == spec_image_height(o) + band_shift(o, a, c),
        spec_dark_column(img, x) == Seq::new(
            img.spec_height() as nat,
            |y: int| banded_dark(o, a, c, y),
        ),
    ensures
        spec_marker_bounds(img, x) == Some(
            DataBounds {
                data_top: (spec_band_height(o) + band_shift(o, a, c)) as u32,
                data_bottom: (spec_band_height(o) + band_shift(o, a, c) + spec_data_height(
                    o,
                )) as u32,
            },
        ),
{
    let h = img.spec_height() as int;
    let b = spec_band_height(o) + band_shift(o, a, c);
    let e = b + spec_data_height(o);
    lemma_banded_runs(o, a, c);
    lemma_banded_find(o, a, c);
    let runs = spec_runs(spec_dark_column(img, x));
    assert(runs == banded_runs(o, a, c));
    assert(runs.len() == 17);
    let t = MarkerCandidate {
        data_edge: b as u32,
        thick_len: o.thick_stripe,
        thin_ref: spec_max(a as u32, o.thin_stripe),
        gap_ref: spec_max(c as u32, o.marker_gap),
    };
    let bt = MarkerCandidate {
        data_edge: e as u32,
        thick_len: o.thick_stripe,
        thin_ref: o.thin_stripe,
        gap_ref: o.marker_gap,
    };
    assert(spec_find(runs, MarkerSide::Top, 0, h * 3 / 10, runs.len() as int) == Some(t));
    assert(spec_find(runs, MarkerSide::Bottom, h * 7 / 10, h, runs.len() as int) == Some(bt));
    assert(spec_bands_agree(t, bt));
}

/// [`crate::markers::detect_markers`] reads an image whose every column is
/// such a column: the data area from the end of the top band to the start
/// of the bottom band.
pub proof fn lemma_unequal_thin_stripes_image_detected(
    o: RenderOptions,
    a: int,
    c: int,
    img: &Raster,
)
    requires
        detectable_with_stripes(o, a, c),
        img.spec_width() >= 1,
        img.spec_height() == spec_image_height(o) + band_shift(o, a, c),
        forall|x: int|
            0 <= x < img.spec_width() ==> #[trigger] spec_dark_column(img, x) == Seq::new(
                img.spec_height() as nat,
                |y: int| banded_dark(o, a, c, y),
            ),
    ensures
        spec_detect_markers(img) == Some(
            DataBounds {
                data_top: (spec_band_height(o) + band_shift(o, a, c)) as u32,
                data_bottom: (spec_band_height(o) + band_shift(o, a, c) + spec_data_height(
                    o,
                )) as u32,
            },
        ),
{
    let band = spec_band_height(o) + band_shift(o, a, c);
    let e = band + spec_data_height(o);
    let b = DataBounds { data_top: band as u32, data_bottom: e as u32 };
    let w = img.spec_width() as int;
    assert forall|x: int| 0 <= x < w implies #[trigger] spec_marker_bounds(img, x) == Some(b) by {
        lemma_unequal_thin_stripes_detected(o, a, c, img, x);
    }
    let xs = spec_evenly_spaced(img.spec_width(), 9);
    crate::markers::lemma_evenly_spaced_columns(img.spec_width(), 9);
    let samples = Seq::new(xs.len(), |i: int| (xs[i], spec_marker_bounds(img, xs[i] as int)));
    assert forall|i: int| 0 <= i < samples.len() implies (#[trigger] samples[i]).1 == Some(b) by {
        assert(xs[i] < w);
        assert(spec_marker_bounds(img, xs[i] as int) == Some(b));
    }
    lemma_uniform_scan(samples, b);
    let best = spec_best_cluster(samples);
    assert(best == spec_cluster_scan(samples).1);
    assert(best.len() == xs.len());
    assert(best[(best.len() / 2) as int].1 == b);
}

} // verus!
