//! PhonoPaper marker band detection.
//!
//! A printed sheet carries, above and below the audio data, a band of
//! horizontal stripes: `margin | thin | gap | thin | gap | thick | gap | thin`
//! (the bottom band is the mirror image).  A column of the image is turned
//! into runs of dark and light pixels, and the stripe topology is searched in
//! the top and bottom 30 % of the column.  Several evenly spaced columns are
//! read, and the widest run of mutually consistent detections is kept.

use vstd::prelude::*;

use crate::error::PhonoPaperError;
use crate::raster::{pixel_luma, Raster};

verus! {

/// A run of equally dark or light pixels in a column:
/// `(is_dark, start_row, length)`.
pub type Run = (bool, u32, u32);

/// The boundaries of the PhonoPaper data area within an image.
///
/// Both values are pixel row indices: `data_top` is the first row of audio
/// data and `data_bottom` is one past the last row (exclusive).
#[derive(Debug, Clone, Copy)]
pub struct DataBounds {
    /// First pixel row of the audio data area (inclusive).
    pub data_top: u32,
    /// Last pixel row of the audio data area (exclusive).
    pub data_bottom: u32,
}

impl DataBounds {
    /// Height of the data area in pixels.
    pub fn height(&self) -> (r: u32)
        requires
            self.data_top <= self.data_bottom,
        ensures
            r == self.data_bottom - self.data_top,
    {
        self.data_bottom - self.data_top
    }
}

/// A pixel is dark when its luminance is below this value.
pub const DARK_THRESHOLD: u8 = 128;

/// Which of the two marker bands is searched for.
#[derive(Debug, Clone, Copy)]
pub enum MarkerSide {
    /// The band above the data area.
    Top,
    /// The band below the data area.
    Bottom,
}

/// A stripe pattern found in a column: the row where the data area begins
/// (top band) or ends (bottom band), and the stripe measurements used to
/// compare the two bands.
#[derive(Debug, Clone, Copy)]
pub struct MarkerCandidate {
    /// Row of the data-area edge next to the band.
    pub data_edge: u32,
    /// Length of the thick stripe.
    pub thick_len: u32,
    /// Length of the longer of the two outer thin stripes.
    pub thin_ref: u32,
    /// Length of the longest of the three gaps.
    pub gap_ref: u32,
}

// ─── Specification ──────────────────────────────────────────────────────────

/// Whether each row of column `x` is dark.
pub open spec fn spec_dark_column(img: &Raster, x: int) -> Seq<bool> {
    Seq::new(img.spec_height() as nat, |y: int| img.luma_at(x, y) < DARK_THRESHOLD)
}

/// Run-length encoding of a sequence of flags: each maximal block of equal
/// flags becomes `(flag, start, length)`.
pub open spec fn spec_runs(d: Seq<bool>) -> Seq<Run>
    decreases d.len(),
{
    if d.len() == 0 {
        Seq::empty()
    } else {
        let prev = spec_runs(d.drop_last());
        let b = d.last();
        if prev.len() > 0 && prev.last().0 == b {
            prev.update(prev.len() - 1, (b, prev.last().1, (prev.last().2 + 1) as u32))
        } else {
            prev.push((b, (d.len() - 1) as u32, 1u32))
        }
    }
}

/// Every run ends inside the column.
pub open spec fn runs_bounded(runs: Seq<Run>) -> bool {
    forall|i: int| 0 <= i < runs.len() ==> #[trigger] runs[i].1 + runs[i].2 <= u32::MAX
}

/// A family of run lengths is consistent when none is zero and the longest
/// is at most three times the shortest.
pub open spec fn spec_consistent_family(lengths: Seq<u32>) -> bool {
    &&& lengths.len() > 0
    &&& forall|i: int| 0 <= i < lengths.len() ==> #[trigger] lengths[i] > 0
    &&& forall|i: int, j: int|
        0 <= i < lengths.len() && 0 <= j < lengths.len() ==> #[trigger] lengths[i] <= 3
            * #[trigger] lengths[j]
}

pub open spec fn spec_max(a: u32, b: u32) -> u32 {
    if a >= b {
        a
    } else {
        b
    }
}

pub open spec fn spec_min(a: u32, b: u32) -> u32 {
    if a <= b {
        a
    } else {
        b
    }
}

/// The candidate described by the two thin stripes `t1`, `t2`, the three
/// gaps `g1..g3`, the thick stripe and the data edge, when their lengths
/// have PhonoPaper proportions.
pub open spec fn spec_candidate(
    t1: u32,
    t2: u32,
    g1: u32,
    g2: u32,
    g3: u32,
    thick: u32,
    edge: u32,
) -> Option<MarkerCandidate> {
    let thin_ref = spec_max(t1, t2);
    let max_gap = spec_max(spec_max(g1, g2), g3);
    let min_gap = spec_min(spec_min(g1, g2), g3);
    if !spec_consistent_family(seq![t1, t2]) || !spec_consistent_family(seq![g1, g2, g3]) {
        None
    } else if thin_ref == 0 || min_gap == 0 {
        None
    } else if 2 * thick < 3 * (t1 + t2) {
        None
    } else if max_gap > 4 * thin_ref || 2 * min_gap < thin_ref {
        None
    } else {
        Some(
            MarkerCandidate {
                data_edge: edge,
                thick_len: thick,
                thin_ref: thin_ref,
                gap_ref: max_gap,
            },
        )
    }
}

/// The top-band pattern with its thick stripe at run `idx`: light, thin,
/// light, thin, light, THICK, light, thin (outer to inner).
pub open spec fn spec_match_top(runs: Seq<Run>, idx: int) -> Option<MarkerCandidate> {
    if idx < 5 || idx >= runs.len() || runs.len() - idx <= 2 {
        None
    } else if !(!runs[idx - 5].0 && !runs[idx - 3].0 && !runs[idx - 1].0 && !runs[idx + 1].0
        && runs[idx - 4].0 && runs[idx - 2].0 && runs[idx].0 && runs[idx + 2].0) {
        None
    } else {
        spec_candidate(
            runs[idx - 4].2,
            runs[idx - 2].2,
            runs[idx - 3].2,
            runs[idx - 1].2,
            runs[idx + 1].2,
            runs[idx].2,
            (runs[idx + 2].1 + runs[idx + 2].2) as u32,
        )
    }
}

/// The bottom-band pattern with its thick stripe at run `idx`: thin, light,
/// THICK, light, thin, light, thin, light (inner to outer).
pub open spec fn spec_match_bottom(runs: Seq<Run>, idx: int) -> Option<MarkerCandidate> {
    if idx < 2 || idx + 5 >= runs.len() {
        None
    } else if !(!runs[idx - 1].0 && !runs[idx + 1].0 && !runs[idx + 3].0 && !runs[idx + 5].0
        && runs[idx - 2].0 && runs[idx].0 && runs[idx + 2].0 && runs[idx + 4].0) {
        None
    } else {
        spec_candidate(
            runs[idx + 2].2,
            runs[idx + 4].2,
            runs[idx - 1].2,
            runs[idx + 1].2,
            runs[idx + 3].2,
            runs[idx].2,
            runs[idx - 2].1,
        )
    }
}

pub open spec fn spec_match(runs: Seq<Run>, side: MarkerSide, idx: int) -> Option<MarkerCandidate> {
    match side {
        MarkerSide::Top => spec_match_top(runs, idx),
        MarkerSide::Bottom => spec_match_bottom(runs, idx),
    }
}

/// The candidate found among the first `k` runs: of the dark runs that start
/// in `[zone_start, zone_end)` and match the pattern, the one with the
/// longest thick stripe, and the last of them on a tie.
pub open spec fn spec_find(
    runs: Seq<Run>,
    side: MarkerSide,
    zone_start: int,
    zone_end: int,
    k: int,
) -> Option<MarkerCandidate>
    decreases k,
{
    if k <= 0 {
        None
    } else {
        let best = spec_find(runs, side, zone_start, zone_end, k - 1);
        let r = runs[k - 1];
        if r.0 && zone_start <= r.1 && r.1 < zone_end {
            match spec_match(runs, side, k - 1) {
                Some(c) => match best {
                    Some(b) => if c.thick_len >= b.thick_len {
                        Some(c)
                    } else {
                        best
                    },
                    None => Some(c),
                },
                None => best,
            }
        } else {
            best
        }
    }
}

/// Whether a top and a bottom candidate belong to the same sheet: the data
/// area is not empty and the stripe and gap widths of the two bands agree
/// within a factor of three.
pub open spec fn spec_bands_agree(t: MarkerCandidate, b: MarkerCandidate) -> bool {
    let max_thin = spec_max(t.thin_ref, b.thin_ref);
    let min_thin = spec_min(t.thin_ref, b.thin_ref);
    let max_gap = spec_max(t.gap_ref, b.gap_ref);
    let min_gap = spec_min(t.gap_ref, b.gap_ref);
    &&& t.data_edge < b.data_edge
    &&& min_thin != 0 && max_thin <= 3 * min_thin
    &&& min_gap != 0 && max_gap <= 3 * min_gap
}

/// The data bounds read from column `x`, or `None` when the column has no
/// valid marker pair.
pub open spec fn spec_marker_bounds(img: &Raster, x: int) -> Option<DataBounds> {
    if x < 0 || x >= img.spec_width() {
        None
    } else {
        let h = img.spec_height() as int;
        let runs = spec_runs(spec_dark_column(img, x));
        let top = spec_find(runs, MarkerSide::Top, 0, h * 3 / 10, runs.len() as int);
        let bottom = spec_find(runs, MarkerSide::Bottom, h * 7 / 10, h, runs.len() as int);
        match (top, bottom) {
            (Some(t), Some(b)) => if spec_bands_agree(t, b) {
                Some(DataBounds { data_top: t.data_edge, data_bottom: b.data_edge })
            } else {
                None
            },
            _ => None,
        }
    }
}

/// The reason given when column `x` yields no bounds: the first check of
/// [`detect_markers_at_column`] that fails.
pub open spec fn spec_marker_failure(img: &Raster, x: int) -> Seq<char> {
    if x < 0 || x >= img.spec_width() {
        "column out of bounds"@
    } else {
        let h = img.spec_height() as int;
        let runs = spec_runs(spec_dark_column(img, x));
        let top = spec_find(runs, MarkerSide::Top, 0, h * 3 / 10, runs.len() as int);
        let bottom = spec_find(runs, MarkerSide::Bottom, h * 7 / 10, h, runs.len() as int);
        match (top, bottom) {
            (None, _) => "no valid top marker pattern found"@,
            (Some(_), None) => "no valid bottom marker pattern found"@,
            (Some(t), Some(b)) => if t.data_edge >= b.data_edge {
                "data area has zero height"@
            } else if spec_min(t.thin_ref, b.thin_ref) == 0 || spec_max(t.thin_ref, b.thin_ref) > 3
                * spec_min(t.thin_ref, b.thin_ref) {
                "top and bottom marker stripe widths disagree too much"@
            } else {
                "top and bottom marker gap widths disagree too much"@
            },
        }
    }
}

// ─── Run-length encoding ────────────────────────────────────────────────────

/// The runs of a flag sequence are its maximal blocks of equal flags: they
/// start at row 0, are non-empty, follow each other without gap, alternate
/// between dark and light, hold only their own flag, and end at the last
/// row.
pub proof fn lemma_runs_partition(d: Seq<bool>)
    requires
        d.len() <= u32::MAX,
    ensures
        ({
            let r = spec_runs(d);
            &&& (r.len() == 0 <==> d.len() == 0)
            &&& r.len() > 0 ==> r[0].1 == 0 && r.last().1 + r.last().2 == d.len()
            &&& forall|i: int| 0 <= i < r.len() ==> #[trigger] r[i].2 >= 1
            &&& forall|i: int| 0 <= i < r.len() ==> #[trigger] r[i].1 + r[i].2 <= d.len()
            &&& forall|i: int|
                0 <= i < r.len() - 1 ==> #[trigger] r[i + 1].1 == r[i].1 + r[i].2 && r[i + 1].0
                    != r[i].0
            &&& forall|i: int, y: int|
                0 <= i < r.len() && r[i].1 <= y < r[i].1 + r[i].2 ==> #[trigger] d[y]
                    == #[trigger] r[i].0
        }),
    decreases d.len(),
{
    if d.len() > 0 {
        let p = d.drop_last();
        lemma_runs_partition(p);
        let prev = spec_runs(p);
        let r = spec_runs(d);
        assert forall|i: int, y: int|
            0 <= i < r.len() && r[i].1 <= y < r[i].1 + r[i].2 implies #[trigger] d[y]
                == #[trigger] r[i].0 by {
            if y < d.len() - 1 {
                assert(d[y] == p[y]);
                if i < prev.len() {
                    if i == prev.len() - 1 && prev.len() == r.len() {
                        assert(prev[i].1 <= y < prev[i].1 + prev[i].2);
                    }
                }
            }
        }
    }
}

/// Run `i` starts where run `i - 1` ends, with the other flag.
pub open spec fn run_follows(r: Seq<Run>, i: int) -> bool {
    r[i].1 == r[i - 1].1 + r[i - 1].2 && r[i].0 != r[i - 1].0
}

/// `r` is a run-length encoding of `d`: its runs start at row 0, are
/// non-empty, follow each other without gap, alternate between dark and
/// light, hold only their own flag, and end at the last row.
pub open spec fn partitions(r: Seq<Run>, d: Seq<bool>) -> bool {
    &&& (r.len() == 0 <==> d.len() == 0)
    &&& r.len() > 0 ==> r[0].1 == 0 && r.last().1 + r.last().2 == d.len()
    &&& forall|i: int| 0 <= i < r.len() ==> #[trigger] r[i].2 >= 1
    &&& forall|i: int| 1 <= i < r.len() ==> #[trigger] run_follows(r, i)
    &&& forall|i: int, y: int|
        0 <= i < r.len() && r[i].1 <= y < r[i].1 + r[i].2 ==> #[trigger] d[y] == #[trigger] r[i].0
}

/// The runs of a column without its last row: the last run loses a row,
/// and disappears when that was its only row.
pub open spec fn shrink_last(r: Seq<Run>) -> Seq<Run> {
    let last = r[r.len() - 1];
    if last.2 == 1 {
        r.drop_last()
    } else {
        r.update(r.len() - 1, (last.0, last.1, (last.2 - 1) as u32))
    }
}

/// Removing the last row of a column removes it from its encoding.
proof fn lemma_partition_shrink_single(d: Seq<bool>, r: Seq<Run>)
    requires
        d.len() > 0,
        partitions(r, d),
        r[r.len() - 1].2 == 1,
    ensures
        partitions(shrink_last(r), d.drop_last()),
{
    let p = d.drop_last();
    let n = r.len() as int;
    let r2 = shrink_last(r);
    if n > 1 {
        assert(run_follows(r, n - 1));
        assert(r2.last() == r[n - 2]);
    }
    assert forall|i: int, y: int|
        0 <= i < r2.len() && r2[i].1 <= y < r2[i].1 + r2[i].2 implies #[trigger] p[y]
            == #[trigger] r2[i].0 by {
        assert(r2[i] == r[i]);
        lemma_run_ends_before(r, i, n - 1);
        assert(r[i].1 <= y < r[i].1 + r[i].2);
        assert(p[y] == d[y]);
    }
    assert forall|i: int| 1 <= i < r2.len() implies #[trigger] run_follows(r2, i) by {
        assert(run_follows(r, i));
    }
}

/// Removing the last row of a column shortens its last run.
#[verifier::rlimit(30)]
proof fn lemma_partition_shrink_long(d: Seq<bool>, r: Seq<Run>)
    requires
        d.len() > 0,
        partitions(r, d),
        r[r.len() - 1].2 > 1,
    ensures
        partitions(shrink_last(r), d.drop_last()),
{
    let p = d.drop_last();
    let n = r.len() as int;
    let last = r[n - 1];
    let shorter = (last.0, last.1, (last.2 - 1) as u32);
    let r2 = r.update(n - 1, shorter);
    assert(shrink_last(r) == r2);
    assert(r2.len() == n);
    assert(forall|i: int| 0 <= i < n - 1 ==> #[trigger] r2[i] == r[i]);
    assert(r2[n - 1] == shorter);
    assert(r2[0].1 == 0);
    assert(r2.last().1 + r2.last().2 == p.len());
    assert forall|i: int| 0 <= i < r2.len() implies #[trigger] r2[i].2 >= 1 by {
        if i < n - 1 {
            assert(r2[i] == r[i]);
        }
    }
    assert forall|i: int, y: int|
        0 <= i < r2.len() && r2[i].1 <= y < r2[i].1 + r2[i].2 implies #[trigger] p[y]
            == #[trigger] r2[i].0 by {
        if i < n - 1 {
            assert(r2[i] == r[i]);
            lemma_run_ends_before(r, i, n - 1);
            assert(r[i].1 <= y < r[i].1 + r[i].2);
        } else {
            assert(r[n - 1].1 <= y < r[n - 1].1 + r[n - 1].2);
        }
        assert(p[y] == d[y]);
    }
    assert forall|i: int| 1 <= i < r2.len() implies #[trigger] run_follows(r2, i) by {
        assert(run_follows(r, i));
        assert(r2[i - 1] == r[i - 1]);
    }
}

/// The run-length encoding is determined by the flags: any sequence of runs
/// that partitions the column is its encoding.
pub proof fn lemma_runs_unique(d: Seq<bool>, r: Seq<Run>)
    requires
        d.len() <= u32::MAX,
        partitions(r, d),
    ensures
        spec_runs(d) == r,
    decreases d.len(),
{
    if d.len() > 0 {
        let n = r.len() as int;
        let last = r[n - 1];
        assert(d[d.len() - 1] == last.0);
        if last.2 == 1 {
            lemma_partition_shrink_single(d, r);
        } else {
            lemma_partition_shrink_long(d, r);
        }
        lemma_runs_unique(d.drop_last(), shrink_last(r));
        if n > 1 {
            assert(run_follows(r, n - 1));
        }
        assert(spec_runs(d) =~= r);
    }
}

/// A run before the last one ends no later than the last one starts.
proof fn lemma_run_ends_before(r: Seq<Run>, i: int, j: int)
    requires
        0 <= i < j < r.len(),
        forall|k: int| 0 <= k < r.len() ==> #[trigger] r[k].2 >= 1,
        forall|k: int| 1 <= k < r.len() ==> #[trigger] run_follows(r, k),
    ensures
        r[i].1 + r[i].2 <= r[j].1,
    decreases j - i,
{
    assert(run_follows(r, i + 1));
    if i + 1 < j {
        lemma_run_ends_before(r, i + 1, j);
    }
}

/// Runs of a column of an image stay within the `u32` range.
proof fn lemma_runs_bounded(d: Seq<bool>)
    requires
        d.len() <= u32::MAX,
    ensures
        runs_bounded(spec_runs(d)),
{
    lemma_runs_partition(d);
}

// ─── Small helpers ──────────────────────────────────────────────────────────

/// Whether every run at the given indices is light.
fn all_light(runs: &[Run], indices: &[usize]) -> (r: bool)
    requires
        forall|k: int| 0 <= k < indices@.len() ==> #[trigger] indices@[k] < runs@.len(),
    ensures
        r == forall|k: int| 0 <= k < indices@.len() ==> !(#[trigger] runs@[indices@[k] as int]).0,
{
    let mut k: usize = 0;
    while k < indices.len()
        invariant
            k <= indices@.len(),
            forall|j: int| 0 <= j < indices@.len() ==> #[trigger] indices@[j] < runs@.len(),
            forall|j: int| 0 <= j < k ==> !(#[trigger] runs@[indices@[j] as int]).0,
        decreases indices@.len() - k,
    {
        if runs[indices[k]].0 {
            return false;
        }
        k += 1;
    }
    true
}

/// Whether every run at the given indices is dark.
fn all_dark(runs: &[Run], indices: &[usize]) -> (r: bool)
    requires
        forall|k: int| 0 <= k < indices@.len() ==> #[trigger] indices@[k] < runs@.len(),
    ensures
        r == forall|k: int| 0 <= k < indices@.len() ==> (#[trigger] runs@[indices@[k] as int]).0,
{
    let mut k: usize = 0;
    while k < indices.len()
        invariant
            k <= indices@.len(),
            forall|j: int| 0 <= j < indices@.len() ==> #[trigger] indices@[j] < runs@.len(),
            forall|j: int| 0 <= j < k ==> (#[trigger] runs@[indices@[j] as int]).0,
        decreases indices@.len() - k,
    {
        if !runs[indices[k]].0 {
            return false;
        }
        k += 1;
    }
    true
}

fn max3(a: u32, b: u32, c: u32) -> (r: u32)
    ensures
        r == spec_max(spec_max(a, b), c),
{
    let ab = if a >= b {
        a
    } else {
        b
    };
    if ab >= c {
        ab
    } else {
        c
    }
}

fn min3(a: u32, b: u32, c: u32) -> (r: u32)
    ensures
        r == spec_min(spec_min(a, b), c),
{
    let ab = if a <= b {
        a
    } else {
        b
    };
    if ab <= c {
        ab
    } else {
        c
    }
}

/// Whether the lengths are non-empty, non-zero and within a factor of three
/// of each other.
fn is_consistent_run_family(lengths: &[u32]) -> (r: bool)
    ensures
        r == spec_consistent_family(lengths@),
{
    if lengths.len() == 0 {
        return false;
    }
    let mut min_len = lengths[0];
    let mut max_len = lengths[0];
    let mut k: usize = 1;
    while k < lengths.len()
        invariant
            1 <= k <= lengths@.len(),
            forall|j: int| 0 <= j < k ==> min_len <= #[trigger] lengths@[j] <= max_len,
            exists|j: int| 0 <= j < k && lengths@[j] == min_len,
            exists|j: int| 0 <= j < k && lengths@[j] == max_len,
        decreases lengths@.len() - k,
    {
        let v = lengths[k];
        if v < min_len {
            min_len = v;
        }
        if v > max_len {
            max_len = v;
        }
        k += 1;
    }
    let r = min_len > 0 && (max_len as u64) <= (min_len as u64) * 3;
    proof {
        let s = lengths@;
        let jmin = choose|j: int| 0 <= j < s.len() && s[j] == min_len;
        let jmax = choose|j: int| 0 <= j < s.len() && s[j] == max_len;
        if r {
            assert forall|i: int, j: int| 0 <= i < s.len() && 0 <= j < s.len() implies #[trigger] s[i]
                <= 3 * #[trigger] s[j] by {
                assert(s[i] <= max_len);
                assert(min_len <= s[j]);
            }
        } else if min_len == 0 {
            assert(!(s[jmin] > 0));
        } else {
            assert(!(s[jmax] <= 3 * s[jmin]));
        }
    }
    r
}

// ─── Pattern matching ───────────────────────────────────────────────────────

fn candidate_from(
    t1: u32,
    t2: u32,
    g1: u32,
    g2: u32,
    g3: u32,
    thick: u32,
    edge: u32,
) -> (r: Option<MarkerCandidate>)
    ensures
        r == spec_candidate(t1, t2, g1, g2, g3, thick, edge),
{
    let thin_pair = [t1, t2];
    let gaps = [g1, g2, g3];
    let thin_ok = is_consistent_run_family(&thin_pair);
    let gaps_ok = is_consistent_run_family(&gaps);
    proof {
        assert(thin_pair@ =~= seq![t1, t2]);
        assert(gaps@ =~= seq![g1, g2, g3]);
    }
    if !thin_ok || !gaps_ok {
        return None;
    }
    let thin_ref = if t1 >= t2 {
        t1
    } else {
        t2
    };
    let min_gap = min3(g1, g2, g3);
    if thin_ref == 0 || min_gap == 0 {
        return None;
    }
    if (thick as u64) * 2 < 3 * ((t1 as u64) + (t2 as u64)) {
        return None;
    }
    let max_gap = max3(g1, g2, g3);
    if (max_gap as u64) > (thin_ref as u64) * 4 || (min_gap as u64) * 2 < (thin_ref as u64) {
        return None;
    }
    Some(MarkerCandidate { data_edge: edge, thick_len: thick, thin_ref, gap_ref: max_gap })
}

/// The top-band candidate whose thick stripe is run `idx`, if the
/// surrounding runs form the top marker pattern.
fn matches_top_marker_pattern(runs: &[Run], idx: usize) -> (r: Option<MarkerCandidate>)
    requires
        runs_bounded(runs@),
    ensures
        r == spec_match_top(runs@, idx as int),
{
    if idx < 5 || idx >= runs.len() || runs.len() - idx <= 2 {
        return None;
    }
    let light_runs = [idx - 5, idx - 3, idx - 1, idx + 1];
    let dark_runs = [idx - 4, idx - 2, idx, idx + 2];
    let light = all_light(runs, &light_runs);
    let dark = all_dark(runs, &dark_runs);
    proof {
        let s = runs@;
        if light && dark {
            assert(light_runs@[0] == idx - 5 && light_runs@[1] == idx - 3);
            assert(light_runs@[2] == idx - 1 && light_runs@[3] == idx + 1);
            assert(dark_runs@[0] == idx - 4 && dark_runs@[1] == idx - 2);
            assert(dark_runs@[2] == idx && dark_runs@[3] == idx + 2);
        } else if !light {
            let k = choose|k: int| 0 <= k < 4 && s[light_runs@[k] as int].0;
            assert(0 <= k < 4);
        } else {
            let k = choose|k: int| 0 <= k < 4 && !s[dark_runs@[k] as int].0;
            assert(0 <= k < 4);
        }
    }
    if !light || !dark {
        return None;
    }
    let inner_dark = runs[idx + 2];
    proof {
        assert(runs@[idx + 2 as int].1 + runs@[idx + 2 as int].2 <= u32::MAX);
    }
    candidate_from(
        runs[idx - 4].2,
        runs[idx - 2].2,
        runs[idx - 3].2,
        runs[idx - 1].2,
        runs[idx + 1].2,
        runs[idx].2,
        inner_dark.1 + inner_dark.2,
    )
}

/// The bottom-band candidate whose thick stripe is run `idx`, if the
/// surrounding runs form the bottom marker pattern.
fn matches_bottom_marker_pattern(runs: &[Run], idx: usize) -> (r: Option<MarkerCandidate>)
    ensures
        r == spec_match_bottom(runs@, idx as int),
{
    if idx < 2 || idx >= runs.len() || runs.len() - idx <= 5 {
        return None;
    }
    let light_runs = [idx - 1, idx + 1, idx + 3, idx + 5];
    let dark_runs = [idx - 2, idx, idx + 2, idx + 4];
    let light = all_light(runs, &light_runs);
    let dark = all_dark(runs, &dark_runs);
    proof {
        let s = runs@;
        if light && dark {
            assert(light_runs@[0] == idx - 1 && light_runs@[1] == idx + 1);
            assert(light_runs@[2] == idx + 3 && light_runs@[3] == idx + 5);
            assert(dark_runs@[0] == idx - 2 && dark_runs@[1] == idx);
            assert(dark_runs@[2] == idx + 2 && dark_runs@[3] == idx + 4);
        } else if !light {
            let k = choose|k: int| 0 <= k < 4 && s[light_runs@[k] as int].0;
            assert(0 <= k < 4);
        } else {
            let k = choose|k: int| 0 <= k < 4 && !s[dark_runs@[k] as int].0;
            assert(0 <= k < 4);
        }
    }
    if !light || !dark {
        return None;
    }
    candidate_from(
        runs[idx + 2].2,
        runs[idx + 4].2,
        runs[idx - 1].2,
        runs[idx + 1].2,
        runs[idx + 3].2,
        runs[idx].2,
        runs[idx - 2].1,
    )
}

/// The best candidate for one band: among the dark runs that start in
/// `[zone_start, zone_end)` and match the band's pattern, the one with the
/// longest thick stripe (the last one on a tie).
fn find_marker_candidate(runs: &[Run], side: MarkerSide, zone_start: u32, zone_end: u32) -> (r:
    Option<MarkerCandidate>)
    requires
        runs_bounded(runs@),
    ensures
        r == spec_find(runs@, side, zone_start as int, zone_end as int, runs@.len() as int),
{
    let mut best: Option<MarkerCandidate> = None;
    let mut idx: usize = 0;
    while idx < runs.len()
        invariant
            idx <= runs@.len(),
            runs_bounded(runs@),
            best == spec_find(runs@, side, zone_start as int, zone_end as int, idx as int),
        decreases runs@.len() - idx,
    {
        let (is_dark, start, _) = runs[idx];
        if is_dark && start >= zone_start && start < zone_end {
            let found = match side {
                MarkerSide::Top => matches_top_marker_pattern(runs, idx),
                MarkerSide::Bottom => matches_bottom_marker_pattern(runs, idx),
            };
            if let Some(c) = found {
                match best {
                    Some(b) => {
                        if c.thick_len >= b.thick_len {
                            best = Some(c);
                        }
                    },
                    None => {
                        best = Some(c);
                    },
                }
            }
        }
        idx += 1;
    }
    best
}

// ─── Column scan ────────────────────────────────────────────────────────────

/// The run-length encoding of the dark/light rows of column `col_x`.
fn column_runs(image: &Raster, col_x: u32) -> (r: Vec<Run>)
    requires
        col_x < image.spec_width(),
    ensures
        r@ == spec_runs(spec_dark_column(image, col_x as int)),
{
    let height = image.height();
    let ghost d = spec_dark_column(image, col_x as int);
    let mut runs: Vec<Run> = Vec::new();
    let mut y: u32 = 0;
    while y < height
        invariant
            y <= height,
            height == image.spec_height(),
            col_x < image.spec_width(),
            d == spec_dark_column(image, col_x as int),
            runs@ == spec_runs(d.take(y as int)),
        decreases height - y,
    {
        let p = image.get_pixel(col_x, y);
        let dark = pixel_luma(p) < DARK_THRESHOLD;
        proof {
            assert(dark == d[y as int]);
            assert(d.take(y + 1).drop_last() =~= d.take(y as int));
            assert(d.take(y + 1).last() == d[y as int]);
            lemma_runs_partition(d.take(y as int));
        }
        let n = runs.len();
        if n > 0 && runs[n - 1].0 == dark {
            let (b, start, len) = runs[n - 1];
            runs.set(n - 1, (b, start, len + 1));
        } else {
            runs.push((dark, y, 1));
        }
        y += 1;
    }
    proof {
        assert(d.take(height as int) =~= d);
    }
    runs
}

/// Scan column `col_x` of the image for the PhonoPaper marker bands.
///
/// The column is run-length encoded into dark (luminance below 128) and
/// light runs; the top band is searched among runs that start in the top
/// 30 % of the image and the bottom band among runs that start in the
/// bottom 30 %.  The bounds are returned when both bands are found, the data
/// area is not empty, and the stripe and gap widths of the two bands agree
/// within a factor of three.
pub fn detect_markers_at_column(image: &Raster, col_x: u32) -> (r: Result<
    DataBounds,
    PhonoPaperError,
>)
    ensures
        r is Ok <==> spec_marker_bounds(image, col_x as int) is Some,
        r matches Ok(b) ==> spec_marker_bounds(image, col_x as int) == Some(b),
        r matches Err(e) ==> (e matches PhonoPaperError::MarkerNotFound(m) && m@
            == spec_marker_failure(image, col_x as int)),
{
    let width = image.width();
    let height = image.height();
    if col_x >= width {
        return Err(PhonoPaperError::MarkerNotFound("column out of bounds"));
    }
    let runs = column_runs(image, col_x);
    proof {
        lemma_runs_bounded(spec_dark_column(image, col_x as int));
    }
    let top_limit = ((height as u64) * 3 / 10) as u32;
    let bot_limit = ((height as u64) * 7 / 10) as u32;
    let top_marker = match find_marker_candidate(&runs, MarkerSide::Top, 0, top_limit) {
        Some(c) => c,
        None => {
            return Err(PhonoPaperError::MarkerNotFound("no valid top marker pattern found"));
        },
    };
    let bottom_marker = match find_marker_candidate(&runs, MarkerSide::Bottom, bot_limit, height) {
        Some(c) => c,
        None => {
            return Err(PhonoPaperError::MarkerNotFound("no valid bottom marker pattern found"));
        },
    };
    let data_top = top_marker.data_edge;
    let data_bottom = bottom_marker.data_edge;
    if data_bottom <= data_top {
        return Err(PhonoPaperError::MarkerNotFound("data area has zero height"));
    }
    let max_thin = if top_marker.thin_ref >= bottom_marker.thin_ref {
        top_marker.thin_ref
    } else {
        bottom_marker.thin_ref
    };
    let min_thin = if top_marker.thin_ref <= bottom_marker.thin_ref {
        top_marker.thin_ref
    } else {
        bottom_marker.thin_ref
    };
    if min_thin == 0 || (max_thin as u64) > (min_thin as u64) * 3 {
        return Err(
            PhonoPaperError::MarkerNotFound("top and bottom marker stripe widths disagree too much"),
        );
    }
    let max_gap = if top_marker.gap_ref >= bottom_marker.gap_ref {
        top_marker.gap_ref
    } else {
        bottom_marker.gap_ref
    };
    let min_gap = if top_marker.gap_ref <= bottom_marker.gap_ref {
        top_marker.gap_ref
    } else {
        bottom_marker.gap_ref
    };
    if min_gap == 0 || (max_gap as u64) > (min_gap as u64) * 3 {
        return Err(
            PhonoPaperError::MarkerNotFound("top and bottom marker gap widths disagree too much"),
        );
    }
    Ok(DataBounds { data_top, data_bottom })
}

// ─── Sampling several columns ───────────────────────────────────────────────

/// A column together with the bounds read there.
pub type Anchor = (u32, DataBounds);

/// The number of columns sampled out of `requested` for an image of
/// width `width > 0`: at most the width, at least one.
pub open spec fn spec_sample_count(width: u32, requested: u32) -> int {
    let n = if requested <= width {
        requested as int
    } else {
        width as int
    };
    if n < 1 {
        1
    } else {
        n
    }
}

/// The `i`-th of `n` evenly spaced columns of an image of width `width`:
/// `i · (width − 1) / (n − 1)` rounded to the nearest integer, halves
/// rounded up.
pub open spec fn spec_sample_column(width: u32, n: int, i: int) -> int {
    if n <= 1 {
        0
    } else {
        (2 * i * (width - 1) + (n - 1)) / (2 * (n - 1))
    }
}

/// The evenly spaced columns sampled from an image of width `width`.
pub open spec fn spec_evenly_spaced(width: u32, requested: u32) -> Seq<u32> {
    if width == 0 {
        Seq::empty()
    } else {
        let n = spec_sample_count(width, requested);
        Seq::new(n as nat, |i: int| spec_sample_column(width, n, i) as u32)
    }
}

pub open spec fn spec_abs_diff(a: int, b: int) -> int {
    if a >= b {
        a - b
    } else {
        b - a
    }
}

/// Two detections at columns `prev_x` and `next_x` belong to one smooth
/// pattern: each boundary moves by at most a quarter of the horizontal
/// distance plus four pixels, and the heights differ by at most a tenth of
/// the smaller height plus six pixels.
pub open spec fn spec_bounds_consistent(
    prev_x: u32,
    prev: DataBounds,
    next_x: u32,
    next: DataBounds,
) -> bool {
    let step = spec_abs_diff(next_x as int, prev_x as int) / 4 + 4;
    let prev_h = prev.data_bottom - prev.data_top;
    let next_h = next.data_bottom - next.data_top;
    let min_h = if prev_h <= next_h {
        prev_h
    } else {
        next_h
    };
    &&& spec_abs_diff(prev.data_top as int, next.data_top as int) <= step
    &&& spec_abs_diff(prev.data_bottom as int, next.data_bottom as int) <= step
    &&& spec_abs_diff(prev_h, next_h) <= min_h / 10 + 6
}

/// The longer of two clusters, the earlier one on a tie.
pub open spec fn spec_longer(best: Seq<Anchor>, current: Seq<Anchor>) -> Seq<Anchor> {
    if current.len() > best.len() {
        current
    } else {
        best
    }
}

/// Scan of the sample results from left to right, as `(best, current)`:
/// a detection consistent with the previous one extends the current
/// cluster; any other detection, or a failed column, closes it (keeping it
/// when it is strictly longer than the best one so far).
pub open spec fn spec_cluster_scan(samples: Seq<(u32, Option<DataBounds>)>) -> (
    Seq<Anchor>,
    Seq<Anchor>,
)
    decreases samples.len(),
{
    if samples.len() == 0 {
        (Seq::empty(), Seq::empty())
    } else {
        let (best, current) = spec_cluster_scan(samples.drop_last());
        let (x, res) = samples.last();
        match res {
            Some(b) => if current.len() > 0 && spec_bounds_consistent(
                current.last().0,
                current.last().1,
                x,
                b,
            ) {
                (best, current.push((x, b)))
            } else {
                (spec_longer(best, current), seq![(x, b)])
            },
            None => (spec_longer(best, current), Seq::empty()),
        }
    }
}

/// The widest run of consecutive, mutually consistent detections.
pub open spec fn spec_best_cluster(samples: Seq<(u32, Option<DataBounds>)>) -> Seq<Anchor> {
    let (best, current) = spec_cluster_scan(samples);
    spec_longer(best, current)
}

/// Each of the columns `xs` paired with the bounds read there, if any.
pub open spec fn spec_column_samples(img: &Raster, xs: Seq<u32>) -> Seq<(u32, Option<DataBounds>)> {
    Seq::new(xs.len(), |i: int| (xs[i], spec_marker_bounds(img, xs[i] as int)))
}

/// The columns that the per-column decoders sample: `sample_columns`, but
/// at least two, evenly spaced columns of the image.
pub open spec fn spec_sampled_columns(img: &Raster, sample_columns: u32) -> Seq<u32> {
    spec_evenly_spaced(
        img.spec_width(),
        if sample_columns < 2 {
            2
        } else {
            sample_columns
        },
    )
}

/// The bounds chosen from detections at columns `xs`: the median of the
/// widest consistent cluster, provided it holds at least `min(3, xs.len())`
/// detections.
pub open spec fn spec_cluster_bounds(img: &Raster, xs: Seq<u32>) -> Option<DataBounds> {
    let samples = spec_column_samples(img, xs);
    let best = spec_best_cluster(samples);
    let min_len = if xs.len() < 3 {
        xs.len() as int
    } else {
        3
    };
    if best.len() < min_len || best.len() == 0 {
        None
    } else {
        Some(best[(best.len() / 2) as int].1)
    }
}

/// The bounds that [`detect_markers`] reads from an image.
pub open spec fn spec_detect_markers(img: &Raster) -> Option<DataBounds> {
    if img.spec_width() == 0 {
        None
    } else {
        spec_cluster_bounds(img, spec_evenly_spaced(img.spec_width(), 9))
    }
}

/// Every detection in the sample results has its top above its bottom.
pub open spec fn samples_ordered(samples: Seq<(u32, Option<DataBounds>)>) -> bool {
    forall|i: int|
        0 <= i < samples.len() ==> ((#[trigger] samples[i]).1 matches Some(b) ==> b.data_top
            <= b.data_bottom)
}

/// Where two neighbouring samples both hold a detection, both have their
/// top above their bottom: the detections that the cluster scan compares
/// have a height.
pub open spec fn neighbours_ordered(samples: Seq<(u32, Option<DataBounds>)>) -> bool {
    forall|i: int|
        1 <= i < samples.len() ==> ((#[trigger] samples[i]).1 matches Some(b) ==> (samples[i
            - 1].1 matches Some(a) ==> a.data_top <= a.data_bottom && b.data_top <= b.data_bottom))
}

/// Samples whose detections all have a height have neighbours with one.
proof fn lemma_ordered_neighbours(samples: Seq<(u32, Option<DataBounds>)>)
    requires
        samples_ordered(samples),
    ensures
        neighbours_ordered(samples),
{
    assert forall|i: int| 1 <= i < samples.len() implies ((#[trigger] samples[i]).1 matches Some(
        b,
    ) ==> (samples[i - 1].1 matches Some(a) ==> a.data_top <= a.data_bottom && b.data_top
        <= b.data_bottom)) by {
        assert(samples[i - 1] == samples[i - 1]);
    }
}

/// The current cluster of a scan, when not empty, ends with the last
/// sample, which holds a detection.
proof fn lemma_cluster_scan_current(samples: Seq<(u32, Option<DataBounds>)>)
    ensures
        spec_cluster_scan(samples).1.len() > 0 ==> samples.len() > 0,
        spec_cluster_scan(samples).1.len() > 0 ==> (samples.last().1 matches Some(b)
            && spec_cluster_scan(samples).1.last() == (samples.last().0, b)),
{
}

/// `cluster` is made of detections of `samples`, and consecutive members are
/// consistent with each other.
pub open spec fn is_cluster_of(cluster: Seq<Anchor>, samples: Seq<(u32, Option<DataBounds>)>) -> bool {
    &&& forall|k: int|
        0 <= k < cluster.len() ==> exists|j: int|
            0 <= j < samples.len() && #[trigger] samples[j] == (
                (#[trigger] cluster[k]).0,
                Some(cluster[k].1),
            )
    &&& forall|k: int|
        0 <= k < cluster.len() - 1 ==> spec_bounds_consistent(
            (#[trigger] cluster[k]).0,
            cluster[k].1,
            cluster[k + 1].0,
            cluster[k + 1].1,
        )
}

/// The cluster chosen from sample results consists of detections that were
/// actually made, in order, each consistent with the next.
pub proof fn lemma_best_cluster_is_consistent(samples: Seq<(u32, Option<DataBounds>)>)
    ensures
        is_cluster_of(spec_best_cluster(samples), samples),
    decreases samples.len(),
{
    lemma_cluster_scan_is_consistent(samples);
}

proof fn lemma_cluster_scan_is_consistent(samples: Seq<(u32, Option<DataBounds>)>)
    ensures
        is_cluster_of(spec_cluster_scan(samples).0, samples),
        is_cluster_of(spec_cluster_scan(samples).1, samples),
    decreases samples.len(),
{
    if samples.len() > 0 {
        let p = samples.drop_last();
        lemma_cluster_scan_is_consistent(p);
        let (best, current) = spec_cluster_scan(p);
        let n = samples.len() - 1;
        assert forall|c: Seq<Anchor>| is_cluster_of(c, p) implies is_cluster_of(c, samples) by {
            assert forall|k: int| 0 <= k < c.len() implies exists|j: int|
                0 <= j < samples.len() && #[trigger] samples[j] == (
                    (#[trigger] c[k]).0,
                    Some(c[k].1),
                ) by {
                let j = choose|j: int|
                    0 <= j < p.len() && #[trigger] p[j] == (c[k].0, Some(c[k].1));
                assert(samples[j] == p[j]);
            }
        }
        let (x, res) = samples.last();
        match res {
            Some(b) => {
                let single = seq![(x, b)];
                assert(samples[n] == (single[0].0, Some(single[0].1)));
                assert(is_cluster_of(single, samples));
                if current.len() > 0 && spec_bounds_consistent(
                    current.last().0,
                    current.last().1,
                    x,
                    b,
                ) {
                    let ext = current.push((x, b));
                    assert forall|k: int| 0 <= k < ext.len() implies exists|j: int|
                        0 <= j < samples.len() && #[trigger] samples[j] == (
                            (#[trigger] ext[k]).0,
                            Some(ext[k].1),
                        ) by {
                        if k < current.len() {
                            assert(ext[k] == current[k]);
                            assert(is_cluster_of(current, samples));
                            let j = choose|j: int|
                                0 <= j < samples.len() && #[trigger] samples[j] == (
                                    current[k].0,
                                    Some(current[k].1),
                                );
                        } else {
                            assert(samples[n] == (ext[k].0, Some(ext[k].1)));
                        }
                    }
                    assert forall|k: int| 0 <= k < ext.len() - 1 implies spec_bounds_consistent(
                        (#[trigger] ext[k]).0,
                        ext[k].1,
                        ext[k + 1].0,
                        ext[k + 1].1,
                    ) by {
                        if k < current.len() - 1 {
                            assert(ext[k] == current[k] && ext[k + 1] == current[k + 1]);
                        }
                    }
                }
            },
            None => {
                assert(is_cluster_of(Seq::<Anchor>::empty(), samples));
            },
        }
    }
}

/// Columns sampled from an image of width `width > 0` are strictly
/// increasing, start at column 0, end at the last column when there are at
/// least two of them, and all lie inside the image.
pub proof fn lemma_evenly_spaced_columns(width: u32, requested: u32)
    requires
        width > 0,
    ensures
        ({
            let xs = spec_evenly_spaced(width, requested);
            &&& xs.len() == spec_sample_count(width, requested)
            &&& xs[0] == 0
            &&& xs.len() >= 2 ==> xs[xs.len() - 1] == width - 1
            &&& forall|i: int| 0 <= i < xs.len() ==> #[trigger] xs[i] < width
            &&& forall|i: int, j: int| 0 <= i < j < xs.len() ==> #[trigger] xs[i] < #[trigger] xs[j]
        }),
{
    let n = spec_sample_count(width, requested);
    let xs = spec_evenly_spaced(width, requested);
    assert forall|i: int| 0 <= i < n implies 0 <= #[trigger] spec_sample_column(width, n, i) < width by {
        lemma_sample_column_range(width, n, i);
    }
    assert forall|i: int, j: int| 0 <= i < j < xs.len() implies #[trigger] xs[i] < #[trigger] xs[j] by {
        lemma_sample_column_range(width, n, i);
        lemma_sample_column_range(width, n, j);
        lemma_sample_column_increasing(width, n, i, j);
    }
    if n >= 2 {
        let d = 2 * (n - 1);
        assert((2 * (n - 1) * (width - 1) + (n - 1)) == (width - 1) * d + (n - 1))
            by (nonlinear_arith)
            requires
                d == 2 * (n - 1),
        ;
        vstd::arithmetic::div_mod::lemma_fundamental_div_mod_converse(
            (width - 1) * d + (n - 1),
            d,
            width - 1,
            n - 1,
        );
        lemma_sample_column_range(width, n, 0);
        assert(2 * 0 * (width - 1) + (n - 1) == n - 1) by (nonlinear_arith);
        vstd::arithmetic::div_mod::lemma_basic_div(n - 1, d);
        assert(spec_sample_column(width, n, 0) == 0);
    }
    assert(xs[0] == spec_sample_column(width, n, 0) as u32);
}

proof fn lemma_sample_column_range(width: u32, n: int, i: int)
    requires
        width > 0,
        1 <= n <= width,
        0 <= i < n,
    ensures
        0 <= spec_sample_column(width, n, i) <= width - 1,
{
    if n > 1 {
        let d = 2 * (n - 1);
        let a = 2 * i * (width - 1) + (n - 1);
        assert(0 <= a < width * d) by (nonlinear_arith)
            requires
                a == 2 * i * (width - 1) + (n - 1),
                d == 2 * (n - 1),
                0 <= i < n,
                n > 1,
                width > 0,
        ;
        vstd::arithmetic::div_mod::lemma_div_pos_is_pos(a, d);
        vstd::arithmetic::div_mod::lemma_div_by_multiple_is_strongly_ordered(
            a,
            width * d,
            width as int,
            d,
        );
        vstd::arithmetic::div_mod::lemma_div_by_multiple(width as int, d);
    }
}

proof fn lemma_sample_column_increasing(width: u32, n: int, i: int, j: int)
    requires
        width > 0,
        1 <= n <= width,
        0 <= i < j < n,
    ensures
        spec_sample_column(width, n, i) < spec_sample_column(width, n, j),
{
    let d = 2 * (n - 1);
    let a = 2 * i * (width - 1) + (n - 1);
    let b = 2 * j * (width - 1) + (n - 1);
    assert((j - i) * (width - 1) >= width - 1) by (nonlinear_arith)
        requires
            j - i >= 1,
            width >= 1,
    ;
    assert(b - a == 2 * ((j - i) * (width - 1))) by (nonlinear_arith)
        requires
            a == 2 * i * (width - 1) + (n - 1),
            b == 2 * j * (width - 1) + (n - 1),
    ;
    assert(a + d <= b);
    vstd::arithmetic::div_mod::lemma_div_plus_one(a, d);
    vstd::arithmetic::div_mod::lemma_div_is_ordered(d + a, b, d);
}

/// The columns to sample: `min(requested, width)` (at least one) evenly
/// spaced columns from the first to the last, rounded to the nearest
/// column.
fn evenly_spaced_columns(width: u32, requested_samples: u32) -> (r: Vec<u32>)
    ensures
        r@ == spec_evenly_spaced(width, requested_samples),
{
    if width == 0 {
        return Vec::new();
    }
    let mut n_samples = if requested_samples <= width {
        requested_samples
    } else {
        width
    };
    if n_samples < 1 {
        n_samples = 1;
    }
    let ghost n = spec_sample_count(width, requested_samples);
    let mut xs: Vec<u32> = Vec::new();
    let mut i: u32 = 0;
    while i < n_samples
        invariant
            width > 0,
            n_samples == n,
            1 <= n <= width,
            i <= n_samples,
            xs@.len() == i,
            forall|k: int| 0 <= k < i ==> xs@[k] == spec_sample_column(width, n, k) as u32,
        decreases n_samples - i,
    {
        proof {
            lemma_sample_column_range(width, n as int, i as int);
        }
        let x: u32 = if n_samples <= 1 {
            0
        } else {
            proof {
                assert(2 * (i as int) * ((width - 1) as int) <= 2 * 0xFFFF_FFFF * 0xFFFF_FFFF)
                    by (nonlinear_arith)
                    requires
                        i <= 0xFFFF_FFFFu32,
                        width <= 0xFFFF_FFFFu32,
                        width >= 1,
                ;
            }
            let num: u128 = 2 * (i as u128) * ((width - 1) as u128) + ((n_samples - 1) as u128);
            let den: u128 = 2 * ((n_samples - 1) as u128);
            (num / den) as u32
        };
        xs.push(x);
        i += 1;
    }
    proof {
        assert(xs@ =~= spec_evenly_spaced(width, requested_samples));
    }
    xs
}

fn abs_diff(a: u32, b: u32) -> (r: u32)
    ensures
        r == spec_abs_diff(a as int, b as int),
{
    if a >= b {
        a - b
    } else {
        b - a
    }
}

/// Whether the detections `prev` at column `prev_x` and `next` at column
/// `next_x` are consistent with one smooth pattern.
pub fn bounds_are_consistent(prev_x: u32, prev: DataBounds, next_x: u32, next: DataBounds) -> (r:
    bool)
    requires
        prev.data_top <= prev.data_bottom,
        next.data_top <= next.data_bottom,
    ensures
        r == spec_bounds_consistent(prev_x, prev, next_x, next),
{
    let dx = abs_diff(next_x, prev_x);
    let max_boundary_step = dx / 4 + 4;
    let prev_height = prev.height();
    let next_height = next.height();
    let min_height = if prev_height <= next_height {
        prev_height
    } else {
        next_height
    };
    let max_height_delta = min_height / 10 + 6;
    abs_diff(prev.data_top, next.data_top) <= max_boundary_step && abs_diff(
        prev.data_bottom,
        next.data_bottom,
    ) <= max_boundary_step && abs_diff(prev_height, next_height) <= max_height_delta
}

/// The widest run of consecutive, mutually consistent detections among the
/// sample results.
fn widest_cluster(samples: &[(u32, Option<DataBounds>)]) -> (r: Vec<Anchor>)
    requires
        neighbours_ordered(samples@),
    ensures
        r@ == spec_best_cluster(samples@),
{
    let mut best: Vec<Anchor> = Vec::new();
    let mut current: Vec<Anchor> = Vec::new();
    let mut i: usize = 0;
    while i < samples.len()
        invariant
            i <= samples@.len(),
            neighbours_ordered(samples@),
            (best@, current@) == spec_cluster_scan(samples@.take(i as int)),
        decreases samples@.len() - i,
    {
        proof {
            assert(samples@.take(i + 1).drop_last() =~= samples@.take(i as int));
            assert(samples@.take(i + 1).last() == samples@[i as int]);
            lemma_cluster_scan_current(samples@.take(i as int));
            if i > 0 {
                assert(samples@.take(i as int).last() == samples@[i - 1]);
            }
        }
        let (col_x, result) = samples[i];
        match result {
            Some(bounds) => {
                let n = current.len();
                let continues_cluster = n > 0 && {
                    let (prev_x, prev_bounds) = current[n - 1];
                    proof {
                        assert(samples@[i as int].1 matches Some(b) ==> (samples@[i - 1].1 matches Some(
                            a,
                        ) ==> a.data_top <= a.data_bottom && b.data_top <= b.data_bottom));
                    }
                    bounds_are_consistent(prev_x, prev_bounds, col_x, bounds)
                };
                if !continues_cluster {
                    if current.len() > best.len() {
                        best = current;
                    }
                    current = Vec::new();
                }
                current.push((col_x, bounds));
            },
            None => {
                if current.len() > best.len() {
                    best = current;
                }
                current = Vec::new();
            },
        }
        i += 1;
    }
    proof {
        assert(samples@.take(samples@.len() as int) =~= samples@);
    }
    if current.len() > best.len() {
        best = current;
    }
    best
}

/// Select the widest run of consecutive, mutually consistent marker
/// detections among per-column sample results.
///
/// Returns the cluster when it holds at least `min(3, sample_results.len())`
/// detections, and an error message otherwise.
pub fn select_consistent_cluster(sample_results: &[(u32, Option<DataBounds>)]) -> (r: Result<
    Vec<Anchor>,
    String,
>)
    requires
        neighbours_ordered(sample_results@),
    ensures
        ({
            let best = spec_best_cluster(sample_results@);
            let min_len = if sample_results@.len() < 3 {
                sample_results@.len() as int
            } else {
                3
            };
            &&& r is Ok <==> best.len() >= min_len
            &&& r matches Ok(v) ==> v@ == best
            &&& r matches Err(m) ==> m@
                == "No sufficiently wide `PhonoPaper` marker cluster found in the supplied image."@
        }),
{
    let min_cluster_len = if sample_results.len() < 3 {
        sample_results.len()
    } else {
        3
    };
    let best_cluster = widest_cluster(sample_results);
    if best_cluster.len() < min_cluster_len {
        return Err(
            "No sufficiently wide `PhonoPaper` marker cluster found in the supplied image.".to_string(),
        );
    }
    Ok(best_cluster)
}

/// Read the markers at each of the columns `sample_xs`.
fn column_detections(image: &Raster, sample_xs: &[u32]) -> (r: Vec<(u32, Option<DataBounds>)>)
    ensures
        r@ == spec_column_samples(image, sample_xs@),
        samples_ordered(r@),
{
    let ghost samples_spec = spec_column_samples(image, sample_xs@);
    let mut samples: Vec<(u32, Option<DataBounds>)> = Vec::new();
    let mut i: usize = 0;
    while i < sample_xs.len()
        invariant
            i <= sample_xs@.len(),
            samples_spec == spec_column_samples(image, sample_xs@),
            samples@ =~= samples_spec.take(i as int),
            samples_ordered(samples@),
        decreases sample_xs@.len() - i,
    {
        let col_x = sample_xs[i];
        let res = match detect_markers_at_column(image, col_x) {
            Ok(b) => Some(b),
            Err(_) => None,
        };
        proof {
            if let Some(b) = res {
                lemma_marker_bounds_ordered(image, col_x as int);
            }
        }
        samples.push((col_x, res));
        i += 1;
    }
    proof {
        assert(samples_spec.take(sample_xs@.len() as int) =~= samples_spec);
    }
    samples
}

/// Detect the markers in each sampled column and return the median bounds
/// of the widest consistent cluster.
fn detect_markers_in_column_cluster(image: &Raster, sample_xs: &[u32]) -> (r: Result<
    DataBounds,
    PhonoPaperError,
>)
    requires
        sample_xs@.len() > 0,
    ensures
        r is Ok <==> spec_cluster_bounds(image, sample_xs@) is Some,
        r matches Ok(b) ==> spec_cluster_bounds(image, sample_xs@) == Some(b),
        r matches Err(e) ==> (e matches PhonoPaperError::MarkerNotFound(m) && m@
            == "no sufficiently wide cluster of consistent marker detections found"@),
{
    let samples = column_detections(image, sample_xs);
    let min_cluster_len = if sample_xs.len() < 3 {
        sample_xs.len()
    } else {
        3
    };
    proof {
        lemma_ordered_neighbours(samples@);
    }
    let best_cluster = widest_cluster(&samples);
    if best_cluster.len() < min_cluster_len || best_cluster.len() == 0 {
        return Err(
            PhonoPaperError::MarkerNotFound(
                "no sufficiently wide cluster of consistent marker detections found",
            ),
        );
    }
    Ok(best_cluster[best_cluster.len() / 2].1)
}

/// Read the markers at `sample_columns` (at least two) evenly spaced
/// columns of the image, from the first column to the last.
///
/// Each sampled column comes back with the bounds read there, or `None`
/// where no marker pattern was found.
pub fn sample_column_detections(image: &Raster, sample_columns: u32) -> (r: Vec<
    (u32, Option<DataBounds>),
>)
    ensures
        r@ == spec_column_samples(image, spec_sampled_columns(image, sample_columns)),
        samples_ordered(r@),
{
    let requested = if sample_columns < 2 {
        2
    } else {
        sample_columns
    };
    let sample_xs = evenly_spaced_columns(image.width(), requested);
    column_detections(image, &sample_xs)
}

/// The widest consistent cluster of marker detections among `sample_columns`
/// (at least two) evenly spaced columns of the image.
///
/// Fails on an image of zero width, and where the widest cluster holds fewer
/// than `min(3, number of sampled columns)` detections.
pub fn sample_detected_bounds(image: &Raster, sample_columns: u32) -> (r: Result<
    Vec<Anchor>,
    String,
>)
    ensures
        ({
            let samples = spec_column_samples(image, spec_sampled_columns(image, sample_columns));
            let best = spec_best_cluster(samples);
            let min_len = if samples.len() < 3 {
                samples.len() as int
            } else {
                3
            };
            &&& r is Ok <==> (image.spec_width() > 0 && best.len() >= min_len)
            &&& r matches Ok(v) ==> v@ == best
            &&& r matches Err(m) ==> m@ == (if image.spec_width() == 0 {
                "The image has zero width and cannot be decoded."@
            } else {
                "No sufficiently wide `PhonoPaper` marker cluster found in the supplied image."@
            })
        }),
{
    if image.width() == 0 {
        return Err("The image has zero width and cannot be decoded.".to_string());
    }
    let samples = sample_column_detections(image, sample_columns);
    proof {
        lemma_ordered_neighbours(samples@);
    }
    select_consistent_cluster(&samples)
}

/// Scan up to nine evenly spaced columns of the image for the PhonoPaper
/// marker bands and return the median bounds of the widest cluster of
/// horizontally consistent detections.
///
/// Isolated single-column hits are rejected, so arbitrary photographs and
/// noise do not decode as false patterns.
pub fn detect_markers(image: &Raster) -> (r: Result<DataBounds, PhonoPaperError>)
    ensures
        r is Ok <==> spec_detect_markers(image) is Some,
        r matches Ok(b) ==> spec_detect_markers(image) == Some(b),
        r matches Err(e) ==> (e matches PhonoPaperError::MarkerNotFound(m) && m@ == (if image.spec_width()
            == 0 {
            "image has zero width"@
        } else {
            "no sufficiently wide cluster of consistent marker detections found"@
        })),
{
    let width = image.width();
    if width == 0 {
        return Err(PhonoPaperError::MarkerNotFound("image has zero width"));
    }
    let sample_xs = evenly_spaced_columns(width, 9);
    proof {
        lemma_evenly_spaced_columns(width, 9);
    }
    detect_markers_in_column_cluster(image, &sample_xs)
}

/// A sample scan in which every column gave the same bounds keeps all of
/// them in one cluster.
pub(crate) proof fn lemma_uniform_scan(samples: Seq<(u32, Option<DataBounds>)>, b: DataBounds)
    requires
        b.data_top <= b.data_bottom,
        forall|i: int| 0 <= i < samples.len() ==> (#[trigger] samples[i]).1 == Some(b),
    ensures
        spec_cluster_scan(samples).0.len() == 0,
        spec_cluster_scan(samples).1.len() == samples.len(),
        forall|k: int|
            0 <= k < samples.len() ==> (#[trigger] spec_cluster_scan(samples).1[k]).1 == b,
    decreases samples.len(),
{
    if samples.len() > 0 {
        let p = samples.drop_last();
        assert forall|i: int| 0 <= i < p.len() implies (#[trigger] p[i]).1 == Some(b) by {
            assert(p[i] == samples[i]);
        }
        lemma_uniform_scan(p, b);
        let (best, current) = spec_cluster_scan(p);
        let (x, res) = samples.last();
        assert(res == Some(b));
        if current.len() > 0 {
            assert(current.last().1 == b);
            assert(spec_bounds_consistent(current.last().0, b, x, b));
        }
        let cur2 = spec_cluster_scan(samples).1;
        assert forall|k: int| 0 <= k < samples.len() implies (#[trigger] cur2[k]).1 == b by {
            if k < current.len() {
                assert(cur2[k] == current[k]);
            }
        }
    }
}

/// A sample scan in which no column gave bounds finds no cluster.
proof fn lemma_failed_scan(samples: Seq<(u32, Option<DataBounds>)>)
    requires
        forall|i: int| 0 <= i < samples.len() ==> (#[trigger] samples[i]).1 is None,
    ensures
        spec_cluster_scan(samples).0.len() == 0,
        spec_cluster_scan(samples).1.len() == 0,
    decreases samples.len(),
{
    if samples.len() > 0 {
        let p = samples.drop_last();
        assert forall|i: int| 0 <= i < p.len() implies (#[trigger] p[i]).1 is None by {
            assert(p[i] == samples[i]);
        }
        lemma_failed_scan(p);
    }
}

/// An image whose columns are all alike is read as its first column reads:
/// [`detect_markers`] finds exactly the bounds of column 0, or none.
pub proof fn lemma_uniform_image_detection(img: &Raster)
    requires
        img.spec_width() > 0,
        forall|x: int, y: int|
            0 <= x < img.spec_width() && 0 <= y < img.spec_height() ==> #[trigger] img.luma_at(x, y)
                == img.luma_at(0, y),
    ensures
        spec_detect_markers(img) == spec_marker_bounds(img, 0),
{
    let xs = spec_evenly_spaced(img.spec_width(), 9);
    lemma_evenly_spaced_columns(img.spec_width(), 9);
    let m0 = spec_marker_bounds(img, 0);
    let samples = spec_column_samples(img, xs);
    assert forall|i: int| 0 <= i < samples.len() implies (#[trigger] samples[i]).1 == m0 by {
        let x = xs[i] as int;
        assert(0 <= x < img.spec_width());
        assert(spec_dark_column(img, x) =~= spec_dark_column(img, 0));
    }
    match m0 {
        Some(b) => {
            lemma_marker_bounds_ordered(img, 0);
            lemma_uniform_scan(samples, b);
            let best = spec_best_cluster(samples);
            assert(best == spec_cluster_scan(samples).1);
            assert(best.len() == xs.len());
            assert(best[(best.len() / 2) as int].1 == b);
        },
        None => {
            lemma_failed_scan(samples);
        },
    }
}

// ─── The chosen cluster as a run of samples ─────────────────────────────────

/// Samples `i..j` all hold detections, each consistent with the next.
pub open spec fn consistent_run(samples: Seq<(u32, Option<DataBounds>)>, i: int, j: int) -> bool {
    &&& 0 <= i <= j <= samples.len()
    &&& forall|k: int| i <= k < j ==> (#[trigger] samples[k]).1 is Some
    &&& forall|k: int| i <= k && k + 1 < j ==> #[trigger] step_consistent(samples, k)
}

/// The detection of sample `k` is consistent with that of sample `k + 1`.
pub open spec fn step_consistent(samples: Seq<(u32, Option<DataBounds>)>, k: int) -> bool {
    spec_bounds_consistent(
        samples[k].0,
        samples[k].1.unwrap(),
        samples[k + 1].0,
        samples[k + 1].1.unwrap(),
    )
}

/// The detections of samples `i..j`, as anchors.
pub open spec fn run_anchors(samples: Seq<(u32, Option<DataBounds>)>, i: int, j: int) -> Seq<
    Anchor,
> {
    Seq::new((j - i) as nat, |k: int| (samples[i + k].0, samples[i + k].1.unwrap()))
}

/// No consistent run goes across position `c`: `c` is the start, a failed
/// sample precedes it, or its detection is inconsistent with the previous
/// one.
spec fn run_boundary(s: Seq<(u32, Option<DataBounds>)>, c: int) -> bool {
    ||| c == 0
    ||| s[c - 1].1 is None
    ||| (c < s.len() && s[c].1 is Some && s[c - 1].1 is Some && !step_consistent(s, c - 1))
}

/// What the scan of `s` holds: the best cluster is the run `bi..bj`, the
/// current one the run `c..`, no run crosses `c`, and every run before `c`
/// is no longer than the best one, and starts after it when as long.
spec fn scan_state(s: Seq<(u32, Option<DataBounds>)>, bi: int, bj: int, c: int) -> bool {
    &&& 0 <= bi <= bj <= c <= s.len()
    &&& consistent_run(s, bi, bj)
    &&& spec_cluster_scan(s).0 == run_anchors(s, bi, bj)
    &&& consistent_run(s, c, s.len() as int)
    &&& spec_cluster_scan(s).1 == run_anchors(s, c, s.len() as int)
    &&& run_boundary(s, c)
    &&& forall|i2: int, j2: int|
        #[trigger] consistent_run(s, i2, j2) && j2 <= c ==> j2 - i2 <= bj - bi && (j2 - i2 == bj
            - bi ==> bi <= i2)
}

/// A run cannot go across a boundary.
proof fn lemma_run_within(s: Seq<(u32, Option<DataBounds>)>, c: int, i2: int, j2: int)
    requires
        c <= s.len(),
        run_boundary(s, c),
        consistent_run(s, i2, j2),
    ensures
        j2 <= c || i2 >= c,
{
    if i2 < c && c < j2 {
        assert(s[c - 1].1 is Some);
        assert(s[c].1 is Some);
        assert(step_consistent(s, c - 1));
    }
}

/// A run of all samples but the last is a run of the shorter sequence.
proof fn lemma_run_of_prefix(s: Seq<(u32, Option<DataBounds>)>, i2: int, j2: int)
    requires
        s.len() > 0,
        consistent_run(s, i2, j2),
        j2 < s.len(),
    ensures
        consistent_run(s.drop_last(), i2, j2),
{
    let p = s.drop_last();
    assert forall|k: int| i2 <= k < j2 implies (#[trigger] p[k]).1 is Some by {
        assert(p[k] == s[k]);
    }
    assert forall|k: int| i2 <= k && k + 1 < j2 implies #[trigger] step_consistent(p, k) by {
        assert(p[k] == s[k]);
        assert(p[k + 1] == s[k + 1]);
        assert(step_consistent(s, k));
    }
}

/// A run of the shorter sequence is a run of the whole one.
proof fn lemma_run_of_whole(s: Seq<(u32, Option<DataBounds>)>, i2: int, j2: int)
    requires
        s.len() > 0,
        consistent_run(s.drop_last(), i2, j2),
    ensures
        consistent_run(s, i2, j2),
        run_anchors(s, i2, j2) == run_anchors(s.drop_last(), i2, j2),
{
    let p = s.drop_last();
    assert forall|k: int| i2 <= k < j2 implies (#[trigger] s[k]).1 is Some by {
        assert(p[k] == s[k]);
    }
    assert forall|k: int| i2 <= k && k + 1 < j2 implies #[trigger] step_consistent(s, k) by {
        assert(p[k] == s[k]);
        assert(p[k + 1] == s[k + 1]);
        assert(step_consistent(p, k));
    }
    assert(run_anchors(s, i2, j2) =~= run_anchors(p, i2, j2));
}

/// The scan keeps its state: by induction on the samples.
proof fn lemma_scan_state(s: Seq<(u32, Option<DataBounds>)>) -> (r: (int, int, int))
    ensures
        scan_state(s, r.0, r.1, r.2),
    decreases s.len(),
{
    if s.len() == 0 {
        assert(run_anchors(s, 0, 0) =~= Seq::<Anchor>::empty());
        (0, 0, 0)
    } else {
        let (bi, bj, c) = lemma_scan_state(s.drop_last());
        let n = s.len() - 1;
        assert(s.last() == s[n]);
        lemma_run_of_whole(s, bi, bj);
        lemma_run_of_whole(s, c, n);
        match s[n].1 {
            Some(b) => {
                let current = spec_cluster_scan(s.drop_last()).1;
                if current.len() > 0 && spec_bounds_consistent(
                    current.last().0,
                    current.last().1,
                    s[n].0,
                    b,
                ) {
                    lemma_scan_step_extend(s, bi, bj, c);
                    (bi, bj, c)
                } else {
                    lemma_scan_step_restart(s, bi, bj, c)
                }
            },
            None => lemma_scan_step_failed(s, bi, bj, c),
        }
    }
}

/// A detection consistent with the current cluster extends it.
#[verifier::rlimit(30)]
proof fn lemma_scan_step_extend(s: Seq<(u32, Option<DataBounds>)>, bi: int, bj: int, c: int)
    requires
        s.len() > 0,
        scan_state(s.drop_last(), bi, bj, c),
        consistent_run(s, bi, bj),
        run_anchors(s, bi, bj) == run_anchors(s.drop_last(), bi, bj),
        run_anchors(s, c, s.len() - 1) == run_anchors(s.drop_last(), c, s.len() - 1),
        s.last().1 matches Some(b) && spec_cluster_scan(s.drop_last()).1.len() > 0
            && spec_bounds_consistent(
            spec_cluster_scan(s.drop_last()).1.last().0,
            spec_cluster_scan(s.drop_last()).1.last().1,
            s.last().0,
            b,
        ),
    ensures
        scan_state(s, bi, bj, c),
{
    let p = s.drop_last();
    let n = p.len() as int;
    let current = spec_cluster_scan(p).1;
    let (x, res) = s.last();
    let b = res.unwrap();
    assert(s.last() == s[n]);
    assert(current.last() == (p[n - 1].0, p[n - 1].1.unwrap()));
    assert(p[n - 1] == s[n - 1]);
    assert(consistent_run(s, c, n + 1)) by {
        assert forall|k: int| c <= k < n + 1 implies (#[trigger] s[k]).1 is Some by {
            if k < n {
                assert(p[k] == s[k]);
            }
        }
        assert forall|k: int| c <= k && k + 1 < n + 1 implies #[trigger] step_consistent(s, k) by {
            assert(p[k] == s[k]);
            if k + 1 < n {
                assert(p[k + 1] == s[k + 1]);
                assert(step_consistent(p, k));
            }
        }
    }
    assert(run_anchors(s, c, n + 1) =~= current.push((x, b)));
    if c > 0 {
        assert(p[c - 1] == s[c - 1]);
        if c < n {
            assert(p[c] == s[c]);
        }
    }
    assert forall|i2: int, j2: int|
        #[trigger] consistent_run(s, i2, j2) && j2 <= c implies j2 - i2 <= bj - bi && (j2 - i2
            == bj - bi ==> bi <= i2) by {
        lemma_run_of_prefix(s, i2, j2);
    }
}

/// A detection that does not extend the current cluster closes it and
/// starts a new one.
#[verifier::rlimit(60)]
proof fn lemma_scan_step_restart(s: Seq<(u32, Option<DataBounds>)>, bi: int, bj: int, c: int) -> (r: (
    int,
    int,
    int,
))
    requires
        s.len() > 0,
        scan_state(s.drop_last(), bi, bj, c),
        consistent_run(s, bi, bj),
        consistent_run(s, c, s.len() - 1),
        run_anchors(s, bi, bj) == run_anchors(s.drop_last(), bi, bj),
        run_anchors(s, c, s.len() - 1) == run_anchors(s.drop_last(), c, s.len() - 1),
        s.last().1 matches Some(b) && !(spec_cluster_scan(s.drop_last()).1.len() > 0
            && spec_bounds_consistent(
            spec_cluster_scan(s.drop_last()).1.last().0,
            spec_cluster_scan(s.drop_last()).1.last().1,
            s.last().0,
            b,
        )),
    ensures
        scan_state(s, r.0, r.1, r.2),
{
    let p = s.drop_last();
    let n = p.len() as int;
    let (best, current) = spec_cluster_scan(p);
    let (x, res) = s.last();
    let b = res.unwrap();
    assert(s.last() == s[n]);
    let longer_best = current.len() > best.len();
    let (nbi, nbj) = if longer_best {
        (c, n)
    } else {
        (bi, bj)
    };
    assert(spec_cluster_scan(s) == (spec_longer(best, current), seq![(x, b)]));
    assert(spec_longer(best, current) == run_anchors(s, nbi, nbj));
    assert(run_anchors(s, n, n + 1) =~= seq![(x, b)]);
    assert(consistent_run(s, n, n + 1));
    if n > 0 {
        assert(p[n - 1] == s[n - 1]);
        if current.len() > 0 {
            assert(current.last() == (p[n - 1].0, p[n - 1].1.unwrap()));
        } else if p[n - 1].1 is Some {
            lemma_scan_current_nonempty(p);
        }
    }
    lemma_closed_runs(s, bi, bj, c, nbi, nbj, n);
    if n > 0 {
        if current.len() > 0 {
            assert(p[n - 1].1 is Some);
            assert(s[n - 1] == p[n - 1]);
            assert(!step_consistent(s, n - 1));
        } else {
            assert(p[n - 1].1 is None);
        }
    }
    assert(run_boundary(s, n));
    assert(consistent_run(s, nbi, nbj));
    (nbi, nbj, n)
}

/// When the current cluster closes, the longer of it and the best cluster
/// bounds every run that ends before the new start.
#[verifier::rlimit(30)]
proof fn lemma_closed_runs(
    s: Seq<(u32, Option<DataBounds>)>,
    bi: int,
    bj: int,
    c: int,
    nbi: int,
    nbj: int,
    limit: int,
)
    requires
        s.len() > 0,
        0 <= bi <= bj <= c <= s.len() - 1,
        run_boundary(s.drop_last(), c),
        forall|i2: int, j2: int|
            #[trigger] consistent_run(s.drop_last(), i2, j2) && j2 <= c ==> j2 - i2 <= bj - bi
                && (j2 - i2 == bj - bi ==> bi <= i2),
        (nbi == bi && nbj == bj && s.len() - 1 - c <= bj - bi) || (nbi == c && nbj == s.len() - 1
            && s.len() - 1 - c > bj - bi),
        limit == s.len() - 1 || (limit == s.len() && s.last().1 is None),
    ensures
        forall|i2: int, j2: int|
            #[trigger] consistent_run(s, i2, j2) && j2 <= limit ==> j2 - i2 <= nbj - nbi && (j2
                - i2 == nbj - nbi ==> nbi <= i2),
{
    let n = s.len() - 1;
    assert forall|i2: int, j2: int|
        #[trigger] consistent_run(s, i2, j2) && j2 <= limit implies j2 - i2 <= nbj - nbi && (j2
            - i2 == nbj - nbi ==> nbi <= i2) by {
        if j2 == n + 1 && i2 < j2 {
            assert(s.last() == s[n]);
            assert(s[n].1 is Some);
        }
        if j2 <= n {
            lemma_run_of_prefix(s, i2, j2);
            lemma_run_within(s.drop_last(), c, i2, j2);
        }
    }
}

/// A failed sample closes the current cluster.
#[verifier::rlimit(60)]
proof fn lemma_scan_step_failed(s: Seq<(u32, Option<DataBounds>)>, bi: int, bj: int, c: int) -> (r: (
    int,
    int,
    int,
))
    requires
        s.len() > 0,
        scan_state(s.drop_last(), bi, bj, c),
        consistent_run(s, bi, bj),
        consistent_run(s, c, s.len() - 1),
        run_anchors(s, bi, bj) == run_anchors(s.drop_last(), bi, bj),
        run_anchors(s, c, s.len() - 1) == run_anchors(s.drop_last(), c, s.len() - 1),
        s.last().1 is None,
    ensures
        scan_state(s, r.0, r.1, r.2),
{
    let p = s.drop_last();
    let n = p.len() as int;
    let (best, current) = spec_cluster_scan(p);
    assert(s.last() == s[n]);
    let longer_best = current.len() > best.len();
    let (nbi, nbj) = if longer_best {
        (c, n)
    } else {
        (bi, bj)
    };
    assert(spec_cluster_scan(s) == (spec_longer(best, current), Seq::<Anchor>::empty()));
    assert(spec_longer(best, current) == run_anchors(s, nbi, nbj));
    assert(run_anchors(s, n + 1, n + 1) =~= Seq::<Anchor>::empty());
    lemma_closed_runs(s, bi, bj, c, nbi, nbj, n + 1);
    assert(run_boundary(s, n + 1));
    assert(consistent_run(s, nbi, nbj));
    assert(consistent_run(s, n + 1, n + 1));
    (nbi, nbj, n + 1)
}

/// A scan whose last sample holds a detection has a current cluster.
proof fn lemma_scan_current_nonempty(s: Seq<(u32, Option<DataBounds>)>)
    requires
        s.len() > 0,
        s.last().1 is Some,
    ensures
        spec_cluster_scan(s).1.len() > 0,
{
}

/// The chosen cluster is the first of the longest runs of consecutive,
/// mutually consistent detections: it is such a run, no such run is longer,
/// and none as long starts before it.
pub proof fn lemma_best_cluster_is_first_longest_run(samples: Seq<(u32, Option<DataBounds>)>)
    ensures
        exists|i: int, j: int|
            #![trigger consistent_run(samples, i, j)]
            {
                &&& consistent_run(samples, i, j)
                &&& spec_best_cluster(samples) == run_anchors(samples, i, j)
                &&& forall|i2: int, j2: int| #[trigger]
                    consistent_run(samples, i2, j2) ==> j2 - i2 <= j - i && (j2 - i2 == j - i
                        ==> i <= i2)
            },
{
    let (bi, bj, c) = lemma_scan_state(samples);
    let n = samples.len() as int;
    let (best, current) = spec_cluster_scan(samples);
    let (i, j) = if current.len() > best.len() {
        (c, n)
    } else {
        (bi, bj)
    };
    assert forall|i2: int, j2: int| #[trigger]
        consistent_run(samples, i2, j2) implies j2 - i2 <= j - i && (j2 - i2 == j - i ==> i
        <= i2) by {
        lemma_run_within(samples, c, i2, j2);
    }
    assert(consistent_run(samples, i, j));
}

/// Bounds read from one column delimit a non-empty data area strictly
/// inside the image: a marker band lies above and below it.
pub proof fn lemma_marker_bounds_ordered(img: &Raster, x: int)
    ensures
        spec_marker_bounds(img, x) matches Some(b) ==> 0 < b.data_top < b.data_bottom
            < img.spec_height(),
{
    if let Some(b) = spec_marker_bounds(img, x) {
        let d = spec_dark_column(img, x);
        let runs = spec_runs(d);
        let h = img.spec_height() as int;
        lemma_runs_partition(d);
        lemma_find_is_match(runs, MarkerSide::Bottom, h * 7 / 10, h, runs.len() as int);
        let idx = choose|idx: int|
            0 <= idx < runs.len() && spec_match(runs, MarkerSide::Bottom, idx) == spec_find(
                runs,
                MarkerSide::Bottom,
                h * 7 / 10,
                h,
                runs.len() as int,
            );
        assert(runs[idx - 2].1 + runs[idx - 2].2 <= d.len());
        assert(runs[idx - 2 + 1].1 == runs[idx - 2].1 + runs[idx - 2].2);
        assert(runs[idx - 1 + 1].1 == runs[idx - 1].1 + runs[idx - 1].2);
        assert(runs[idx + 1].1 == runs[idx].1 + runs[idx].2);
        assert(runs[idx + 1 + 1].1 == runs[idx + 1].1 + runs[idx + 1].2);
        assert(runs[idx + 2 + 1].1 == runs[idx + 2].1 + runs[idx + 2].2);
        assert(runs[idx + 3 + 1].1 == runs[idx + 3].1 + runs[idx + 3].2);
        assert(runs[idx + 4 + 1].1 == runs[idx + 4].1 + runs[idx + 4].2);
        assert(runs[idx + 5].1 + runs[idx + 5].2 <= d.len());
        assert(runs[idx + 5].2 >= 1);
        lemma_find_is_match(runs, MarkerSide::Top, 0, h * 3 / 10, runs.len() as int);
        let t = choose|t: int|
            0 <= t < runs.len() && spec_match(runs, MarkerSide::Top, t) == spec_find(
                runs,
                MarkerSide::Top,
                0,
                h * 3 / 10,
                runs.len() as int,
            );
        assert(runs[t + 2].2 >= 1);
        assert(runs[t + 2].1 + runs[t + 2].2 <= d.len());
    }
}

/// The bounds read from a column, and the reason given when there are
/// none, depend only on that column: two images of one height that agree
/// in column `x` read alike there.
pub proof fn lemma_marker_bounds_depend_on_column(a: &Raster, b: &Raster, x: int)
    requires
        0 <= x < a.spec_width(),
        0 <= x < b.spec_width(),
        a.spec_height() == b.spec_height(),
        forall|y: int| 0 <= y < a.spec_height() ==> #[trigger] a.luma_at(x, y) == b.luma_at(x, y),
    ensures
        spec_marker_bounds(a, x) == spec_marker_bounds(b, x),
        spec_marker_failure(a, x) == spec_marker_failure(b, x),
{
    assert(spec_dark_column(a, x) =~= spec_dark_column(b, x));
}

/// A candidate returned by the search is the match of one of the runs.
proof fn lemma_find_is_match(runs: Seq<Run>, side: MarkerSide, zs: int, ze: int, k: int)
    requires
        0 <= k <= runs.len(),
    ensures
        spec_find(runs, side, zs, ze, k) is Some ==> exists|idx: int|
            0 <= idx < k && spec_match(runs, side, idx) == spec_find(runs, side, zs, ze, k),
    decreases k,
{
    if k > 0 {
        lemma_find_is_match(runs, side, zs, ze, k - 1);
    }
}

/// The bounds returned by [`detect_markers`] are the bounds read at one of
/// the sampled columns, and they delimit a non-empty data area inside the
/// image.
pub proof fn lemma_detected_bounds_come_from_a_column(img: &Raster)
    ensures
        spec_detect_markers(img) matches Some(b) ==> {
            &&& b.data_top < b.data_bottom <= img.spec_height()
            &&& exists|i: int|
                0 <= i < spec_evenly_spaced(img.spec_width(), 9).len() && spec_marker_bounds(
                    img,
                    spec_evenly_spaced(img.spec_width(), 9)[i] as int,
                ) == Some(b)
        },
{
    if let Some(b) = spec_detect_markers(img) {
        let xs = spec_evenly_spaced(img.spec_width(), 9);
        let samples = Seq::new(
            xs.len(),
            |i: int| (xs[i], spec_marker_bounds(img, xs[i] as int)),
        );
        let best = spec_best_cluster(samples);
        lemma_best_cluster_is_consistent(samples);
        let k = (best.len() / 2) as int;
        assert(best[k] == best[k]);
        let j = choose|j: int|
            0 <= j < samples.len() && #[trigger] samples[j] == (best[k].0, Some(best[k].1));
        assert(samples[j].1 == spec_marker_bounds(img, xs[j] as int));
        lemma_marker_bounds_ordered(img, xs[j] as int);
    }
}

} // verus!
