//! Pixel classification and the counts from which fitness is computed.
//!
//! A target pixel is foreground when it lies on the lit side of the
//! background threshold: above it when glyphs are light on dark, below it when
//! they are dark on light. A candidate earns a point for every foreground
//! pixel it reproduces within [`MATCH_TOLERANCE`] and pays a penalty for every
//! background pixel that it lights up.
use vstd::prelude::*;
use crate::ascii_generator::AsciiGenerator;
use crate::raster::{Bitmap, GrayImage};
use crate::ratio::Ratio;

verus! {

/// Two intensities closer than this count as matching.
pub const MATCH_TOLERANCE: u8 = 30;

/// Scores are kept in thousandths of a point.
pub const SCORE_SCALE: u64 = 1000;

/// The largest number of target pixels for which scaled scores fit in 64 bits.
pub const MAX_TARGET_PIXELS: u64 = 18_000_000_000_000_000;

/// Background threshold of a rendering mode: high when glyphs are dark on
/// light, low when they are light on dark.
pub open spec fn threshold_for(white_background: bool) -> u8 {
    if white_background {
        200
    } else {
        50
    }
}

/// The intensity lies on the lit side of the threshold.
pub open spec fn is_lit(value: u8, threshold: u8, white_background: bool) -> bool {
    if white_background {
        value < threshold
    } else {
        value > threshold
    }
}

/// The two intensities differ by less than [`MATCH_TOLERANCE`].
pub open spec fn close_enough(a: u8, b: u8) -> bool {
    -(MATCH_TOLERANCE as int) < a - b < MATCH_TOLERANCE as int
}

/// Number of `x` in `[0, w)` with `pred(x, y)`.
pub open spec fn count_row(pred: spec_fn(int, int) -> bool, y: int, w: int) -> nat
    decreases w,
{
    if w <= 0 {
        0
    } else {
        count_row(pred, y, w - 1) + if pred(w - 1, y) {
            1nat
        } else {
            0nat
        }
    }
}

/// Number of `(x, y)` in `[0, w) x [0, h)` with `pred(x, y)`.
pub open spec fn count_region(pred: spec_fn(int, int) -> bool, w: int, h: int) -> nat
    decreases h,
{
    if h <= 0 {
        0
    } else {
        count_region(pred, w, h - 1) + count_row(pred, h - 1, w)
    }
}

/// A row of `w` pixels holds at most `w` counted pixels.
pub proof fn lemma_count_row_bound(pred: spec_fn(int, int) -> bool, y: int, w: int)
    requires
        0 <= w,
    ensures
        count_row(pred, y, w) <= w,
    decreases w,
{
    if w > 0 {
        lemma_count_row_bound(pred, y, w - 1);
    }
}

/// A region of `w x h` pixels holds at most `w * h` counted pixels.
pub proof fn lemma_count_region_bound(pred: spec_fn(int, int) -> bool, w: int, h: int)
    requires
        0 <= w,
        0 <= h,
    ensures
        count_region(pred, w, h) <= w * h,
    decreases h,
{
    if h > 0 {
        lemma_count_region_bound(pred, w, h - 1);
        lemma_count_row_bound(pred, h - 1, w);
        assert(w * (h - 1) + w == w * h) by (nonlinear_arith);
    } else {
        assert(w * h == 0) by (nonlinear_arith)
            requires
                h == 0,
        ;
    }
}

/// A predicate that implies another is counted no more often.
pub proof fn lemma_count_row_monotone(
    p: spec_fn(int, int) -> bool,
    q: spec_fn(int, int) -> bool,
    y: int,
    w: int,
)
    requires
        forall|x: int| 0 <= x < w && #[trigger] p(x, y) ==> q(x, y),
    ensures
        count_row(p, y, w) <= count_row(q, y, w),
    decreases w,
{
    if w > 0 {
        lemma_count_row_monotone(p, q, y, w - 1);
    }
}

/// A predicate that implies another is counted no more often.
pub proof fn lemma_count_region_monotone(
    p: spec_fn(int, int) -> bool,
    q: spec_fn(int, int) -> bool,
    w: int,
    h: int,
)
    requires
        forall|x: int, y: int| 0 <= x < w && 0 <= y < h && #[trigger] p(x, y) ==> q(x, y),
    ensures
        count_region(p, w, h) <= count_region(q, w, h),
    decreases h,
{
    if h > 0 {
        lemma_count_region_monotone(p, q, w, h - 1);
        lemma_count_row_monotone(p, q, h - 1, w);
    }
}

/// Counting over a longer row never gives less.
pub proof fn lemma_count_row_widen(pred: spec_fn(int, int) -> bool, y: int, w1: int, w2: int)
    requires
        w1 <= w2,
    ensures
        count_row(pred, y, w1) <= count_row(pred, y, w2),
    decreases w2,
{
    if w1 < w2 && w2 > 0 {
        lemma_count_row_widen(pred, y, w1, w2 - 1);
    }
}

/// Counting over a larger region never gives less.
pub proof fn lemma_count_region_widen(
    pred: spec_fn(int, int) -> bool,
    w1: int,
    h1: int,
    w2: int,
    h2: int,
)
    requires
        w1 <= w2,
        h1 <= h2,
    ensures
        count_region(pred, w1, h1) <= count_region(pred, w2, h2),
    decreases h2,
{
    if h2 <= 0 {
    } else if h1 < h2 {
        lemma_count_region_widen(pred, w1, h1, w2, h2 - 1);
    } else {
        lemma_count_region_widen(pred, w1, h1 - 1, w2, h2 - 1);
        lemma_count_row_widen(pred, h1 - 1, w1, w2);
    }
}

/// A predicate that holds nowhere in the region is counted zero times.
pub proof fn lemma_count_region_none(pred: spec_fn(int, int) -> bool, w: int, h: int)
    requires
        forall|x: int, y: int| 0 <= x < w && 0 <= y < h ==> !#[trigger] pred(x, y),
    ensures
        count_region(pred, w, h) == 0,
    decreases h,
{
    if h > 0 {
        lemma_count_region_none(pred, w, h - 1);
        lemma_count_row_none(pred, h - 1, w);
    }
}

/// A predicate that holds nowhere in the row is counted zero times.
pub proof fn lemma_count_row_none(pred: spec_fn(int, int) -> bool, y: int, w: int)
    requires
        forall|x: int| 0 <= x < w ==> !#[trigger] pred(x, y),
    ensures
        count_row(pred, y, w) == 0,
    decreases w,
{
    if w > 0 {
        lemma_count_row_none(pred, y, w - 1);
    }
}

/// Where the predicate holds somewhere in the region, the count is positive.
pub proof fn lemma_count_region_positive(
    pred: spec_fn(int, int) -> bool,
    w: int,
    h: int,
    x: int,
    y: int,
)
    requires
        0 <= x < w,
        0 <= y < h,
        pred(x, y),
    ensures
        count_region(pred, w, h) > 0,
    decreases h,
{
    if y == h - 1 {
        lemma_count_row_positive(pred, y, w, x);
    } else {
        lemma_count_region_positive(pred, w, h - 1, x, y);
    }
}

/// Where the predicate holds somewhere in the row, the count is positive.
pub proof fn lemma_count_row_positive(pred: spec_fn(int, int) -> bool, y: int, w: int, x: int)
    requires
        0 <= x < w,
        pred(x, y),
    ensures
        count_row(pred, y, w) > 0,
    decreases w,
{
    if x < w - 1 {
        lemma_count_row_positive(pred, y, w - 1, x);
    }
}

/// "The target pixel at `(x, y)` is foreground."
pub open spec fn foreground_pred(target: Bitmap, threshold: u8, white_background: bool) -> spec_fn(
    int,
    int,
) -> bool {
    |x: int, y: int| is_lit(target.pixel(x, y), threshold, white_background)
}

/// Number of foreground pixels in the whole target.
pub open spec fn foreground_count(target: Bitmap, threshold: u8, white_background: bool) -> nat {
    count_region(
        foreground_pred(target, threshold, white_background),
        target.width as int,
        target.height as int,
    )
}

/// A target has no more foreground pixels than pixels.
pub proof fn lemma_foreground_bound(target: Bitmap, threshold: u8, white_background: bool)
    ensures
        foreground_count(target, threshold, white_background) <= target.width * target.height,
{
    lemma_count_region_bound(
        foreground_pred(target, threshold, white_background),
        target.width as int,
        target.height as int,
    );
}

/// Width or height of the part of the candidate that lies over the target
/// when the candidate is placed at `offset`.
pub open spec fn overlap(candidate_extent: nat, target_extent: nat, offset: nat) -> int {
    if offset >= target_extent {
        0
    } else if target_extent - offset < candidate_extent {
        target_extent - offset
    } else {
        candidate_extent as int
    }
}

/// "The target pixel under candidate pixel `(x, y)` is foreground."
pub open spec fn relevant_pred(
    target: Bitmap,
    left: nat,
    top: nat,
    threshold: u8,
    white_background: bool,
) -> spec_fn(int, int) -> bool {
    |x: int, y: int| is_lit(target.pixel(x + left, y + top), threshold, white_background)
}

/// "The target pixel under candidate pixel `(x, y)` is foreground and the
/// candidate reproduces it."
pub open spec fn match_pred(
    candidate: Bitmap,
    target: Bitmap,
    left: nat,
    top: nat,
    threshold: u8,
    white_background: bool,
) -> spec_fn(int, int) -> bool {
    |x: int, y: int|
        is_lit(target.pixel(x + left, y + top), threshold, white_background) && close_enough(
            candidate.pixel(x, y),
            target.pixel(x + left, y + top),
        )
}

/// "The target pixel under candidate pixel `(x, y)` is background, yet the
/// candidate pixel is lit."
pub open spec fn false_positive_pred(
    candidate: Bitmap,
    target: Bitmap,
    left: nat,
    top: nat,
    threshold: u8,
    white_background: bool,
) -> spec_fn(int, int) -> bool {
    |x: int, y: int|
        !is_lit(target.pixel(x + left, y + top), threshold, white_background) && is_lit(
            candidate.pixel(x, y),
            threshold,
            white_background,
        )
}

/// What a comparison of a candidate with the target counts.
#[derive(Clone, Copy, Debug, PartialEq, Eq, Structural)]
pub struct Tally {
    /// Compared pixels whose target pixel is foreground.
    pub relevant: u64,
    /// Foreground pixels that the candidate reproduces.
    pub matches: u64,
    /// Background pixels that the candidate lights up.
    pub false_positives: u64,
}

/// The counts for a candidate placed with its top-left corner at
/// `(left, top)` of the target, over the pixels that both bitmaps cover.
pub open spec fn tally_of(
    candidate: Bitmap,
    target: Bitmap,
    left: nat,
    top: nat,
    threshold: u8,
    white_background: bool,
) -> (nat, nat, nat) {
    let w = overlap(candidate.width, target.width, left);
    let h = overlap(candidate.height, target.height, top);
    (
        count_region(relevant_pred(target, left, top, threshold, white_background), w, h),
        count_region(match_pred(candidate, target, left, top, threshold, white_background), w, h),
        count_region(
            false_positive_pred(candidate, target, left, top, threshold, white_background),
            w,
            h,
        ),
    )
}

/// Of the compared pixels no more are matched than are foreground, and no
/// more are foreground than the target has pixels.
pub proof fn lemma_tally_bounds(
    candidate: Bitmap,
    target: Bitmap,
    left: nat,
    top: nat,
    threshold: u8,
    white_background: bool,
)
    ensures
        ({
            let tally = tally_of(candidate, target, left, top, threshold, white_background);
            tally.1 <= tally.0 <= target.width * target.height
        }),
{
    let w = overlap(candidate.width, target.width, left);
    let h = overlap(candidate.height, target.height, top);
    let relevant = relevant_pred(target, left, top, threshold, white_background);
    let matching = match_pred(candidate, target, left, top, threshold, white_background);
    assert forall|x: int, y: int| 0 <= x < w && 0 <= y < h && #[trigger] matching(x, y) implies relevant(
        x,
        y,
    ) by {}
    lemma_count_region_monotone(matching, relevant, w, h);
    lemma_count_region_bound(relevant, w, h);
    assert(w * h <= target.width * target.height) by (nonlinear_arith)
        requires
            0 <= w <= target.width,
            0 <= h <= target.height,
    ;
}

/// The score `matches - penalty/1000 * false_positives`, never below zero,
/// as a fraction of `total` points.
pub open spec fn score_ratio(matches: nat, false_positives: nat, total: nat, penalty: nat) -> Ratio {
    let raw = SCORE_SCALE * matches - penalty * false_positives;
    Ratio {
        num: if raw > 0 {
            raw as u64
        } else {
            0
        },
        den: (SCORE_SCALE * total) as u64,
    }
}

/// Fitness of a whole grid: its rendering is compared with the target over
/// the pixels that both cover, and the score is taken as a fraction of
/// `total` points. A target without foreground pixels gives fitness 0.
pub open spec fn grid_fitness(
    generator: &AsciiGenerator,
    chars: Seq<u8>,
    width: nat,
    height: nat,
    target: Bitmap,
    total: nat,
    threshold: u8,
    white_background: bool,
    penalty: nat,
) -> Ratio {
    if total == 0 {
        Ratio { num: 0, den: 1 }
    } else {
        let candidate = generator.composed(chars, width, height, white_background);
        let tally = tally_of(candidate, target, 0, 0, threshold, white_background);
        score_ratio(tally.1, tally.2, total, penalty)
    }
}

/// A target's foreground pixels under a candidate are among all of its
/// foreground pixels.
pub proof fn lemma_relevant_at_most_foreground(
    candidate: Bitmap,
    target: Bitmap,
    threshold: u8,
    white_background: bool,
)
    ensures
        tally_of(candidate, target, 0, 0, threshold, white_background).0 <= foreground_count(
            target,
            threshold,
            white_background,
        ),
{
    let w = overlap(candidate.width, target.width, 0);
    let h = overlap(candidate.height, target.height, 0);
    let relevant = relevant_pred(target, 0, 0, threshold, white_background);
    let foreground = foreground_pred(target, threshold, white_background);
    assert forall|x: int, y: int| 0 <= x < w && 0 <= y < h && #[trigger] relevant(x, y) implies foreground(
        x,
        y,
    ) by {}
    lemma_count_region_monotone(relevant, foreground, w, h);
    lemma_count_region_widen(foreground, w, h, target.width as int, target.height as int);
}

/// The score of any candidate, taken as a fraction of the target's
/// foreground pixels, lies in `[0, 1]`: a point is earned only on a
/// foreground pixel, and penalties cannot push the score below zero.
pub proof fn lemma_fitness_bounds(
    candidate: Bitmap,
    target: Bitmap,
    threshold: u8,
    white_background: bool,
    penalty: nat,
)
    requires
        target.width * target.height <= MAX_TARGET_PIXELS,
    ensures
        ({
            let total = foreground_count(target, threshold, white_background);
            let tally = tally_of(candidate, target, 0, 0, threshold, white_background);
            total > 0 ==> score_ratio(tally.1, tally.2, total, penalty).in_unit()
        }),
{
    let total = foreground_count(target, threshold, white_background);
    let tally = tally_of(candidate, target, 0, 0, threshold, white_background);
    let w = overlap(candidate.width, target.width, 0);
    let h = overlap(candidate.height, target.height, 0);
    let relevant = relevant_pred(target, 0, 0, threshold, white_background);
    let matching = match_pred(candidate, target, 0, 0, threshold, white_background);
    assert forall|x: int, y: int| 0 <= x < w && 0 <= y < h && #[trigger] matching(x, y) implies relevant(
        x,
        y,
    ) by {}
    lemma_count_region_monotone(matching, relevant, w, h);
    lemma_relevant_at_most_foreground(candidate, target, threshold, white_background);
    lemma_foreground_bound(target, threshold, white_background);
    if total > 0 {
        let raw = SCORE_SCALE * tally.1 - penalty * tally.2;
        assert(penalty * tally.2 >= 0) by (nonlinear_arith)
            requires
                penalty >= 0,
                tally.2 >= 0,
        ;
        assert(SCORE_SCALE * tally.1 <= SCORE_SCALE * total) by (nonlinear_arith)
            requires
                tally.1 <= total,
                SCORE_SCALE == 1000,
        ;
        assert(SCORE_SCALE * total <= 1000 * MAX_TARGET_PIXELS) by (nonlinear_arith)
            requires
                total <= MAX_TARGET_PIXELS,
                SCORE_SCALE == 1000,
        ;
    }
}

/// Whether `value` lies on the lit side of the threshold.
pub fn pixel_is_lit(value: u8, threshold: u8, white_background: bool) -> (lit: bool)
    ensures
        lit == is_lit(value, threshold, white_background),
{
    if white_background {
        value < threshold
    } else {
        value > threshold
    }
}

/// Whether two intensities differ by less than [`MATCH_TOLERANCE`].
pub fn pixels_match(a: u8, b: u8) -> (close: bool)
    ensures
        close == close_enough(a, b),
{
    let diff: u8 = if a >= b {
        a - b
    } else {
        b - a
    };
    diff < MATCH_TOLERANCE
}

/// Background threshold of a rendering mode.
pub fn background_threshold(white_background: bool) -> (threshold: u8)
    ensures
        threshold == threshold_for(white_background),
{
    if white_background {
        200
    } else {
        50
    }
}

/// Counts the foreground pixels of a target.
pub fn count_foreground(target: &GrayImage, threshold: u8, white_background: bool) -> (count: u64)
    ensures
        count == foreground_count(target@, threshold, white_background),
        count <= target@.width * target@.height,
{
    let (width, height) = target.dimensions();
    let ghost pred = foreground_pred(target@, threshold, white_background);
    let mut count: u64 = 0;
    let mut y: u32 = 0;
    while y < height
        invariant
            y <= height,
            width == target@.width,
            height == target@.height,
            pred == foreground_pred(target@, threshold, white_background),
            count == count_region(pred, width as int, y as int),
        decreases height - y,
    {
        let mut x: u32 = 0;
        let ghost before = count;
        while x < width
            invariant
                y < height,
                x <= width,
                width == target@.width,
                height == target@.height,
                pred == foreground_pred(target@, threshold, white_background),
                before == count_region(pred, width as int, y as int),
                count == before + count_row(pred, y as int, x as int),
            decreases width - x,
        {
            proof {
                lemma_count_region_bound(pred, width as int, y as int);
                lemma_count_row_bound(pred, y as int, x as int);
                lemma_pixels_fit(width as int, height as int, x as int, y as int);
            }
            if pixel_is_lit(target.get_pixel(x, y), threshold, white_background) {
                count = count + 1;
            }
            x = x + 1;
        }
        y = y + 1;
    }
    proof {
        lemma_count_region_bound(pred, width as int, height as int);
    }
    count
}

/// While a pixel of a `u32 x u32` region is still to be visited, the number
/// of visited pixels is below `2^64 - 1`.
pub proof fn lemma_pixels_fit(w: int, h: int, x: int, y: int)
    requires
        0 <= x < w <= u32::MAX,
        0 <= y < h <= u32::MAX,
    ensures
        w * y + x < w * h <= u32::MAX * u32::MAX,
        u32::MAX * u32::MAX < u64::MAX,
{
    assert(w * y + x < w * h <= u32::MAX * u32::MAX) by (nonlinear_arith)
        requires
            0 <= x < w <= u32::MAX,
            0 <= y < h <= u32::MAX,
    ;
}

/// Compares a candidate, placed with its top-left corner at `(left, top)` of
/// the target, with the target pixels beneath it.
pub fn tally_region(
    candidate: &GrayImage,
    target: &GrayImage,
    left: u32,
    top: u32,
    threshold: u8,
    white_background: bool,
) -> (tally: Tally)
    ensures
        (tally.relevant as nat, tally.matches as nat, tally.false_positives as nat) == tally_of(
            candidate@,
            target@,
            left as nat,
            top as nat,
            threshold,
            white_background,
        ),
        tally.matches <= tally.relevant,
        tally.relevant + tally.false_positives <= candidate@.width * candidate@.height,
        tally.relevant + tally.false_positives <= target@.width * target@.height,
{
    let (cand_width, cand_height) = candidate.dimensions();
    let (target_width, target_height) = target.dimensions();
    let width: u32 = if left >= target_width {
        0
    } else if target_width - left < cand_width {
        target_width - left
    } else {
        cand_width
    };
    let height: u32 = if top >= target_height {
        0
    } else if target_height - top < cand_height {
        target_height - top
    } else {
        cand_height
    };
    let ghost relevant_p = relevant_pred(target@, left as nat, top as nat, threshold, white_background);
    let ghost match_p = match_pred(
        candidate@,
        target@,
        left as nat,
        top as nat,
        threshold,
        white_background,
    );
    let ghost false_p = false_positive_pred(
        candidate@,
        target@,
        left as nat,
        top as nat,
        threshold,
        white_background,
    );
    let mut relevant: u64 = 0;
    let mut matches: u64 = 0;
    let mut false_positives: u64 = 0;
    let mut y: u32 = 0;
    while y < height
        invariant
            y <= height,
            width <= cand_width,
            height <= cand_height,
            width > 0 ==> left + width <= target_width,
            height > 0 ==> top + height <= target_height,
            cand_width == candidate@.width,
            cand_height == candidate@.height,
            target_width == target@.width,
            target_height == target@.height,
            relevant_p == relevant_pred(target@, left as nat, top as nat, threshold, white_background),
            match_p == match_pred(
                candidate@,
                target@,
                left as nat,
                top as nat,
                threshold,
                white_background,
            ),
            false_p == false_positive_pred(
                candidate@,
                target@,
                left as nat,
                top as nat,
                threshold,
                white_background,
            ),
            relevant == count_region(relevant_p, width as int, y as int),
            matches == count_region(match_p, width as int, y as int),
            false_positives == count_region(false_p, width as int, y as int),
            matches <= relevant,
            relevant + false_positives <= width * y,
        decreases height - y,
    {
        let ghost relevant_before = relevant;
        let ghost matches_before = matches;
        let ghost false_before = false_positives;
        let mut x: u32 = 0;
        while x < width
            invariant
                y < height,
                x <= width,
                width <= cand_width,
                height <= cand_height,
                width > 0 ==> left + width <= target_width,
                height > 0 ==> top + height <= target_height,
                cand_width == candidate@.width,
                cand_height == candidate@.height,
                target_width == target@.width,
                target_height == target@.height,
                relevant_p == relevant_pred(
                    target@,
                    left as nat,
                    top as nat,
                    threshold,
                    white_background,
                ),
                match_p == match_pred(
                    candidate@,
                    target@,
                    left as nat,
                    top as nat,
                    threshold,
                    white_background,
                ),
                false_p == false_positive_pred(
                    candidate@,
                    target@,
                    left as nat,
                    top as nat,
                    threshold,
                    white_background,
                ),
                relevant_before == count_region(relevant_p, width as int, y as int),
                matches_before == count_region(match_p, width as int, y as int),
                false_before == count_region(false_p, width as int, y as int),
                relevant == relevant_before + count_row(relevant_p, y as int, x as int),
                matches == matches_before + count_row(match_p, y as int, x as int),
                false_positives == false_before + count_row(false_p, y as int, x as int),
                matches <= relevant,
                relevant + false_positives <= width * y + x,
            decreases width - x,
        {
            proof {
                lemma_pixels_fit(width as int, height as int, x as int, y as int);
            }
            let candidate_pixel = candidate.get_pixel(x, y);
            let target_pixel = target.get_pixel(left + x, top + y);
            if pixel_is_lit(target_pixel, threshold, white_background) {
                relevant = relevant + 1;
                if pixels_match(candidate_pixel, target_pixel) {
                    matches = matches + 1;
                }
            } else if pixel_is_lit(candidate_pixel, threshold, white_background) {
                false_positives = false_positives + 1;
            }
            x = x + 1;
        }
        assert(width * y + width == width * (y + 1)) by (nonlinear_arith);
        y = y + 1;
    }
    proof {
        assert(width * height <= cand_width * cand_height) by (nonlinear_arith)
            requires
                0 <= width <= cand_width,
                0 <= height <= cand_height,
        ;
        assert(width * height <= target_width * target_height) by (nonlinear_arith)
            requires
                0 <= width <= target_width,
                0 <= height <= target_height,
        ;
    }
    Tally { relevant, matches, false_positives }
}

/// Turns counts into the fraction `max(0, matches - penalty/1000 *
/// false_positives) / total`.
pub fn score_to_ratio(matches: u64, false_positives: u64, total: u64, penalty: u64) -> (r: Ratio)
    requires
        total > 0,
        total <= MAX_TARGET_PIXELS,
        matches <= MAX_TARGET_PIXELS,
        penalty <= SCORE_SCALE,
    ensures
        r == score_ratio(matches as nat, false_positives as nat, total as nat, penalty as nat),
        r.wf(),
        r.num <= SCORE_SCALE * matches,
        matches <= total ==> r.in_unit(),
{
    assert(penalty * false_positives <= 1000 * 0xFFFF_FFFF_FFFF_FFFF) by (nonlinear_arith)
        requires
            0 <= penalty <= 1000,
            0 <= false_positives <= 0xFFFF_FFFF_FFFF_FFFF,
    ;
    assert(SCORE_SCALE * matches <= 1000 * MAX_TARGET_PIXELS) by (nonlinear_arith)
        requires
            SCORE_SCALE == 1000,
            0 <= matches <= MAX_TARGET_PIXELS,
    ;
    let earned: u128 = (SCORE_SCALE as u128) * (matches as u128);
    let lost: u128 = (penalty as u128) * (false_positives as u128);
    let num: u64 = if earned > lost {
        (earned - lost) as u64
    } else {
        0
    };
    Ratio { num, den: SCORE_SCALE * total }
}

/// Computes the fitness of a whole grid against the target.
pub fn evaluate_grid(
    chars: &[u8],
    generator: &AsciiGenerator,
    target: &GrayImage,
    width: u32,
    height: u32,
    total: u64,
    threshold: u8,
    white_background: bool,
    penalty: u64,
) -> (fitness: Ratio)
    requires
        generator.wf(),
        generator.can_compose(width as nat, height as nat),
        target@.width * target@.height <= MAX_TARGET_PIXELS,
        total <= MAX_TARGET_PIXELS,
        penalty <= SCORE_SCALE,
    ensures
        fitness == grid_fitness(
            generator,
            chars@,
            width as nat,
            height as nat,
            target@,
            total as nat,
            threshold,
            white_background,
            penalty as nat,
        ),
        fitness.wf(),
        total == foreground_count(target@, threshold, white_background) ==> fitness.in_unit(),
{
    let candidate = generator.generate_ascii_image_with_background(
        chars,
        width,
        height,
        white_background,
    );
    if total == 0 {
        return Ratio::zero();
    }
    let tally = tally_region(&candidate, target, 0, 0, threshold, white_background);
    proof {
        lemma_relevant_at_most_foreground(candidate@, target@, threshold, white_background);
    }
    score_to_ratio(tally.matches, tally.false_positives, total, penalty)
}

} // verus!
