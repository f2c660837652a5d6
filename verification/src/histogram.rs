//! Grey-level histograms: counting, cumulative sums, and the bar chart that
//! displays a histogram.

use crate::buffers::{gray_dims, gray_pixels, in_grid, rgb_dims, rgb_pixels, GrayImage, RgbImage};
use vstd::prelude::*;

verus! {

/// Number of pixels of level `v` among columns `0..n` of row `y`.
pub open spec fn row_level_count(img: GrayImage, v: u8, y: int, n: int) -> nat
    decreases n,
{
    if n <= 0 {
        0
    } else {
        row_level_count(img, v, y, n - 1) + if gray_pixels(img)[(n - 1, y)] == v {
            1nat
        } else {
            0nat
        }
    }
}

/// Number of pixels of level `v` among rows `0..m`.
pub open spec fn rows_level_count(img: GrayImage, v: u8, m: int) -> nat
    decreases m,
{
    if m <= 0 {
        0
    } else {
        rows_level_count(img, v, m - 1) + row_level_count(img, v, m - 1, gray_dims(img).0 as int)
    }
}

/// Number of pixels of level `v` in the whole image.
pub open spec fn level_count(img: GrayImage, v: u8) -> nat {
    rows_level_count(img, v, gray_dims(img).1 as int)
}

proof fn lemma_row_count_monotone(img: GrayImage, v: u8, y: int, n: int, m: int)
    requires
        n <= m,
    ensures
        row_level_count(img, v, y, n) <= row_level_count(img, v, y, m),
    decreases m - n,
{
    if n < m {
        lemma_row_count_monotone(img, v, y, n, m - 1);
    }
}

proof fn lemma_rows_count_monotone(img: GrayImage, v: u8, n: int, m: int)
    requires
        n <= m,
    ensures
        rows_level_count(img, v, n) <= rows_level_count(img, v, m),
    decreases m - n,
{
    if n < m {
        lemma_rows_count_monotone(img, v, n, m - 1);
    }
}

/// The histogram of a grey-level image: entry `v` counts the pixels of level `v`.
pub fn calculate_histogram(gray: &GrayImage) -> (r: [u32; 256])
    requires
        forall|v: u8| #[trigger] level_count(*gray, v) <= u32::MAX,
    ensures
        forall|v: u8| r[v as int] == level_count(*gray, v),
{
    let (w, h) = gray.size();
    let mut hist = [0u32; 256];
    for y in 0..h
        invariant
            (w, h) == gray_dims(*gray),
            forall|v: u8| #[trigger] level_count(*gray, v) <= u32::MAX,
            forall|v: u8| hist[v as int] == rows_level_count(*gray, v, y as int),
    {
        for x in 0..w
            invariant
                (w, h) == gray_dims(*gray),
                0 <= y < h,
                forall|v: u8| #[trigger] level_count(*gray, v) <= u32::MAX,
                forall|v: u8|
                    hist[v as int] == rows_level_count(*gray, v, y as int) + row_level_count(
                        *gray,
                        v,
                        y as int,
                        x as int,
                    ),
        {
            let p = gray.get_pixel(x, y);
            proof {
                lemma_row_count_monotone(*gray, p, y as int, x as int + 1, w as int);
                lemma_rows_count_monotone(*gray, p, y as int + 1, h as int);
                assert(level_count(*gray, p) <= u32::MAX);
            }
            hist[p as usize] = hist[p as usize] + 1;
        }
    }
    hist
}

} // verus!

verus! {

/// The sum of `f(v)` over the levels `0 <= v < k`.
pub open spec fn sum_levels(f: spec_fn(u8) -> nat, k: int) -> nat
    decreases k,
{
    if k <= 0 {
        0
    } else {
        sum_levels(f, k - 1) + f((k - 1) as u8)
    }
}

/// The sum of the first `k` entries of `hist`.
pub open spec fn prefix_total(hist: Seq<u32>, k: int) -> nat
    decreases k,
{
    if k <= 0 {
        0
    } else {
        prefix_total(hist, k - 1) + hist[k - 1] as nat
    }
}

proof fn lemma_sum_levels_add(f: spec_fn(u8) -> nat, g: spec_fn(u8) -> nat, k: int)
    ensures
        sum_levels(|v: u8| f(v) + g(v), k) == sum_levels(f, k) + sum_levels(g, k),
    decreases k,
{
    if k > 0 {
        lemma_sum_levels_add(f, g, k - 1);
    }
}

proof fn lemma_sum_levels_zero(f: spec_fn(u8) -> nat, k: int)
    requires
        forall|v: u8| #[trigger] f(v) == 0,
    ensures
        sum_levels(f, k) == 0,
    decreases k,
{
    if k > 0 {
        lemma_sum_levels_zero(f, k - 1);
    }
}

proof fn lemma_sum_levels_indicator(p: u8, k: int)
    requires
        0 <= k <= 256,
    ensures
        sum_levels(|v: u8| if p == v { 1nat } else { 0nat }, k) == if p < k { 1nat } else { 0nat },
    decreases k,
{
    if k > 0 {
        lemma_sum_levels_indicator(p, k - 1);
    }
}

proof fn lemma_row_counts_sum(img: GrayImage, y: int, n: int)
    requires
        n >= 0,
    ensures
        sum_levels(|v: u8| row_level_count(img, v, y, n), 256) == n,
    decreases n,
{
    if n > 0 {
        lemma_row_counts_sum(img, y, n - 1);
        let p = gray_pixels(img)[(n - 1, y)];
        let before = |v: u8| row_level_count(img, v, y, n - 1);
        let hit = |v: u8| if p == v { 1nat } else { 0nat };
        lemma_sum_levels_add(before, hit, 256);
        lemma_sum_levels_indicator(p, 256);
        assert((|v: u8| row_level_count(img, v, y, n)) =~= (|v: u8| before(v) + hit(v)));
    } else {
        lemma_sum_levels_zero(|v: u8| row_level_count(img, v, y, n), 256);
    }
}

proof fn lemma_rows_counts_sum(img: GrayImage, m: int)
    requires
        m >= 0,
    ensures
        sum_levels(|v: u8| rows_level_count(img, v, m), 256) == m * gray_dims(img).0,
    decreases m,
{
    if m > 0 {
        let w = gray_dims(img).0 as int;
        lemma_rows_counts_sum(img, m - 1);
        lemma_row_counts_sum(img, m - 1, w);
        let before = |v: u8| rows_level_count(img, v, m - 1);
        let row = |v: u8| row_level_count(img, v, m - 1, w);
        lemma_sum_levels_add(before, row, 256);
        assert((|v: u8| rows_level_count(img, v, m)) =~= (|v: u8| before(v) + row(v)));
        assert((m - 1) * w + w == m * w) by (nonlinear_arith);
    } else {
        lemma_sum_levels_zero(|v: u8| rows_level_count(img, v, m), 256);
    }
}

/// Every pixel falls in exactly one level: the level counts add up to
/// `width * height`.
pub proof fn lemma_histogram_counts_every_pixel(img: GrayImage)
    ensures
        sum_levels(|v: u8| level_count(img, v), 256) == gray_dims(img).0 * gray_dims(img).1,
{
    let h = gray_dims(img).1 as int;
    lemma_rows_counts_sum(img, h);
    assert((|v: u8| level_count(img, v)) =~= (|v: u8| rows_level_count(img, v, h)));
    assert(h * gray_dims(img).0 == gray_dims(img).0 * h) by (nonlinear_arith);
}

proof fn lemma_prefix_total_monotone(hist: Seq<u32>, n: int, m: int)
    requires
        n <= m,
    ensures
        prefix_total(hist, n) <= prefix_total(hist, m),
    decreases m - n,
{
    if n < m {
        lemma_prefix_total_monotone(hist, n, m - 1);
    }
}

/// The cumulative histogram: entry `i` is the number of pixels counted in
/// entries `0..=i` of `hist`.
pub fn cumulative_histogram(hist: &[u32; 256]) -> (r: [u32; 256])
    requires
        prefix_total(hist@, 256) <= u32::MAX,
    ensures
        forall|i: int| 0 <= i < 256 ==> #[trigger] r[i] == prefix_total(hist@, i + 1),
        r[0] == hist[0],
        forall|i: int| 0 < i < 256 ==> #[trigger] r[i] == r[i - 1] + hist[i],
{
    let mut cdf = [0u32; 256];
    let mut cumulative: u32 = 0;
    for i in 0..256usize
        invariant
            prefix_total(hist@, 256) <= u32::MAX,
            cumulative == prefix_total(hist@, i as int),
            forall|j: int| 0 <= j < i ==> #[trigger] cdf[j] == prefix_total(hist@, j + 1),
    {
        proof {
            lemma_prefix_total_monotone(hist@, i as int + 1, 256);
        }
        cumulative = cumulative + hist[i];
        cdf[i] = cumulative;
    }
    proof {
        lemma_cumulative_steps(hist@, cdf@);
    }
    cdf
}

/// The first non-zero entry of `cdf`, or 0 when every entry is zero.
pub fn cdf_min(cdf: &[u32; 256]) -> (r: u32)
    ensures
        (forall|i: int| 0 <= i < 256 ==> #[trigger] cdf[i] == 0) ==> r == 0,
        (exists|i: int| 0 <= i < 256 && #[trigger] cdf[i] != 0) ==> exists|k: int|
            0 <= k < 256 && cdf[k] == r && r != 0 && forall|j: int|
                0 <= j < k ==> #[trigger] cdf[j] == 0,
{
    for i in 0..256usize
        invariant
            forall|j: int| 0 <= j < i ==> #[trigger] cdf[j] == 0,
    {
        if cdf[i] > 0 {
            return cdf[i];
        }
    }
    0
}

/// The largest entry of the histogram.
pub fn histogram_peak(hist: &[u32; 256]) -> (r: u32)
    ensures
        exists|i: int| 0 <= i < 256 && #[trigger] hist[i] == r,
        forall|i: int| 0 <= i < 256 ==> #[trigger] hist[i] <= r,
{
    let mut peak = hist[0];
    for i in 1..256usize
        invariant
            exists|k: int| 0 <= k < i && #[trigger] hist[k] == peak,
            forall|j: int| 0 <= j < i ==> #[trigger] hist[j] <= peak,
    {
        if hist[i] > peak {
            peak = hist[i];
        }
    }
    peak
}

} // verus!

verus! {

proof fn lemma_prefix_total_is_sum(hist: Seq<u32>, f: spec_fn(u8) -> nat, k: int)
    requires
        0 <= k <= 256,
        hist.len() == 256,
        forall|v: u8| #[trigger] f(v) == hist[v as int],
    ensures
        prefix_total(hist, k) == sum_levels(f, k),
    decreases k,
{
    if k > 0 {
        lemma_prefix_total_is_sum(hist, f, k - 1);
        assert(f((k - 1) as u8) == hist[k - 1]);
    }
}

/// The cumulative histogram of an image never decreases and its last entry
/// is the number of pixels, `width * height`.
pub proof fn lemma_cumulative_histogram_of_image(img: GrayImage, hist: [u32; 256], cdf: [u32; 256])
    requires
        forall|v: u8| hist[v as int] == level_count(img, v),
        forall|i: int| 0 <= i < 256 ==> #[trigger] cdf[i] == prefix_total(hist@, i + 1),
    ensures
        cdf[255] == gray_dims(img).0 * gray_dims(img).1,
        forall|i: int, j: int| 0 <= i <= j < 256 ==> #[trigger] cdf[i] <= #[trigger] cdf[j],
{
    let f = |v: u8| level_count(img, v);
    assert forall|v: u8| #[trigger] f(v) == hist@[v as int] by {
        assert(hist[v as int] == level_count(img, v));
    }
    lemma_prefix_total_is_sum(hist@, f, 256);
    lemma_histogram_counts_every_pixel(img);
    assert forall|i: int, j: int| 0 <= i <= j < 256 implies #[trigger] cdf[i]
        <= #[trigger] cdf[j] by {
        lemma_prefix_total_monotone(hist@, i + 1, j + 1);
    }
}

/// Width of the histogram chart in pixels: two columns per level.
pub const HISTOGRAM_WIDTH: u32 = 512;

/// Height of the histogram chart in pixels.
pub const HISTOGRAM_HEIGHT: u32 = 400;

/// The pixel at `(x, y)` of the chart whose bar for level `v` is `heights[v]`
/// pixels tall: white inside a bar (bars stand on the bottom row), black elsewhere.
pub open spec fn chart_pixel(heights: Seq<u32>, x: int, y: int) -> [u8; 3] {
    if y >= HISTOGRAM_HEIGHT - heights[x / 2] {
        [255u8, 255u8, 255u8]
    } else {
        [0u8, 0u8, 0u8]
    }
}

/// In the 512 x 400 chart `r`, both columns `2v` and `2v + 1` of every level `v`
/// are white exactly on the bottom `heights[v]` rows (`y >= 400 - heights[v]`)
/// and black above.
pub open spec fn bars_stand_on_bottom(heights: Seq<u32>, r: RgbImage) -> bool {
    forall|v: int, c: int, y: int|
        0 <= v < 256 && 0 <= c < 2 && 0 <= y < 400 ==> #[trigger] rgb_pixels(r)[(2 * v + c, y)]
            == if y >= 400 - heights[v] {
            [255u8, 255u8, 255u8]
        } else {
            [0u8, 0u8, 0u8]
        }
}

/// Every level's bar in the chart occupies its two columns from the bottom row
/// up to exactly its height, and nothing else in those columns is white.
pub proof fn lemma_chart_bars(heights: Seq<u32>, r: RgbImage)
    requires
        rgb_dims(r) == (HISTOGRAM_WIDTH, HISTOGRAM_HEIGHT),
        forall|x: int, y: int|
            in_grid(x, y, HISTOGRAM_WIDTH, HISTOGRAM_HEIGHT) ==> #[trigger] rgb_pixels(r)[(x, y)]
                == chart_pixel(heights, x, y),
    ensures
        bars_stand_on_bottom(heights, r),
{
    assert forall|v: int, c: int, y: int|
        0 <= v < 256 && 0 <= c < 2 && 0 <= y < 400 implies #[trigger] rgb_pixels(r)[(
        2 * v + c,
        y,
    )] == if y >= 400 - heights[v] {
        [255u8, 255u8, 255u8]
    } else {
        [0u8, 0u8, 0u8]
    } by {
        assert((2 * v + c) / 2 == v);
        assert(in_grid(2 * v + c, y, HISTOGRAM_WIDTH, HISTOGRAM_HEIGHT));
    }
}

/// Draws a histogram as white bars on black: a 512 x 400 image in which level
/// `v` owns columns `2v` and `2v + 1`, filled from the bottom up to `heights[v]` rows.
pub fn draw_histogram_bars(heights: &[u32; 256]) -> (r: RgbImage)
    requires
        forall|i: int| 0 <= i < 256 ==> #[trigger] heights[i] <= HISTOGRAM_HEIGHT,
    ensures
        rgb_dims(r) == (HISTOGRAM_WIDTH, HISTOGRAM_HEIGHT),
        forall|x: int, y: int|
            in_grid(x, y, HISTOGRAM_WIDTH, HISTOGRAM_HEIGHT) ==> #[trigger] rgb_pixels(r)[(x, y)]
                == chart_pixel(heights@, x, y),
        bars_stand_on_bottom(heights@, r),
{
    let hist_w = HISTOGRAM_WIDTH;
    let hist_h = HISTOGRAM_HEIGHT;
    let mut img = RgbImage::new(hist_w, hist_h);
    let bin_w = hist_w / 256;
    let bin_w = if bin_w > 1 { bin_w } else { 1 };
    assert(bin_w == 2);
    for i in 0..256u32
        invariant
            bin_w == 2,
            hist_w == HISTOGRAM_WIDTH,
            hist_h == HISTOGRAM_HEIGHT,
            forall|k: int| 0 <= k < 256 ==> #[trigger] heights[k] <= HISTOGRAM_HEIGHT,
            rgb_dims(img) == (HISTOGRAM_WIDTH, HISTOGRAM_HEIGHT),
            forall|x: int, y: int|
                in_grid(x, y, HISTOGRAM_WIDTH, HISTOGRAM_HEIGHT) ==> #[trigger] rgb_pixels(img)[(
                    x,
                    y,
                )] == if x < 2 * i {
                    chart_pixel(heights@, x, y)
                } else {
                    [0u8, 0u8, 0u8]
                },
    {
        let normalized = heights[i as usize];
        let x0 = i * bin_w;
        let x1 = (i + 1) * bin_w;
        let x1 = if x1 < hist_w { x1 } else { hist_w };
        assert(x0 == 2 * i && x1 == 2 * i + 2);
        for x in x0..x1
            invariant
                bin_w == 2,
                hist_w == HISTOGRAM_WIDTH,
                hist_h == HISTOGRAM_HEIGHT,
                i < 256,
                x0 == 2 * i,
                x1 == 2 * i + 2,
                normalized == heights[i as int],
                normalized <= HISTOGRAM_HEIGHT,
                rgb_dims(img) == (HISTOGRAM_WIDTH, HISTOGRAM_HEIGHT),
                forall|a: int, b: int|
                    in_grid(a, b, HISTOGRAM_WIDTH, HISTOGRAM_HEIGHT) ==> #[trigger] rgb_pixels(
                        img,
                    )[(a, b)] == if a < x {
                        chart_pixel(heights@, a, b)
                    } else {
                        [0u8, 0u8, 0u8]
                    },
        {
            assert(x / 2 == i);
            for y in (hist_h - normalized)..hist_h
                invariant
                    hist_w == HISTOGRAM_WIDTH,
                    hist_h == HISTOGRAM_HEIGHT,
                    x / 2 == i,
                    x0 <= x < x1,
                    x1 == 2 * i + 2,
                    i < 256,
                    normalized == heights[i as int],
                    normalized <= HISTOGRAM_HEIGHT,
                    rgb_dims(img) == (HISTOGRAM_WIDTH, HISTOGRAM_HEIGHT),
                    forall|a: int, b: int|
                        in_grid(a, b, HISTOGRAM_WIDTH, HISTOGRAM_HEIGHT) ==> #[trigger] rgb_pixels(
                            img,
                        )[(a, b)] == if a < x || (a == x && b < y) {
                            chart_pixel(heights@, a, b)
                        } else {
                            [0u8, 0u8, 0u8]
                        },
            {
                img.put_pixel(x, y, [255, 255, 255]);
            }
        }
    }
    proof {
        lemma_chart_bars(heights@, img);
    }
    img
}

} // verus!

verus! {

proof fn lemma_absent_level_row(img: GrayImage, v: u8, y: int, n: int)
    requires
        forall|x: int| 0 <= x < n ==> #[trigger] gray_pixels(img)[(x, y)] != v,
    ensures
        row_level_count(img, v, y, n) == 0,
    decreases n,
{
    if n > 0 {
        lemma_absent_level_row(img, v, y, n - 1);
    }
}

proof fn lemma_absent_level_rows(img: GrayImage, v: u8, m: int)
    requires
        m <= gray_dims(img).1,
        forall|x: int, y: int|
            in_grid(x, y, gray_dims(img).0, gray_dims(img).1) ==> #[trigger] gray_pixels(img)[(
                x,
                y,
            )] != v,
    ensures
        rows_level_count(img, v, m) == 0,
    decreases m,
{
    if m > 0 {
        lemma_absent_level_rows(img, v, m - 1);
        assert forall|x: int| 0 <= x < gray_dims(img).0 implies #[trigger] gray_pixels(img)[(
            x,
            m - 1,
        )] != v by {
            assert(in_grid(x, m - 1, gray_dims(img).0, gray_dims(img).1));
        }
        lemma_absent_level_row(img, v, m - 1, gray_dims(img).0 as int);
    }
}

/// A binary image (levels 0 and 255 only) has an empty histogram entry for
/// every other level.
pub proof fn lemma_binary_image_histogram(img: GrayImage)
    requires
        crate::pixels::is_binary_spec(img),
    ensures
        forall|v: u8| v != 0 && v != 255 ==> #[trigger] level_count(img, v) == 0,
{
    assert forall|v: u8| v != 0 && v != 255 implies #[trigger] level_count(img, v) == 0 by {
        lemma_absent_level_rows(img, v, gray_dims(img).1 as int);
    }
}

} // verus!

verus! {

/// Each entry of the cumulative histogram adds one entry of the histogram to the
/// one before it: `cdf[0] == hist[0]` and `cdf[i] == cdf[i - 1] + hist[i]`.
pub proof fn lemma_cumulative_steps(hist: Seq<u32>, cdf: Seq<u32>)
    requires
        hist.len() == 256,
        cdf.len() == 256,
        forall|i: int| 0 <= i < 256 ==> #[trigger] cdf[i] == prefix_total(hist, i + 1),
    ensures
        cdf[0] == hist[0],
        forall|i: int| 0 < i < 256 ==> #[trigger] cdf[i] == cdf[i - 1] + hist[i],
{
    assert(prefix_total(hist, 1) == hist[0]) by {
        reveal_with_fuel(prefix_total, 2);
    }
    assert forall|i: int| 0 < i < 256 implies #[trigger] cdf[i] == cdf[i - 1] + hist[i] by {
        assert(cdf[i - 1] == prefix_total(hist, i));
    }
}

proof fn lemma_row_count_present(img: GrayImage, v: u8, y: int, n: int)
    ensures
        row_level_count(img, v, y, n) > 0 <==> exists|x: int|
            0 <= x < n && #[trigger] gray_pixels(img)[(x, y)] == v,
    decreases n,
{
    if n > 0 {
        lemma_row_count_present(img, v, y, n - 1);
        if gray_pixels(img)[(n - 1, y)] == v {
            assert(0 <= n - 1 < n);
        } else {
            if exists|x: int| 0 <= x < n && #[trigger] gray_pixels(img)[(x, y)] == v {
                let x = choose|x: int| 0 <= x < n && #[trigger] gray_pixels(img)[(x, y)] == v;
                assert(x < n - 1);
            }
        }
    }
}

proof fn lemma_rows_count_present(img: GrayImage, v: u8, m: int)
    ensures
        rows_level_count(img, v, m) > 0 <==> exists|x: int, y: int|
            0 <= x < gray_dims(img).0 && 0 <= y < m && #[trigger] gray_pixels(img)[(x, y)] == v,
    decreases m,
{
    let w = gray_dims(img).0 as int;
    if m > 0 {
        lemma_rows_count_present(img, v, m - 1);
        lemma_row_count_present(img, v, m - 1, w);
        if row_level_count(img, v, m - 1, w) > 0 {
            let x = choose|x: int| 0 <= x < w && #[trigger] gray_pixels(img)[(x, m - 1)] == v;
            assert(0 <= x < w && 0 <= m - 1 < m && gray_pixels(img)[(x, m - 1)] == v);
        } else {
            if exists|x: int, y: int|
                0 <= x < w && 0 <= y < m && #[trigger] gray_pixels(img)[(x, y)] == v {
                let (x, y) = choose|x: int, y: int|
                    0 <= x < w && 0 <= y < m && #[trigger] gray_pixels(img)[(x, y)] == v;
                if y == m - 1 {
                    assert(0 <= x < w && gray_pixels(img)[(x, m - 1)] == v);
                } else {
                    assert(0 <= x < w && 0 <= y < m - 1 && gray_pixels(img)[(x, y)] == v);
                }
            }
        }
    }
}

/// A level is counted in the histogram exactly when some pixel of the image has
/// that level.
pub proof fn lemma_level_count_present(img: GrayImage, v: u8)
    ensures
        level_count(img, v) > 0 <==> exists|x: int, y: int|
            in_grid(x, y, gray_dims(img).0, gray_dims(img).1) && #[trigger] gray_pixels(img)[(
                x,
                y,
            )] == v,
{
    lemma_rows_count_present(img, v, gray_dims(img).1 as int);
}

} // verus!
