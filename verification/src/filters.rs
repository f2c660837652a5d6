//! 3 x 3 neighbourhood filters on grey-level images: mean and Gaussian
//! smoothing, and the median filter. Neighbours outside the image are taken
//! from the nearest border pixel.

use crate::buffers::{gray_dims, gray_pixels, in_grid, GrayImage};
use vstd::prelude::*;
use vstd::relations::{sorted_by, total_ordering};

verus! {

/// The coordinate `c` moved into `0..n` (the nearest border coordinate when outside).
pub open spec fn clamp_coord(c: int, n: int) -> int {
    if c < 0 {
        0
    } else if c >= n {
        n - 1
    } else {
        c
    }
}

/// The level of the neighbour at offset `(dx, dy)` from `(x, y)`, replicating the border.
pub open spec fn neighbour(img: GrayImage, x: int, y: int, dx: int, dy: int) -> u8 {
    let (w, h) = gray_dims(img);
    gray_pixels(img)[(clamp_coord(x + dx, w as int), clamp_coord(y + dy, h as int))]
}

/// The nine levels of the 3 x 3 neighbourhood of `(x, y)`, row by row.
pub open spec fn window(img: GrayImage, x: int, y: int) -> Seq<u8> {
    seq![
        neighbour(img, x, y, -1, -1),
        neighbour(img, x, y, 0, -1),
        neighbour(img, x, y, 1, -1),
        neighbour(img, x, y, -1, 0),
        neighbour(img, x, y, 0, 0),
        neighbour(img, x, y, 1, 0),
        neighbour(img, x, y, -1, 1),
        neighbour(img, x, y, 0, 1),
        neighbour(img, x, y, 1, 1),
    ]
}

/// The filters leave every pixel at 0 when a dimension exceeds `i32::MAX`.
pub open spec fn filterable(img: GrayImage) -> bool {
    gray_dims(img).0 <= i32::MAX && gray_dims(img).1 <= i32::MAX
}

/// `sum(kernel[i] * win[i])` over the first `n` positions.
pub open spec fn weighted_sum(win: Seq<u8>, kernel: Seq<u32>, n: int) -> int
    decreases n,
{
    if n <= 0 {
        0
    } else {
        weighted_sum(win, kernel, n - 1) + kernel[n - 1] * win[n - 1]
    }
}

/// `sum(kernel[i])` over the first `n` positions.
pub open spec fn kernel_total(kernel: Seq<u32>, n: int) -> int
    decreases n,
{
    if n <= 0 {
        0
    } else {
        kernel_total(kernel, n - 1) + kernel[n - 1]
    }
}

/// The weighted mean of the window under `kernel`, rounded to the nearest
/// integer with halves rounded up.
pub open spec fn smoothed_level(win: Seq<u8>, kernel: Seq<u32>) -> int {
    (2 * weighted_sum(win, kernel, 9) + kernel_total(kernel, 9)) / (2 * kernel_total(kernel, 9))
}

/// `r` is `src` smoothed with the 3 x 3 `kernel` (weights row by row).
pub open spec fn smoothed(src: GrayImage, kernel: Seq<u32>, r: GrayImage) -> bool {
    let (w, h) = gray_dims(src);
    &&& gray_dims(r) == (w, h)
    &&& forall|x: int, y: int|
        in_grid(x, y, w, h) ==> #[trigger] gray_pixels(r)[(x, y)] == if filterable(src) {
            smoothed_level(window(src, x, y), kernel)
        } else {
            0
        }
}

/// The equal weights of the mean filter.
pub open spec fn mean_kernel() -> Seq<u32> {
    seq![1u32, 1u32, 1u32, 1u32, 1u32, 1u32, 1u32, 1u32, 1u32]
}

/// The weights of the Gaussian filter.
pub open spec fn gaussian_kernel() -> Seq<u32> {
    seq![1u32, 2u32, 1u32, 2u32, 4u32, 2u32, 1u32, 2u32, 1u32]
}

/// The neighbour coordinate `c + d - 1` (for `d` in 0..3) moved into `0..n`.
fn clamp_offset(c: u32, d: u32, n: u32) -> (r: u32)
    requires
        c < n,
        d < 3,
    ensures
        r == clamp_coord(c + d - 1, n as int),
        r < n,
{
    if d == 0 {
        if c == 0 {
            0
        } else {
            c - 1
        }
    } else if d == 1 {
        c
    } else {
        if c + 1 >= n {
            n - 1
        } else {
            c + 1
        }
    }
}

/// Reads the 3 x 3 neighbourhood of `(x, y)`, row by row.
fn read_window(src: &GrayImage, x: u32, y: u32, w: u32, h: u32) -> (r: [u8; 9])
    requires
        (w, h) == gray_dims(*src),
        x < w,
        y < h,
    ensures
        r@ == window(*src, x as int, y as int),
{
    let mut win = [0u8; 9];
    for my in 0..3u32
        invariant
            (w, h) == gray_dims(*src),
            x < w,
            y < h,
            forall|k: int|
                0 <= k < 3 * my ==> #[trigger] win[k] == window(*src, x as int, y as int)[k],
    {
        let sy = clamp_offset(y, my, h);
        for mx in 0..3u32
            invariant
                (w, h) == gray_dims(*src),
                x < w,
                y < h,
                my < 3,
                sy == clamp_coord(y + my - 1, h as int),
                sy < h,
                forall|k: int|
                    0 <= k < 3 * my + mx ==> #[trigger] win[k] == window(*src, x as int, y as int)[
                        k
                    ],
        {
            let sx = clamp_offset(x, mx, w);
            win[(3 * my + mx) as usize] = src.get_pixel(sx, sy);
        }
    }
    assert(win@ =~= window(*src, x as int, y as int));
    win
}

proof fn lemma_weighted_sum_bounds(win: Seq<u8>, kernel: Seq<u32>, n: int)
    requires
        0 <= n <= win.len(),
        n <= kernel.len(),
    ensures
        0 <= weighted_sum(win, kernel, n) <= 255 * kernel_total(kernel, n),
        kernel_total(kernel, n) >= 0,
    decreases n,
{
    if n > 0 {
        lemma_weighted_sum_bounds(win, kernel, n - 1);
        let k = kernel[n - 1] as int;
        let v = win[n - 1] as int;
        assert(0 <= k * v <= 255 * k) by (nonlinear_arith)
            requires
                0 <= k,
                0 <= v <= 255,
        ;
    }
}

/// Smooths `src` with a 3 x 3 kernel of small non-negative weights.
fn smooth3x3(src: &GrayImage, kernel: &[u32; 9]) -> (r: GrayImage)
    requires
        forall|i: int| 0 <= i < 9 ==> #[trigger] kernel[i] <= 4,
        kernel_total(kernel@, 9) > 0,
    ensures
        smoothed(*src, kernel@, r),
{
    let (w, h) = src.size();
    let mut dst = GrayImage::new(w, h);
    if w > 0x7fff_ffff || h > 0x7fff_ffff {
        return dst;
    }
    let mut total: u32 = 0;
    for i in 0..9usize
        invariant
            forall|k: int| 0 <= k < 9 ==> #[trigger] kernel[k] <= 4,
            total == kernel_total(kernel@, i as int),
            total <= 4 * i,
    {
        total = total + kernel[i];
    }
    for y in 0..h
        invariant
            (w, h) == gray_dims(*src),
            filterable(*src),
            forall|k: int| 0 <= k < 9 ==> #[trigger] kernel[k] <= 4,
            total == kernel_total(kernel@, 9),
            total > 0,
            total <= 36,
            gray_dims(dst) == (w, h),
            forall|i: int, j: int|
                0 <= i < w && 0 <= j < y ==> #[trigger] gray_pixels(dst)[(i, j)]
                    == smoothed_level(window(*src, i, j), kernel@),
    {
        for x in 0..w
            invariant
                (w, h) == gray_dims(*src),
                filterable(*src),
                0 <= y < h,
                forall|k: int| 0 <= k < 9 ==> #[trigger] kernel[k] <= 4,
                total == kernel_total(kernel@, 9),
                total > 0,
                total <= 36,
                gray_dims(dst) == (w, h),
                forall|i: int, j: int|
                    (0 <= i < w && 0 <= j < y) || (0 <= i < x && j == y)
                        ==> #[trigger] gray_pixels(dst)[(i, j)] == smoothed_level(
                        window(*src, i, j),
                        kernel@,
                    ),
        {
            let win = read_window(src, x, y, w, h);
            let mut accum: u32 = 0;
            for k in 0..9usize
                invariant
                    forall|q: int| 0 <= q < 9 ==> #[trigger] kernel[q] <= 4,
                    accum == weighted_sum(win@, kernel@, k as int),
                    accum <= 1020 * k,
            {
                proof {
                    let kv = kernel[k as int] as int;
                    let wv = win[k as int] as int;
                    assert(kv * wv <= 1020) by (nonlinear_arith)
                        requires
                            0 <= kv <= 4,
                            0 <= wv <= 255,
                    ;
                }
                accum = accum + kernel[k] * (win[k] as u32);
            }
            proof {
                lemma_weighted_sum_bounds(win@, kernel@, 9);
                let a = accum as int;
                let t = total as int;
                assert((2 * a + t) / (2 * t) <= 255) by (nonlinear_arith)
                    requires
                        0 <= a <= 255 * t,
                        t > 0,
                ;
            }
            let value = (2 * accum + total) / (2 * total);
            dst.put_pixel(x, y, value as u8);
        }
    }
    dst
}

/// Mean smoothing: each pixel becomes the rounded mean of its 3 x 3 neighbourhood.
pub fn img_mean(src: &GrayImage) -> (r: GrayImage)
    ensures
        smoothed(*src, mean_kernel(), r),
        gray_dims(*src).0 <= i32::MAX && gray_dims(*src).1 <= i32::MAX ==> forall|x: int, y: int|
            in_grid(x, y, gray_dims(*src).0, gray_dims(*src).1) ==> -4 <= 9 * (
            #[trigger] gray_pixels(r)[(x, y)]) - window_sum(window(*src, x, y)) <= 4,
{
    let kernel: [u32; 9] = [1, 1, 1, 1, 1, 1, 1, 1, 1];
    assert(kernel@ =~= mean_kernel());
    assert(kernel_total(kernel@, 9) == 9) by {
        reveal_with_fuel(kernel_total, 10);
    }
    let r = smooth3x3(src, &kernel);
    proof {
        if filterable(*src) {
            lemma_mean_filter_is_rounded_mean(*src, r);
        }
    }
    r
}

/// Gaussian smoothing with the 3 x 3 kernel `[1 2 1; 2 4 2; 1 2 1] / 16`.
pub fn img_gaussian(src: &GrayImage) -> (r: GrayImage)
    ensures
        smoothed(*src, gaussian_kernel(), r),
        gray_dims(*src).0 <= i32::MAX && gray_dims(*src).1 <= i32::MAX ==> forall|x: int, y: int|
            in_grid(x, y, gray_dims(*src).0, gray_dims(*src).1) ==> -8 < 16 * (
            #[trigger] gray_pixels(r)[(x, y)]) - window_gaussian_sum(window(*src, x, y)) <= 8,
{
    let kernel: [u32; 9] = [1, 2, 1, 2, 4, 2, 1, 2, 1];
    assert(kernel@ =~= gaussian_kernel());
    assert(kernel_total(kernel@, 9) == 16) by {
        reveal_with_fuel(kernel_total, 10);
    }
    let r = smooth3x3(src, &kernel);
    proof {
        if filterable(*src) {
            lemma_gaussian_filter_is_rounded_mean(*src, r);
        }
    }
    r
}

} // verus!

verus! {

/// The usual order on grey levels.
pub open spec fn level_le() -> spec_fn(u8, u8) -> bool {
    |a: u8, b: u8| a <= b
}

/// The median of a nine-level window: its fifth smallest level.
pub open spec fn median_level(win: Seq<u8>) -> u8 {
    win.sort_by(level_le())[4]
}

/// `r` is the 3 x 3 median filter of `src`.
pub open spec fn median_filtered(src: GrayImage, r: GrayImage) -> bool {
    let (w, h) = gray_dims(src);
    &&& gray_dims(r) == (w, h)
    &&& forall|x: int, y: int|
        in_grid(x, y, w, h) ==> #[trigger] gray_pixels(r)[(x, y)] == if filterable(src) {
            median_level(window(src, x, y))
        } else {
            0
        }
}

proof fn lemma_level_le_total()
    ensures
        total_ordering(level_le()),
{
}

proof fn lemma_swap_keeps_multiset(s: Seq<u8>, i: int, j: int)
    requires
        0 <= i < s.len(),
        0 <= j < s.len(),
    ensures
        s.update(i, s[j]).update(j, s[i]).to_multiset() =~= s.to_multiset(),
{
    broadcast use vstd::seq_lib::group_to_multiset_ensures;
    broadcast use vstd::multiset::group_multiset_axioms;

    let t = s.update(i, s[j]);
    assert(t[j] == if i == j { s[j] } else { s[j] });
}

/// Sorts nine levels into ascending order (insertion sort).
fn sort9(a: [u8; 9]) -> (r: [u8; 9])
    ensures
        sorted_by(r@, level_le()),
        r@.to_multiset() =~= a@.to_multiset(),
{
    let mut arr = a;
    let mut i: usize = 1;
    while i < 9
        invariant
            1 <= i <= 9,
            arr@.to_multiset() =~= a@.to_multiset(),
            forall|p: int, q: int| 0 <= p < q < i ==> #[trigger] arr[p] <= #[trigger] arr[q],
        decreases 9 - i,
    {
        let mut j: usize = i;
        while j > 0 && arr[j - 1] > arr[j]
            invariant
                1 <= i < 9,
                j <= i,
                arr@.to_multiset() =~= a@.to_multiset(),
                forall|p: int, q: int|
                    0 <= p < q <= i && p != j && q != j ==> #[trigger] arr[p] <= #[trigger] arr[q],
                forall|q: int| j < q <= i ==> arr[j as int] <= #[trigger] arr[q],
            decreases j,
        {
            let ghost before = arr@;
            proof {
                lemma_swap_keeps_multiset(before, j - 1, j as int);
            }
            let t = arr[j];
            arr[j] = arr[j - 1];
            arr[j - 1] = t;
            assert(arr@ =~= before.update(j - 1, before[j as int]).update(j as int, before[j - 1]));
            j = j - 1;
        }
        proof {
            assert forall|p: int, q: int| 0 <= p < q <= i implies #[trigger] arr[p]
                <= #[trigger] arr[q] by {
                if p == j as int {
                } else if q == j as int {
                    if p < j - 1 {
                        assert(arr[p] <= arr[j - 1]);
                    }
                }
            }
        }
        i = i + 1;
    }
    arr
}

proof fn lemma_sorted_window_is_sort_by(sorted: Seq<u8>, win: Seq<u8>)
    requires
        sorted_by(sorted, level_le()),
        sorted.to_multiset() == win.to_multiset(),
    ensures
        sorted == win.sort_by(level_le()),
{
    lemma_level_le_total();
    win.lemma_sort_by_ensures(level_le());
    vstd::seq_lib::lemma_sorted_unique(sorted, win.sort_by(level_le()), level_le());
}

/// Median filter: each pixel becomes the median of its 3 x 3 neighbourhood.
pub fn img_median(src: &GrayImage) -> (r: GrayImage)
    ensures
        median_filtered(*src, r),
        gray_dims(*src).0 <= i32::MAX && gray_dims(*src).1 <= i32::MAX ==> forall|x: int, y: int|
            in_grid(x, y, gray_dims(*src).0, gray_dims(*src).1) ==> {
                &&& count_matching(window(*src, x, y), at_most(#[trigger] gray_pixels(r)[(x, y)]))
                    >= 5
                &&& count_matching(window(*src, x, y), at_least(gray_pixels(r)[(x, y)])) >= 5
            },
{
    let (w, h) = src.size();
    let mut dst = GrayImage::new(w, h);
    if w > 0x7fff_ffff || h > 0x7fff_ffff {
        return dst;
    }
    for y in 0..h
        invariant
            (w, h) == gray_dims(*src),
            filterable(*src),
            gray_dims(dst) == (w, h),
            forall|i: int, j: int|
                0 <= i < w && 0 <= j < y ==> #[trigger] gray_pixels(dst)[(i, j)] == median_level(
                    window(*src, i, j),
                ),
    {
        for x in 0..w
            invariant
                (w, h) == gray_dims(*src),
                filterable(*src),
                0 <= y < h,
                gray_dims(dst) == (w, h),
                forall|i: int, j: int|
                    (0 <= i < w && 0 <= j < y) || (0 <= i < x && j == y)
                        ==> #[trigger] gray_pixels(dst)[(i, j)] == median_level(window(*src, i, j)),
        {
            let win = read_window(src, x, y, w, h);
            let sorted = sort9(win);
            proof {
                lemma_sorted_window_is_sort_by(sorted@, win@);
            }
            dst.put_pixel(x, y, sorted[4]);
        }
    }
    proof {
        lemma_median_filter_splits_windows(*src, dst);
    }
    dst
}

} // verus!

verus! {

/// The median filter brings in no new level: the median is one of the nine levels.
pub proof fn lemma_median_is_window_level(win: Seq<u8>)
    requires
        win.len() == 9,
    ensures
        win.contains(median_level(win)),
{
    broadcast use vstd::seq_lib::group_to_multiset_ensures;

    lemma_level_le_total();
    win.lemma_sort_by_ensures(level_le());
    let sorted = win.sort_by(level_le());
    assert(win.to_multiset().len() == 9);
    assert(sorted.to_multiset().len() == sorted.len());
    assert(sorted.len() == 9);
    assert(sorted.contains(sorted[4]));
    assert(sorted.to_multiset().count(sorted[4]) > 0);
}

proof fn lemma_uniform_weighted_sum(win: Seq<u8>, kernel: Seq<u32>, c: u8, n: int)
    requires
        0 <= n <= win.len(),
        n <= kernel.len(),
        forall|i: int| 0 <= i < win.len() ==> #[trigger] win[i] == c,
    ensures
        weighted_sum(win, kernel, n) == c * kernel_total(kernel, n),
    decreases n,
{
    if n > 0 {
        lemma_uniform_weighted_sum(win, kernel, c, n - 1);
        let t = kernel_total(kernel, n - 1);
        let k = kernel[n - 1] as int;
        assert(c * t + k * c == c * (t + k)) by (nonlinear_arith);
    }
}

/// Smoothing an image whose pixels all have level `c` leaves every pixel at `c`.
pub proof fn lemma_smoothing_keeps_uniform_image(
    src: GrayImage,
    kernel: Seq<u32>,
    c: u8,
    r: GrayImage,
)
    requires
        kernel.len() == 9,
        kernel_total(kernel, 9) > 0,
        filterable(src),
        forall|x: int, y: int|
            in_grid(x, y, gray_dims(src).0, gray_dims(src).1) ==> #[trigger] gray_pixels(src)[(
                x,
                y,
            )] == c,
        smoothed(src, kernel, r),
    ensures
        forall|x: int, y: int|
            in_grid(x, y, gray_dims(r).0, gray_dims(r).1) ==> #[trigger] gray_pixels(r)[(x, y)]
                == c,
{
    let (w, h) = gray_dims(src);
    assert forall|x: int, y: int| in_grid(x, y, w, h) implies #[trigger] gray_pixels(r)[(x, y)]
        == c by {
        let win = window(src, x, y);
        assert forall|i: int| 0 <= i < win.len() implies #[trigger] win[i] == c by {
            assert(in_grid(clamp_coord(x - 1, w as int), clamp_coord(y - 1, h as int), w, h));
            assert(in_grid(clamp_coord(x, w as int), clamp_coord(y, h as int), w, h));
            assert(in_grid(clamp_coord(x + 1, w as int), clamp_coord(y + 1, h as int), w, h));
            assert(in_grid(clamp_coord(x - 1, w as int), clamp_coord(y, h as int), w, h));
            assert(in_grid(clamp_coord(x - 1, w as int), clamp_coord(y + 1, h as int), w, h));
            assert(in_grid(clamp_coord(x, w as int), clamp_coord(y - 1, h as int), w, h));
            assert(in_grid(clamp_coord(x, w as int), clamp_coord(y + 1, h as int), w, h));
            assert(in_grid(clamp_coord(x + 1, w as int), clamp_coord(y - 1, h as int), w, h));
            assert(in_grid(clamp_coord(x + 1, w as int), clamp_coord(y, h as int), w, h));
        }
        lemma_uniform_weighted_sum(win, kernel, c, 9);
        let t = kernel_total(kernel, 9);
        assert((2 * (c * t) + t) / (2 * t) == c) by (nonlinear_arith)
            requires
                t > 0,
                0 <= c,
        ;
    }
}

/// Median filtering an image whose pixels all have level `c` leaves every pixel at `c`.
pub proof fn lemma_median_keeps_uniform_image(src: GrayImage, c: u8, r: GrayImage)
    requires
        filterable(src),
        forall|x: int, y: int|
            in_grid(x, y, gray_dims(src).0, gray_dims(src).1) ==> #[trigger] gray_pixels(src)[(
                x,
                y,
            )] == c,
        median_filtered(src, r),
    ensures
        forall|x: int, y: int|
            in_grid(x, y, gray_dims(r).0, gray_dims(r).1) ==> #[trigger] gray_pixels(r)[(x, y)]
                == c,
{
    let (w, h) = gray_dims(src);
    assert forall|x: int, y: int| in_grid(x, y, w, h) implies #[trigger] gray_pixels(r)[(x, y)]
        == c by {
        let win = window(src, x, y);
        assert forall|i: int| 0 <= i < win.len() implies #[trigger] win[i] == c by {
            assert(in_grid(clamp_coord(x - 1, w as int), clamp_coord(y - 1, h as int), w, h));
            assert(in_grid(clamp_coord(x, w as int), clamp_coord(y, h as int), w, h));
            assert(in_grid(clamp_coord(x + 1, w as int), clamp_coord(y + 1, h as int), w, h));
            assert(in_grid(clamp_coord(x - 1, w as int), clamp_coord(y, h as int), w, h));
            assert(in_grid(clamp_coord(x - 1, w as int), clamp_coord(y + 1, h as int), w, h));
            assert(in_grid(clamp_coord(x, w as int), clamp_coord(y - 1, h as int), w, h));
            assert(in_grid(clamp_coord(x, w as int), clamp_coord(y + 1, h as int), w, h));
            assert(in_grid(clamp_coord(x + 1, w as int), clamp_coord(y - 1, h as int), w, h));
            assert(in_grid(clamp_coord(x + 1, w as int), clamp_coord(y, h as int), w, h));
        }
        lemma_median_is_window_level(win);
    }
}

} // verus!

verus! {

/// The levels `a <= v`.
pub open spec fn at_most(v: u8) -> spec_fn(u8) -> bool {
    |a: u8| a <= v
}

/// The levels `a >= v`.
pub open spec fn at_least(v: u8) -> spec_fn(u8) -> bool {
    |a: u8| a >= v
}

/// How many entries of `s` satisfy `p`.
pub open spec fn count_matching(s: Seq<u8>, p: spec_fn(u8) -> bool) -> nat
    decreases s.len(),
{
    if s.len() == 0 {
        0
    } else {
        count_matching(s.drop_last(), p) + if p(s.last()) {
            1nat
        } else {
            0nat
        }
    }
}

proof fn lemma_count_matching_multiset(s: Seq<u8>, p: spec_fn(u8) -> bool)
    ensures
        count_matching(s, p) == s.to_multiset().filter(p).len(),
    decreases s.len(),
{
    broadcast use vstd::seq_lib::group_to_multiset_ensures;
    broadcast use vstd::multiset::group_multiset_axioms;
    broadcast use vstd::multiset::group_multiset_properties;

    if s.len() == 0 {
        assert(s.to_multiset().filter(p) =~= vstd::multiset::Multiset::<u8>::empty());
    } else {
        let t = s.drop_last();
        let a = s.last();
        lemma_count_matching_multiset(t, p);
        assert(s =~= t.push(a));
        let m = t.to_multiset();
        assert(s.to_multiset() =~= m.insert(a));
        if p(a) {
            assert(m.insert(a).filter(p) =~= m.filter(p).insert(a));
        } else {
            assert(m.insert(a).filter(p) =~= m.filter(p));
        }
    }
}

proof fn lemma_count_prefix(s: Seq<u8>, p: spec_fn(u8) -> bool, k: int)
    requires
        0 <= k <= s.len(),
        forall|i: int| 0 <= i < k ==> #[trigger] p(s[i]),
    ensures
        count_matching(s, p) >= k,
    decreases s.len(),
{
    if s.len() > 0 {
        let t = s.drop_last();
        if k == s.len() {
            assert(p(s[k - 1]));
            lemma_count_prefix(t, p, k - 1);
        } else {
            lemma_count_prefix(t, p, k);
        }
    }
}

proof fn lemma_count_suffix(s: Seq<u8>, p: spec_fn(u8) -> bool, j: int)
    requires
        0 <= j <= s.len(),
        forall|i: int| j <= i < s.len() ==> #[trigger] p(s[i]),
    ensures
        count_matching(s, p) >= s.len() - j,
    decreases s.len(),
{
    if s.len() > j {
        let t = s.drop_last();
        assert(p(s[s.len() - 1]));
        lemma_count_suffix(t, p, j);
    }
}

/// The median level of a nine-level window has at least five of the nine levels
/// at or below it and at least five at or above it.
pub proof fn lemma_median_level_splits_window(win: Seq<u8>)
    requires
        win.len() == 9,
    ensures
        count_matching(win, at_most(median_level(win))) >= 5,
        count_matching(win, at_least(median_level(win))) >= 5,
{
    broadcast use vstd::seq_lib::group_to_multiset_ensures;

    lemma_level_le_total();
    win.lemma_sort_by_ensures(level_le());
    let t = win.sort_by(level_le());
    assert(win.to_multiset().len() == 9);
    assert(t.to_multiset().len() == t.len());
    assert(t.len() == 9);
    let m = t[4];
    assert forall|i: int| 0 <= i < 5 implies #[trigger] at_most(m)(t[i]) by {
        if i < 4 {
            assert(level_le()(t[i], t[4]));
        }
    }
    assert forall|i: int| 4 <= i < 9 implies #[trigger] at_least(m)(t[i]) by {
        if i > 4 {
            assert(level_le()(t[4], t[i]));
        }
    }
    lemma_count_prefix(t, at_most(m), 5);
    lemma_count_suffix(t, at_least(m), 4);
    lemma_count_matching_multiset(t, at_most(m));
    lemma_count_matching_multiset(win, at_most(m));
    lemma_count_matching_multiset(t, at_least(m));
    lemma_count_matching_multiset(win, at_least(m));
}

/// Every pixel of the median-filtered image is a median of its nine
/// border-replicated neighbours: at least five of them are at or below it and at
/// least five at or above it.
pub proof fn lemma_median_filter_splits_windows(src: GrayImage, r: GrayImage)
    requires
        filterable(src),
        median_filtered(src, r),
    ensures
        forall|x: int, y: int|
            in_grid(x, y, gray_dims(src).0, gray_dims(src).1) ==> {
                &&& count_matching(window(src, x, y), at_most(#[trigger] gray_pixels(r)[(x, y)]))
                    >= 5
                &&& count_matching(window(src, x, y), at_least(gray_pixels(r)[(x, y)])) >= 5
            },
{
    let (w, h) = gray_dims(src);
    assert forall|x: int, y: int| in_grid(x, y, w, h) implies {
        &&& count_matching(window(src, x, y), at_most(#[trigger] gray_pixels(r)[(x, y)])) >= 5
        &&& count_matching(window(src, x, y), at_least(gray_pixels(r)[(x, y)])) >= 5
    } by {
        lemma_median_level_splits_window(window(src, x, y));
    }
}

} // verus!

verus! {

proof fn lemma_rounded_quotient(s: int, t: int)
    requires
        t > 0,
    ensures
        -t < 2 * t * ((2 * s + t) / (2 * t)) - 2 * s <= t,
{
    let d = 2 * t;
    let q = (2 * s + t) / d;
    vstd::arithmetic::div_mod::lemma_fundamental_div_mod(2 * s + t, d);
    let rem = (2 * s + t) % d;
    assert(0 <= rem < d);
    assert(d * q == 2 * t * q) by (nonlinear_arith)
        requires
            d == 2 * t,
    ;
}

/// Every pixel of a smoothed image is the kernel-weighted sum `S` of its nine
/// border-replicated neighbours divided by the kernel total `T`, rounded to the
/// nearest level (halves up): `-T < 2 * T * out - 2 * S <= T`.
pub proof fn lemma_smoothing_rounds_weighted_mean(src: GrayImage, kernel: Seq<u32>, r: GrayImage)
    requires
        kernel.len() == 9,
        kernel_total(kernel, 9) > 0,
        filterable(src),
        smoothed(src, kernel, r),
    ensures
        forall|x: int, y: int|
            in_grid(x, y, gray_dims(src).0, gray_dims(src).1) ==> {
                let t = kernel_total(kernel, 9);
                let s = weighted_sum(window(src, x, y), kernel, 9);
                let out = #[trigger] gray_pixels(r)[(x, y)] as int;
                -t < 2 * t * out - 2 * s <= t
            },
{
    let (w, h) = gray_dims(src);
    assert forall|x: int, y: int| in_grid(x, y, w, h) implies {
        let t = kernel_total(kernel, 9);
        let s = weighted_sum(window(src, x, y), kernel, 9);
        let out = #[trigger] gray_pixels(r)[(x, y)] as int;
        -t < 2 * t * out - 2 * s <= t
    } by {
        lemma_rounded_quotient(weighted_sum(window(src, x, y), kernel, 9), kernel_total(kernel, 9));
    }
}

proof fn lemma_weighted_sum_nine(win: Seq<u8>, k: Seq<u32>)
    ensures
        weighted_sum(win, k, 9) == k[0] * win[0] + k[1] * win[1] + k[2] * win[2] + k[3] * win[3]
            + k[4] * win[4] + k[5] * win[5] + k[6] * win[6] + k[7] * win[7] + k[8] * win[8],
{
    reveal_with_fuel(weighted_sum, 10);
}

/// The sum of the nine levels of a window.
pub open spec fn window_sum(win: Seq<u8>) -> int {
    win[0] + win[1] + win[2] + win[3] + win[4] + win[5] + win[6] + win[7] + win[8]
}

/// The Gaussian-weighted sum `[1 2 1; 2 4 2; 1 2 1]` of the nine levels of a window.
pub open spec fn window_gaussian_sum(win: Seq<u8>) -> int {
    win[0] + 2 * win[1] + win[2] + 2 * win[3] + 4 * win[4] + 2 * win[5] + win[6] + 2 * win[7]
        + win[8]
}

/// Mean smoothing gives each pixel the mean of its nine neighbours rounded to
/// the nearest level: `|9 * out - sum| <= 4`.
pub proof fn lemma_mean_filter_is_rounded_mean(src: GrayImage, r: GrayImage)
    requires
        filterable(src),
        smoothed(src, mean_kernel(), r),
    ensures
        forall|x: int, y: int|
            in_grid(x, y, gray_dims(src).0, gray_dims(src).1) ==> -4 <= 9 * (#[trigger] gray_pixels(
                r,
            )[(x, y)]) - window_sum(window(src, x, y)) <= 4,
{
    let k = mean_kernel();
    assert(kernel_total(k, 9) == 9) by {
        reveal_with_fuel(kernel_total, 10);
    }
    lemma_smoothing_rounds_weighted_mean(src, k, r);
    let (w, h) = gray_dims(src);
    assert forall|x: int, y: int| in_grid(x, y, w, h) implies -4 <= 9 * (#[trigger] gray_pixels(
        r,
    )[(x, y)]) - window_sum(window(src, x, y)) <= 4 by {
        let win = window(src, x, y);
        assert(weighted_sum(win, k, 9) == window_sum(win)) by {
            lemma_weighted_sum_nine(win, k);
            assert(k[0] == 1 && k[1] == 1 && k[2] == 1 && k[3] == 1 && k[4] == 1);
            assert(k[5] == 1 && k[6] == 1 && k[7] == 1 && k[8] == 1);
        }
    }
}

/// Gaussian smoothing gives each pixel the weighted sum of its nine neighbours
/// divided by 16, rounded to the nearest level with halves up:
/// `-8 < 16 * out - sum <= 8`.
pub proof fn lemma_gaussian_filter_is_rounded_mean(src: GrayImage, r: GrayImage)
    requires
        filterable(src),
        smoothed(src, gaussian_kernel(), r),
    ensures
        forall|x: int, y: int|
            in_grid(x, y, gray_dims(src).0, gray_dims(src).1) ==> -8 < 16 * (
            #[trigger] gray_pixels(r)[(x, y)]) - window_gaussian_sum(window(src, x, y)) <= 8,
{
    let k = gaussian_kernel();
    assert(kernel_total(k, 9) == 16) by {
        reveal_with_fuel(kernel_total, 10);
    }
    lemma_smoothing_rounds_weighted_mean(src, k, r);
    let (w, h) = gray_dims(src);
    assert forall|x: int, y: int| in_grid(x, y, w, h) implies -8 < 16 * (
    #[trigger] gray_pixels(r)[(x, y)]) - window_gaussian_sum(window(src, x, y)) <= 8 by {
        let win = window(src, x, y);
        assert(weighted_sum(win, k, 9) == window_gaussian_sum(win)) by {
            lemma_weighted_sum_nine(win, k);
            assert(k[0] == 1 && k[1] == 2 && k[2] == 1 && k[3] == 2 && k[4] == 4);
            assert(k[5] == 2 && k[6] == 1 && k[7] == 2 && k[8] == 1);
        }
    }
}

} // verus!

verus! {

/// The window of `(x, y)` lists its nine neighbours row by row, position
/// `3 * (dy + 1) + (dx + 1)` holding the pixel at `(x + dx, y + dy)`, with
/// coordinates outside the image replaced by the nearest border coordinate.
pub proof fn lemma_window_replicates_border(img: GrayImage, x: int, y: int)
    requires
        in_grid(x, y, gray_dims(img).0, gray_dims(img).1),
    ensures
        window(img, x, y).len() == 9,
        forall|dx: int, dy: int|
            -1 <= dx <= 1 && -1 <= dy <= 1 ==> #[trigger] window(img, x, y)[3 * (dy + 1) + (dx
                + 1)] == gray_pixels(img)[(
                if x + dx < 0 {
                    0
                } else if x + dx >= gray_dims(img).0 {
                    gray_dims(img).0 - 1
                } else {
                    x + dx
                },
                if y + dy < 0 {
                    0
                } else if y + dy >= gray_dims(img).1 {
                    gray_dims(img).1 - 1
                } else {
                    y + dy
                },
            )],
{
    let win = window(img, x, y);
    assert forall|dx: int, dy: int| -1 <= dx <= 1 && -1 <= dy <= 1 implies #[trigger] win[3 * (dy
        + 1) + (dx + 1)] == gray_pixels(img)[(
        if x + dx < 0 {
            0
        } else if x + dx >= gray_dims(img).0 {
            gray_dims(img).0 - 1
        } else {
            x + dx
        },
        if y + dy < 0 {
            0
        } else if y + dy >= gray_dims(img).1 {
            gray_dims(img).1 - 1
        } else {
            y + dy
        },
    )] by {
        assert(win[3 * (dy + 1) + (dx + 1)] == neighbour(img, x, y, dx, dy)) by {
            if dy == -1 {
                if dx == -1 {
                } else if dx == 0 {
                } else {
                }
            } else if dy == 0 {
                if dx == -1 {
                } else if dx == 0 {
                } else {
                }
            } else {
                if dx == -1 {
                } else if dx == 0 {
                } else {
                }
            }
        }
    }
}

} // verus!
