//! Point operations: every output pixel depends only on the input pixel at the
//! same place, through a look-up table or a threshold.

use crate::buffers::{
    gray_dims, gray_pixels, gray_same, in_grid, rgb_dims, rgb_pixels, GrayImage, RgbImage,
};
use crate::pixels::{is_binary_spec, is_grayscale_spec};
use vstd::prelude::*;

verus! {

/// `r` is `src` with every grey level `v` replaced by `lut[v]`.
pub open spec fn gray_lut_applied(src: GrayImage, lut: Seq<u8>, r: GrayImage) -> bool {
    let (w, h) = gray_dims(src);
    &&& gray_dims(r) == (w, h)
    &&& forall|x: int, y: int|
        in_grid(x, y, w, h) ==> #[trigger] gray_pixels(r)[(x, y)] == lut[gray_pixels(src)[(
            x,
            y,
        )] as int]
}

/// Maps every grey level of the image through the table `lut`.
pub fn apply_gray_lut(src: &GrayImage, lut: &[u8; 256]) -> (r: GrayImage)
    ensures
        gray_lut_applied(*src, lut@, r),
{
    let (w, h) = src.size();
    let mut dst = GrayImage::new(w, h);
    for y in 0..h
        invariant
            (w, h) == gray_dims(*src),
            gray_dims(dst) == (w, h),
            forall|i: int, j: int|
                0 <= i < w && 0 <= j < y ==> #[trigger] gray_pixels(dst)[(i, j)]
                    == lut@[gray_pixels(*src)[(i, j)] as int],
    {
        for x in 0..w
            invariant
                (w, h) == gray_dims(*src),
                0 <= y < h,
                gray_dims(dst) == (w, h),
                forall|i: int, j: int|
                    (0 <= i < w && 0 <= j < y) || (0 <= i < x && j == y)
                        ==> #[trigger] gray_pixels(dst)[(i, j)] == lut@[gray_pixels(*src)[(
                        i,
                        j,
                    )] as int],
        {
            let value = src.get_pixel(x, y);
            dst.put_pixel(x, y, lut[value as usize]);
        }
    }
    dst
}

/// The pixel `p` with each channel `c` replaced by `lut[c]`.
pub open spec fn lut_pixel(lut: Seq<u8>, p: [u8; 3]) -> [u8; 3] {
    [lut[p[0] as int], lut[p[1] as int], lut[p[2] as int]]
}

/// `r` is `src` with every channel value `c` of every pixel replaced by `lut[c]`.
pub open spec fn rgb_lut_applied(src: RgbImage, lut: Seq<u8>, r: RgbImage) -> bool {
    let (w, h) = rgb_dims(src);
    &&& rgb_dims(r) == (w, h)
    &&& forall|x: int, y: int|
        in_grid(x, y, w, h) ==> #[trigger] rgb_pixels(r)[(x, y)] == lut_pixel(
            lut,
            rgb_pixels(src)[(x, y)],
        )
}

/// Maps the red, green and blue channel of every pixel through the table `lut`.
pub fn apply_rgb_lut(src: &RgbImage, lut: &[u8; 256]) -> (r: RgbImage)
    ensures
        rgb_lut_applied(*src, lut@, r),
{
    let (w, h) = src.size();
    let mut dst = RgbImage::new(w, h);
    for y in 0..h
        invariant
            (w, h) == rgb_dims(*src),
            rgb_dims(dst) == (w, h),
            forall|i: int, j: int|
                0 <= i < w && 0 <= j < y ==> #[trigger] rgb_pixels(dst)[(i, j)] == lut_pixel(
                    lut@,
                    rgb_pixels(*src)[(i, j)],
                ),
    {
        for x in 0..w
            invariant
                (w, h) == rgb_dims(*src),
                0 <= y < h,
                rgb_dims(dst) == (w, h),
                forall|i: int, j: int|
                    (0 <= i < w && 0 <= j < y) || (0 <= i < x && j == y)
                        ==> #[trigger] rgb_pixels(dst)[(i, j)] == lut_pixel(
                        lut@,
                        rgb_pixels(*src)[(i, j)],
                    ),
        {
            let p = src.get_pixel(x, y);
            let q = [lut[p[0] as usize], lut[p[1] as usize], lut[p[2] as usize]];
            assert(q == lut_pixel(lut@, p));
            dst.put_pixel(x, y, q);
        }
    }
    dst
}

/// The binarised level of `v` against `threshold`: with `type_flag` 1 levels
/// above the threshold become 0 and the others 255; with any other flag levels
/// above the threshold become 255 and the others 0.
pub open spec fn threshold_level(v: u8, threshold: u8, type_flag: u8) -> u8 {
    if type_flag == 1 {
        if v > threshold {
            0
        } else {
            255
        }
    } else {
        if v > threshold {
            255
        } else {
            0
        }
    }
}

/// `r` is `src` binarised against `threshold` as `threshold_level` says.
pub open spec fn thresholded(src: GrayImage, threshold: u8, type_flag: u8, r: GrayImage) -> bool {
    let (w, h) = gray_dims(src);
    &&& gray_dims(r) == (w, h)
    &&& forall|x: int, y: int|
        in_grid(x, y, w, h) ==> #[trigger] gray_pixels(r)[(x, y)] == threshold_level(
            gray_pixels(src)[(x, y)],
            threshold,
            type_flag,
        )
}

/// `r` has the size of `src`, and each of its pixels is 255 or 0 according to
/// whether the source level is above `threshold`: with `type_flag` 1 a level above
/// the threshold gives 0 and any other level 255; with any other flag a level above
/// the threshold gives 255 and any other level 0.
pub open spec fn splits_at_threshold(src: GrayImage, threshold: u8, type_flag: u8, r: GrayImage) -> bool {
    let (w, h) = gray_dims(src);
    &&& gray_dims(r) == (w, h)
    &&& forall|x: int, y: int|
        in_grid(x, y, w, h) ==> {
            let v = gray_pixels(src)[(x, y)];
            let out = #[trigger] gray_pixels(r)[(x, y)];
            &&& out == 0 || out == 255
            &&& type_flag == 1 ==> (out == 0 <==> v > threshold)
            &&& type_flag != 1 ==> (out == 255 <==> v > threshold)
        }
}

/// A thresholded pixel is white (plain) or black (inverted) exactly when its
/// source level is above the threshold, for every threshold and level.
pub proof fn lemma_threshold_compares(src: GrayImage, threshold: u8, type_flag: u8, r: GrayImage)
    requires
        thresholded(src, threshold, type_flag, r),
    ensures
        splits_at_threshold(src, threshold, type_flag, r),
{
}

/// Binarises a grey-level image: `type_flag` 1 gives the inverted binary image,
/// any other flag the plain one (levels above `threshold` become white).
pub fn apply_threshold(src: &GrayImage, threshold: u8, type_flag: u8) -> (r: GrayImage)
    ensures
        thresholded(*src, threshold, type_flag, r),
        splits_at_threshold(*src, threshold, type_flag, r),
{
    let (w, h) = src.size();
    let mut dst = GrayImage::new(w, h);
    for y in 0..h
        invariant
            (w, h) == gray_dims(*src),
            gray_dims(dst) == (w, h),
            forall|i: int, j: int|
                0 <= i < w && 0 <= j < y ==> #[trigger] gray_pixels(dst)[(i, j)] == threshold_level(
                    gray_pixels(*src)[(i, j)],
                    threshold,
                    type_flag,
                ),
    {
        for x in 0..w
            invariant
                (w, h) == gray_dims(*src),
                0 <= y < h,
                gray_dims(dst) == (w, h),
                forall|i: int, j: int|
                    (0 <= i < w && 0 <= j < y) || (0 <= i < x && j == y)
                        ==> #[trigger] gray_pixels(dst)[(i, j)] == threshold_level(
                        gray_pixels(*src)[(i, j)],
                        threshold,
                        type_flag,
                    ),
        {
            let value = src.get_pixel(x, y);
            let out: u8 = if type_flag == 1 {
                if value > threshold {
                    0
                } else {
                    255
                }
            } else {
                if value > threshold {
                    255
                } else {
                    0
                }
            };
            dst.put_pixel(x, y, out);
        }
    }
    proof {
        lemma_threshold_compares(*src, threshold, type_flag, dst);
    }
    dst
}

/// A thresholded image is binary: every level is 0 or 255.
pub proof fn lemma_threshold_is_binary(src: GrayImage, threshold: u8, type_flag: u8, r: GrayImage)
    requires
        thresholded(src, threshold, type_flag, r),
    ensures
        is_binary_spec(r),
{
}

/// Mapping through the identity table leaves the image unchanged.
pub proof fn lemma_identity_lut(src: GrayImage, lut: Seq<u8>, r: GrayImage)
    requires
        lut.len() == 256,
        forall|v: int| 0 <= v < 256 ==> #[trigger] lut[v] == v,
        gray_lut_applied(src, lut, r),
    ensures
        gray_same(r, src),
{
}

/// Mapping the three channels through one table keeps a grey image grey.
pub proof fn lemma_lut_keeps_grayscale(src: RgbImage, lut: Seq<u8>, r: RgbImage)
    requires
        is_grayscale_spec(src),
        rgb_lut_applied(src, lut, r),
    ensures
        is_grayscale_spec(r),
{
    let (w, h) = rgb_dims(src);
    assert forall|x: int, y: int| in_grid(x, y, w, h) implies {
        let p = #[trigger] rgb_pixels(r)[(x, y)];
        p[0] == p[1] && p[1] == p[2]
    } by {
        let q = rgb_pixels(src)[(x, y)];
        assert(q[0] == q[1] && q[1] == q[2]);
    }
}

} // verus!

verus! {

/// Mapping through a table changes each channel of each pixel on its own: the
/// red, green and blue of the output pixel are `lut` of the source's red, green
/// and blue.
pub proof fn lemma_rgb_lut_per_channel(src: RgbImage, lut: Seq<u8>, r: RgbImage)
    requires
        rgb_lut_applied(src, lut, r),
    ensures
        forall|x: int, y: int|
            in_grid(x, y, rgb_dims(src).0, rgb_dims(src).1) ==> {
                let p = rgb_pixels(src)[(x, y)];
                let q = #[trigger] rgb_pixels(r)[(x, y)];
                &&& q[0] == lut[p[0] as int]
                &&& q[1] == lut[p[1] as int]
                &&& q[2] == lut[p[2] as int]
            },
{
}

} // verus!

verus! {

/// Mapping through a table replaces each grey level `v` by `lut[v]`.
pub proof fn lemma_gray_lut_per_pixel(src: GrayImage, lut: Seq<u8>, r: GrayImage)
    requires
        gray_lut_applied(src, lut, r),
    ensures
        gray_dims(r) == gray_dims(src),
        forall|x: int, y: int|
            0 <= x < gray_dims(src).0 && 0 <= y < gray_dims(src).1 ==> #[trigger] gray_pixels(r)[(
                x,
                y,
            )] == lut[gray_pixels(src)[(x, y)] as int],
{
}

} // verus!
