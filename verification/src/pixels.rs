//! Pixel-level operations on whole images: validity, reading and writing one
//! pixel, blank images, colour/binary tests and nearest-neighbour resampling.

use crate::buffers::{
    gray_dims, gray_pixels, in_grid, rgb_dims, rgb_pixels, rgb_same, GrayImage, RgbImage,
};
use vstd::prelude::*;

verus! {

/// An image is valid when it has at least one row and one column.
pub fn check_valid(img: &RgbImage) -> (r: bool)
    ensures
        r == (rgb_dims(*img).0 > 0 && rgb_dims(*img).1 > 0),
{
    let (w, h) = img.size();
    w > 0 && h > 0
}

/// The pixel at row `row`, column `col`, or `None` outside the image.
pub open spec fn pixel_at(img: RgbImage, row: int, col: int) -> Option<[u8; 3]> {
    if 0 <= row < rgb_dims(img).1 && 0 <= col < rgb_dims(img).0 {
        Some(rgb_pixels(img)[(col, row)])
    } else {
        None
    }
}

/// The pixel at row `row`, column `col`, or `None` outside the image.
pub fn get_pixel_value(img: &RgbImage, row: u32, col: u32) -> (r: Option<[u8; 3]>)
    ensures
        r == pixel_at(*img, row as int, col as int),
{
    let (w, h) = img.size();
    if row >= h || col >= w {
        return None;
    }
    Some(img.get_pixel(col, row))
}

/// `after` is `before` with `value` written at row `row`, column `col` when that
/// position lies inside the image (`written`), and `before` unchanged otherwise.
pub open spec fn pixel_written(
    before: RgbImage,
    row: int,
    col: int,
    value: [u8; 3],
    after: RgbImage,
    written: bool,
) -> bool {
    &&& written == (0 <= row < rgb_dims(before).1 && 0 <= col < rgb_dims(before).0)
    &&& rgb_dims(after) == rgb_dims(before)
    &&& rgb_pixels(after) == if written {
        rgb_pixels(before).insert((col, row), value)
    } else {
        rgb_pixels(before)
    }
}

/// Writes `value` at row `row`, column `col`; returns whether the position
/// lies inside the image (outside it nothing changes).
pub fn set_pixel_value(img: &mut RgbImage, row: u32, col: u32, value: [u8; 3]) -> (r: bool)
    ensures
        pixel_written(*old(img), row as int, col as int, value, *final(img), r),
{
    let (w, h) = img.size();
    if row >= h || col >= w {
        return false;
    }
    img.put_pixel(col, row, value);
    true
}

/// `r` is a `width` x `height` image whose every pixel is `color`.
pub open spec fn filled_with(r: RgbImage, width: u32, height: u32, color: [u8; 3]) -> bool {
    &&& rgb_dims(r) == (width, height)
    &&& forall|x: int, y: int|
        in_grid(x, y, width, height) ==> #[trigger] rgb_pixels(r)[(x, y)] == color
}

/// A `width` x `height` image whose every pixel is `color`.
pub fn create_blank_image(width: u32, height: u32, color: [u8; 3]) -> (r: RgbImage)
    requires
        3 * width * height <= isize::MAX,
    ensures
        filled_with(r, width, height, color),
{
    let mut img = RgbImage::new(width, height);
    for y in 0..height
        invariant
            rgb_dims(img) == (width, height),
            forall|i: int, j: int|
                0 <= i < width && 0 <= j < y ==> #[trigger] rgb_pixels(img)[(i, j)] == color,
    {
        for x in 0..width
            invariant
                0 <= y < height,
                rgb_dims(img) == (width, height),
                forall|i: int, j: int|
                    (0 <= i < width && 0 <= j < y) || (0 <= i < x && j == y)
                        ==> #[trigger] rgb_pixels(img)[(i, j)] == color,
        {
            img.put_pixel(x, y, color);
        }
    }
    img
}

/// Every pixel of the image has equal red, green and blue channels.
pub open spec fn is_grayscale_spec(img: RgbImage) -> bool {
    forall|x: int, y: int|
        in_grid(x, y, rgb_dims(img).0, rgb_dims(img).1) ==> {
            let p = #[trigger] rgb_pixels(img)[(x, y)];
            p[0] == p[1] && p[1] == p[2]
        }
}

/// Whether every pixel has equal red, green and blue channels.
pub fn is_grayscale(img: &RgbImage) -> (r: bool)
    ensures
        r == is_grayscale_spec(*img),
{
    let (w, h) = img.size();
    for y in 0..h
        invariant
            (w, h) == rgb_dims(*img),
            forall|i: int, j: int|
                0 <= i < w && 0 <= j < y ==> {
                    let p = #[trigger] rgb_pixels(*img)[(i, j)];
                    p[0] == p[1] && p[1] == p[2]
                },
    {
        for x in 0..w
            invariant
                (w, h) == rgb_dims(*img),
                0 <= y < h,
                forall|i: int, j: int|
                    (0 <= i < w && 0 <= j < y) || (0 <= i < x && j == y) ==> {
                        let p = #[trigger] rgb_pixels(*img)[(i, j)];
                        p[0] == p[1] && p[1] == p[2]
                    },
        {
            let p = img.get_pixel(x, y);
            if !(p[0] == p[1] && p[1] == p[2]) {
                return false;
            }
        }
    }
    true
}

/// Every pixel of the grey-level image is 0 or 255.
pub open spec fn is_binary_spec(img: GrayImage) -> bool {
    forall|x: int, y: int|
        in_grid(x, y, gray_dims(img).0, gray_dims(img).1) ==> {
            let v = #[trigger] gray_pixels(img)[(x, y)];
            v == 0 || v == 255
        }
}

/// Whether every grey level of the image is 0 or 255.
pub fn is_binary(img: &GrayImage) -> (r: bool)
    ensures
        r == is_binary_spec(*img),
{
    let (w, h) = img.size();
    for y in 0..h
        invariant
            (w, h) == gray_dims(*img),
            forall|i: int, j: int|
                0 <= i < w && 0 <= j < y ==> {
                    let v = #[trigger] gray_pixels(*img)[(i, j)];
                    v == 0 || v == 255
                },
    {
        for x in 0..w
            invariant
                (w, h) == gray_dims(*img),
                0 <= y < h,
                forall|i: int, j: int|
                    (0 <= i < w && 0 <= j < y) || (0 <= i < x && j == y) ==> {
                        let v = #[trigger] gray_pixels(*img)[(i, j)];
                        v == 0 || v == 255
                    },
        {
            let v = img.get_pixel(x, y);
            if !(v == 0 || v == 255) {
                return false;
            }
        }
    }
    true
}

} // verus!

verus! {

/// The source index a nearest-neighbour sample `i` stands for in a source
/// dimension of `n`: `i` itself, kept below `n` (as `min(i, n.saturating_sub(1))`).
pub open spec fn clamp_index(i: u32, n: u32) -> u32 {
    if n == 0 {
        0
    } else if i < n {
        i
    } else {
        (n - 1) as u32
    }
}

/// `r` is the `width` x `height` resampling of `src` in which column `x` is
/// taken from source column `clamp_index(cols[x])` and row `y` from source row
/// `clamp_index(rows[y])`.
pub open spec fn resampled(
    src: RgbImage,
    width: u32,
    height: u32,
    cols: Seq<u32>,
    rows: Seq<u32>,
    r: RgbImage,
) -> bool {
    &&& rgb_dims(r) == (width, height)
    &&& forall|x: int, y: int|
        in_grid(x, y, width, height) ==> #[trigger] rgb_pixels(r)[(x, y)] == rgb_pixels(src)[(
            clamp_index(cols[x], rgb_dims(src).0) as int,
            clamp_index(rows[y], rgb_dims(src).1) as int,
        )]
}

/// Nearest-neighbour resampling of `src` to `width` x `height`, given for each
/// destination column and row the source column and row it samples.
/// Indices past the source's last column or row are kept at that last one.
pub fn resample_nearest(
    src: &RgbImage,
    width: u32,
    height: u32,
    src_cols: &Vec<u32>,
    src_rows: &Vec<u32>,
) -> (r: RgbImage)
    requires
        src_cols@.len() == width,
        src_rows@.len() == height,
        3 * width * height <= isize::MAX,
        width > 0 && height > 0 ==> rgb_dims(*src).0 > 0 && rgb_dims(*src).1 > 0,
    ensures
        resampled(*src, width, height, src_cols@, src_rows@, r),
{
    let (sw, sh) = src.size();
    let mut dst = RgbImage::new(width, height);
    for y in 0..height
        invariant
            (sw, sh) == rgb_dims(*src),
            src_cols@.len() == width,
            src_rows@.len() == height,
            width > 0 && height > 0 ==> sw > 0 && sh > 0,
            rgb_dims(dst) == (width, height),
            forall|i: int, j: int|
                0 <= i < width && 0 <= j < y ==> #[trigger] rgb_pixels(dst)[(i, j)]
                    == rgb_pixels(*src)[(
                    clamp_index(src_cols@[i], sw) as int,
                    clamp_index(src_rows@[j], sh) as int,
                )],
    {
        for x in 0..width
            invariant
                (sw, sh) == rgb_dims(*src),
                src_cols@.len() == width,
                src_rows@.len() == height,
                width > 0 && height > 0 ==> sw > 0 && sh > 0,
                0 <= y < height,
                rgb_dims(dst) == (width, height),
                forall|i: int, j: int|
                    (0 <= i < width && 0 <= j < y) || (0 <= i < x && j == y)
                        ==> #[trigger] rgb_pixels(dst)[(i, j)] == rgb_pixels(*src)[(
                        clamp_index(src_cols@[i], sw) as int,
                        clamp_index(src_rows@[j], sh) as int,
                    )],
        {
            let src_x = if src_cols[x as usize] < sw {
                src_cols[x as usize]
            } else {
                sw - 1
            };
            let src_y = if src_rows[y as usize] < sh {
                src_rows[y as usize]
            } else {
                sh - 1
            };
            let pixel = src.get_pixel(src_x, src_y);
            dst.put_pixel(x, y, pixel);
        }
    }
    dst
}

} // verus!

verus! {

/// Reading a pixel just written gives back the value written, and every other
/// pixel reads as before.
pub proof fn lemma_read_after_write(
    before: RgbImage,
    row: int,
    col: int,
    value: [u8; 3],
    after: RgbImage,
    written: bool,
)
    requires
        pixel_written(before, row, col, value, after, written),
    ensures
        pixel_at(after, row, col) == if written {
            Some(value)
        } else {
            None
        },
        forall|r: int, c: int|
            (r, c) != (row, col) ==> #[trigger] pixel_at(after, r, c) == pixel_at(before, r, c),
{
}

/// An image filled with a colour whose three channels are equal is grey.
pub proof fn lemma_grey_fill_is_grayscale(r: RgbImage, width: u32, height: u32, color: [u8; 3])
    requires
        filled_with(r, width, height, color),
        color[0] == color[1] && color[1] == color[2],
    ensures
        is_grayscale_spec(r),
{
}

/// Resampling to the source's own size with every column and row sampling
/// itself gives back the source image.
pub proof fn lemma_resample_identity(src: RgbImage, cols: Seq<u32>, rows: Seq<u32>, r: RgbImage)
    requires
        cols.len() == rgb_dims(src).0,
        rows.len() == rgb_dims(src).1,
        forall|i: int| 0 <= i < cols.len() ==> #[trigger] cols[i] == i,
        forall|j: int| 0 <= j < rows.len() ==> #[trigger] rows[j] == j,
        resampled(src, rgb_dims(src).0, rgb_dims(src).1, cols, rows, r),
    ensures
        rgb_same(r, src),
{
    let (w, h) = rgb_dims(src);
    assert forall|x: int, y: int| in_grid(x, y, w, h) implies #[trigger] rgb_pixels(r)[(x, y)]
        == rgb_pixels(src)[(x, y)] by {
        assert(cols[x] == x);
        assert(rows[y] == y);
    }
}

} // verus!

verus! {

/// Nearest-neighbour resampling takes column `x` from source column `cols[x]`,
/// or from the last source column when `cols[x]` lies beyond it (rows alike).
pub proof fn lemma_resample_clamps(
    src: RgbImage,
    width: u32,
    height: u32,
    cols: Seq<u32>,
    rows: Seq<u32>,
    r: RgbImage,
)
    requires
        resampled(src, width, height, cols, rows, r),
        width > 0 && height > 0 ==> rgb_dims(src).0 > 0 && rgb_dims(src).1 > 0,
    ensures
        forall|x: int, y: int|
            in_grid(x, y, width, height) ==> #[trigger] rgb_pixels(r)[(x, y)] == rgb_pixels(src)[(
                if cols[x] < rgb_dims(src).0 {
                    cols[x] as int
                } else {
                    rgb_dims(src).0 - 1
                },
                if rows[y] < rgb_dims(src).1 {
                    rows[y] as int
                } else {
                    rgb_dims(src).1 - 1
                },
            )],
{
}

/// A pixel read with `get_pixel_value(img, row, col)` is the one stored at
/// position `row * width + col` of the image's row-major samples.
pub proof fn lemma_pixel_value_reads_samples(img: RgbImage, data: Seq<u8>, row: int, col: int)
    requires
        crate::buffers::rgb_holds_samples(img, data),
        0 <= row < rgb_dims(img).1,
        0 <= col < rgb_dims(img).0,
    ensures
        pixel_at(img, row, col) == Some(
            [
                data[3 * (row * rgb_dims(img).0 + col)],
                data[3 * (row * rgb_dims(img).0 + col) + 1],
                data[3 * (row * rgb_dims(img).0 + col) + 2],
            ],
        ),
{
    assert(in_grid(col, row, rgb_dims(img).0, rgb_dims(img).1));
}

/// A write inside the image stores the value at column `col` of row `row`, and
/// every other pixel keeps its value.
pub proof fn lemma_write_lands_at_column_and_row(
    before: RgbImage,
    row: int,
    col: int,
    value: [u8; 3],
    after: RgbImage,
    written: bool,
)
    requires
        pixel_written(before, row, col, value, after, written),
        0 <= row < rgb_dims(before).1,
        0 <= col < rgb_dims(before).0,
    ensures
        written,
        rgb_pixels(after)[(col, row)] == value,
        forall|x: int, y: int|
            (x, y) != (col, row) ==> #[trigger] rgb_pixels(after)[(x, y)] == rgb_pixels(before)[(
                x,
                y,
            )],
{
}

} // verus!

verus! {

/// Every pixel of a blank image has the requested colour.
pub proof fn lemma_blank_pixels(r: RgbImage, width: u32, height: u32, color: [u8; 3])
    requires
        filled_with(r, width, height, color),
    ensures
        rgb_dims(r).0 == width,
        rgb_dims(r).1 == height,
        forall|x: int, y: int|
            0 <= x < width && 0 <= y < height ==> {
                let p = #[trigger] rgb_pixels(r)[(x, y)];
                p[0] == color[0] && p[1] == color[1] && p[2] == color[2]
            },
{
}

/// An image is grayscale exactly when no pixel has a red, green or blue channel
/// that differs from the others; a single differing pixel makes it colour.
pub proof fn lemma_grayscale_test(img: RgbImage, x: int, y: int)
    requires
        in_grid(x, y, rgb_dims(img).0, rgb_dims(img).1),
        rgb_pixels(img)[(x, y)][0] != rgb_pixels(img)[(x, y)][1] || rgb_pixels(img)[(x, y)][1]
            != rgb_pixels(img)[(x, y)][2],
    ensures
        !is_grayscale_spec(img),
{
}

/// A grey-level image is binary exactly when no pixel has a level other than 0
/// and 255; a single other level makes it non-binary.
pub proof fn lemma_binary_test(img: GrayImage, x: int, y: int)
    requires
        in_grid(x, y, gray_dims(img).0, gray_dims(img).1),
        gray_pixels(img)[(x, y)] != 0,
        gray_pixels(img)[(x, y)] != 255,
    ensures
        !is_binary_spec(img),
{
}

} // verus!
