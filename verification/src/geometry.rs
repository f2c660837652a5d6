//! Geometric transforms that move pixels without changing them: shifting,
//! flipping and transposition.

use crate::buffers::{in_grid, rgb_dims, rgb_pixels, rgb_same, RgbImage};
use vstd::prelude::*;

verus! {

/// Largest value that a coordinate `0 <= c < n` takes once converted with `as i32`.
pub open spec fn highest_as_i32(n: u32) -> int {
    if n - 1 <= i32::MAX {
        n - 1
    } else {
        i32::MAX as int
    }
}

/// Smallest value that a coordinate `0 <= c < n` takes once converted with `as i32`
/// (coordinates past `i32::MAX` wrap round to negative values).
pub open spec fn lowest_as_i32(n: u32) -> int {
    if n - 1 <= i32::MAX {
        0
    } else {
        i32::MIN as int
    }
}

/// Adding the offset `t` to every coordinate `0 <= c < n` taken `as i32` stays in `i32`.
pub open spec fn offset_fits(n: u32, t: i32) -> bool {
    lowest_as_i32(n) + t >= i32::MIN && highest_as_i32(n) + t <= i32::MAX
}

/// `r` is `src` shifted right by `tx` and down by `ty`; pixels that would come from
/// outside `src` are black. Images wider or taller than `i32::MAX` come out black.
pub open spec fn shifted(src: RgbImage, tx: i32, ty: i32, r: RgbImage) -> bool {
    let (w, h) = rgb_dims(src);
    &&& rgb_dims(r) == (w, h)
    &&& forall|x: int, y: int|
        in_grid(x, y, w, h) ==> #[trigger] rgb_pixels(r)[(x, y)] == if w <= i32::MAX && h
            <= i32::MAX && in_grid(x - tx, y - ty, w, h) {
            rgb_pixels(src)[(x - tx, y - ty)]
        } else {
            [0u8, 0u8, 0u8]
        }
}

/// Shift: moves every pixel by `(tx, ty)`, filling uncovered pixels with black.
pub fn pos_trans(src: &RgbImage, tx: i32, ty: i32) -> (r: RgbImage)
    requires
        rgb_dims(*src).0 > 0 && rgb_dims(*src).1 > 0 ==> offset_fits(rgb_dims(*src).0, tx)
            && offset_fits(rgb_dims(*src).1, ty),
    ensures
        shifted(*src, tx, ty, r),
{
    let (w, h) = src.size();
    let mut dst = RgbImage::new(w, h);
    if w > 0x7fff_ffff || h > 0x7fff_ffff {
        return dst;
    }
    let wi = w as i32;
    let hi = h as i32;
    for y in 0..h
        invariant
            (w, h) == rgb_dims(*src),
            w <= i32::MAX && h <= i32::MAX,
            wi == w,
            hi == h,
            w > 0 && h > 0 ==> offset_fits(w, tx) && offset_fits(h, ty),
            rgb_dims(dst) == (w, h),
            forall|i: int, j: int|
                in_grid(i, j, w, h) ==> #[trigger] rgb_pixels(dst)[(i, j)] == if in_grid(
                    i - tx,
                    j - ty,
                    w,
                    h,
                ) && j - ty < y {
                    rgb_pixels(*src)[(i - tx, j - ty)]
                } else {
                    [0u8, 0u8, 0u8]
                },
    {
        for x in 0..w
            invariant
                (w, h) == rgb_dims(*src),
                w <= i32::MAX && h <= i32::MAX,
                wi == w,
                hi == h,
                0 <= y < h,
                w > 0 ==> offset_fits(w, tx) && offset_fits(h, ty),
                rgb_dims(dst) == (w, h),
                forall|i: int, j: int|
                    in_grid(i, j, w, h) ==> #[trigger] rgb_pixels(dst)[(i, j)] == if in_grid(
                        i - tx,
                        j - ty,
                        w,
                        h,
                    ) && (j - ty < y || (j - ty == y && i - tx < x)) {
                        rgb_pixels(*src)[(i - tx, j - ty)]
                    } else {
                        [0u8, 0u8, 0u8]
                    },
        {
            let target_x = x as i32 + tx;
            let target_y = y as i32 + ty;
            if target_x >= 0 && target_x < wi && target_y >= 0 && target_y < hi {
                let pixel = src.get_pixel(x, y);
                dst.put_pixel(target_x as u32, target_y as u32, pixel);
            }
        }
    }
    dst
}

/// The source coordinate that flipping with `mode` brings to `(x, y)` in a
/// `w` x `h` image: mode 0 flips vertically, -1 both ways, any other horizontally.
pub open spec fn flip_source(mode: i8, x: int, y: int, w: int, h: int) -> (int, int) {
    if mode == 0 {
        (x, h - 1 - y)
    } else if mode == -1 {
        (w - 1 - x, h - 1 - y)
    } else {
        (w - 1 - x, y)
    }
}

/// `r` is `src` flipped with `mode`.
pub open spec fn flipped(src: RgbImage, mode: i8, r: RgbImage) -> bool {
    let (w, h) = rgb_dims(src);
    &&& rgb_dims(r) == (w, h)
    &&& forall|x: int, y: int|
        in_grid(x, y, w, h) ==> #[trigger] rgb_pixels(r)[(x, y)] == rgb_pixels(src)[flip_source(
            mode,
            x,
            y,
            w as int,
            h as int,
        )]
}

/// `r` has the size of `src`; with `mode` 0 its pixel `(x, y)` is the source
/// pixel `(x, h - 1 - y)`, with mode -1 the source pixel `(w - 1 - x, h - 1 - y)`,
/// and with any other mode the source pixel `(w - 1 - x, y)`.
pub open spec fn mirrored(src: RgbImage, mode: i8, r: RgbImage) -> bool {
    let (w, h) = rgb_dims(src);
    &&& rgb_dims(r) == (w, h)
    &&& forall|x: int, y: int|
        in_grid(x, y, w, h) ==> {
            &&& mode == 0 ==> #[trigger] rgb_pixels(r)[(x, y)] == rgb_pixels(src)[(x, h - 1 - y)]
            &&& mode == -1 ==> rgb_pixels(r)[(x, y)] == rgb_pixels(src)[(w - 1 - x, h - 1 - y)]
            &&& mode != 0 && mode != -1 ==> rgb_pixels(r)[(x, y)] == rgb_pixels(src)[(
                w - 1 - x,
                y,
            )]
        }
}

/// A flipped image mirrors the source: vertically for mode 0, both ways for
/// mode -1, and left to right for every other mode.
pub proof fn lemma_flip_mirrors(src: RgbImage, mode: i8, r: RgbImage)
    requires
        flipped(src, mode, r),
    ensures
        mirrored(src, mode, r),
{
}

/// Flips the image: `mode` 0 vertically, 1 horizontally, -1 both ways
/// (any other mode flips horizontally).
pub fn img_flip(src: &RgbImage, mode: i8) -> (r: RgbImage)
    ensures
        flipped(*src, mode, r),
        mirrored(*src, mode, r),
{
    let (w, h) = src.size();
    let mut dst = RgbImage::new(w, h);
    for y in 0..h
        invariant
            (w, h) == rgb_dims(*src),
            rgb_dims(dst) == (w, h),
            forall|i: int, j: int|
                in_grid(i, j, w, h) && flip_source(mode, i, j, w as int, h as int).1 < y
                    ==> #[trigger] rgb_pixels(dst)[(i, j)] == rgb_pixels(*src)[flip_source(
                    mode,
                    i,
                    j,
                    w as int,
                    h as int,
                )],
    {
        for x in 0..w
            invariant
                (w, h) == rgb_dims(*src),
                0 <= y < h,
                rgb_dims(dst) == (w, h),
                forall|i: int, j: int|
                    in_grid(i, j, w, h) && (flip_source(mode, i, j, w as int, h as int).1 < y || (
                    flip_source(mode, i, j, w as int, h as int).1 == y && flip_source(
                        mode,
                        i,
                        j,
                        w as int,
                        h as int,
                    ).0 < x)) ==> #[trigger] rgb_pixels(dst)[(i, j)] == rgb_pixels(
                        *src,
                    )[flip_source(mode, i, j, w as int, h as int)],
        {
            let (tx, ty) = if mode == 0 {
                (x, h - 1 - y)
            } else if mode == -1 {
                (w - 1 - x, h - 1 - y)
            } else {
                (w - 1 - x, y)
            };
            let pixel = src.get_pixel(x, y);
            dst.put_pixel(tx, ty, pixel);
        }
    }
    proof {
        lemma_flip_mirrors(*src, mode, dst);
    }
    dst
}

/// `r` is `src` with rows and columns exchanged.
pub open spec fn transposed(src: RgbImage, r: RgbImage) -> bool {
    let (w, h) = rgb_dims(src);
    &&& rgb_dims(r) == (h, w)
    &&& forall|x: int, y: int|
        in_grid(x, y, h, w) ==> #[trigger] rgb_pixels(r)[(x, y)] == rgb_pixels(src)[(y, x)]
}

/// Transposes the image: the pixel at `(x, y)` moves to `(y, x)`.
pub fn img_transpose(src: &RgbImage) -> (r: RgbImage)
    ensures
        transposed(*src, r),
{
    let (w, h) = src.size();
    assert(3 * h * w == 3 * w * h) by (nonlinear_arith);
    let mut dst = RgbImage::new(h, w);
    for y in 0..h
        invariant
            (w, h) == rgb_dims(*src),
            rgb_dims(dst) == (h, w),
            forall|i: int, j: int|
                in_grid(i, j, h, w) && i < y ==> #[trigger] rgb_pixels(dst)[(i, j)]
                    == rgb_pixels(*src)[(j, i)],
    {
        for x in 0..w
            invariant
                (w, h) == rgb_dims(*src),
                0 <= y < h,
                rgb_dims(dst) == (h, w),
                forall|i: int, j: int|
                    in_grid(i, j, h, w) && (i < y || (i == y && j < x))
                        ==> #[trigger] rgb_pixels(dst)[(i, j)] == rgb_pixels(*src)[(j, i)],
        {
            let pixel = src.get_pixel(x, y);
            dst.put_pixel(y, x, pixel);
        }
    }
    dst
}

} // verus!

verus! {

/// Flipping twice with the same mode gives back the source image.
pub proof fn lemma_flip_twice(src: RgbImage, once: RgbImage, twice: RgbImage, mode: i8)
    requires
        flipped(src, mode, once),
        flipped(once, mode, twice),
    ensures
        rgb_same(twice, src),
{
    let (w, h) = rgb_dims(src);
    assert forall|x: int, y: int| in_grid(x, y, w, h) implies #[trigger] rgb_pixels(twice)[(
        x,
        y,
    )] == rgb_pixels(src)[(x, y)] by {
        let p = flip_source(mode, x, y, w as int, h as int);
        assert(in_grid(p.0, p.1, w, h));
        assert(rgb_pixels(once)[(p.0, p.1)] == rgb_pixels(src)[flip_source(
            mode,
            p.0,
            p.1,
            w as int,
            h as int,
        )]);
    }
}

/// Flipping both ways (mode -1) is flipping vertically (mode 0) and then
/// horizontally (mode 1).
pub proof fn lemma_flip_both_ways(
    src: RgbImage,
    vertical: RgbImage,
    then_horizontal: RgbImage,
    both: RgbImage,
)
    requires
        flipped(src, 0i8, vertical),
        flipped(vertical, 1i8, then_horizontal),
        flipped(src, -1i8, both),
    ensures
        rgb_same(then_horizontal, both),
{
    let (w, h) = rgb_dims(src);
    assert forall|x: int, y: int| in_grid(x, y, w, h) implies #[trigger] rgb_pixels(
        then_horizontal,
    )[(x, y)] == rgb_pixels(both)[(x, y)] by {
        assert(in_grid(w - 1 - x, y, w, h));
        assert(rgb_pixels(vertical)[(w - 1 - x, y)] == rgb_pixels(src)[(w - 1 - x, h - 1 - y)]);
    }
}

/// Transposing twice gives back the source image.
pub proof fn lemma_transpose_twice(src: RgbImage, once: RgbImage, twice: RgbImage)
    requires
        transposed(src, once),
        transposed(once, twice),
    ensures
        rgb_same(twice, src),
{
    let (w, h) = rgb_dims(src);
    assert forall|x: int, y: int| in_grid(x, y, w, h) implies #[trigger] rgb_pixels(twice)[(
        x,
        y,
    )] == rgb_pixels(src)[(x, y)] by {
        assert(in_grid(y, x, h, w));
        assert(rgb_pixels(once)[(y, x)] == rgb_pixels(src)[(x, y)]);
    }
}

/// Shifting by `(0, 0)` leaves the image unchanged (for images whose
/// dimensions fit in `i32`; larger ones come out black).
pub proof fn lemma_shift_by_zero(src: RgbImage, r: RgbImage)
    requires
        shifted(src, 0, 0, r),
        rgb_dims(src).0 <= i32::MAX,
        rgb_dims(src).1 <= i32::MAX,
    ensures
        rgb_same(r, src),
{
    let (w, h) = rgb_dims(src);
    assert forall|x: int, y: int| in_grid(x, y, w, h) implies #[trigger] rgb_pixels(r)[(x, y)]
        == rgb_pixels(src)[(x, y)] by {}
}

/// Shifting by `(tx, ty)` and then by `(-tx, -ty)` restores every pixel whose
/// shifted position lies inside the image and leaves the others black.
pub proof fn lemma_shift_back(
    src: RgbImage,
    tx: i32,
    ty: i32,
    there: RgbImage,
    back: RgbImage,
)
    requires
        tx != i32::MIN,
        ty != i32::MIN,
        shifted(src, tx, ty, there),
        shifted(there, (-tx) as i32, (-ty) as i32, back),
    ensures
        rgb_dims(back) == rgb_dims(src),
        forall|x: int, y: int|
            in_grid(x, y, rgb_dims(src).0, rgb_dims(src).1) ==> #[trigger] rgb_pixels(back)[(
                x,
                y,
            )] == if rgb_dims(src).0 <= i32::MAX && rgb_dims(src).1 <= i32::MAX && in_grid(
                x + tx,
                y + ty,
                rgb_dims(src).0,
                rgb_dims(src).1,
            ) {
                rgb_pixels(src)[(x, y)]
            } else {
                [0u8, 0u8, 0u8]
            },
{
    let (w, h) = rgb_dims(src);
    assert forall|x: int, y: int| in_grid(x, y, w, h) implies #[trigger] rgb_pixels(back)[(x, y)]
        == if w <= i32::MAX && h <= i32::MAX && in_grid(x + tx, y + ty, w, h) {
        rgb_pixels(src)[(x, y)]
    } else {
        [0u8, 0u8, 0u8]
    } by {
        if w <= i32::MAX && h <= i32::MAX && in_grid(x + tx, y + ty, w, h) {
            assert(rgb_pixels(there)[(x + tx, y + ty)] == rgb_pixels(src)[(x, y)]);
        }
    }
}

} // verus!

verus! {

/// `r` is `src` resampled at the points `points[y][x]`: the pixel at `(x, y)` is
/// the source pixel at that point when it lies inside `src`, and black otherwise.
pub open spec fn remapped(src: RgbImage, points: Seq<Seq<(i32, i32)>>, r: RgbImage) -> bool {
    let (w, h) = rgb_dims(src);
    &&& rgb_dims(r) == (w, h)
    &&& forall|x: int, y: int|
        in_grid(x, y, w, h) ==> #[trigger] rgb_pixels(r)[(x, y)] == {
            let p = points[y][x];
            if in_grid(p.0 as int, p.1 as int, w, h) {
                rgb_pixels(src)[(p.0 as int, p.1 as int)]
            } else {
                [0u8, 0u8, 0u8]
            }
        }
}

/// Nearest-neighbour remapping: every pixel `(x, y)` takes the source pixel at
/// `points[y][x]`, or black when that point falls outside the image.
pub fn remap_nearest(src: &RgbImage, points: &Vec<Vec<(i32, i32)>>) -> (r: RgbImage)
    requires
        points@.len() == rgb_dims(*src).1,
        forall|y: int| 0 <= y < points@.len() ==> #[trigger] points@[y]@.len() == rgb_dims(*src).0,
    ensures
        remapped(*src, points@.map_values(|row: Vec<(i32, i32)>| row@), r),
{
    let ghost pts = points@.map_values(|row: Vec<(i32, i32)>| row@);
    let (w, h) = src.size();
    let mut dst = RgbImage::new(w, h);
    for y in 0..h
        invariant
            (w, h) == rgb_dims(*src),
            pts == points@.map_values(|row: Vec<(i32, i32)>| row@),
            points@.len() == h,
            forall|j: int| 0 <= j < points@.len() ==> #[trigger] points@[j]@.len() == w,
            rgb_dims(dst) == (w, h),
            forall|i: int, j: int|
                in_grid(i, j, w, h) ==> #[trigger] rgb_pixels(dst)[(i, j)] == {
                    let p = pts[j][i];
                    if j < y && in_grid(p.0 as int, p.1 as int, w, h) {
                        rgb_pixels(*src)[(p.0 as int, p.1 as int)]
                    } else {
                        [0u8, 0u8, 0u8]
                    }
                },
    {
        let row = &points[y as usize];
        for x in 0..w
            invariant
                (w, h) == rgb_dims(*src),
                pts == points@.map_values(|row: Vec<(i32, i32)>| row@),
                points@.len() == h,
                0 <= y < h,
                row@ == pts[y as int],
                row@.len() == w,
                rgb_dims(dst) == (w, h),
                forall|i: int, j: int|
                    in_grid(i, j, w, h) ==> #[trigger] rgb_pixels(dst)[(i, j)] == {
                        let p = pts[j][i];
                        if (j < y || (j == y && i < x)) && in_grid(p.0 as int, p.1 as int, w, h) {
                            rgb_pixels(*src)[(p.0 as int, p.1 as int)]
                        } else {
                            [0u8, 0u8, 0u8]
                        }
                    },
        {
            let (sx, sy) = row[x as usize];
            if sx >= 0 && (sx as u32) < w && sy >= 0 && (sy as u32) < h {
                let pixel = src.get_pixel(sx as u32, sy as u32);
                dst.put_pixel(x, y, pixel);
            }
        }
    }
    dst
}

} // verus!

verus! {

/// Shifting moves the source pixel at `(x, y)` to `(x + tx, y + ty)` (right and
/// down for positive offsets) whenever that lies inside the image, and a pixel
/// whose source `(x - tx, y - ty)` lies outside is black.
pub proof fn lemma_shift_moves_pixels(src: RgbImage, tx: i32, ty: i32, r: RgbImage)
    requires
        shifted(src, tx, ty, r),
        rgb_dims(src).0 <= i32::MAX,
        rgb_dims(src).1 <= i32::MAX,
    ensures
        forall|x: int, y: int|
            0 <= x < rgb_dims(src).0 && 0 <= y < rgb_dims(src).1 && 0 <= x + tx < rgb_dims(src).0
                && 0 <= y + ty < rgb_dims(src).1 ==> #[trigger] rgb_pixels(src)[(x, y)]
                == rgb_pixels(r)[(x + tx, y + ty)],
        forall|x: int, y: int|
            0 <= x < rgb_dims(src).0 && 0 <= y < rgb_dims(src).1 && !(0 <= x - tx < rgb_dims(
                src,
            ).0 && 0 <= y - ty < rgb_dims(src).1) ==> #[trigger] rgb_pixels(r)[(x, y)] == [
                0u8,
                0u8,
                0u8,
            ],
{
    let (w, h) = rgb_dims(src);
    assert forall|x: int, y: int|
        0 <= x < w && 0 <= y < h && 0 <= x + tx < w && 0 <= y + ty < h implies #[trigger] rgb_pixels(
        src,
    )[(x, y)] == rgb_pixels(r)[(x + tx, y + ty)] by {
        assert(in_grid(x + tx, y + ty, w, h));
        assert((x + tx) - tx == x && (y + ty) - ty == y);
    }
}

/// Transposing gives an image of height `w` and width `h` whose pixel at `(y, x)`
/// is the source pixel at `(x, y)`.
pub proof fn lemma_transpose_swaps(src: RgbImage, r: RgbImage)
    requires
        transposed(src, r),
    ensures
        rgb_dims(r).0 == rgb_dims(src).1,
        rgb_dims(r).1 == rgb_dims(src).0,
        forall|x: int, y: int|
            0 <= x < rgb_dims(src).0 && 0 <= y < rgb_dims(src).1 ==> #[trigger] rgb_pixels(src)[(
                x,
                y,
            )] == rgb_pixels(r)[(y, x)],
{
    let (w, h) = rgb_dims(src);
    assert forall|x: int, y: int| 0 <= x < w && 0 <= y < h implies #[trigger] rgb_pixels(src)[(
        x,
        y,
    )] == rgb_pixels(r)[(y, x)] by {
        assert(in_grid(y, x, h, w));
    }
}

/// Remapping gives pixel `(x, y)` the source pixel at `points[y][x]` when that
/// point lies inside the image, and black otherwise.
pub proof fn lemma_remap_samples_points(src: RgbImage, points: Seq<Seq<(i32, i32)>>, r: RgbImage)
    requires
        remapped(src, points, r),
    ensures
        rgb_dims(r) == rgb_dims(src),
        forall|x: int, y: int|
            0 <= x < rgb_dims(src).0 && 0 <= y < rgb_dims(src).1 ==> #[trigger] rgb_pixels(r)[(
                x,
                y,
            )] == if 0 <= points[y][x].0 < rgb_dims(src).0 && 0 <= points[y][x].1 < rgb_dims(
                src,
            ).1 {
                rgb_pixels(src)[(points[y][x].0 as int, points[y][x].1 as int)]
            } else {
                [0u8, 0u8, 0u8]
            },
{
    let (w, h) = rgb_dims(src);
    assert forall|x: int, y: int| 0 <= x < w && 0 <= y < h implies #[trigger] rgb_pixels(r)[(
        x,
        y,
    )] == if 0 <= points[y][x].0 < w && 0 <= points[y][x].1 < h {
        rgb_pixels(src)[(points[y][x].0 as int, points[y][x].1 as int)]
    } else {
        [0u8, 0u8, 0u8]
    } by {
        assert(in_grid(x, y, w, h));
    }
}

} // verus!
