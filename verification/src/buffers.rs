//! Colour and grey-level pixel buffers, kept in the `image` crate's `ImageBuffer`.
//!
//! Each buffer is described by its dimensions and by the map from every
//! in-bounds coordinate `(x, y)` to the pixel stored there.

use vstd::prelude::*;

verus! {

/// A colour image: an `image::RgbImage` (three `u8` channels per pixel).
#[verifier::external_body]
pub struct RgbImage {
    inner: image::RgbImage,
}

/// A grey-level image: an `image::GrayImage` (one `u8` channel per pixel).
#[verifier::external_body]
pub struct GrayImage {
    inner: image::GrayImage,
}

/// Width and height of a colour image.
pub uninterp spec fn rgb_dims(img: RgbImage) -> (u32, u32);

/// The pixel stored at each coordinate `(x, y)` of a colour image.
pub uninterp spec fn rgb_pixels(img: RgbImage) -> Map<(int, int), [u8; 3]>;

/// Width and height of a grey-level image.
pub uninterp spec fn gray_dims(img: GrayImage) -> (u32, u32);

/// The grey level stored at each coordinate `(x, y)` of a grey-level image.
pub uninterp spec fn gray_pixels(img: GrayImage) -> Map<(int, int), u8>;

impl RgbImage {
    /// `ImageBuffer::dimensions`: the width and height the image was made with.
    /// Every image of this type is made by `ImageBuffer::new`, whose buffer is one
    /// `Vec` of `3 * width * height` bytes, so that product is at most `isize::MAX`.
    #[verifier::external_body]
    pub(crate) fn size(&self) -> (r: (u32, u32))
        ensures
            r == rgb_dims(*self),
            3 * r.0 * r.1 <= isize::MAX,
    {
        self.inner.dimensions()
    }

    /// `ImageBuffer::new`: an image of the given size whose every channel is zero.
    /// It panics when `3 * width * height` bytes cannot be allocated in one `Vec`;
    /// that the allocator may fail for smaller sizes is left unsaid.
    #[verifier::external_body]
    pub(crate) fn new(width: u32, height: u32) -> (r: RgbImage)
        requires
            3 * width * height <= isize::MAX,
        ensures
            rgb_dims(r) == (width, height),
            forall|x: int, y: int|
                0 <= x < width && 0 <= y < height ==> #[trigger] rgb_pixels(r)[(x, y)] == [
                    0u8,
                    0u8,
                    0u8,
                ],
    {
        RgbImage { inner: image::RgbImage::new(width, height) }
    }

    /// `ImageBuffer::get_pixel`: the channels of the pixel at `(x, y)`.
    #[verifier::external_body]
    pub(crate) fn get_pixel(&self, x: u32, y: u32) -> (r: [u8; 3])
        requires
            x < rgb_dims(*self).0,
            y < rgb_dims(*self).1,
        ensures
            r == rgb_pixels(*self)[(x as int, y as int)],
    {
        self.inner.get_pixel(x, y).0
    }

    /// `ImageBuffer::put_pixel`: stores `value` at `(x, y)` and changes no other pixel.
    #[verifier::external_body]
    pub(crate) fn put_pixel(&mut self, x: u32, y: u32, value: [u8; 3])
        requires
            x < rgb_dims(*old(self)).0,
            y < rgb_dims(*old(self)).1,
        ensures
            rgb_dims(*final(self)) == rgb_dims(*old(self)),
            rgb_pixels(*final(self)) == rgb_pixels(*old(self)).insert(
                (x as int, y as int),
                value,
            ),
    {
        self.inner.put_pixel(x, y, image::Rgb(value))
    }
}

impl GrayImage {
    /// `ImageBuffer::dimensions`: the width and height the image was made with.
    /// Every image of this type is made by `ImageBuffer::new`, whose buffer is one
    /// `Vec` of `width * height` bytes, so that product is at most `isize::MAX`.
    #[verifier::external_body]
    pub(crate) fn size(&self) -> (r: (u32, u32))
        ensures
            r == gray_dims(*self),
            r.0 * r.1 <= isize::MAX,
    {
        self.inner.dimensions()
    }

    /// `ImageBuffer::new`: an image of the given size whose every pixel is zero.
    /// It panics when `width * height` bytes cannot be allocated in one `Vec`;
    /// that the allocator may fail for smaller sizes is left unsaid.
    #[verifier::external_body]
    pub(crate) fn new(width: u32, height: u32) -> (r: GrayImage)
        requires
            width * height <= isize::MAX,
        ensures
            gray_dims(r) == (width, height),
            forall|x: int, y: int|
                0 <= x < width && 0 <= y < height ==> #[trigger] gray_pixels(r)[(x, y)] == 0u8,
    {
        GrayImage { inner: image::GrayImage::new(width, height) }
    }

    /// `ImageBuffer::get_pixel`: the grey level of the pixel at `(x, y)`.
    #[verifier::external_body]
    pub(crate) fn get_pixel(&self, x: u32, y: u32) -> (r: u8)
        requires
            x < gray_dims(*self).0,
            y < gray_dims(*self).1,
        ensures
            r == gray_pixels(*self)[(x as int, y as int)],
    {
        self.inner.get_pixel(x, y).0[0]
    }

    /// `ImageBuffer::put_pixel`: stores `value` at `(x, y)` and changes no other pixel.
    #[verifier::external_body]
    pub(crate) fn put_pixel(&mut self, x: u32, y: u32, value: u8)
        requires
            x < gray_dims(*old(self)).0,
            y < gray_dims(*old(self)).1,
        ensures
            gray_dims(*final(self)) == gray_dims(*old(self)),
            gray_pixels(*final(self)) == gray_pixels(*old(self)).insert(
                (x as int, y as int),
                value,
            ),
    {
        self.inner.put_pixel(x, y, image::Luma([value]))
    }
}

} // verus!

verus! {

/// `(x, y)` lies inside an image of width `w` and height `h`.
pub open spec fn in_grid(x: int, y: int, w: u32, h: u32) -> bool {
    0 <= x < w && 0 <= y < h
}

/// Two colour images have the same dimensions and the same pixel at every coordinate.
pub open spec fn rgb_same(a: RgbImage, b: RgbImage) -> bool {
    &&& rgb_dims(a) == rgb_dims(b)
    &&& forall|x: int, y: int|
        in_grid(x, y, rgb_dims(a).0, rgb_dims(a).1) ==> #[trigger] rgb_pixels(a)[(x, y)]
            == rgb_pixels(b)[(x, y)]
}

/// Two grey-level images have the same dimensions and the same level at every coordinate.
pub open spec fn gray_same(a: GrayImage, b: GrayImage) -> bool {
    &&& gray_dims(a) == gray_dims(b)
    &&& forall|x: int, y: int|
        in_grid(x, y, gray_dims(a).0, gray_dims(a).1) ==> #[trigger] gray_pixels(a)[(x, y)]
            == gray_pixels(b)[(x, y)]
}

} // verus!

verus! {

/// Index of the first sample of pixel `(x, y)` in a row-major buffer of width
/// `w` with `channels` samples per pixel.
pub open spec fn sample_index(x: int, y: int, w: int, channels: int) -> int {
    channels * (y * w + x)
}

/// Every pixel of the colour image is stored in `data`, row by row with red,
/// green and blue for each pixel.
pub open spec fn rgb_holds_samples(img: RgbImage, data: Seq<u8>) -> bool {
    let (w, h) = rgb_dims(img);
    forall|x: int, y: int|
        in_grid(x, y, w, h) ==> #[trigger] rgb_pixels(img)[(x, y)] == [
            data[sample_index(x, y, w as int, 3)],
            data[sample_index(x, y, w as int, 3) + 1],
            data[sample_index(x, y, w as int, 3) + 2],
        ]
}

/// Every pixel of the grey-level image is stored in `data`, row by row.
pub open spec fn gray_holds_samples(img: GrayImage, data: Seq<u8>) -> bool {
    let (w, h) = gray_dims(img);
    forall|x: int, y: int|
        in_grid(x, y, w, h) ==> #[trigger] gray_pixels(img)[(x, y)] == data[sample_index(
            x,
            y,
            w as int,
            1,
        )]
}

/// Two colour images of the same size whose pixels are stored in the same
/// samples are the same image: reading samples back gives the image they came from.
pub proof fn lemma_rgb_samples_determine_image(a: RgbImage, b: RgbImage, data: Seq<u8>)
    requires
        rgb_dims(a) == rgb_dims(b),
        rgb_holds_samples(a, data),
        rgb_holds_samples(b, data),
    ensures
        rgb_same(a, b),
{
}

/// Two grey-level images of the same size whose pixels are stored in the same
/// samples are the same image.
pub proof fn lemma_gray_samples_determine_image(a: GrayImage, b: GrayImage, data: Seq<u8>)
    requires
        gray_dims(a) == gray_dims(b),
        gray_holds_samples(a, data),
        gray_holds_samples(b, data),
    ensures
        gray_same(a, b),
{
}

proof fn lemma_sample_index_bounds(x: int, y: int, w: int, h: int)
    requires
        0 <= x < w,
        0 <= y < h,
    ensures
        0 <= y * w + x,
        y * w + x + 1 <= h * w,
        (y + 1) * w == y * w + w,
{
    assert(0 <= y * w) by (nonlinear_arith)
        requires
            0 <= y,
            0 <= w,
    ;
    assert((y + 1) * w <= h * w) by (nonlinear_arith)
        requires
            y + 1 <= h,
            0 <= w,
    ;
    assert((y + 1) * w == y * w + w) by (nonlinear_arith);
}

proof fn lemma_next_row(y: int, w: int)
    ensures
        (y + 1) * w == y * w + w,
        0 * w == 0,
{
    assert((y + 1) * w == y * w + w) by (nonlinear_arith);
}

proof fn lemma_earlier_pixel(i: int, j: int, x: int, y: int, w: int)
    requires
        0 <= x,
        (0 <= i < w && 0 <= j < y) || (0 <= i < x && j == y),
    ensures
        j * w + i + 1 <= y * w + x,
{
    if j < y {
        assert(j * w + w <= y * w) by (nonlinear_arith)
            requires
                j + 1 <= y,
                0 <= w,
        ;
    }
}

impl RgbImage {
    /// The width and height of the image.
    pub fn dimensions(&self) -> (r: (u32, u32))
        ensures
            r == rgb_dims(*self),
    {
        self.size()
    }

    /// The image of `width` x `height` pixels whose samples are `data`, row by
    /// row with red, green and blue for each pixel; `None` when `data` holds
    /// fewer than `3 * width * height` samples (or when that many cannot be
    /// held in one buffer).
    pub fn from_samples(width: u32, height: u32, data: &Vec<u8>) -> (r: Option<RgbImage>)
        ensures
            r is Some <==> 3 * width * height <= data@.len() && 3 * width * height <= isize::MAX,
            r matches Some(img) ==> {
                &&& rgb_dims(img) == (width, height)
                &&& rgb_holds_samples(img, data@)
            },
    {
        assert((width as u128) * (height as u128) <= 0xffff_ffff_ffff_ffffu128 * 0xffff_ffffu128)
            by (nonlinear_arith);
        let needed = 3 * ((width as u128) * (height as u128));
        assert(3 * width * height == 3 * (width * height)) by (nonlinear_arith);
        if needed > data.len() as u128 || needed > isize::MAX as u128 {
            return None;
        }
        proof {
            lemma_next_row(0, width as int);
        }
        let mut img = RgbImage::new(width, height);
        let mut idx: usize = 0;
        for y in 0..height
            invariant
                3 * width * height <= data@.len(),
                3 * width * height <= isize::MAX,
                idx == sample_index(0, y as int, width as int, 3),
                rgb_dims(img) == (width, height),
                forall|i: int, j: int|
                    0 <= i < width && 0 <= j < y ==> #[trigger] rgb_pixels(img)[(i, j)] == [
                        data@[sample_index(i, j, width as int, 3)],
                        data@[sample_index(i, j, width as int, 3) + 1],
                        data@[sample_index(i, j, width as int, 3) + 2],
                    ],
        {
            for x in 0..width
                invariant
                    3 * width * height <= data@.len(),
                    3 * width * height <= isize::MAX,
                    0 <= y < height,
                    idx == sample_index(x as int, y as int, width as int, 3),
                    rgb_dims(img) == (width, height),
                    forall|i: int, j: int|
                        (0 <= i < width && 0 <= j < y) || (0 <= i < x && j == y)
                            ==> #[trigger] rgb_pixels(img)[(i, j)] == [
                            data@[sample_index(i, j, width as int, 3)],
                            data@[sample_index(i, j, width as int, 3) + 1],
                            data@[sample_index(i, j, width as int, 3) + 2],
                        ],
            {
                proof {
                    lemma_sample_index_bounds(x as int, y as int, width as int, height as int);
                    assert(3 * (height * width) == 3 * width * height) by (nonlinear_arith);
                }
                let pixel = [data[idx], data[idx + 1], data[idx + 2]];
                img.put_pixel(x, y, pixel);
                idx = idx + 3;
            }
            proof {
                lemma_next_row(y as int, width as int);
            }
        }
        Some(img)
    }

    /// The samples of the image, row by row with red, green and blue for each pixel.
    pub fn to_samples(&self) -> (r: Vec<u8>)
        ensures
            r@.len() == 3 * rgb_dims(*self).0 * rgb_dims(*self).1,
            rgb_holds_samples(*self, r@),
    {
        let (width, height) = self.size();
        let mut out: Vec<u8> = Vec::new();
        proof {
            lemma_next_row(0, width as int);
        }
        for y in 0..height
            invariant
                (width, height) == rgb_dims(*self),
                out@.len() == sample_index(0, y as int, width as int, 3),
                forall|i: int, j: int|
                    0 <= i < width && 0 <= j < y ==> #[trigger] rgb_pixels(*self)[(i, j)] == [
                        out@[sample_index(i, j, width as int, 3)],
                        out@[sample_index(i, j, width as int, 3) + 1],
                        out@[sample_index(i, j, width as int, 3) + 2],
                    ],
        {
            for x in 0..width
                invariant
                    (width, height) == rgb_dims(*self),
                    0 <= y < height,
                    out@.len() == sample_index(x as int, y as int, width as int, 3),
                    forall|i: int, j: int|
                        (0 <= i < width && 0 <= j < y) || (0 <= i < x && j == y)
                            ==> #[trigger] rgb_pixels(*self)[(i, j)] == [
                            out@[sample_index(i, j, width as int, 3)],
                            out@[sample_index(i, j, width as int, 3) + 1],
                            out@[sample_index(i, j, width as int, 3) + 2],
                        ],
            {
                proof {
                    lemma_sample_index_bounds(x as int, y as int, width as int, height as int);
                }
                let ghost before = out@;
                let pixel = self.get_pixel(x, y);
                out.push(pixel[0]);
                out.push(pixel[1]);
                out.push(pixel[2]);
                assert forall|i: int, j: int|
                    (0 <= i < width && 0 <= j < y) || (0 <= i < x + 1 && j == y) implies
                    #[trigger] rgb_pixels(*self)[(i, j)] == [
                        out@[sample_index(i, j, width as int, 3)],
                        out@[sample_index(i, j, width as int, 3) + 1],
                        out@[sample_index(i, j, width as int, 3) + 2],
                    ] by {
                    if i != x || j != y {
                        lemma_earlier_pixel(i, j, x as int, y as int, width as int);
                        let k = sample_index(i, j, width as int, 3);
                        assert(out@[k] == before[k]);
                        assert(out@[k + 1] == before[k + 1]);
                        assert(out@[k + 2] == before[k + 2]);
                    }
                }
            }
            proof {
                lemma_next_row(y as int, width as int);
            }
        }
        proof {
            assert(3 * (height * width) == 3 * width * height) by (nonlinear_arith);
        }
        out
    }
}

impl GrayImage {
    /// The width and height of the image.
    pub fn dimensions(&self) -> (r: (u32, u32))
        ensures
            r == gray_dims(*self),
    {
        self.size()
    }

    /// The image of `width` x `height` pixels whose samples are `data`, row by
    /// row; `None` when `data` holds fewer than `width * height` samples (or
    /// when that many cannot be held in one buffer).
    pub fn from_samples(width: u32, height: u32, data: &Vec<u8>) -> (r: Option<GrayImage>)
        ensures
            r is Some <==> width * height <= data@.len() && width * height <= isize::MAX,
            r matches Some(img) ==> {
                &&& gray_dims(img) == (width, height)
                &&& gray_holds_samples(img, data@)
            },
    {
        assert((width as u128) * (height as u128) <= 0xffff_ffff_ffff_ffffu128 * 0xffff_ffffu128)
            by (nonlinear_arith);
        let needed = (width as u128) * (height as u128);
        if needed > data.len() as u128 || needed > isize::MAX as u128 {
            return None;
        }
        proof {
            lemma_next_row(0, width as int);
        }
        let mut img = GrayImage::new(width, height);
        let mut idx: usize = 0;
        for y in 0..height
            invariant
                width * height <= data@.len(),
                width * height <= isize::MAX,
                idx == sample_index(0, y as int, width as int, 1),
                gray_dims(img) == (width, height),
                forall|i: int, j: int|
                    0 <= i < width && 0 <= j < y ==> #[trigger] gray_pixels(img)[(i, j)]
                        == data@[sample_index(i, j, width as int, 1)],
        {
            for x in 0..width
                invariant
                    width * height <= data@.len(),
                    width * height <= isize::MAX,
                    0 <= y < height,
                    idx == sample_index(x as int, y as int, width as int, 1),
                    gray_dims(img) == (width, height),
                    forall|i: int, j: int|
                        (0 <= i < width && 0 <= j < y) || (0 <= i < x && j == y)
                            ==> #[trigger] gray_pixels(img)[(i, j)]
                            == data@[sample_index(i, j, width as int, 1)],
            {
                proof {
                    lemma_sample_index_bounds(x as int, y as int, width as int, height as int);
                    assert(height * width == width * height) by (nonlinear_arith);
                }
                img.put_pixel(x, y, data[idx]);
                idx = idx + 1;
            }
            proof {
                lemma_next_row(y as int, width as int);
            }
        }
        Some(img)
    }

    /// The samples of the image, row by row.
    pub fn to_samples(&self) -> (r: Vec<u8>)
        ensures
            r@.len() == gray_dims(*self).0 * gray_dims(*self).1,
            gray_holds_samples(*self, r@),
    {
        let (width, height) = self.size();
        let mut out: Vec<u8> = Vec::new();
        proof {
            lemma_next_row(0, width as int);
        }
        for y in 0..height
            invariant
                (width, height) == gray_dims(*self),
                out@.len() == sample_index(0, y as int, width as int, 1),
                forall|i: int, j: int|
                    0 <= i < width && 0 <= j < y ==> #[trigger] gray_pixels(*self)[(i, j)]
                        == out@[sample_index(i, j, width as int, 1)],
        {
            for x in 0..width
                invariant
                    (width, height) == gray_dims(*self),
                    0 <= y < height,
                    out@.len() == sample_index(x as int, y as int, width as int, 1),
                    forall|i: int, j: int|
                        (0 <= i < width && 0 <= j < y) || (0 <= i < x && j == y)
                            ==> #[trigger] gray_pixels(*self)[(i, j)]
                            == out@[sample_index(i, j, width as int, 1)],
            {
                proof {
                    lemma_sample_index_bounds(x as int, y as int, width as int, height as int);
                }
                let ghost before = out@;
                out.push(self.get_pixel(x, y));
                assert forall|i: int, j: int|
                    (0 <= i < width && 0 <= j < y) || (0 <= i < x + 1 && j == y) implies
                    #[trigger] gray_pixels(*self)[(i, j)] == out@[sample_index(i, j, width as int, 1)]
                by {
                    if i != x || j != y {
                        lemma_earlier_pixel(i, j, x as int, y as int, width as int);
                        let k = sample_index(i, j, width as int, 1);
                        assert(out@[k] == before[k]);
                    }
                }
            }
            proof {
                lemma_next_row(y as int, width as int);
            }
        }
        proof {
            assert(height * width == width * height) by (nonlinear_arith);
        }
        out
    }
}

} // verus!

verus! {

/// The samples of a colour image lie row by row: pixel `(x, y)` occupies the three
/// samples from `3 * (y * width + x)` on, red first.
pub proof fn lemma_rgb_samples_layout(img: RgbImage, data: Seq<u8>)
    requires
        rgb_holds_samples(img, data),
    ensures
        forall|x: int, y: int|
            in_grid(x, y, rgb_dims(img).0, rgb_dims(img).1) ==> {
                let p = #[trigger] rgb_pixels(img)[(x, y)];
                let k = 3 * (y * rgb_dims(img).0 + x);
                &&& p[0] == data[k]
                &&& p[1] == data[k + 1]
                &&& p[2] == data[k + 2]
            },
{
}

/// The samples of a grey-level image lie row by row: pixel `(x, y)` is sample
/// `y * width + x`.
pub proof fn lemma_gray_samples_layout(img: GrayImage, data: Seq<u8>)
    requires
        gray_holds_samples(img, data),
    ensures
        forall|x: int, y: int|
            in_grid(x, y, gray_dims(img).0, gray_dims(img).1) ==> #[trigger] gray_pixels(img)[(
                x,
                y,
            )] == data[y * gray_dims(img).0 + x],
{
}

} // verus!
