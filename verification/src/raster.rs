//! Single-channel bitmaps, kept in the `image` crate's buffer.
//!
//! Contracts speak of a bitmap through its view, a [`Bitmap`]: width, height
//! and the pixels in row-major order.
use vstd::prelude::*;

verus! {

/// The mathematical model of a grayscale bitmap.
pub struct Bitmap {
    pub width: nat,
    pub height: nat,
    /// Row-major intensities: pixel `(x, y)` sits at index `y * width + x`.
    pub pixels: Seq<u8>,
}

impl Bitmap {
    /// There is exactly one intensity for every coordinate.
    pub open spec fn wf(self) -> bool {
        self.pixels.len() == self.width * self.height
    }

    /// `(x, y)` lies inside the bitmap.
    pub open spec fn contains(self, x: int, y: int) -> bool {
        0 <= x < self.width && 0 <= y < self.height
    }

    /// Intensity at `(x, y)`.
    pub open spec fn pixel(self, x: int, y: int) -> u8 {
        self.pixels[y * self.width + x]
    }

    /// A bitmap of the given size whose every pixel has intensity `value`.
    pub open spec fn uniform(width: nat, height: nat, value: u8) -> Bitmap {
        Bitmap { width, height, pixels: Seq::new(width * height, |i: int| value) }
    }
}

/// Row-major indices of in-bounds coordinates stay inside the pixel sequence.
pub proof fn lemma_index_in_range(width: nat, height: nat, x: int, y: int)
    requires
        0 <= x < width,
        0 <= y < height,
    ensures
        0 <= y * width + x < width * height,
{
    assert(0 <= y * width + x < width * height) by (nonlinear_arith)
        requires
            0 <= x < width,
            0 <= y < height,
    ;
}

/// Distinct coordinates have distinct row-major indices.
pub proof fn lemma_index_injective(width: nat, x1: int, y1: int, x2: int, y2: int)
    requires
        0 <= x1 < width,
        0 <= x2 < width,
        0 <= y1,
        0 <= y2,
        y1 * width + x1 == y2 * width + x2,
    ensures
        x1 == x2,
        y1 == y2,
{
    if y1 < y2 {
        assert(y2 * width >= y1 * width + width) by (nonlinear_arith)
            requires
                y1 < y2,
                width >= 0,
        ;
    } else if y2 < y1 {
        assert(y1 * width >= y2 * width + width) by (nonlinear_arith)
            requires
                y2 < y1,
                width >= 0,
        ;
    }
}

/// A grayscale bitmap held in an `image::ImageBuffer<Luma<u8>, Vec<u8>>`.
///
/// Verus is told nothing about the buffer itself; everything known of a value
/// comes from [`image_width`], [`image_height`] and [`image_pixels`].
#[verifier::external_body]
pub struct GrayImage {
    buffer: image::ImageBuffer<image::Luma<u8>, Vec<u8>>,
}

/// The width that the buffer reports.
pub uninterp spec fn image_width(img: GrayImage) -> nat;

/// The height that the buffer reports.
pub uninterp spec fn image_height(img: GrayImage) -> nat;

/// The buffer's `width * height` intensities, row by row from the top.
pub uninterp spec fn image_pixels(img: GrayImage) -> Seq<u8>;

impl View for GrayImage {
    type V = Bitmap;

    open spec fn view(&self) -> Bitmap {
        Bitmap {
            width: image_width(*self),
            height: image_height(*self),
            pixels: image_pixels(*self),
        }
    }
}

/// `ImageBuffer::new`: a buffer of the requested size with every sample zero.
/// It panics when the sample count does not fit a vector, which the
/// precondition excludes.
#[verifier::external_body]
fn buffer_new(width: u32, height: u32) -> (img: GrayImage)
    requires
        width * height <= isize::MAX,
    ensures
        image_width(img) == width,
        image_height(img) == height,
        image_pixels(img) == Seq::new((width * height) as nat, |i: int| 0u8),
{
    GrayImage { buffer: image::ImageBuffer::new(width, height) }
}

/// `ImageBuffer::dimensions`: the stored width and height. The pixel sequence
/// named by [`image_pixels`] has one entry per coordinate.
#[verifier::external_body]
fn buffer_dimensions(img: &GrayImage) -> (d: (u32, u32))
    ensures
        d.0 == image_width(*img),
        d.1 == image_height(*img),
        image_pixels(*img).len() == d.0 * d.1,
{
    img.buffer.dimensions()
}

/// `ImageBuffer::get_pixel`: the sample at `(x, y)`, found at row-major index
/// `y * width + x`. Out-of-bounds coordinates panic there and are excluded here.
#[verifier::external_body]
fn buffer_get(img: &GrayImage, x: u32, y: u32) -> (v: u8)
    requires
        x < image_width(*img),
        y < image_height(*img),
    ensures
        v == image_pixels(*img)[y * image_width(*img) + x],
{
    img.buffer.get_pixel(x, y).0[0]
}

/// `ImageBuffer::put_pixel`: overwrites the sample at `(x, y)` and nothing else.
/// Out-of-bounds coordinates panic there and are excluded here.
#[verifier::external_body]
fn buffer_put(img: &mut GrayImage, x: u32, y: u32, v: u8)
    requires
        x < image_width(*old(img)),
        y < image_height(*old(img)),
    ensures
        image_width(*final(img)) == image_width(*old(img)),
        image_height(*final(img)) == image_height(*old(img)),
        image_pixels(*final(img)) == image_pixels(*old(img)).update(
            y * image_width(*old(img)) + x,
            v,
        ),
{
    img.buffer.put_pixel(x, y, image::Luma([v]));
}

/// A decoded image of any colour type, as the `image` crate holds it.
#[verifier::external_type_specification]
#[verifier::external_body]
pub struct ExDynamicImage(image::DynamicImage);

/// The width that the image reports.
pub uninterp spec fn dynamic_width(img: image::DynamicImage) -> nat;

/// The height that the image reports.
pub uninterp spec fn dynamic_height(img: image::DynamicImage) -> nat;

/// The image's pixels converted to 8-bit luma, row by row from the top.
pub uninterp spec fn luma_pixels(img: image::DynamicImage) -> Seq<u8>;

/// `DynamicImage::width` and `DynamicImage::height`: the stored size.
#[verifier::external_body]
pub(crate) fn dynamic_dimensions(img: &image::DynamicImage) -> (d: (u32, u32))
    ensures
        d.0 == dynamic_width(*img),
        d.1 == dynamic_height(*img),
{
    (img.width(), img.height())
}

/// `DynamicImage::to_luma8`: the grayscale version of the image, of the same
/// size. Its pixel values are known only by the name [`luma_pixels`].
#[verifier::external_body]
pub(crate) fn luma_of(img: &image::DynamicImage) -> (gray: GrayImage)
    ensures
        image_width(gray) == dynamic_width(*img),
        image_height(gray) == dynamic_height(*img),
        image_pixels(gray) == luma_pixels(*img),
{
    GrayImage { buffer: img.to_luma8() }
}

impl GrayImage {
    /// A black bitmap of the given size.
    pub fn new(width: u32, height: u32) -> (img: GrayImage)
        requires
            width * height <= isize::MAX,
        ensures
            img@ == Bitmap::uniform(width as nat, height as nat, 0),
            img@.wf(),
    {
        let img = buffer_new(width, height);
        assert(img@.pixels =~= Bitmap::uniform(width as nat, height as nat, 0).pixels);
        img
    }

    /// Width and height in pixels.
    pub fn dimensions(&self) -> (d: (u32, u32))
        ensures
            d.0 == self@.width,
            d.1 == self@.height,
            self@.wf(),
    {
        buffer_dimensions(self)
    }

    /// Width in pixels.
    pub fn width(&self) -> (w: u32)
        ensures
            w == self@.width,
            self@.wf(),
    {
        buffer_dimensions(self).0
    }

    /// Height in pixels.
    pub fn height(&self) -> (h: u32)
        ensures
            h == self@.height,
            self@.wf(),
    {
        buffer_dimensions(self).1
    }

    /// Intensity at `(x, y)`.
    pub fn get_pixel(&self, x: u32, y: u32) -> (v: u8)
        requires
            self@.contains(x as int, y as int),
        ensures
            v == self@.pixel(x as int, y as int),
    {
        buffer_get(self, x, y)
    }

    /// Sets the intensity at `(x, y)`; every other pixel keeps its value.
    pub fn put_pixel(&mut self, x: u32, y: u32, v: u8)
        requires
            old(self)@.contains(x as int, y as int),
        ensures
            final(self)@.width == old(self)@.width,
            final(self)@.height == old(self)@.height,
            final(self)@.pixels == old(self)@.pixels.update(y * old(self)@.width + x, v),
            final(self)@.wf(),
            final(self)@.pixel(x as int, y as int) == v,
            forall|x2: int, y2: int|
                old(self)@.contains(x2, y2) && (x2 != x || y2 != y)
                    ==> #[trigger] final(self)@.pixel(x2, y2) == old(self)@.pixel(x2, y2),
    {
        let _d = buffer_dimensions(self);
        let ghost before = self@;
        buffer_put(self, x, y, v);
        proof {
            lemma_index_in_range(before.width, before.height, x as int, y as int);
            assert forall|x2: int, y2: int|
                before.contains(x2, y2) && (x2 != x || y2 != y) implies #[trigger] self@.pixel(
                x2,
                y2,
            ) == before.pixel(x2, y2) by {
                lemma_index_in_range(before.width, before.height, x2, y2);
                if y2 * before.width + x2 == y * before.width + x {
                    lemma_index_injective(before.width, x2, y2, x as int, y as int);
                }
            }
        }
    }

    /// Builds a bitmap from row-major intensities, or `None` when their number
    /// is not `width * height` or exceeds what a buffer can hold.
    pub fn from_pixels(width: u32, height: u32, pixels: &[u8]) -> (r: Option<GrayImage>)
        ensures
            r is Some <==> pixels@.len() == width * height && width * height <= isize::MAX,
            r is Some ==> r->0@ == (Bitmap {
                width: width as nat,
                height: height as nat,
                pixels: pixels@,
            }),
    {
        assert(width * height <= 0xFFFF_FFFF * 0xFFFF_FFFF) by (nonlinear_arith)
            requires
                0 <= width <= 0xFFFF_FFFF,
                0 <= height <= 0xFFFF_FFFF,
        ;
        let total: u64 = (width as u64) * (height as u64);
        let count: usize = pixels.len();
        if count as u64 != total || total > isize::MAX as u64 {
            return None;
        }
        let mut img = GrayImage::new(width, height);
        let mut y: u32 = 0;
        while y < height
            invariant
                y <= height,
                count == pixels@.len(),
                pixels@.len() == width * height,
                img@.width == width,
                img@.height == height,
                img@.wf(),
                forall|i: int| 0 <= i < y * width ==> img@.pixels[i] == pixels@[i],
            decreases height - y,
        {
            let mut x: u32 = 0;
            while x < width
                invariant
                    y < height,
                    x <= width,
                    count == pixels@.len(),
                    pixels@.len() == width * height,
                    img@.width == width,
                    img@.height == height,
                    img@.wf(),
                    forall|i: int| 0 <= i < y * width + x ==> img@.pixels[i] == pixels@[i],
                decreases width - x,
            {
                proof {
                    lemma_index_in_range(width as nat, height as nat, x as int, y as int);
                    assert(0 <= y * width) by (nonlinear_arith);
                }
                assert(y * width + x < count);
                let index: usize = y as usize * width as usize + x as usize;
                img.put_pixel(x, y, pixels[index]);
                x = x + 1;
            }
            assert(y * width + width == (y + 1) * width) by (nonlinear_arith);
            y = y + 1;
        }
        assert(height * width == width * height) by (nonlinear_arith);
        assert(img@.pixels =~= pixels@);
        Some(img)
    }

    /// The intensities in row-major order.
    pub fn to_pixels(&self) -> (pixels: Vec<u8>)
        ensures
            pixels@ == self@.pixels,
            self@.wf(),
    {
        let (width, height) = self.dimensions();
        let mut pixels: Vec<u8> = Vec::new();
        let mut y: u32 = 0;
        while y < height
            invariant
                y <= height,
                self@.width == width,
                self@.height == height,
                self@.wf(),
                pixels@.len() == y * width,
                forall|i: int| 0 <= i < y * width ==> pixels@[i] == self@.pixels[i],
            decreases height - y,
        {
            let mut x: u32 = 0;
            while x < width
                invariant
                    y < height,
                    x <= width,
                    self@.width == width,
                    self@.height == height,
                    self@.wf(),
                    pixels@.len() == y * width + x,
                    forall|i: int| 0 <= i < y * width + x ==> pixels@[i] == self@.pixels[i],
                decreases width - x,
            {
                proof {
                    lemma_index_in_range(width as nat, height as nat, x as int, y as int);
                }
                pixels.push(self.get_pixel(x, y));
                x = x + 1;
            }
            assert(y * width + width == (y + 1) * width) by (nonlinear_arith);
            y = y + 1;
        }
        assert(height * width == width * height) by (nonlinear_arith);
        assert(pixels@ =~= self@.pixels);
        pixels
    }
}

} // verus!
