//! Preparation of target bitmaps.
use fast_image_resize::images::Image;
use fast_image_resize::{PixelType, ResizeOptions, Resizer};
use vstd::prelude::*;
use crate::ascii_generator::lemma_pixel_of_index;
use crate::raster::{
    dynamic_dimensions, dynamic_height, dynamic_width, luma_of, luma_pixels, GrayImage,
};

verus! {

/// Why an image could not be resized.
#[derive(Clone, Copy, Debug, PartialEq, Eq, Structural)]
pub enum ResizeFailure {
    /// The source pixels could not be handed to the resizer.
    SourceBuffer,
    /// The resizer refused the images.
    Resize,
    /// The resized pixels do not make an image of the requested size.
    OutputBuffer,
}

/// Why a target bitmap could not be prepared.
#[derive(Clone, Copy, Debug, PartialEq, Eq, Structural)]
pub enum PrepareError {
    /// The requested size needs buffers larger than memory can hold.
    TooLarge,
    /// Resizing failed.
    Resize(ResizeFailure),
}

/// Resizing `img` to the requested size needs no buffer beyond what a vector
/// can hold: neither the resized RGB image nor the resizer's intermediate
/// image, which has the source's width and the requested height.
pub open spec fn resize_fits(img: image::DynamicImage, target_width: u32, target_height: u32) -> bool {
    &&& 3 * (target_width * target_height) <= isize::MAX
    &&& 3 * (dynamic_width(img) * target_height) + 3 <= isize::MAX
}

/// The intensities `255 - v` of a sequence of intensities `v`.
pub open spec fn inverted(pixels: Seq<u8>) -> Seq<u8> {
    Seq::new(pixels.len(), |i: int| (255 - pixels[i]) as u8)
}

/// `fast_image_resize`: the image is converted to 8-bit RGB
/// (`DynamicImage::to_rgb8`), resampled by `Resizer::resize` with the default
/// options into an `Image::new` of the requested size, and wrapped again
/// (`RgbImage::from_raw`). A result has the requested size; nothing is
/// promised of its pixels, nor of success. The precondition keeps the
/// destination and the resizer's intermediate image within what a vector
/// can hold.
#[verifier::external_body]
fn resize_rgb(img: &image::DynamicImage, target_width: u32, target_height: u32) -> (r: Result<
    image::DynamicImage,
    ResizeFailure,
>)
    requires
        resize_fits(*img, target_width, target_height),
    ensures
        r is Ok ==> dynamic_width(r->Ok_0) == target_width && dynamic_height(r->Ok_0)
            == target_height,
{
    let pixels = img.to_rgb8().into_raw();
    let src_image = Image::from_vec_u8(img.width(), img.height(), pixels, PixelType::U8x3)
        .map_err(|_| ResizeFailure::SourceBuffer)?;
    let mut dst_image = Image::new(target_width, target_height, PixelType::U8x3);
    Resizer::new().resize(&src_image, &mut dst_image, &ResizeOptions::new())
        .map_err(|_| ResizeFailure::Resize)?;
    image::RgbImage::from_raw(target_width, target_height, dst_image.into_vec())
        .map(image::DynamicImage::ImageRgb8)
        .ok_or(ResizeFailure::OutputBuffer)
}

/// Prepares target bitmaps for the search engines.
#[derive(Clone, Copy, Debug, PartialEq, Eq, Structural)]
pub struct ImageProcessor;

impl ImageProcessor {
    /// Creates a new ImageProcessor instance
    pub fn new() -> (processor: Self)
        ensures
            processor == ImageProcessor,
    {
        ImageProcessor
    }

    /// Prepares a target bitmap: the image is resized to the requested size,
    /// converted to grayscale and, if asked, inverted. A size that needs
    /// buffers too large to hold is refused.
    pub fn prepare_target_image_with_inversion(
        &self,
        img: &image::DynamicImage,
        target_width: u32,
        target_height: u32,
        invert: bool,
    ) -> (r: Result<GrayImage, PrepareError>)
        ensures
            r == Err::<GrayImage, PrepareError>(PrepareError::TooLarge) <==> !resize_fits(
                *img,
                target_width,
                target_height,
            ),
            r is Ok ==> {
                &&& r->Ok_0@.width == target_width
                &&& r->Ok_0@.height == target_height
                &&& r->Ok_0@.wf()
                &&& exists|resized: image::DynamicImage|
                    r->Ok_0@.pixels == (if invert {
                        inverted(#[trigger] luma_pixels(resized))
                    } else {
                        luma_pixels(resized)
                    })
            },
    {
        if !self.can_resize(img, target_width, target_height) {
            return Err(PrepareError::TooLarge);
        }
        match self.resize_image(img, target_width, target_height) {
            Ok(resized) => Ok(self.finish_target_image(&resized, invert)),
            Err(failure) => Err(PrepareError::Resize(failure)),
        }
    }

    /// Whether resizing `img` to the requested size stays within what
    /// buffers can hold.
    pub fn can_resize(&self, img: &image::DynamicImage, target_width: u32, target_height: u32) -> (fits:
        bool)
        ensures
            fits == resize_fits(*img, target_width, target_height),
    {
        let (source_width, _source_height) = dynamic_dimensions(img);
        proof {
            crate::ascii_generator::lemma_product_bound(target_width as int, target_height as int);
            crate::ascii_generator::lemma_product_bound(source_width as int, target_height as int);
        }
        let limit: u128 = isize::MAX as u128;
        let resized: u128 = 3 * ((target_width as u128) * (target_height as u128));
        let intermediate: u128 = 3 * ((source_width as u128) * (target_height as u128)) + 3;
        resized <= limit && intermediate <= limit
    }

    /// Resizes an image to the requested size.
    pub fn resize_image(&self, img: &image::DynamicImage, target_width: u32, target_height: u32) -> (r:
        Result<image::DynamicImage, ResizeFailure>)
        requires
            resize_fits(*img, target_width, target_height),
        ensures
            r is Ok ==> dynamic_width(r->Ok_0) == target_width && dynamic_height(r->Ok_0)
                == target_height,
    {
        resize_rgb(img, target_width, target_height)
    }

    /// Converts an image to grayscale.
    pub fn convert_to_grayscale(&self, img: &image::DynamicImage) -> (gray: GrayImage)
        ensures
            gray@.width == dynamic_width(*img),
            gray@.height == dynamic_height(*img),
            gray@.pixels == luma_pixels(*img),
            gray@.wf(),
    {
        let gray = luma_of(img);
        let _dimensions = gray.dimensions();
        gray
    }

    /// Turns a resized image into a target bitmap: its grayscale version,
    /// inverted if asked.
    pub fn finish_target_image(&self, resized: &image::DynamicImage, invert: bool) -> (target:
        GrayImage)
        ensures
            target@.width == dynamic_width(*resized),
            target@.height == dynamic_height(*resized),
            target@.wf(),
            target@.pixels == (if invert {
                inverted(luma_pixels(*resized))
            } else {
                luma_pixels(*resized)
            }),
    {
        let mut grayscale = self.convert_to_grayscale(resized);
        if invert {
            self.invert_image(&mut grayscale);
        }
        grayscale
    }

    /// Inverts a bitmap: every intensity `v` becomes `255 - v`.
    pub fn invert_image(&self, img: &mut GrayImage)
        ensures
            final(img)@.width == old(img)@.width,
            final(img)@.height == old(img)@.height,
            final(img)@.wf(),
            final(img)@.pixels == inverted(old(img)@.pixels),
    {
        let (width, height) = img.dimensions();
        let ghost before = img@;
        let mut y: u32 = 0;
        while y < height
            invariant
                y <= height,
                before.wf(),
                img@.width == before.width == width,
                img@.height == before.height == height,
                img@.wf(),
                forall|px: int, py: int|
                    before.contains(px, py) ==> #[trigger] img@.pixel(px, py) == (if py < y {
                        (255 - before.pixel(px, py)) as u8
                    } else {
                        before.pixel(px, py)
                    }),
            decreases height - y,
        {
            let mut x: u32 = 0;
            while x < width
                invariant
                    y < height,
                    x <= width,
                    before.wf(),
                    img@.width == before.width == width,
                    img@.height == before.height == height,
                    img@.wf(),
                    forall|px: int, py: int|
                        before.contains(px, py) ==> #[trigger] img@.pixel(px, py) == (if py < y || (py
                            == y && px < x) {
                            (255 - before.pixel(px, py)) as u8
                        } else {
                            before.pixel(px, py)
                        }),
                decreases width - x,
            {
                let value = img.get_pixel(x, y);
                img.put_pixel(x, y, 255 - value);
                x = x + 1;
            }
            y = y + 1;
        }
        proof {
            let goal = inverted(before.pixels);
            assert forall|k: int| 0 <= k < img@.pixels.len() implies img@.pixels[k] == goal[k] by {
                lemma_pixel_of_index(k, width as int, height as int);
                assert(before.contains(k % width as int, k / width as int));
                assert(img@.pixel(k % width as int, k / width as int) == img@.pixels[k]);
                assert(before.pixel(k % width as int, k / width as int) == before.pixels[k]);
            }
            assert(img@.pixels =~= goal);
        }
    }
}

} // verus!
