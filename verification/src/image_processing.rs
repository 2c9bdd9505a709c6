//! Preparing a decoded image: it is scaled down to the working height
//! where it is taller, and its brightness becomes the density field.

use vstd::prelude::*;
use image::imageops::FilterType;
use image::{DynamicImage, GenericImageView};
use crate::density::{DensityField, MAX_SIDE};

verus! {

/// The height in pixels that taller images are scaled down to.
pub const MAX_HEIGHT: u32 = 1080;

/// The decoded image of the `image` crate, carried as an opaque value:
/// its size and brightness are known through `image_size` and
/// `image_luma` alone.
#[verifier::external_type_specification]
#[verifier::external_body]
pub struct ExDynamicImage(DynamicImage);

/// How many pixels wide and high the image is.
pub uninterp spec fn image_size(image: DynamicImage) -> (u32, u32);

/// What the image holds, read as brightness: one byte for each pixel,
/// row by row.
pub uninterp spec fn image_luma(image: DynamicImage) -> Seq<u8>;

/// The size that an image of `width` by `height` pixels comes to when
/// it is scaled, its proportions kept, to fit `max_width` by
/// `max_height`.
pub uninterp spec fn fitted_size(width: u32, height: u32, max_width: u32, max_height: u32) -> (
    u32,
    u32,
);

/// `GenericImageView::dimensions` of a `DynamicImage`: its width and
/// height.
#[verifier::external_body]
fn size_of(image: &DynamicImage) -> (size: (u32, u32))
    ensures
        size == image_size(*image),
{
    image.dimensions()
}

/// `DynamicImage::resize` with the Lanczos filter of window 3: a new
/// image, scaled to the largest size of the same proportions that fits
/// the bounds. Claimed is only what size it has. The call is kept to
/// images with pixels and to bounds other than the image's own size.
#[verifier::external_body]
fn resized(image: &DynamicImage, width: u32, height: u32) -> (scaled: DynamicImage)
    requires
        image_size(*image).0 > 0,
        image_size(*image).1 > 0,
        (width, height) != image_size(*image),
    ensures
        image_size(scaled) == fitted_size(
            image_size(*image).0,
            image_size(*image).1,
            width,
            height,
        ),
{
    image.resize(width, height, FilterType::Lanczos3)
}

/// `DynamicImage::to_luma8` and `ImageBuffer::pixels`: the image's
/// pixels as 8-bit brightness, handed out one by one, row by row. The
/// gray copy has the size of the image, and `pixels` yields one pixel
/// for each place of it.
#[verifier::external_body]
fn luma_of(image: &DynamicImage) -> (bytes: Vec<u8>)
    ensures
        bytes@ == image_luma(*image),
        bytes@.len() == image_size(*image).0 * image_size(*image).1,
{
    image.to_luma8().pixels().map(|pixel| pixel.0[0]).collect()
}

/// The size that an image of `width` by `height` pixels is worked on
/// at: its own where it is no higher than `MAX_HEIGHT`, else
/// `MAX_HEIGHT` high and as wide as keeps its proportions, rounded
/// down.
pub open spec fn working_size(width: u32, height: u32) -> (u32, u32) {
    if height > MAX_HEIGHT {
        ((MAX_HEIGHT * width / (height as int)) as u32, MAX_HEIGHT)
    } else {
        (width, height)
    }
}

/// The size that an image of `width` by `height` pixels is worked on
/// at.
pub fn target_size(width: u32, height: u32) -> (size: (u32, u32))
    ensures
        size == working_size(width, height),
        size.0 <= width,
{
    if height > MAX_HEIGHT {
        assert(MAX_HEIGHT * width <= 1080 * 0xFFFF_FFFF) by (nonlinear_arith)
            requires
                MAX_HEIGHT == 1080,
                width <= 0xFFFF_FFFF,
        ;
        let scaled: u64 = (MAX_HEIGHT as u64) * (width as u64) / (height as u64);
        assert(scaled <= width) by (nonlinear_arith)
            requires
                scaled == (MAX_HEIGHT * width) / (height as int),
                height > MAX_HEIGHT,
                MAX_HEIGHT == 1080,
                width >= 0,
        ;
        (scaled as u32, MAX_HEIGHT)
    } else {
        (width, height)
    }
}

/// The image is worked on as it is: it is no higher than `MAX_HEIGHT`,
/// or so flat that scaling would not change its size, or without
/// pixels.
pub open spec fn kept_as_is(image: DynamicImage) -> bool {
    let (width, height) = image_size(image);
    working_size(width, height) == (width, height) || width == 0
}

/// Prepares a decoded image: an image higher than `MAX_HEIGHT` is
/// scaled down to its working size, and the brightness of what comes
/// of it is read into a density field. A field comes back for every
/// raster whose sides are no longer than `MAX_SIDE`.
pub fn load_and_grayscale(image: DynamicImage) -> (loaded: (DynamicImage, Option<DensityField>))
    ensures
        kept_as_is(image) ==> loaded.0 == image,
        !kept_as_is(image) ==> image_size(loaded.0) == fitted_size(
            image_size(image).0,
            image_size(image).1,
            working_size(image_size(image).0, image_size(image).1).0,
            working_size(image_size(image).0, image_size(image).1).1,
        ),
        loaded.1 is Some <==> image_size(loaded.0).0 <= MAX_SIDE && image_size(loaded.0).1
            <= MAX_SIDE,
        loaded.1 matches Some(field) ==> field.spec_width() == image_size(loaded.0).0
            && field.spec_height() == image_size(loaded.0).1 && field.samples() == image_luma(
            loaded.0,
        ),
{
    let (width, height): (u32, u32) = size_of(&image);
    let (new_width, new_height): (u32, u32) = target_size(width, height);
    let working: DynamicImage = if (new_width != width || new_height != height) && width > 0 {
        resized(&image, new_width, new_height)
    } else {
        image
    };
    let (w, h): (u32, u32) = size_of(&working);
    let field: Option<DensityField> = DensityField::new(w, h, luma_of(&working));
    (working, field)
}

} // verus!
