//! The decoded image, as far as the stripes read it.
//!
//! The image itself is a `DynamicImage` of the `image` crate. Nothing here
//! is proved about that crate: the three contracts below say what its source
//! shows of the three calls that the stripes make, over names for the width,
//! the height and the pixels of an image.

use vstd::prelude::*;
use crate::pixel::Pixel;

verus! {

/// `image::DynamicImage`, a decoded raster in any of the crate's pixel
/// formats. Its contents are known only through the names below.
#[verifier::external_type_specification]
#[verifier::external_body]
pub struct ExDynamicImage(image::DynamicImage);

/// The number of pixel columns of an image.
pub uninterp spec fn raster_width(img: image::DynamicImage) -> u32;

/// The number of pixel rows of an image.
pub uninterp spec fn raster_height(img: image::DynamicImage) -> u32;

/// The pixels of an image by column and row, counted from the top left
/// corner, each as the 8-bit RGBA value that the image yields for it.
pub uninterp spec fn raster_pixels(img: image::DynamicImage) -> Map<(int, int), Pixel>;

/// `DynamicImage::width`: returns the width of the underlying buffer. The
/// contract gives that number its name and claims nothing more.
pub assume_specification[ image::DynamicImage::width ](img: &image::DynamicImage) -> (w: u32)
    ensures
        w == raster_width(*img),
;

/// `DynamicImage::height`: returns the height of the underlying buffer. The
/// contract gives that number its name and claims nothing more.
pub assume_specification[ image::DynamicImage::height ](img: &image::DynamicImage) -> (h: u32)
    ensures
        h == raster_height(*img),
;

/// `GenericImageView::get_pixel` on a `DynamicImage`: looks the pixel up in
/// the underlying buffer and converts it to 8-bit RGBA. The call panics
/// outside the image, so the contract admits coordinates inside it only. It
/// claims that the four channels returned are those of the named pixel, that
/// is, that the same image gives the same pixel at the same place every
/// time.
#[verifier::external_body]
pub(crate) fn raster_pixel(img: &image::DynamicImage, x: u32, y: u32) -> (pixel: Pixel)
    requires
        x < raster_width(*img),
        y < raster_height(*img),
    ensures
        pixel == raster_pixels(*img)[(x as int, y as int)],
{
    let rgba = image::GenericImageView::get_pixel(img, x, y);
    Pixel { r: rgba.0[0], g: rgba.0[1], b: rgba.0[2], a: rgba.0[3] }
}

} // verus!
