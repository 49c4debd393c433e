//! Input preparation for the neural-network sheet detector.

use vstd::prelude::*;

use crate::raster::Raster;

verus! {

/// The row-major 8-bit luma pixels of the `size × size` image that the
/// `image` crate produces from a `width × height` RGBA image with
/// `DynamicImage::resize_exact(size, size, FilterType::Triangle)` followed
/// by `into_luma8`.
pub uninterp spec fn resized_luma(width: u32, height: u32, rgba: Seq<u8>, size: u32) -> Seq<u8>;

/// `DynamicImage::resize_exact` with the triangle filter, then
/// `into_luma8`, on an RGBA image.  The contract says that the result is
/// the named resampling and that a square luma image of side `size` holds
/// `size * size` bytes.
#[verifier::external_body]
fn resize_to_luma(width: u32, height: u32, rgba: &[u8], size: u32) -> (r: Vec<u8>)
    requires
        rgba@.len() == 4 * (width as int) * (height as int),
        4 * (size as int) * (size as int) <= usize::MAX,
    ensures
        r@ == resized_luma(width, height, rgba@, size),
        r@.len() == (size as int) * (size as int),
{
    match image::RgbaImage::from_raw(width, height, rgba.to_vec()) {
        Some(buf) => image::DynamicImage::ImageRgba8(buf)
            .resize_exact(size, size, image::imageops::FilterType::Triangle)
            .into_luma8()
            .into_raw(),
        None => Vec::new(),
    }
}

/// Resize an image to the detector's square input (`size × size`, triangle
/// filter) and convert it to 8-bit luma, row-major.
pub fn prepare_image(img: &Raster, size: u32) -> (r: Vec<u8>)
    requires
        4 * (size as int) * (size as int) <= usize::MAX,
    ensures
        r@ == resized_luma(img.spec_width(), img.spec_height(), img.rgba_bytes(), size),
        r@.len() == (size as int) * (size as int),
{
    resize_to_luma(img.width(), img.height(), img.as_rgba(), size)
}

} // verus!
