use crate::dimensions::LayerDimensions;
use vstd::prelude::*;

verus! {

/// The error of the `image` crate. Nothing is read from it: any such error
/// becomes `PackError::DecodeError`.
#[verifier::external_type_specification]
#[verifier::external_body]
pub struct ExImageError(image::ImageError);

/// What `image::imageops::resize` with the nearest-neighbour filter makes of
/// an RGBA buffer of `src_width` by `src_height` pixels when asked for
/// `width` by `height` pixels.
pub uninterp spec fn resized_nearest(
    pixels: Seq<u8>,
    src_width: u32,
    src_height: u32,
    width: u32,
    height: u32,
) -> Seq<u8>;

/// Calls `image::load_from_memory`, which guesses the format from the
/// content, and `DynamicImage::to_rgba8` on what it returns. Trusted: the
/// RGBA buffer, which `to_rgba8` allocates anew for the image's width and
/// height, has four bytes per pixel. Nothing is claimed of which content
/// decodes, nor of the pixel values: some decoders choose their arithmetic
/// by the processor they run on.
#[verifier::external_body]
pub(crate) fn decode_rgba(encoded: &[u8]) -> (decoded: Result<
    (u32, u32, Vec<u8>),
    image::ImageError,
>)
    ensures
        decoded matches Ok((width, height, pixels)) ==> pixels@.len() == 4 * (width * height),
{
    let rgba = image::load_from_memory(encoded)?.to_rgba8();
    Ok((rgba.width(), rgba.height(), rgba.into_raw()))
}

/// The four bytes of pixel `t` of an RGBA buffer.
pub open spec fn pixel_at(buffer: Seq<u8>, t: int) -> Seq<u8> {
    buffer.subrange(4 * t, 4 * t + 4)
}

/// Every pixel of `resized` is, in all four bytes, some pixel of `pixels`:
/// nothing is blended.
pub open spec fn taken_from(resized: Seq<u8>, pixels: Seq<u8>) -> bool {
    forall|t: int|
        0 <= t && 4 * t + 4 <= resized.len() ==> exists|s: int|
            0 <= s && 4 * s + 4 <= pixels.len() && #[trigger] pixel_at(pixels, s) == #[trigger] pixel_at(
                resized,
                t,
            )
}

/// Calls `image::imageops::resize` with `FilterType::Nearest` on the RGBA
/// buffer `pixels`. Trusted: the outcome depends on the arguments alone; the
/// buffer that comes back, which `resize` allocates for the new width and
/// height, has four bytes per pixel; a source that already has the new size
/// is copied; and with this filter each pixel that comes back is one pixel
/// of the source, taken with weight one. An empty source, on which the
/// sampling would index out of bounds, is left out.
#[verifier::external_body]
pub(crate) fn resize_nearest(
    pixels: &[u8],
    src_width: u32,
    src_height: u32,
    dimensions: &LayerDimensions,
) -> (resized: Vec<u8>)
    requires
        src_width >= 1,
        src_height >= 1,
        pixels@.len() == 4 * (src_width * src_height),
        dimensions.wf(),
    ensures
        resized@ == resized_nearest(
            pixels@,
            src_width,
            src_height,
            dimensions.width,
            dimensions.height,
        ),
        resized@.len() == 4 * (dimensions.width * dimensions.height),
        src_width == dimensions.width && src_height == dimensions.height ==> resized@ == pixels@,
        taken_from(resized@, pixels@),
{
    let source: image::ImageBuffer<image::Rgba<u8>, &[u8]> = image::ImageBuffer::from_raw(
        src_width,
        src_height,
        pixels,
    ).unwrap();
    let filter = image::imageops::FilterType::Nearest;
    image::imageops::resize(&source, dimensions.width, dimensions.height, filter).into_raw()
}

} // verus!
