//! Bilinear resizing of packed RGB buffers with `fast_image_resize`.
use vstd::prelude::*;

use fast_image_resize::images::{Image, ImageRef};
use fast_image_resize::{
    FilterType, ImageBufferError, PixelType, ResizeAlg, ResizeError, ResizeOptions, Resizer,
};

verus! {

/// `fast_image_resize::Resizer`, used opaquely.
#[verifier::external_type_specification]
#[verifier::external_body]
pub struct ExResizer(Resizer);

/// `fast_image_resize::ImageBufferError`, used opaquely.
#[verifier::external_type_specification]
#[verifier::external_body]
pub struct ExImageBufferError(ImageBufferError);

/// `fast_image_resize::ResizeError`, used opaquely.
#[verifier::external_type_specification]
#[verifier::external_body]
pub struct ExResizeError(ResizeError);

/// `fast_image_resize::Resizer::new`: a resizer for the best CPU extensions
/// available. Nothing is claimed of the value.
pub assume_specification[ Resizer::new ]() -> Resizer;

/// Why a resize call failed.
#[derive(Debug)]
pub enum ResizeFailure {
    /// A pixel buffer was too small (or misaligned) for its dimensions.
    Buffer(ImageBufferError),
    /// The resizer refused the images.
    Resize(ResizeError),
}

/// The packed RGB image (`dst_w × dst_h`) that bilinear convolution makes of
/// the packed RGB image `src` (`src_w × src_h`): what `fast_image_resize`'s
/// `Resizer::resize` writes for two `U8x3` images with
/// `ResizeAlg::Convolution(FilterType::Bilinear)`.
pub uninterp spec fn bilinear_rgb(src: Seq<u8>, src_w: u32, src_h: u32, dst_w: u32, dst_h: u32) -> Seq<u8>;

/// Resizes the packed RGB image `src` (`src_w × src_h`) into the first
/// `dst_len` bytes of `dst`, read as a packed RGB image `dst_w × dst_h`, with
/// bilinear convolution.
///
/// Calls `ImageRef::new`, `Image::from_slice_u8` (both `PixelType::U8x3`)
/// and `Resizer::resize` with `ResizeAlg::Convolution(FilterType::Bilinear)`.
/// Claimed: `dst` keeps its length and its bytes from `dst_len` on; the call
/// succeeds exactly when both buffers hold at least `width × height × 3`
/// bytes (the two constructors check this, `U8x3` needs no alignment, and
/// `resize` refuses nothing else for two `U8x3` images without cropping);
/// on success the first `dst_w × dst_h × 3` bytes of `dst` are
/// `bilinear_rgb` of the source's pixels and the four sizes. That names the
/// result as a function of those arguments alone: the convolution overwrites
/// every destination byte, and the crate's own tests expect one checksum for
/// this pixel type on every CPU extension. What the bytes are is not stated
/// further. The byte counts must fit in `usize`, as the constructors compute
/// them there, and every size must be non-zero: `resize` returns `Ok`
/// without writing anything when a side of either image is zero.
#[verifier::external_body]
pub(crate) fn resize_rgb_bilinear(
    resizer: &mut Resizer,
    src: &Vec<u8>,
    src_w: u32,
    src_h: u32,
    dst: &mut Vec<u8>,
    dst_len: usize,
    dst_w: u32,
    dst_h: u32,
) -> (r: Result<(), ResizeFailure>)
    requires
        src_w > 0,
        src_h > 0,
        dst_w > 0,
        dst_h > 0,
        dst_len <= old(dst).len(),
        src_w * src_h * 3 <= usize::MAX,
        dst_w * dst_h * 3 <= usize::MAX,
    ensures
        final(dst).len() == old(dst).len(),
        final(dst)@.subrange(dst_len as int, final(dst).len() as int) == old(dst)@.subrange(
            dst_len as int,
            old(dst).len() as int,
        ),
        r is Ok <==> (src.len() >= src_w * src_h * 3 && dst_len >= dst_w * dst_h * 3),
        r is Ok ==> final(dst)@.subrange(0, dst_w * dst_h * 3) == bilinear_rgb(
            src@.subrange(0, src_w * src_h * 3),
            src_w,
            src_h,
            dst_w,
            dst_h,
        ),
{
    let src_view = ImageRef::new(src_w, src_h, src.as_slice(), PixelType::U8x3).map_err(
        ResizeFailure::Buffer,
    )?;
    let mut dst_view = Image::from_slice_u8(dst_w, dst_h, &mut dst[..dst_len], PixelType::U8x3)
        .map_err(ResizeFailure::Buffer)?;
    resizer.resize(
        &src_view,
        &mut dst_view,
        &ResizeOptions::new().resize_alg(ResizeAlg::Convolution(FilterType::Bilinear)),
    ).map_err(ResizeFailure::Resize)
}

} // verus!
