//! Input validation and the colour write-back pass.
//!
//! Validation is the single externally visible failure point of the
//! pipeline: it runs before anything is touched, so a rejected call leaves
//! the pixel buffer unchanged. The write-back pass re-injects enhanced
//! luminances into the pixels while keeping each pixel's hue and saturation,
//! and passes any alpha channel through untouched.

use crate::color::{hsv_to_rgb, hsv_to_rgb_spec, hue_spec, rgb_to_hsv, sat_spec};
use vstd::arithmetic::div_mod::lemma_fundamental_div_mod;
use vstd::prelude::*;

verus! {

/// The one externally visible failure: the buffer length, width, channel
/// count and block dimensions do not describe an image.
#[derive(Clone, Copy, Debug, PartialEq, Eq, Structural)]
pub struct InvalidInput;

/// Whether the arguments describe an image: 3 or 4 channels, a positive
/// width and positive block dimensions, and a buffer of exactly
/// `width * height * channel_count` bytes for some positive height.
pub open spec fn valid_dimensions(
    buffer_len: int,
    width: int,
    channel_count: int,
    block_width: int,
    block_height: int,
) -> bool {
    &&& channel_count == 3 || channel_count == 4
    &&& width >= 1
    &&& block_width >= 1
    &&& block_height >= 1
    &&& buffer_len % channel_count == 0
    &&& (buffer_len / channel_count) % width == 0
    &&& buffer_len / channel_count / width >= 1
}

/// Checks the inputs of one enhancement call and returns the image height.
///
/// Succeeds exactly on valid dimensions. Nothing is read from or written to
/// the pixel buffer here, so a rejected call leaves it untouched.
pub fn validate_dimensions(
    buffer_len: usize,
    width: usize,
    channel_count: usize,
    block_width: usize,
    block_height: usize,
) -> (r: Result<usize, InvalidInput>)
    ensures
        r is Ok <==> valid_dimensions(
            buffer_len as int,
            width as int,
            channel_count as int,
            block_width as int,
            block_height as int,
        ),
        r matches Ok(height) ==> {
            &&& height == buffer_len as int / channel_count as int / width as int
            &&& 1 <= height
            &&& buffer_len == width * height * channel_count
            &&& width * height <= usize::MAX
        },
{
    if !(channel_count == 3 || channel_count == 4) {
        return Err(InvalidInput);
    }
    if width == 0 || block_width == 0 || block_height == 0 {
        return Err(InvalidInput);
    }
    if buffer_len % channel_count != 0 {
        return Err(InvalidInput);
    }
    let pixel_count: usize = buffer_len / channel_count;
    if pixel_count % width != 0 {
        return Err(InvalidInput);
    }
    let height: usize = pixel_count / width;
    if height == 0 {
        return Err(InvalidInput);
    }
    proof {
        lemma_fundamental_div_mod(buffer_len as int, channel_count as int);
        lemma_fundamental_div_mod(pixel_count as int, width as int);
        assert(width as int * height as int == pixel_count);
        assert(width as int * height as int * channel_count as int == channel_count as int * (
        width as int * height as int)) by (nonlinear_arith);
    }
    Ok(height)
}

/// One written-back pixel: channels `channel_count * i ..` of `after` hold
/// the recombination of the pixel's original hue and saturation with its new
/// luminance `lums[i]`, and a fourth (alpha) channel is carried over.
pub open spec fn pixel_reconstructed(
    before: Seq<u8>,
    after: Seq<u8>,
    lums: Seq<u8>,
    channel_count: int,
    i: int,
) -> bool {
    let r = before[channel_count * i] as int;
    let g = before[channel_count * i + 1] as int;
    let b = before[channel_count * i + 2] as int;
    let out = hsv_to_rgb_spec(hue_spec(r, g, b), sat_spec(r, g, b), lums[i] as int);
    &&& after[channel_count * i] == out.0
    &&& after[channel_count * i + 1] == out.1
    &&& after[channel_count * i + 2] == out.2
    &&& (channel_count == 4 ==> after[channel_count * i + 3] == before[channel_count * i + 3])
}

/// Writes the enhanced luminances back into the pixel buffer: every pixel
/// keeps its hue and saturation and takes its new luminance; alpha bytes,
/// when present, are unchanged.
pub fn reconstruct_colors(pixels: &mut Vec<u8>, lums: &[u8], channel_count: usize)
    requires
        channel_count == 3 || channel_count == 4,
        old(pixels)@.len() == channel_count * lums@.len(),
    ensures
        final(pixels)@.len() == old(pixels)@.len(),
        forall|i: int|
            0 <= i < lums@.len() ==> #[trigger] pixel_reconstructed(
                old(pixels)@,
                final(pixels)@,
                lums@,
                channel_count as int,
                i,
            ),
{
    let n: usize = lums.len();
    let total: usize = pixels.len();
    let mut i: usize = 0;
    while i < n
        invariant
            channel_count == 3 || channel_count == 4,
            n == lums@.len(),
            total == pixels@.len(),
            pixels@.len() == old(pixels)@.len(),
            old(pixels)@.len() == channel_count * n,
            i <= n,
            forall|j: int|
                0 <= j < i ==> #[trigger] pixel_reconstructed(
                    old(pixels)@,
                    pixels@,
                    lums@,
                    channel_count as int,
                    j,
                ),
            forall|j: int|
                channel_count * i <= j < pixels@.len() ==> pixels@[j] == old(pixels)@[j],
        decreases n - i,
    {
        proof {
            assert(channel_count * (i + 1) <= channel_count * n) by (nonlinear_arith)
                requires
                    i + 1 <= n,
                    channel_count >= 0,
            ;
            assert(channel_count * (i + 1) == channel_count * i + channel_count)
                by (nonlinear_arith);
            assert(channel_count * i >= 0) by (nonlinear_arith)
                requires
                    i >= 0,
                    channel_count >= 0,
            ;
        }
        let base: usize = channel_count * i;
        let r: u8 = pixels[base];
        let g: u8 = pixels[base + 1];
        let b: u8 = pixels[base + 2];
        let hsv = rgb_to_hsv(r, g, b);
        let rgb = hsv_to_rgb(hsv.0, hsv.1, lums[i]);
        let ghost pre = pixels@;
        pixels[base] = rgb.0;
        pixels[base + 1] = rgb.1;
        pixels[base + 2] = rgb.2;
        i = i + 1;
        proof {
            assert(pixel_reconstructed(
                old(pixels)@,
                pixels@,
                lums@,
                channel_count as int,
                i - 1,
            ));
            assert forall|j: int| 0 <= j < i - 1 implies #[trigger] pixel_reconstructed(
                old(pixels)@,
                pixels@,
                lums@,
                channel_count as int,
                j,
            ) by {
                assert(pixel_reconstructed(
                    old(pixels)@,
                    pre,
                    lums@,
                    channel_count as int,
                    j,
                ));
                assert(channel_count * (j + 1) <= channel_count * (i - 1)) by (nonlinear_arith)
                    requires
                        j + 1 <= i - 1,
                        channel_count >= 0,
                ;
                assert(channel_count * (j + 1) == channel_count * j + channel_count)
                    by (nonlinear_arith);
                assert(channel_count * j >= 0) by (nonlinear_arith)
                    requires
                        j >= 0,
                        channel_count >= 0,
                ;
            }
        }
    }
}

} // verus!
