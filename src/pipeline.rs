use vstd::prelude::*;

use crate::buffer::PixelBuffer;
use crate::pixelator::{is_pixelation_of, pixelate, OutputMode};
use crate::reconcile::{
    crop_offset, cropped_len, divisible, is_crop_of, is_scale_factor, reconcile, DimensionError,
};

verus! {

/// `out` is the pixelation, at scale `s`, of the crop that makes `b`
/// divisible by `s`.
pub open spec fn is_pixelation_of_crop(
    out: PixelBuffer,
    b: PixelBuffer,
    s: int,
    centre: bool,
    mode: OutputMode,
) -> bool {
    exists|c: PixelBuffer|
        is_crop_of(
            c,
            b,
            crop_offset(b.width as int, s, centre),
            crop_offset(b.height as int, s, centre),
            cropped_len(b.width as int, s),
            cropped_len(b.height as int, s),
        ) && #[trigger] is_pixelation_of(out, c, s, mode)
}

/// Whether `value` may be used as a scale factor.
pub fn is_valid_scale_factor(value: u8) -> (r: bool)
    ensures
        r == is_scale_factor(value as int),
{
    2 <= value && value <= 8
}

/// Reconciles `buffer` with `scale_factor` and pixelates what comes out.
pub fn pixelate_image(
    buffer: PixelBuffer,
    scale_factor: u8,
    allow_crop: bool,
    centre: bool,
    mode: OutputMode,
) -> (r: Result<PixelBuffer, DimensionError>)
    requires
        buffer.wf(),
        is_scale_factor(scale_factor as int),
    ensures
        divisible(buffer.width as int, buffer.height as int, scale_factor as int) ==> (r matches Ok(
            out,
        ) && is_pixelation_of(out, buffer, scale_factor as int, mode)),
        !divisible(buffer.width as int, buffer.height as int, scale_factor as int) && !allow_crop
            ==> r == Err::<PixelBuffer, DimensionError>(DimensionError::NotDivisible),
        !divisible(buffer.width as int, buffer.height as int, scale_factor as int) && allow_crop
            && (buffer.width < scale_factor || buffer.height < scale_factor) ==> r == Err::<
            PixelBuffer,
            DimensionError,
        >(DimensionError::ImageTooSmall),
        !divisible(buffer.width as int, buffer.height as int, scale_factor as int) && allow_crop
            && buffer.width >= scale_factor && buffer.height >= scale_factor ==> (r is Ok
            && is_pixelation_of_crop(r->Ok_0, buffer, scale_factor as int, centre, mode)),
{
    let ghost input = buffer;
    match reconcile(buffer, scale_factor, allow_crop, centre) {
        Ok(fitted) => {
            proof {
                if !divisible(input.width as int, input.height as int, scale_factor as int) {
                    crate::reconcile::lemma_cropped_len(input.width as int, scale_factor as int);
                    crate::reconcile::lemma_cropped_len(input.height as int, scale_factor as int);
                }
            }
            let out = pixelate(&fitted, scale_factor, mode);
            proof {
                let s = scale_factor as int;
                if !divisible(input.width as int, input.height as int, s) && allow_crop
                    && input.width >= scale_factor && input.height >= scale_factor {
                    assert(is_crop_of(
                        fitted,
                        input,
                        crop_offset(input.width as int, s, centre),
                        crop_offset(input.height as int, s, centre),
                        cropped_len(input.width as int, s),
                        cropped_len(input.height as int, s),
                    ));
                    assert(is_pixelation_of(out, fitted, s, mode));
                    assert(is_pixelation_of_crop(out, input, s, centre, mode));
                }
            }
            Ok(out)
        },
        Err(e) => Err(e),
    }
}

} // verus!
