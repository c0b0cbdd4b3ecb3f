use vstd::prelude::*;

use crate::buffer::{index_of, lemma_index_in_grid, PixelBuffer, Rgba};

verus! {

/// Why an image could not be brought to dimensions divisible by the scale
/// factor.
#[derive(Clone, Copy, Debug, PartialEq, Eq, Structural)]
pub enum DimensionError {
    /// The dimensions are not multiples of the scale factor and cropping was
    /// not allowed.
    NotDivisible,
    /// Cropping would leave no complete block in at least one direction.
    ImageTooSmall,
}

/// A sub-rectangle of an image: its top-left corner and its size.
#[derive(Clone, Copy, Debug, PartialEq, Eq, Structural)]
pub struct CropRect {
    pub x: u32,
    pub y: u32,
    pub width: u32,
    pub height: u32,
}

/// Scale factors accepted by the pixelation: 2 to 8 inclusive.
pub open spec fn is_scale_factor(s: int) -> bool {
    2 <= s <= 8
}

pub open spec fn divisible(width: int, height: int, s: int) -> bool {
    width % s == 0 && height % s == 0
}

/// The largest multiple of `s` that does not exceed `len`.
pub open spec fn cropped_len(len: int, s: int) -> int {
    len - len % s
}

/// Where a crop along one axis starts: at 0, or centred with the odd pixel
/// (if any) left on the far side.
pub open spec fn crop_offset(len: int, s: int, centre: bool) -> int {
    if centre {
        (len - cropped_len(len, s)) / 2
    } else {
        0
    }
}

pub proof fn lemma_cropped_len(len: int, s: int)
    requires
        len >= 0,
        s > 0,
    ensures
        0 <= cropped_len(len, s) <= len < cropped_len(len, s) + s,
        cropped_len(len, s) % s == 0,
        cropped_len(len, s) == 0 <==> len < s,
{
    let q = len / s;
    let m = len % s;
    vstd::arithmetic::div_mod::lemma_fundamental_div_mod(len, s);
    vstd::arithmetic::div_mod::lemma_mod_multiples_basic(q, s);
    assert(s * q == q * s) by (nonlinear_arith);
    if len < s {
        vstd::arithmetic::div_mod::lemma_small_mod(len as nat, s as nat);
    } else {
        assert(m < s <= len);
    }
}

/// `r` holds the `w × h` region of `b` whose top-left corner is `(x0, y0)`.
pub open spec fn is_crop_of(r: PixelBuffer, b: PixelBuffer, x0: int, y0: int, w: int, h: int) -> bool {
    &&& r.wf()
    &&& r.width == w
    &&& r.height == h
    &&& forall|i: int, j: int|
        0 <= i < w && 0 <= j < h ==> #[trigger] r.pixel_at(i, j) == b.pixel_at(x0 + i, y0 + j)
}

/// The crop that makes a `width × height` image divisible by `scale_factor`:
/// each side shrinks to its largest multiple of the scale factor, and the
/// region starts at the origin or, with `centre`, in the middle.
pub fn crop_rect(width: u32, height: u32, scale_factor: u8, centre: bool) -> (r: CropRect)
    requires
        is_scale_factor(scale_factor as int),
    ensures
        r.width == cropped_len(width as int, scale_factor as int),
        r.height == cropped_len(height as int, scale_factor as int),
        r.x == crop_offset(width as int, scale_factor as int, centre),
        r.y == crop_offset(height as int, scale_factor as int, centre),
        r.width as int % scale_factor as int == 0,
        r.height as int % scale_factor as int == 0,
        r.width <= width < r.width + scale_factor,
        r.height <= height < r.height + scale_factor,
        r.x + r.width <= width,
        r.y + r.height <= height,
{
    let s = scale_factor as u32;
    proof {
        lemma_cropped_len(width as int, s as int);
        lemma_cropped_len(height as int, s as int);
    }
    let new_width = width - width % s;
    let new_height = height - height % s;
    let (x, y) = if centre {
        ((width - new_width) / 2, (height - new_height) / 2)
    } else {
        (0, 0)
    };
    CropRect { x, y, width: new_width, height: new_height }
}

/// Copies the region `rect` out of `buffer`.
pub fn crop(buffer: &PixelBuffer, rect: CropRect) -> (r: PixelBuffer)
    requires
        buffer.wf(),
        rect.x + rect.width <= buffer.width,
        rect.y + rect.height <= buffer.height,
    ensures
        is_crop_of(r, *buffer, rect.x as int, rect.y as int, rect.width as int, rect.height as int),
{
    let w = rect.width;
    let h = rect.height;
    let mut out: Vec<Rgba> = Vec::new();
    let mut y: u32 = 0;
    while y < h
        invariant
            buffer.wf(),
            rect.x + w <= buffer.width,
            rect.y + h <= buffer.height,
            w == rect.width,
            h == rect.height,
            y <= h,
            out@.len() == y * w,
            forall|i: int, j: int|
                0 <= i < w && 0 <= j < y ==> out@[#[trigger] index_of(w as int, i, j)]
                    == buffer.pixel_at(rect.x + i, rect.y + j),
        decreases h - y,
    {
        let mut x: u32 = 0;
        while x < w
            invariant
                buffer.wf(),
                rect.x + w <= buffer.width,
                rect.y + h <= buffer.height,
                y < h,
                x <= w,
                out@.len() == y * w + x,
                forall|i: int, j: int|
                    0 <= i < w && 0 <= j < y ==> out@[#[trigger] index_of(w as int, i, j)]
                        == buffer.pixel_at(rect.x + i, rect.y + j),
                forall|i: int|
                    0 <= i < x ==> out@[#[trigger] index_of(w as int, i, y as int)]
                        == buffer.pixel_at(rect.x + i, rect.y + y),
            decreases w - x,
        {
            let p = buffer.get_pixel(rect.x + x, rect.y + y);
            let ghost before = out@;
            out.push(p);
            proof {
                assert forall|i: int, j: int|
                    0 <= i < w && 0 <= j < y implies out@[#[trigger] index_of(w as int, i, j)]
                        == buffer.pixel_at(rect.x + i, rect.y + j) by {
                    lemma_index_in_grid(w as int, y as int, i, j);
                    assert(w as int * y as int <= y as int * w as int + x as int) by (nonlinear_arith)
                        requires
                            x >= 0,
                    ;
                    assert(before[index_of(w as int, i, j)] == buffer.pixel_at(rect.x + i, rect.y + j));
                }
                assert forall|i: int|
                    0 <= i < x + 1 implies out@[#[trigger] index_of(w as int, i, y as int)]
                        == buffer.pixel_at(rect.x + i, rect.y + y) by {
                    if i < x {
                        assert(before[index_of(w as int, i, y as int)] == buffer.pixel_at(rect.x + i, rect.y + y));
                    }
                }
            }
            x = x + 1;
        }
        proof {
            assert((y + 1) * w == y * w + w) by (nonlinear_arith);
        }
        y = y + 1;
    }
    proof {
        assert(h * w == w * h) by (nonlinear_arith);
    }
    PixelBuffer { width: w, height: h, pixels: out }
}

/// Brings `buffer` to dimensions divisible by `scale_factor`: unchanged when
/// they already are, cropped when that is allowed and leaves at least one
/// block each way, and an error otherwise.
pub fn reconcile(buffer: PixelBuffer, scale_factor: u8, allow_crop: bool, centre: bool) -> (r:
    Result<PixelBuffer, DimensionError>)
    requires
        buffer.wf(),
        is_scale_factor(scale_factor as int),
    ensures
        divisible(buffer.width as int, buffer.height as int, scale_factor as int) ==> r == Ok::<
            PixelBuffer,
            DimensionError,
        >(buffer),
        !divisible(buffer.width as int, buffer.height as int, scale_factor as int) && !allow_crop
            ==> r == Err::<PixelBuffer, DimensionError>(DimensionError::NotDivisible),
        !divisible(buffer.width as int, buffer.height as int, scale_factor as int) && allow_crop
            && (buffer.width < scale_factor || buffer.height < scale_factor) ==> r == Err::<
            PixelBuffer,
            DimensionError,
        >(DimensionError::ImageTooSmall),
        !divisible(buffer.width as int, buffer.height as int, scale_factor as int) && allow_crop
            && buffer.width >= scale_factor && buffer.height >= scale_factor ==> (r matches Ok(c)
            && is_crop_of(
            c,
            buffer,
            crop_offset(buffer.width as int, scale_factor as int, centre),
            crop_offset(buffer.height as int, scale_factor as int, centre),
            cropped_len(buffer.width as int, scale_factor as int),
            cropped_len(buffer.height as int, scale_factor as int),
        )),
{
    let s = scale_factor as u32;
    if buffer.width % s == 0 && buffer.height % s == 0 {
        return Ok(buffer);
    }
    if !allow_crop {
        return Err(DimensionError::NotDivisible);
    }
    let rect = crop_rect(buffer.width, buffer.height, scale_factor, centre);
    proof {
        lemma_cropped_len(buffer.width as int, s as int);
        lemma_cropped_len(buffer.height as int, s as int);
    }
    if rect.width == 0 || rect.height == 0 {
        return Err(DimensionError::ImageTooSmall);
    }
    Ok(crop(&buffer, rect))
}

} // verus!
