use vstd::prelude::*;

verus! {

/// One pixel: four 8-bit channels, red, green, blue and alpha.
#[derive(Clone, Copy, Debug, PartialEq, Eq, Structural)]
pub struct Rgba {
    pub r: u8,
    pub g: u8,
    pub b: u8,
    pub a: u8,
}

impl Rgba {
    pub fn new(r: u8, g: u8, b: u8, a: u8) -> (p: Rgba)
        ensures
            p == (Rgba { r, g, b, a }),
    {
        Rgba { r, g, b, a }
    }
}

/// A `width × height` grid of pixels, stored row by row: the pixel at column
/// `x` and row `y` is `pixels[y * width + x]`.
#[derive(Clone, Debug)]
pub struct PixelBuffer {
    pub width: u32,
    pub height: u32,
    pub pixels: Vec<Rgba>,
}

/// Position of column `x`, row `y` in a row-major grid of the given width.
pub open spec fn index_of(width: int, x: int, y: int) -> int {
    y * width + x
}

impl PixelBuffer {
    /// The grid holds exactly one pixel per position.
    pub open spec fn wf(&self) -> bool {
        self.pixels@.len() == self.width as int * self.height as int
    }

    pub open spec fn pixel_at(&self, x: int, y: int) -> Rgba {
        self.pixels@[index_of(self.width as int, x, y)]
    }

    /// Builds a buffer from its pixels in row-major order; `None` when their
    /// number is not `width * height`.
    pub fn from_pixels(width: u32, height: u32, pixels: Vec<Rgba>) -> (r: Option<PixelBuffer>)
        ensures
            r is Some <==> pixels@.len() == width as int * height as int,
            r matches Some(b) ==> b.wf() && b.width == width && b.height == height
                && b.pixels@ == pixels@,
    {
        proof {
            lemma_u32_product_fits(width, height);
        }
        if (width as u64) * (height as u64) == pixels.len() as u64 {
            Some(PixelBuffer { width, height, pixels })
        } else {
            None
        }
    }

    pub fn width(&self) -> (r: u32)
        ensures
            r == self.width,
    {
        self.width
    }

    pub fn height(&self) -> (r: u32)
        ensures
            r == self.height,
    {
        self.height
    }

    /// The pixel at column `x`, row `y`.
    pub fn get_pixel(&self, x: u32, y: u32) -> (p: Rgba)
        requires
            self.wf(),
            x < self.width,
            y < self.height,
        ensures
            p == self.pixel_at(x as int, y as int),
    {
        let i = self.index(x, y);
        self.pixels[i]
    }

    /// Position of column `x`, row `y` in `pixels`.
    pub(crate) fn index(&self, x: u32, y: u32) -> (i: usize)
        requires
            self.wf(),
            x < self.width,
            y < self.height,
        ensures
            i as int == index_of(self.width as int, x as int, y as int),
            i < self.pixels@.len(),
    {
        let n = self.pixels.len();
        proof {
            lemma_index_in_grid(self.width as int, self.height as int, x as int, y as int);
        }
        y as usize * self.width as usize + x as usize
    }
}

pub proof fn lemma_index_in_grid(width: int, height: int, x: int, y: int)
    requires
        0 <= x < width,
        0 <= y < height,
    ensures
        0 <= index_of(width, x, y) < width * height,
        y * width <= index_of(width, x, y),
{
    assert(y * width + x < width * height) by (nonlinear_arith)
        requires
            0 <= x < width,
            0 <= y < height,
    ;
    assert(0 <= y * width) by (nonlinear_arith)
        requires
            0 <= y,
            0 <= width,
    ;
}

/// Two well-formed buffers of the same size that agree at every position hold
/// the same pixel sequence.
pub proof fn lemma_same_pixels(a: PixelBuffer, b: PixelBuffer)
    requires
        a.wf(),
        b.wf(),
        a.width == b.width,
        a.height == b.height,
        forall|x: int, y: int|
            0 <= x < a.width && 0 <= y < a.height ==> #[trigger] a.pixel_at(x, y) == b.pixel_at(x, y),
    ensures
        a.pixels@ == b.pixels@,
{
    let w = a.width as int;
    let h = a.height as int;
    assert forall|i: int| 0 <= i < a.pixels@.len() implies a.pixels@[i] == b.pixels@[i] by {
        let x = i % w;
        let y = i / w;
        vstd::arithmetic::div_mod::lemma_fundamental_div_mod(i, w);
        assert(0 <= y < h && 0 <= x < w) by (nonlinear_arith)
            requires
                0 <= i < w * h,
                w > 0,
                i == w * y + x,
                x == i % w,
                y == i / w,
        ;
        assert(index_of(w, x, y) == i) by (nonlinear_arith)
            requires
                i == w * y + x,
        ;
        assert(a.pixel_at(x, y) == b.pixel_at(x, y));
    }
    assert(a.pixels@ =~= b.pixels@);
}

proof fn lemma_u32_product_fits(a: u32, b: u32)
    ensures
        a as int * b as int <= u64::MAX,
{
    assert(a as int * b as int <= 0xffff_ffff * 0xffff_ffff) by (nonlinear_arith)
        requires
            a <= 0xffff_ffff,
            b <= 0xffff_ffff,
            a >= 0,
            b >= 0,
    ;
}

} // verus!
