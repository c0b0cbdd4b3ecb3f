use vstd::prelude::*;

use crate::average::{average_pixels, lemma_mean_of_uniform, mean_pixel};
use crate::buffer::{index_of, lemma_index_in_grid, lemma_same_pixels, PixelBuffer, Rgba};
use crate::reconcile::{divisible, is_scale_factor};

verus! {

/// Size of the pixelated image.
#[derive(Clone, Copy, Debug, PartialEq, Eq, Structural)]
pub enum OutputMode {
    /// One output pixel per block.
    Shrink,
    /// The input's size, each block painted with its representative pixel.
    KeepDimensions,
}

/// The `s × s` pixels of block `(bx, by)`, block column by block column.
pub open spec fn block_pixels(b: PixelBuffer, s: int, bx: int, by: int) -> Seq<Rgba> {
    Seq::new((s * s) as nat, |k: int| b.pixel_at(bx * s + k / s, by * s + k % s))
}

/// The representative pixel of block `(bx, by)`: its per-channel floor mean.
pub open spec fn block_mean(b: PixelBuffer, s: int, bx: int, by: int) -> Rgba {
    mean_pixel(block_pixels(b, s, bx, by))
}

pub open spec fn output_len(len: int, s: int, mode: OutputMode) -> int {
    match mode {
        OutputMode::Shrink => len / s,
        OutputMode::KeepDimensions => len,
    }
}

/// The pixel that pixelation puts at `(x, y)` of its output.
pub open spec fn pixelated_at(b: PixelBuffer, s: int, mode: OutputMode, x: int, y: int) -> Rgba {
    match mode {
        OutputMode::Shrink => block_mean(b, s, x, y),
        OutputMode::KeepDimensions => block_mean(b, s, x / s, y / s),
    }
}

/// `r` is the pixelation of `b` at scale `s` in the given mode.
pub open spec fn is_pixelation_of(r: PixelBuffer, b: PixelBuffer, s: int, mode: OutputMode) -> bool {
    &&& r.wf()
    &&& r.width == output_len(b.width as int, s, mode)
    &&& r.height == output_len(b.height as int, s, mode)
    &&& forall|x: int, y: int|
        0 <= x < r.width && 0 <= y < r.height ==> #[trigger] r.pixel_at(x, y) == pixelated_at(
            b,
            s,
            mode,
            x,
            y,
        )
}

/// Block `b` of a side of length `n` cut into blocks of `s` still holds
/// offset `o`.
pub proof fn lemma_block_coord(n: int, s: int, b: int, o: int)
    requires
        s > 0,
        n >= 0,
        0 <= b < n / s,
        0 <= o < s,
    ensures
        0 <= b * s + o < n,
        (b * s + o) / s == b,
{
    let q = n / s;
    vstd::arithmetic::div_mod::lemma_fundamental_div_mod(n, s);
    assert(b * s + o < n) by (nonlinear_arith)
        requires
            0 <= b < q,
            0 <= o < s,
            n == s * q + n % s,
            n % s >= 0,
    ;
    assert(0 <= b * s) by (nonlinear_arith)
        requires
            0 <= b,
            0 <= s,
    ;
    vstd::arithmetic::div_mod::lemma_fundamental_div_mod_converse(b * s + o, s, b, o);
}

/// Every `s × s` block of `b` holds a single colour: each pixel equals the
/// top-left pixel of its block.
pub open spec fn is_block_uniform(b: PixelBuffer, s: int) -> bool {
    forall|x: int, y: int|
        0 <= x < b.width && 0 <= y < b.height ==> #[trigger] b.pixel_at(x, y) == b.pixel_at(
            (x / s) * s,
            (y / s) * s,
        )
}

/// A position `x` on a side of length `n`, a multiple of `s`, lies in block
/// `x / s`, whose first position is at most `x`.
proof fn lemma_block_of(n: int, s: int, x: int)
    requires
        s > 0,
        n % s == 0,
        0 <= x < n,
    ensures
        0 <= x / s < n / s,
        0 <= (x / s) * s <= x,
        ((x / s) * s) / s == x / s,
{
    vstd::arithmetic::div_mod::lemma_fundamental_div_mod(n, s);
    vstd::arithmetic::div_mod::lemma_fundamental_div_mod(x, s);
    let q = x / s;
    assert(0 <= q < n / s && 0 <= q * s <= x) by (nonlinear_arith)
        requires
            n == s * (n / s),
            x == s * q + x % s,
            0 <= x % s < s,
            0 <= x < n,
            s > 0,
    ;
    vstd::arithmetic::div_mod::lemma_fundamental_div_mod_converse(q * s, s, q, 0);
}

/// A block whose pixels all equal `p` has `p` as its representative pixel.
pub proof fn lemma_uniform_block_mean(b: PixelBuffer, s: int, bx: int, by: int, p: Rgba)
    requires
        s > 0,
        forall|i: int, j: int| 0 <= i < s && 0 <= j < s ==> #[trigger] b.pixel_at(bx * s + i, by * s + j) == p,
    ensures
        block_mean(b, s, bx, by) == p,
{
    let blk = block_pixels(b, s, bx, by);
    assert(s * s > 0) by (nonlinear_arith)
        requires
            s > 0,
    ;
    assert forall|k: int| 0 <= k < blk.len() implies blk[k] == p by {
        assert(0 <= k / s < s && 0 <= k % s < s) by (nonlinear_arith)
            requires
                0 <= k < s * s,
                s > 0,
        ;
        assert(b.pixel_at(bx * s + k / s, by * s + k % s) == p);
    }
    lemma_mean_of_uniform(blk, p);
}

/// The full-size pixelation of any image is block-uniform.
pub proof fn lemma_keep_dimensions_is_block_uniform(b: PixelBuffer, s: int, r: PixelBuffer)
    requires
        b.wf(),
        is_scale_factor(s),
        divisible(b.width as int, b.height as int, s),
        is_pixelation_of(r, b, s, OutputMode::KeepDimensions),
    ensures
        is_block_uniform(r, s),
{
    assert forall|x: int, y: int| 0 <= x < r.width && 0 <= y < r.height implies #[trigger] r.pixel_at(
        x,
        y,
    ) == r.pixel_at((x / s) * s, (y / s) * s) by {
        lemma_block_of(r.width as int, s, x);
        lemma_block_of(r.height as int, s, y);
        assert(r.pixel_at((x / s) * s, (y / s) * s) == pixelated_at(
            b,
            s,
            OutputMode::KeepDimensions,
            (x / s) * s,
            (y / s) * s,
        ));
    }
}

/// Pixelating a block-uniform image at full size gives it back unchanged.
pub proof fn lemma_block_uniform_fixed_point(b: PixelBuffer, s: int, r: PixelBuffer)
    requires
        b.wf(),
        is_scale_factor(s),
        divisible(b.width as int, b.height as int, s),
        is_block_uniform(b, s),
        is_pixelation_of(r, b, s, OutputMode::KeepDimensions),
    ensures
        r.width == b.width,
        r.height == b.height,
        r.pixels@ == b.pixels@,
{
    assert forall|x: int, y: int| 0 <= x < r.width && 0 <= y < r.height implies #[trigger] r.pixel_at(
        x,
        y,
    ) == b.pixel_at(x, y) by {
        let bx = x / s;
        let by = y / s;
        lemma_block_of(b.width as int, s, x);
        lemma_block_of(b.height as int, s, y);
        let p = b.pixel_at(bx * s, by * s);
        assert(b.pixel_at(x, y) == p);
        assert forall|i: int, j: int| 0 <= i < s && 0 <= j < s implies #[trigger] b.pixel_at(
            bx * s + i,
            by * s + j,
        ) == p by {
            lemma_block_coord(b.width as int, s, bx, i);
            lemma_block_coord(b.height as int, s, by, j);
            assert(b.pixel_at(bx * s + i, by * s + j) == b.pixel_at(
                ((bx * s + i) / s) * s,
                ((by * s + j) / s) * s,
            ));
        }
        lemma_uniform_block_mean(b, s, bx, by, p);
    }
    lemma_same_pixels(r, b);
}

/// Full-size pixelation is idempotent: pixelating its output again with the
/// same scale factor yields the same pixels.
pub proof fn lemma_pixelate_twice(b: PixelBuffer, s: int, once: PixelBuffer, twice: PixelBuffer)
    requires
        b.wf(),
        is_scale_factor(s),
        divisible(b.width as int, b.height as int, s),
        is_pixelation_of(once, b, s, OutputMode::KeepDimensions),
        is_pixelation_of(twice, once, s, OutputMode::KeepDimensions),
    ensures
        twice.width == once.width,
        twice.height == once.height,
        twice.pixels@ == once.pixels@,
{
    lemma_keep_dimensions_is_block_uniform(b, s, once);
    lemma_block_uniform_fixed_point(once, s, twice);
}

/// The representative pixel of block `(bx, by)`.
fn block_average(buffer: &PixelBuffer, s: u32, bx: u32, by: u32) -> (p: Rgba)
    requires
        buffer.wf(),
        is_scale_factor(s as int),
        bx < buffer.width / s,
        by < buffer.height / s,
    ensures
        p == block_mean(*buffer, s as int, bx as int, by as int),
{
    proof {
        assert(4 <= s * s <= 64) by (nonlinear_arith)
            requires
                2 <= s <= 8,
        ;
    }
    let n = s * s;
    let mut block: Vec<Rgba> = Vec::new();
    let mut k: u32 = 0;
    while k < n
        invariant
            buffer.wf(),
            is_scale_factor(s as int),
            bx < buffer.width / s,
            by < buffer.height / s,
            n == s * s,
            n > 0,
            k <= n,
            block@.len() == k,
            forall|i: int|
                0 <= i < k ==> #[trigger] block@[i] == block_pixels(
                    *buffer,
                    s as int,
                    bx as int,
                    by as int,
                )[i],
        decreases n - k,
    {
        proof {
            assert(k / s < s) by (nonlinear_arith)
                requires
                    k < s * s,
                    s > 0,
            ;
            lemma_block_coord(buffer.width as int, s as int, bx as int, (k / s) as int);
            lemma_block_coord(buffer.height as int, s as int, by as int, (k % s) as int);
            assert(bx * s <= buffer.width) by (nonlinear_arith)
                requires
                    bx * s + k / s < buffer.width,
                    k / s >= 0,
            ;
        }
        let p = buffer.get_pixel(bx * s + k / s, by * s + k % s);
        block.push(p);
        k = k + 1;
    }
    proof {
        assert(block@ =~= block_pixels(*buffer, s as int, bx as int, by as int));
    }
    average_pixels(block.as_slice())
}

/// One pixel per block: the block means of `buffer`, row by row.
fn shrink(buffer: &PixelBuffer, s: u32) -> (r: PixelBuffer)
    requires
        buffer.wf(),
        is_scale_factor(s as int),
    ensures
        is_pixelation_of(r, *buffer, s as int, OutputMode::Shrink),
{
    let w = buffer.width / s;
    let h = buffer.height / s;
    let mut out: Vec<Rgba> = Vec::new();
    let mut y: u32 = 0;
    while y < h
        invariant
            buffer.wf(),
            is_scale_factor(s as int),
            w == buffer.width / s,
            h == buffer.height / s,
            y <= h,
            out@.len() == y * w,
            forall|i: int, j: int|
                0 <= i < w && 0 <= j < y ==> out@[#[trigger] index_of(w as int, i, j)]
                    == block_mean(*buffer, s as int, i, j),
        decreases h - y,
    {
        let mut x: u32 = 0;
        while x < w
            invariant
                buffer.wf(),
                is_scale_factor(s as int),
                w == buffer.width / s,
                h == buffer.height / s,
                y < h,
                x <= w,
                out@.len() == y * w + x,
                forall|i: int, j: int|
                    0 <= i < w && 0 <= j < y ==> out@[#[trigger] index_of(w as int, i, j)]
                        == block_mean(*buffer, s as int, i, j),
                forall|i: int|
                    0 <= i < x ==> out@[#[trigger] index_of(w as int, i, y as int)]
                        == block_mean(*buffer, s as int, i, y as int),
            decreases w - x,
        {
            let p = block_average(buffer, s, x, y);
            let ghost before = out@;
            out.push(p);
            proof {
                assert forall|i: int, j: int|
                    0 <= i < w && 0 <= j < y implies out@[#[trigger] index_of(w as int, i, j)]
                        == block_mean(*buffer, s as int, i, j) by {
                    lemma_index_in_grid(w as int, y as int, i, j);
                    assert(w as int * y as int <= y as int * w as int + x as int) by (nonlinear_arith)
                        requires
                            x >= 0,
                    ;
                    assert(before[index_of(w as int, i, j)] == block_mean(*buffer, s as int, i, j));
                }
                assert forall|i: int|
                    0 <= i < x + 1 implies out@[#[trigger] index_of(w as int, i, y as int)]
                        == block_mean(*buffer, s as int, i, y as int) by {
                    if i < x {
                        assert(before[index_of(w as int, i, y as int)] == block_mean(
                            *buffer,
                            s as int,
                            i,
                            y as int,
                        ));
                    }
                }
            }
            x = x + 1;
        }
        proof {
            assert((y + 1) * w == y * w + w) by (nonlinear_arith);
        }
        y = y + 1;
    }
    proof {
        assert(h * w == w * h) by (nonlinear_arith);
    }
    PixelBuffer { width: w, height: h, pixels: out }
}

/// Nearest-neighbour enlargement: each pixel of `small` becomes an `s × s`
/// square.
fn expand(small: &PixelBuffer, s: u32) -> (r: PixelBuffer)
    requires
        small.wf(),
        is_scale_factor(s as int),
        small.width * s <= u32::MAX,
        small.height * s <= u32::MAX,
    ensures
        r.wf(),
        r.width == small.width * s,
        r.height == small.height * s,
        forall|x: int, y: int|
            0 <= x < r.width && 0 <= y < r.height ==> #[trigger] r.pixel_at(x, y)
                == small.pixel_at(x / s as int, y as int / s as int),
{
    let w = small.width * s;
    let h = small.height * s;
    let mut out: Vec<Rgba> = Vec::new();
    let mut y: u32 = 0;
    while y < h
        invariant
            small.wf(),
            is_scale_factor(s as int),
            w == small.width * s,
            h == small.height * s,
            y <= h,
            out@.len() == y * w,
            forall|i: int, j: int|
                0 <= i < w && 0 <= j < y ==> out@[#[trigger] index_of(w as int, i, j)]
                    == small.pixel_at(i / s as int, j / s as int),
        decreases h - y,
    {
        let mut x: u32 = 0;
        while x < w
            invariant
                small.wf(),
                is_scale_factor(s as int),
                w == small.width * s,
                h == small.height * s,
                y < h,
                x <= w,
                out@.len() == y * w + x,
                forall|i: int, j: int|
                    0 <= i < w && 0 <= j < y ==> out@[#[trigger] index_of(w as int, i, j)]
                        == small.pixel_at(i / s as int, j / s as int),
                forall|i: int|
                    0 <= i < x ==> out@[#[trigger] index_of(w as int, i, y as int)]
                        == small.pixel_at(i / s as int, y as int / s as int),
            decreases w - x,
        {
            proof {
                assert(x / s < small.width && y / s < small.height) by (nonlinear_arith)
                    requires
                        x < small.width * s,
                        y < small.height * s,
                        s > 0,
                ;
            }
            let p = small.get_pixel(x / s, y / s);
            let ghost before = out@;
            out.push(p);
            proof {
                assert forall|i: int, j: int|
                    0 <= i < w && 0 <= j < y implies out@[#[trigger] index_of(w as int, i, j)]
                        == small.pixel_at(i / s as int, j / s as int) by {
                    lemma_index_in_grid(w as int, y as int, i, j);
                    assert(w as int * y as int <= y as int * w as int + x as int) by (nonlinear_arith)
                        requires
                            x >= 0,
                    ;
                    assert(before[index_of(w as int, i, j)] == small.pixel_at(i / s as int, j / s as int));
                }
                assert forall|i: int|
                    0 <= i < x + 1 implies out@[#[trigger] index_of(w as int, i, y as int)]
                        == small.pixel_at(i / s as int, y as int / s as int) by {
                    if i < x {
                        assert(before[index_of(w as int, i, y as int)] == small.pixel_at(
                            i / s as int,
                            y as int / s as int,
                        ));
                    }
                }
            }
            x = x + 1;
        }
        proof {
            assert((y + 1) * w == y * w + w) by (nonlinear_arith);
        }
        y = y + 1;
    }
    proof {
        assert(h * w == w * h) by (nonlinear_arith);
    }
    PixelBuffer { width: w, height: h, pixels: out }
}

/// Replaces each `scale_factor × scale_factor` block of `buffer` by its
/// per-channel floor mean; the result has one pixel per block, or the input's
/// size with every block painted uniformly.
pub fn pixelate(buffer: &PixelBuffer, scale_factor: u8, mode: OutputMode) -> (r: PixelBuffer)
    requires
        buffer.wf(),
        is_scale_factor(scale_factor as int),
        divisible(buffer.width as int, buffer.height as int, scale_factor as int),
    ensures
        is_pixelation_of(r, *buffer, scale_factor as int, mode),
{
    let s = scale_factor as u32;
    let small = shrink(buffer, s);
    assert(s as int == scale_factor as int);
    match mode {
        OutputMode::Shrink => small,
        OutputMode::KeepDimensions => {
            proof {
                vstd::arithmetic::div_mod::lemma_fundamental_div_mod(buffer.width as int, s as int);
                vstd::arithmetic::div_mod::lemma_fundamental_div_mod(buffer.height as int, s as int);
                assert(small.width * s == buffer.width && small.height * s == buffer.height)
                    by (nonlinear_arith)
                    requires
                        buffer.width == s * small.width + 0,
                        buffer.height == s * small.height + 0,
                ;
            }
            let r = expand(&small, s);
            proof {
                assert forall|x: int, y: int|
                    0 <= x < r.width && 0 <= y < r.height implies #[trigger] r.pixel_at(x, y)
                        == pixelated_at(*buffer, s as int, mode, x, y) by {
                    assert(x / (s as int) < small.width && y / (s as int) < small.height)
                        by (nonlinear_arith)
                        requires
                            0 <= x < small.width * s,
                            0 <= y < small.height * s,
                            s > 0,
                    ;
                    assert(small.pixel_at(x / s as int, y / s as int) == block_mean(
                        *buffer,
                        s as int,
                        x / s as int,
                        y / s as int,
                    ));
                }
            }
            r
        },
    }
}

} // verus!
