use vstd::prelude::*;

use crate::buffer::Rgba;

verus! {

/// Channel `c` of a pixel: 0 red, 1 green, 2 blue, anything else alpha.
pub open spec fn channel(p: Rgba, c: int) -> int {
    if c == 0 {
        p.r as int
    } else if c == 1 {
        p.g as int
    } else if c == 2 {
        p.b as int
    } else {
        p.a as int
    }
}

/// Sum of channel `c` over all pixels of `s`.
pub open spec fn channel_sum(s: Seq<Rgba>, c: int) -> int
    decreases s.len(),
{
    if s.len() == 0 {
        0
    } else {
        channel_sum(s.drop_last(), c) + channel(s.last(), c)
    }
}

/// Floor of the arithmetic mean of channel `c` over `s`.
pub open spec fn channel_mean(s: Seq<Rgba>, c: int) -> int {
    channel_sum(s, c) / (s.len() as int)
}

/// The representative pixel of `s`: the floor mean of each channel.
pub open spec fn mean_pixel(s: Seq<Rgba>) -> Rgba {
    Rgba {
        r: channel_mean(s, 0) as u8,
        g: channel_mean(s, 1) as u8,
        b: channel_mean(s, 2) as u8,
        a: channel_mean(s, 3) as u8,
    }
}

pub proof fn lemma_channel_sum_bounds(s: Seq<Rgba>, c: int)
    ensures
        0 <= channel_sum(s, c) <= 255 * s.len(),
    decreases s.len(),
{
    if s.len() > 0 {
        lemma_channel_sum_bounds(s.drop_last(), c);
    }
}

pub proof fn lemma_channel_mean_bounds(s: Seq<Rgba>, c: int)
    requires
        s.len() > 0,
    ensures
        0 <= channel_mean(s, c) <= 255,
{
    let n = s.len() as int;
    let t = channel_sum(s, c);
    lemma_channel_sum_bounds(s, c);
    assert(0 <= t / n <= 255) by (nonlinear_arith)
        requires
            0 <= t <= 255 * n,
            n > 0,
    ;
}

proof fn lemma_channel_sum_uniform(s: Seq<Rgba>, p: Rgba, c: int)
    requires
        forall|i: int| 0 <= i < s.len() ==> s[i] == p,
    ensures
        channel_sum(s, c) == s.len() * channel(p, c),
    decreases s.len(),
{
    if s.len() > 0 {
        lemma_channel_sum_uniform(s.drop_last(), p, c);
        assert(s.last() == s[s.len() - 1]);
        assert((s.len() - 1) * channel(p, c) + channel(p, c) == s.len() * channel(p, c))
            by (nonlinear_arith);
    }
}

/// Averaging a run of identical pixels gives back that pixel exactly: the
/// floor division loses nothing when every value is the same.
pub proof fn lemma_mean_of_uniform(s: Seq<Rgba>, p: Rgba)
    requires
        s.len() > 0,
        forall|i: int| 0 <= i < s.len() ==> s[i] == p,
    ensures
        mean_pixel(s) == p,
{
    let n = s.len() as int;
    assert forall|c: int| channel_mean(s, c) == channel(p, c) by {
        lemma_channel_sum_uniform(s, p, c);
        let v = channel(p, c);
        assert((n * v) / n == v) by (nonlinear_arith)
            requires
                n > 0,
        ;
    }
    assert(channel_mean(s, 0) == channel(p, 0));
    assert(channel_mean(s, 1) == channel(p, 1));
    assert(channel_mean(s, 2) == channel(p, 2));
    assert(channel_mean(s, 3) == channel(p, 3));
}

/// Per-channel floor mean of a non-empty run of pixels.
pub fn average_pixels(pixels: &[Rgba]) -> (p: Rgba)
    requires
        pixels@.len() > 0,
    ensures
        p == mean_pixel(pixels@),
{
    let n = pixels.len();
    let mut red: u128 = 0;
    let mut green: u128 = 0;
    let mut blue: u128 = 0;
    let mut alpha: u128 = 0;
    let mut i: usize = 0;
    while i < n
        invariant
            n == pixels@.len(),
            i <= n,
            red == channel_sum(pixels@.subrange(0, i as int), 0),
            green == channel_sum(pixels@.subrange(0, i as int), 1),
            blue == channel_sum(pixels@.subrange(0, i as int), 2),
            alpha == channel_sum(pixels@.subrange(0, i as int), 3),
        decreases n - i,
    {
        let px = pixels[i];
        proof {
            let before = pixels@.subrange(0, i as int);
            let after = pixels@.subrange(0, i + 1);
            assert(after.drop_last() =~= before);
            assert(after.last() == px);
            lemma_channel_sum_bounds(before, 0);
            lemma_channel_sum_bounds(before, 1);
            lemma_channel_sum_bounds(before, 2);
            lemma_channel_sum_bounds(before, 3);
            assert(255 * before.len() <= 255 * 0xffff_ffff_ffff_ffffint) by (nonlinear_arith)
                requires
                    before.len() <= 0xffff_ffff_ffff_ffffint,
            ;
        }
        red = red + px.r as u128;
        green = green + px.g as u128;
        blue = blue + px.b as u128;
        alpha = alpha + px.a as u128;
        i = i + 1;
    }
    proof {
        assert(pixels@.subrange(0, n as int) =~= pixels@);
        lemma_channel_mean_bounds(pixels@, 0);
        lemma_channel_mean_bounds(pixels@, 1);
        lemma_channel_mean_bounds(pixels@, 2);
        lemma_channel_mean_bounds(pixels@, 3);
    }
    let count = n as u128;
    Rgba {
        r: (red / count) as u8,
        g: (green / count) as u8,
        b: (blue / count) as u8,
        a: (alpha / count) as u8,
    }
}

} // verus!
