//! Point filters (negative, brighten, contrast, saturate) and the box blur.

use vstd::prelude::*;
use vstd::arithmetic::div_mod::lemma_fundamental_div_mod_converse;
use crate::image::{ColorType, Image, ImageModel, bytes_per_pixel};

verus! {

/// Whether byte `i` of a buffer of the given type is an alpha channel,
/// which the filters leave as it is.
pub open spec fn is_alpha(ct: ColorType, i: int) -> bool {
    ct == ColorType::RGBA8 && i % 4 == 3
}

/// `v` limited to the range of a byte.
pub open spec fn clamp_byte(v: int) -> u8 {
    if v < 0 {
        0u8
    } else if v > 255 {
        255u8
    } else {
        v as u8
    }
}

/// Ten thousand times the luminance of pixel `p`:
/// `2126 R + 7152 G + 722 B`, or `10000 L` for a gray pixel.
pub open spec fn scaled_luminance(ct: ColorType, d: Seq<u8>, p: int) -> int {
    let bpp = bytes_per_pixel(ct) as int;
    if ct == ColorType::GRAYSCALE8 {
        10000 * d[p]
    } else {
        2126 * d[p * bpp] + 7152 * d[p * bpp + 1] + 722 * d[p * bpp + 2]
    }
}

/// The sum of the scaled luminance of the first `n` pixels.
pub open spec fn total_scaled_luminance(ct: ColorType, d: Seq<u8>, n: int) -> int
    decreases n,
{
    if n <= 0 {
        0
    } else {
        total_scaled_luminance(ct, d, n - 1) + scaled_luminance(ct, d, n - 1)
    }
}

/// A channel moved toward or away from a center value `c = center_num /
/// center_den` by a gain of `gain_per_mille / 1000`:
/// `v - (v - c) * (1 - gain)`, rounded toward zero and limited to a byte.
pub open spec fn adjusted_channel(v: int, center_num: int, center_den: int, gain_per_mille: int) -> u8 {
    let num = v * center_den * 1000 - (v * center_den - center_num) * (1000 - gain_per_mille);
    let den = center_den * 1000;
    if num <= 0 {
        0u8
    } else {
        clamp_byte(num / den)
    }
}

/// The buffer after the negative filter: each color channel becomes `255 - v`.
pub open spec fn negated(m: ImageModel) -> Seq<u8> {
    Seq::new(
        m.data.len(),
        |i: int|
            if is_alpha(m.color_type, i) {
                m.data[i]
            } else {
                (255 - m.data[i]) as u8
            },
    )
}

/// The buffer after brightening: each color channel becomes `v + bias`, limited to a byte.
pub open spec fn brightened(m: ImageModel, bias: int) -> Seq<u8> {
    Seq::new(
        m.data.len(),
        |i: int|
            if is_alpha(m.color_type, i) {
                m.data[i]
            } else {
                clamp_byte(m.data[i] + bias)
            },
    )
}

/// The buffer after saturation: each color channel moves away from (gain
/// above 1) or toward (gain below 1) its own pixel's luminance.
pub open spec fn saturated(m: ImageModel, gain_per_mille: int) -> Seq<u8> {
    let bpp = bytes_per_pixel(m.color_type) as int;
    Seq::new(
        m.data.len(),
        |i: int|
            if is_alpha(m.color_type, i) {
                m.data[i]
            } else {
                adjusted_channel(
                    m.data[i] as int,
                    scaled_luminance(m.color_type, m.data, i / bpp),
                    10000,
                    gain_per_mille,
                )
            },
    )
}

/// The buffer after the contrast filter: each color channel moves away from
/// (gain above 1) or toward (gain below 1) the mean luminance of the image.
pub open spec fn contrasted(m: ImageModel, gain_per_mille: int) -> Seq<u8> {
    let pixels = (m.width * m.height) as int;
    Seq::new(
        m.data.len(),
        |i: int|
            if is_alpha(m.color_type, i) {
                m.data[i]
            } else {
                adjusted_channel(
                    m.data[i] as int,
                    total_scaled_luminance(m.color_type, m.data, pixels),
                    10000 * pixels,
                    gain_per_mille,
                )
            },
    )
}

/// Largest count of pixels that a buffer in memory can hold.
pub open spec fn max_pixels() -> int {
    0x1_0000_0000_0000_0000
}

/// `adjusted_channel`, computed.
fn adjust(v: u8, center_num: u128, center_den: u128, gain_per_mille: i32) -> (r: u8)
    requires
        1 <= center_den <= 10000 * max_pixels(),
        center_num <= 255 * center_den,
    ensures
        r == adjusted_channel(v as int, center_num as int, center_den as int, gain_per_mille as int),
{
    let o = v as i128;
    let cn = center_num as i128;
    let cd = center_den as i128;
    let g = gain_per_mille as i128;
    assert(o * cd <= 255 * (10000 * max_pixels())) by (nonlinear_arith)
        requires
            0 <= o <= 255,
            1 <= cd <= 10000 * max_pixels(),
    ;
    assert(0 <= o * cd) by (nonlinear_arith)
        requires
            0 <= o,
            0 <= cd,
    ;
    let scaled: i128 = o * cd;
    let diff: i128 = scaled - cn;
    let factor: i128 = 1000 - g;
    assert(-255 * (10000 * max_pixels()) <= diff <= 255 * (10000 * max_pixels()));
    assert(-0x1_0000_0000 <= factor <= 0x1_0000_0000);
    assert(-255 * (10000 * max_pixels()) * 0x1_0000_0000 <= diff * factor <= 255 * (10000
        * max_pixels()) * 0x1_0000_0000) by (nonlinear_arith)
        requires
            -255 * (10000 * max_pixels()) <= diff <= 255 * (10000 * max_pixels()),
            -0x1_0000_0000 <= factor <= 0x1_0000_0000,
    ;
    let num: i128 = scaled * 1000 - diff * factor;
    let den: i128 = cd * 1000;
    if num <= 0 {
        0
    } else {
        let q: u128 = num as u128 / den as u128;
        if q > 255 {
            255
        } else {
            q as u8
        }
    }
}

/// `clamp_byte(v + bias)`, computed.
fn brighten_channel(v: u8, bias: i64) -> (r: u8)
    ensures
        r == clamp_byte(v + bias),
{
    if bias >= 255 {
        255
    } else if bias <= -255 {
        0
    } else {
        let s: i64 = v as i64 + bias;
        if s < 0 {
            0
        } else if s > 255 {
            255
        } else {
            s as u8
        }
    }
}

/// Ten thousand times the luminance of pixel `p`, computed.
fn pixel_luminance(image: &Image, p: usize) -> (r: u32)
    requires
        image.wf(),
        p < image.width * image.height,
    ensures
        r == scaled_luminance(image.color_type, image.data@, p as int),
        r <= 2550000,
{
    let bpp = image.color_type.bytes_per_pixel();
    proof {
        assert(p * bpp + bpp <= image.width * image.height * bpp) by (nonlinear_arith)
            requires
                p < image.width * image.height,
                bpp >= 1,
        ;
        assert(image.data.len() == image.data@.len());
    }
    let base: usize = p * bpp;
    if image.color_type == ColorType::GRAYSCALE8 {
        10000 * image.data[base] as u32
    } else {
        2126 * image.data[base] as u32 + 7152 * image.data[base + 1] as u32 + 722 * image.data[
            base + 2] as u32
    }
}

/// Filters that change each pixel on its own.
pub trait PointProcessor {
    /// Whether the value can be filtered.
    spec fn accepts_point_filters(&self) -> bool;

    /// Inverts every color channel.
    fn negative(&mut self)
        requires
            old(self).accepts_point_filters(),
        ensures
            final(self).accepts_point_filters(),
    ;

    /// Adds `bias` to every color channel, limiting the result to a byte.
    fn brighten(&mut self, bias: i64)
        requires
            old(self).accepts_point_filters(),
        ensures
            final(self).accepts_point_filters(),
    ;

    /// Scales each color channel's distance from the mean luminance by
    /// `gain_per_mille / 1000`.
    fn contrast(&mut self, gain_per_mille: i32)
        requires
            old(self).accepts_point_filters(),
        ensures
            final(self).accepts_point_filters(),
    ;

    /// Scales each color channel's distance from its pixel's luminance by
    /// `gain_per_mille / 1000`.
    fn saturate(&mut self, gain_per_mille: i32)
        requires
            old(self).accepts_point_filters(),
        ensures
            final(self).accepts_point_filters(),
    ;
}

impl PointProcessor for Image {
    open spec fn accepts_point_filters(&self) -> bool {
        self.wf()
    }

    fn negative(&mut self)
        ensures
            final(self).width == old(self).width,
            final(self).height == old(self).height,
            final(self).color_type == old(self).color_type,
            final(self).data@ == negated(old(self)@),
    {
        let ghost target = negated(self@);
        let rgba = self.color_type == ColorType::RGBA8;
        let n = self.data.len();
        let mut out: Vec<u8> = Vec::with_capacity(n);
        let mut i: usize = 0;
        while i < n
            invariant
                n == self.data@.len(),
                i <= n,
                rgba == (self.color_type == ColorType::RGBA8),
                target == negated(self@),
                out@ == target.subrange(0, i as int),
            decreases n - i,
        {
            let v = self.data[i];
            out.push(if rgba && i % 4 == 3 { v } else { 255 - v });
            i = i + 1;
            assert(out@ =~= target.subrange(0, i as int));
        }
        assert(out@ =~= target);
        self.data = out;
    }

    fn brighten(&mut self, bias: i64)
        ensures
            final(self).width == old(self).width,
            final(self).height == old(self).height,
            final(self).color_type == old(self).color_type,
            final(self).data@ == brightened(old(self)@, bias as int),
    {
        let ghost target = brightened(self@, bias as int);
        let rgba = self.color_type == ColorType::RGBA8;
        let n = self.data.len();
        let mut out: Vec<u8> = Vec::with_capacity(n);
        let mut i: usize = 0;
        while i < n
            invariant
                n == self.data@.len(),
                i <= n,
                rgba == (self.color_type == ColorType::RGBA8),
                target == brightened(self@, bias as int),
                out@ == target.subrange(0, i as int),
            decreases n - i,
        {
            let v = self.data[i];
            out.push(if rgba && i % 4 == 3 { v } else { brighten_channel(v, bias) });
            i = i + 1;
            assert(out@ =~= target.subrange(0, i as int));
        }
        assert(out@ =~= target);
        self.data = out;
    }

    fn contrast(&mut self, gain_per_mille: i32)
        ensures
            final(self).width == old(self).width,
            final(self).height == old(self).height,
            final(self).color_type == old(self).color_type,
            final(self).data@ == contrasted(old(self)@, gain_per_mille as int),
    {
        let ghost target = contrasted(self@, gain_per_mille as int);
        let bpp = self.color_type.bytes_per_pixel();
        let rgba = self.color_type == ColorType::RGBA8;
        let n = self.data.len();
        assert(self.width * self.height <= self.width * self.height * bpp) by (nonlinear_arith)
            requires
                bpp >= 1,
        ;
        let pixels: usize = self.width as usize * self.height as usize;
        assert(pixels <= pixels * bpp) by (nonlinear_arith)
            requires
                bpp >= 1,
        ;
        let mut total: u128 = 0;
        let mut p: usize = 0;
        while p < pixels
            invariant
                self.wf(),
                pixels == self.width * self.height,
                pixels <= n,
                n == self.data@.len(),
                p <= pixels,
                total == total_scaled_luminance(self.color_type, self.data@, p as int),
                total <= 2550000 * p,
            decreases pixels - p,
        {
            let l = pixel_luminance(self, p);
            total = total + l as u128;
            p = p + 1;
        }
        let ghost pixels_total = total;
        if pixels == 0 {
            proof {
                assert(n == 0) by (nonlinear_arith)
                    requires
                        n == pixels * bpp,
                        pixels == 0,
                ;
            }
            assert(self.data@ =~= target);
            return;
        }
        let den: u128 = 10000 * pixels as u128;
        let mut out: Vec<u8> = Vec::with_capacity(n);
        let mut i: usize = 0;
        while i < n
            invariant
                n == self.data@.len(),
                i <= n,
                rgba == (self.color_type == ColorType::RGBA8),
                pixels == self.width * self.height,
                total == total_scaled_luminance(self.color_type, self.data@, pixels as int),
                total <= 2550000 * pixels,
                1 <= pixels,
                den == 10000 * pixels,
                pixels <= usize::MAX,
                target == contrasted(self@, gain_per_mille as int),
                out@ == target.subrange(0, i as int),
            decreases n - i,
        {
            let v = self.data[i];
            let c = if rgba && i % 4 == 3 {
                v
            } else {
                adjust(v, total, den, gain_per_mille)
            };
            out.push(c);
            i = i + 1;
            assert(out@ =~= target.subrange(0, i as int));
        }
        assert(out@ =~= target);
        self.data = out;
    }

    fn saturate(&mut self, gain_per_mille: i32)
        ensures
            final(self).width == old(self).width,
            final(self).height == old(self).height,
            final(self).color_type == old(self).color_type,
            final(self).data@ == saturated(old(self)@, gain_per_mille as int),
    {
        let ghost target = saturated(self@, gain_per_mille as int);
        let bpp = self.color_type.bytes_per_pixel();
        let rgba = self.color_type == ColorType::RGBA8;
        let n = self.data.len();
        assert(self.width * self.height <= self.width * self.height * bpp) by (nonlinear_arith)
            requires
                bpp >= 1,
        ;
        let pixels: usize = self.width as usize * self.height as usize;
        let mut out: Vec<u8> = Vec::with_capacity(n);
        let mut p: usize = 0;
        while p < pixels
            invariant
                self.wf(),
                n == self.data@.len(),
                pixels == self.width * self.height,
                bpp == bytes_per_pixel(self.color_type),
                rgba == (self.color_type == ColorType::RGBA8),
                p <= pixels,
                target == saturated(self@, gain_per_mille as int),
                out@ == target.subrange(0, p * bpp),
            decreases pixels - p,
        {
            let l = pixel_luminance(self, p);
            proof {
                assert(p * bpp + bpp <= pixels * bpp) by (nonlinear_arith)
                    requires
                        p < pixels,
                ;
            }
            let base: usize = p * bpp;
            let mut t: usize = 0;
            while t < bpp
                invariant
                    self.wf(),
                    n == self.data@.len(),
                    pixels == self.width * self.height,
                    bpp == bytes_per_pixel(self.color_type),
                    rgba == (self.color_type == ColorType::RGBA8),
                    p < pixels,
                    base == p * bpp,
                    base + bpp <= n,
                    l == scaled_luminance(self.color_type, self.data@, p as int),
                    l <= 2550000,
                    t <= bpp,
                    target == saturated(self@, gain_per_mille as int),
                    out@ == target.subrange(0, p * bpp + t),
                decreases bpp - t,
            {
                let i: usize = base + t;
                proof {
                    lemma_fundamental_div_mod_converse(i as int, bpp as int, p as int, t as int);
                    if rgba {
                        lemma_fundamental_div_mod_converse(i as int, 4, p as int, t as int);
                    }
                }
                let v = self.data[i];
                let c = if rgba && t == 3 {
                    v
                } else {
                    adjust(v, l as u128, 10000, gain_per_mille)
                };
                out.push(c);
                t = t + 1;
                assert(out@ =~= target.subrange(0, p * bpp + t));
            }
            p = p + 1;
            assert((p - 1) * bpp + bpp == p * bpp) by (nonlinear_arith);
        }
        assert(out@ =~= target);
        self.data = out;
    }
}

/// Channel `k` of pixel `(x, y)`, or 0 when the pixel lies outside the image.
pub open spec fn tap(m: ImageModel, x: int, y: int, k: int) -> int {
    let bpp = bytes_per_pixel(m.color_type) as int;
    if 0 <= x < m.width && 0 <= y < m.height {
        m.data[(y * m.width + x) * bpp + k] as int
    } else {
        0
    }
}

/// The sum of channel `k` over pixel `(x, y)` and its eight neighbours;
/// neighbours outside the image add nothing.
pub open spec fn box_sum(m: ImageModel, x: int, y: int, k: int) -> int {
    tap(m, x - 1, y - 1, k) + tap(m, x, y - 1, k) + tap(m, x + 1, y - 1, k) + tap(m, x - 1, y, k)
        + tap(m, x, y, k) + tap(m, x + 1, y, k) + tap(m, x - 1, y + 1, k) + tap(m, x, y + 1, k)
        + tap(m, x + 1, y + 1, k)
}

/// The buffer after the box blur: each color channel becomes its 3x3
/// neighbourhood sum divided by 9, rounded down; alpha is kept.
pub open spec fn blurred(m: ImageModel) -> Seq<u8> {
    let bpp = bytes_per_pixel(m.color_type) as int;
    Seq::new(
        m.data.len(),
        |i: int|
            {
                let p = i / bpp;
                let k = i % bpp;
                if is_alpha(m.color_type, i) {
                    m.data[i]
                } else {
                    clamp_byte(box_sum(m, p % (m.width as int), p / (m.width as int), k) / 9)
                }
            },
    )
}

/// `tap`, computed.
fn tap_value(image: &Image, x: i64, y: i64, k: usize) -> (r: u32)
    requires
        image.wf(),
        k < bytes_per_pixel(image.color_type),
    ensures
        r == tap(image@, x as int, y as int, k as int),
        r <= 255,
{
    if x < 0 || y < 0 || x >= image.width as i64 || y >= image.height as i64 {
        return 0;
    }
    let bpp = image.color_type.bytes_per_pixel();
    proof {
        crate::image::lemma_pixel_in_buffer(
            image.width as int,
            image.height as int,
            x as int,
            y as int,
            bpp as int,
        );
        assert(image.data.len() == image.data@.len());
        assert(y * image.width + x <= (y * image.width + x) * bpp) by (nonlinear_arith)
            requires
                bpp >= 1,
                y * image.width + x >= 0,
        ;
    }
    let i: usize = (y as usize * image.width as usize + x as usize) * bpp + k;
    image.data[i] as u32
}

/// Filters that combine each pixel with its neighbours.
pub trait ConvolutionFilter {
    /// Whether the value can be filtered.
    spec fn accepts_convolution(&self) -> bool;

    /// Replaces each color channel by the mean of its 3x3 neighbourhood.
    fn blur(&mut self)
        requires
            old(self).accepts_convolution(),
        ensures
            final(self).accepts_convolution(),
    ;
}

impl ConvolutionFilter for Image {
    open spec fn accepts_convolution(&self) -> bool {
        self.wf()
    }

    /// Every neighbourhood is read from the image as it was before the call.
    fn blur(&mut self)
        ensures
            final(self).width == old(self).width,
            final(self).height == old(self).height,
            final(self).color_type == old(self).color_type,
            final(self).data@ == blurred(old(self)@),
    {
        let ghost target = blurred(self@);
        let bpp = self.color_type.bytes_per_pixel();
        let rgba = self.color_type == ColorType::RGBA8;
        let n = self.data.len();
        let width = self.width;
        let height = self.height;
        let mut out: Vec<u8> = Vec::with_capacity(n);
        let mut y: u32 = 0;
        while y < height
            invariant
                self.wf(),
                n == self.data@.len(),
                width == self.width,
                height == self.height,
                bpp == bytes_per_pixel(self.color_type),
                rgba == (self.color_type == ColorType::RGBA8),
                y <= height,
                target == blurred(self@),
                out@ == target.subrange(0, y * width * bpp),
            decreases height - y,
        {
            let mut x: u32 = 0;
            while x < width
                invariant
                    self.wf(),
                    n == self.data@.len(),
                    width == self.width,
                    height == self.height,
                    bpp == bytes_per_pixel(self.color_type),
                    rgba == (self.color_type == ColorType::RGBA8),
                    y < height,
                    x <= width,
                    target == blurred(self@),
                    out@ == target.subrange(0, (y * width + x) * bpp),
                decreases width - x,
            {
                let mut k: usize = 0;
                while k < bpp
                    invariant
                        self.wf(),
                        n == self.data@.len(),
                        width == self.width,
                        height == self.height,
                        bpp == bytes_per_pixel(self.color_type),
                        rgba == (self.color_type == ColorType::RGBA8),
                        y < height,
                        x < width,
                        k <= bpp,
                        target == blurred(self@),
                        out@ == target.subrange(0, (y * width + x) * bpp + k),
                    decreases bpp - k,
                {
                    let ghost i: int = (y * width + x) * bpp + k;
                    let ghost p: int = y * width + x;
                    proof {
                        crate::image::lemma_pixel_in_buffer(
                            width as int,
                            height as int,
                            x as int,
                            y as int,
                            bpp as int,
                        );
                        lemma_fundamental_div_mod_converse(i, bpp as int, p, k as int);
                        lemma_fundamental_div_mod_converse(p, width as int, y as int, x as int);
                        if rgba {
                            lemma_fundamental_div_mod_converse(i, 4, p, k as int);
                        }
                        assert(y * width + x <= (y * width + x) * bpp) by (nonlinear_arith)
                            requires
                                bpp >= 1,
                                y * width + x >= 0,
                        ;
                    }
                    let c: u8 = if rgba && k == 3 {
                        self.data[(y as usize * width as usize + x as usize) * bpp + k]
                    } else {
                        let xi = x as i64;
                        let yi = y as i64;
                        let sum: u32 = tap_value(self, xi - 1, yi - 1, k) + tap_value(self, xi, yi - 1, k)
                            + tap_value(self, xi + 1, yi - 1, k) + tap_value(self, xi - 1, yi, k)
                            + tap_value(self, xi, yi, k) + tap_value(self, xi + 1, yi, k)
                            + tap_value(self, xi - 1, yi + 1, k) + tap_value(self, xi, yi + 1, k)
                            + tap_value(self, xi + 1, yi + 1, k);
                        (sum / 9) as u8
                    };
                    out.push(c);
                    k = k + 1;
                    assert(out@ =~= target.subrange(0, (y * width + x) * bpp + k));
                }
                x = x + 1;
                assert((y * width + (x - 1)) * bpp + bpp == (y * width + x) * bpp) by (nonlinear_arith);
            }
            y = y + 1;
            assert(((y - 1) * width + width) * bpp == y * width * bpp) by (nonlinear_arith);
        }
        assert(height * width * bpp == n) by (nonlinear_arith)
            requires
                n == width * height * bpp,
        ;
        assert(out@ =~= target);
        self.data = out;
    }
}

} // verus!
