//! The in-memory pixel buffer shared by the codecs and the filters.

use vstd::prelude::*;

verus! {

/// How the bytes of one pixel are laid out in an image's buffer.
#[allow(non_camel_case_types)]
#[derive(Clone, Copy, PartialEq, Eq, Structural, Debug)]
pub enum ColorType {
    /// One luminance byte.
    GRAYSCALE8,
    /// Red, green and blue bytes, in that order.
    RGB8,
    /// Red, green, blue and alpha bytes, in that order.
    RGBA8,
}

/// Number of bytes one pixel takes for a color type.
pub open spec fn bytes_per_pixel(ct: ColorType) -> nat {
    match ct {
        ColorType::GRAYSCALE8 => 1,
        ColorType::RGB8 => 3,
        ColorType::RGBA8 => 4,
    }
}

impl ColorType {
    /// Number of bytes one pixel of this type takes (1, 3 or 4).
    pub fn bytes_per_pixel(&self) -> (r: usize)
        ensures
            r as nat == bytes_per_pixel(*self),
    {
        match self {
            ColorType::GRAYSCALE8 => 1,
            ColorType::RGB8 => 3,
            ColorType::RGBA8 => 4,
        }
    }
}

/// Errors reported when a file's bytes cannot be turned into an image.
#[derive(Clone, Copy, PartialEq, Eq, Structural, Debug)]
pub enum ImageError {
    /// The file could not be opened, read or written, or its bytes end
    /// before the headers or the pixel data that they announce (a short read).
    IoError,
    /// The bytes do not start with the format's magic signature.
    InvalidSignature,
    /// The BMP file uses a header version, bit depth or compression that is not handled.
    UnsupportedBmpVariant,
    /// A header field holds a value that cannot describe an image.
    MalformedHeader,
    /// A scanline of a BMP file is padded with bytes that are not zero.
    PaddingIntegrityError,
}

/// A raster image: its dimensions, pixel layout and row-major pixel bytes.
#[derive(Debug, PartialEq, Eq)]
pub struct Image {
    pub width: u32,
    pub height: u32,
    pub color_type: ColorType,
    pub data: Vec<u8>,
}

/// The mathematical value of an image.
pub struct ImageModel {
    pub width: nat,
    pub height: nat,
    pub color_type: ColorType,
    pub data: Seq<u8>,
}

impl ImageModel {
    /// The buffer holds exactly one pixel of the color type for each position.
    pub open spec fn wf(self) -> bool {
        self.data.len() == self.width * self.height * bytes_per_pixel(self.color_type)
    }
}

/// The model of a decoding result.
pub open spec fn result_model(r: Result<Image, ImageError>) -> Result<ImageModel, ImageError> {
    match r {
        Ok(img) => Ok(img@),
        Err(e) => Err(e),
    }
}

impl View for Image {
    type V = ImageModel;

    open spec fn view(&self) -> ImageModel {
        ImageModel {
            width: self.width as nat,
            height: self.height as nat,
            color_type: self.color_type,
            data: self.data@,
        }
    }
}

/// Index of the first byte of pixel `(x, y)` in a row-major buffer.
pub open spec fn pixel_offset(width: int, x: int, y: int, bpp: int) -> int {
    (y * width + x) * bpp
}

/// `data` with the bytes from `offset` on replaced by `pixel`.
pub open spec fn with_pixel(data: Seq<u8>, offset: int, pixel: Seq<u8>) -> Seq<u8> {
    Seq::new(
        data.len(),
        |i: int|
            if offset <= i < offset + pixel.len() {
                pixel[i - offset]
            } else {
                data[i]
            },
    )
}

/// A pixel inside a `width` by `height` image has all of its bytes inside the buffer.
pub proof fn lemma_pixel_in_buffer(width: int, height: int, x: int, y: int, bpp: int)
    requires
        0 <= x < width,
        0 <= y < height,
        bpp >= 0,
    ensures
        0 <= pixel_offset(width, x, y, bpp),
        pixel_offset(width, x, y, bpp) + bpp <= width * height * bpp,
{
    assert(y * width + x + 1 <= width * height) by (nonlinear_arith)
        requires
            0 <= x < width,
            0 <= y < height,
    ;
    assert((y * width + x + 1) * bpp <= width * height * bpp) by (nonlinear_arith)
        requires
            y * width + x + 1 <= width * height,
            bpp >= 0,
    ;
    assert(0 <= (y * width + x) * bpp) by (nonlinear_arith)
        requires
            0 <= x,
            0 <= y,
            0 <= width,
            bpp >= 0,
    ;
    assert((y * width + x + 1) * bpp == (y * width + x) * bpp + bpp) by (nonlinear_arith);
}


/// Whether `(x, y)` names a pixel of the image.
pub open spec fn in_bounds(m: ImageModel, x: int, y: int) -> bool {
    0 <= x < m.width && 0 <= y < m.height
}

/// The bytes of pixel `(x, y)`.
pub open spec fn pixel_at(m: ImageModel, x: int, y: int) -> Seq<u8> {
    let bpp = bytes_per_pixel(m.color_type) as int;
    let offset = pixel_offset(m.width as int, x, y, bpp);
    m.data.subrange(offset, offset + bpp)
}

/// Luminance of a color: `0.2126 R + 0.7152 G + 0.0722 B`, rounded toward zero.
pub open spec fn luminance(r: u8, g: u8, b: u8) -> u8 {
    ((2126 * r + 7152 * g + 722 * b) / 10000) as u8
}

/// Byte `i` of a buffer converted from one pixel layout to another: gray
/// widens to equal channels, a missing alpha becomes 255, alpha is dropped
/// when narrowing, and colors narrow to their luminance.
pub open spec fn converted_byte(from: ColorType, data: Seq<u8>, to: ColorType, i: int) -> u8 {
    let bf = bytes_per_pixel(from) as int;
    let bt = bytes_per_pixel(to) as int;
    let base = (i / bt) * bf;
    let t = i % bt;
    match to {
        ColorType::GRAYSCALE8 => luminance(data[base], data[base + 1], data[base + 2]),
        _ => if t == 3 {
            255u8
        } else if from == ColorType::GRAYSCALE8 {
            data[base]
        } else {
            data[base + t]
        },
    }
}

/// A buffer of pixels of type `from` rebuilt as pixels of type `to`;
/// unchanged when the types are the same.
pub open spec fn converted_data(from: ColorType, data: Seq<u8>, to: ColorType) -> Seq<u8> {
    if from == to {
        data
    } else {
        let pixels = data.len() / bytes_per_pixel(from);
        Seq::new(pixels * bytes_per_pixel(to), |i: int| converted_byte(from, data, to, i))
    }
}

/// Converting an RGBA image to RGB and back to RGBA keeps every color
/// channel and sets every alpha to 255; converting any image to its own
/// color type leaves its buffer as it is.
pub proof fn lemma_rgba_rgb_round_trip(m: ImageModel)
    requires
        m.wf(),
        m.color_type == ColorType::RGBA8,
    ensures
        converted_data(
            ColorType::RGB8,
            converted_data(ColorType::RGBA8, m.data, ColorType::RGB8),
            ColorType::RGBA8,
        ) == Seq::new(m.data.len(), |i: int| if i % 4 == 3 { 255u8 } else { m.data[i] }),
        converted_data(m.color_type, m.data, m.color_type) == m.data,
{
    let d = m.data;
    let n = d.len();
    let pixels = m.width * m.height;
    vstd::arithmetic::div_mod::lemma_fundamental_div_mod_converse(n as int, 4, pixels as int, 0);
    let d1 = converted_data(ColorType::RGBA8, d, ColorType::RGB8);
    assert(d1.len() == pixels * 3);
    vstd::arithmetic::div_mod::lemma_fundamental_div_mod_converse(
        d1.len() as int,
        3,
        pixels as int,
        0,
    );
    let d2 = converted_data(ColorType::RGB8, d1, ColorType::RGBA8);
    let expected = Seq::new(n, |i: int| if i % 4 == 3 { 255u8 } else { d[i] });
    assert(d2.len() == n);
    assert forall|i: int| 0 <= i < n implies d2[i] == expected[i] by {
        let p = i / 4;
        let t = i % 4;
        vstd::arithmetic::div_mod::lemma_fundamental_div_mod(i, 4);
        if t != 3 {
            let j = p * 3 + t;
            vstd::arithmetic::div_mod::lemma_fundamental_div_mod_converse(j, 3, p, t);
            assert(0 <= j < d1.len()) by (nonlinear_arith)
                requires
                    j == p * 3 + t,
                    0 <= t < 3,
                    0 <= i < n,
                    i == 4 * p + t,
                    n == pixels * 4,
                    d1.len() == pixels * 3,
            ;
            assert(d1[j] == d[p * 4 + t]);
        }
    }
    assert(d2 =~= expected);
}

impl Image {
    /// The buffer holds exactly one pixel of the color type for each position.
    pub open spec fn wf(&self) -> bool {
        self@.wf()
    }

    /// A `width` by `height` image of the given type with every byte zero.
    pub fn new(width: u32, height: u32, color_type: ColorType) -> (r: Image)
        requires
            width * height * bytes_per_pixel(color_type) <= usize::MAX,
        ensures
            r.wf(),
            r.width == width,
            r.height == height,
            r.color_type == color_type,
            r.data@ == Seq::new(r.data@.len(), |i: int| 0u8),
    {
        let bpp = color_type.bytes_per_pixel();
        assert(width * height <= width * height * bpp) by (nonlinear_arith)
            requires
                bpp >= 1,
        ;
        let pixels: usize = width as usize * height as usize;
        let size: usize = pixels * bpp;
        let mut data: Vec<u8> = Vec::with_capacity(size);
        let mut i: usize = 0;
        while i < size
            invariant
                i <= size,
                data@ == Seq::new(i as nat, |j: int| 0u8),
            decreases size - i,
        {
            data.push(0u8);
            i = i + 1;
            assert(data@ =~= Seq::new(i as nat, |j: int| 0u8));
        }
        Image { width, height, color_type, data }
    }

    /// Index of the first byte of pixel `(x, y)` in the buffer, or `None`
    /// when the pixel lies outside the image.
    fn get_offset(&self, x: u32, y: u32) -> (r: Option<usize>)
        requires
            self.wf(),
        ensures
            r is Some <==> in_bounds(self@, x as int, y as int),
            r matches Some(offset) ==> {
                &&& offset == pixel_offset(
                    self.width as int,
                    x as int,
                    y as int,
                    bytes_per_pixel(self.color_type) as int,
                )
                &&& offset + bytes_per_pixel(self.color_type) <= self.data@.len()
            },
    {
        if x >= self.width || y >= self.height {
            return None;
        }
        let bpp = self.color_type.bytes_per_pixel();
        proof {
            lemma_pixel_in_buffer(self.width as int, self.height as int, x as int, y as int, bpp as int);
        }
        assert(self.data.len() == self.data@.len());
        assert(y * self.width + x <= (y * self.width + x) * bpp) by (nonlinear_arith)
            requires
                bpp >= 1,
                y * self.width + x >= 0,
        ;
        Some((y as usize * self.width as usize + x as usize) * bpp)
    }

    /// The bytes of pixel `(x, y)`, or `None` when it lies outside the image.
    pub fn get_pixel(&self, x: u32, y: u32) -> (r: Option<Vec<u8>>)
        requires
            self.wf(),
        ensures
            r is None <==> !in_bounds(self@, x as int, y as int),
            r is Some ==> r->0@ == pixel_at(self@, x as int, y as int),
    {
        let offset = match self.get_offset(x, y) {
            Some(offset) => offset,
            None => return None,
        };
        let bpp = self.color_type.bytes_per_pixel();
        let dlen = self.data.len();
        let mut pixel: Vec<u8> = Vec::with_capacity(bpp);
        let mut k: usize = 0;
        while k < bpp
            invariant
                k <= bpp,
                offset + bpp <= dlen,
                dlen == self.data@.len(),
                pixel@ == self.data@.subrange(offset as int, offset + k),
            decreases bpp - k,
        {
            pixel.push(self.data[offset + k]);
            k = k + 1;
            assert(pixel@ =~= self.data@.subrange(offset as int, offset + k));
        }
        Some(pixel)
    }

    /// Writes `color` as the bytes of pixel `(x, y)`. Returns `false` and
    /// leaves the image unchanged when the pixel lies outside the image or
    /// `color` does not hold exactly one pixel's bytes.
    pub fn set_pixel(&mut self, x: u32, y: u32, color: Vec<u8>) -> (r: bool)
        requires
            old(self).wf(),
        ensures
            r == (in_bounds(old(self)@, x as int, y as int) && color@.len() == bytes_per_pixel(
                old(self).color_type,
            )),
            final(self).wf(),
            final(self).width == old(self).width,
            final(self).height == old(self).height,
            final(self).color_type == old(self).color_type,
            final(self).data@ == if r {
                with_pixel(
                    old(self).data@,
                    pixel_offset(
                        old(self).width as int,
                        x as int,
                        y as int,
                        bytes_per_pixel(old(self).color_type) as int,
                    ),
                    color@,
                )
            } else {
                old(self).data@
            },
    {
        let bpp = self.color_type.bytes_per_pixel();
        if color.len() != bpp {
            return false;
        }
        let offset = match self.get_offset(x, y) {
            Some(offset) => offset,
            None => return false,
        };
        let dlen = self.data.len();
        let ghost before = self.data@;
        let mut k: usize = 0;
        while k < bpp
            invariant
                k <= bpp,
                bpp == color@.len(),
                offset + bpp <= dlen,
                dlen == self.data@.len(),
                self.width == old(self).width,
                self.height == old(self).height,
                self.color_type == old(self).color_type,
                before == old(self).data@,
                self.data@ == with_pixel(before, offset as int, color@.subrange(0, k as int)),
            decreases bpp - k,
        {
            self.data.set(offset + k, color[k]);
            k = k + 1;
            assert(self.data@ =~= with_pixel(before, offset as int, color@.subrange(0, k as int)));
        }
        assert(color@.subrange(0, bpp as int) =~= color@);
        true
    }

    /// The buffer rebuilt for another pixel layout.
    fn converted(&self, to: ColorType) -> (r: Vec<u8>)
        requires
            self.wf(),
            self.color_type != to,
            self.width * self.height * bytes_per_pixel(to) <= usize::MAX,
        ensures
            r@ == converted_data(self.color_type, self.data@, to),
            r@.len() == self.width * self.height * bytes_per_pixel(to),
    {
        let from = self.color_type;
        let bf = from.bytes_per_pixel();
        let bt = to.bytes_per_pixel();
        let ghost target = converted_data(from, self.data@, to);
        let pixels: usize = self.width as usize * self.height as usize;
        proof {
            assert(self.width * self.height <= self.width * self.height * bt) by (nonlinear_arith)
                requires
                    bt >= 1,
            ;
            assert(self.data@.len() == pixels * bf);
            vstd::arithmetic::div_mod::lemma_fundamental_div_mod_converse(
                self.data@.len() as int,
                bf as int,
                pixels as int,
                0,
            );
            assert(target.len() == pixels * bt);
        }
        let dlen = self.data.len();
        let mut out: Vec<u8> = Vec::with_capacity(pixels * bt);
        let mut p: usize = 0;
        while p < pixels
            invariant
                p <= pixels,
                pixels == self.width * self.height,
                self.wf(),
                dlen == self.data@.len(),
                dlen == pixels * bf,
                bf == bytes_per_pixel(from),
                bt == bytes_per_pixel(to),
                from == self.color_type,
                from != to,
                pixels * bt <= usize::MAX,
                target == converted_data(from, self.data@, to),
                target.len() == pixels * bt,
                out@ == target.subrange(0, p * bt),
            decreases pixels - p,
        {
            proof {
                assert(p * bf + bf <= pixels * bf) by (nonlinear_arith)
                    requires
                        p < pixels,
                ;
                assert(p * bt + bt <= pixels * bt) by (nonlinear_arith)
                    requires
                        p < pixels,
                ;
            }
            let base: usize = p * bf;
            let mut t: usize = 0;
            while t < bt
                invariant
                    p < pixels,
                    t <= bt,
                    base == p * bf,
                    base + bf <= dlen,
                    dlen == self.data@.len(),
                    p * bt + bt <= pixels * bt,
                    bf == bytes_per_pixel(from),
                    bt == bytes_per_pixel(to),
                    from == self.color_type,
                    from != to,
                    target == converted_data(from, self.data@, to),
                    target.len() == pixels * bt,
                    out@ == target.subrange(0, p * bt + t),
                decreases bt - t,
            {
                let ghost i: int = p * bt + t;
                proof {
                    vstd::arithmetic::div_mod::lemma_fundamental_div_mod_converse(
                        i,
                        bt as int,
                        p as int,
                        t as int,
                    );
                }
                let v: u8 = match to {
                    ColorType::GRAYSCALE8 => {
                        let r = self.data[base] as u32;
                        let g = self.data[base + 1] as u32;
                        let b = self.data[base + 2] as u32;
                        ((2126 * r + 7152 * g + 722 * b) / 10000) as u8
                    },
                    _ => {
                        if t == 3 {
                            255u8
                        } else if from == ColorType::GRAYSCALE8 {
                            self.data[base]
                        } else {
                            self.data[base + t]
                        }
                    },
                };
                assert(v == converted_byte(from, self.data@, to, i));
                out.push(v);
                t = t + 1;
                assert(out@ =~= target.subrange(0, p * bt + t));
            }
            p = p + 1;
        }
        assert(out@ =~= target);
        out
    }

    /// Rebuilds the buffer as one luminance byte per pixel. Always succeeds.
    pub fn convert_to_grayscale8(&mut self) -> (r: bool)
        requires
            old(self).wf(),
        ensures
            r,
            final(self).wf(),
            final(self).width == old(self).width,
            final(self).height == old(self).height,
            final(self).color_type == ColorType::GRAYSCALE8,
            final(self).data@ == converted_data(
                old(self).color_type,
                old(self).data@,
                ColorType::GRAYSCALE8,
            ),
    {
        assert(self.data.len() == self.data@.len());
        assert(self.width * self.height * 1 <= self.width * self.height * bytes_per_pixel(
            self.color_type,
        )) by (nonlinear_arith)
            requires
                bytes_per_pixel(self.color_type) >= 1,
        ;
        self.convert_to(ColorType::GRAYSCALE8)
    }

    /// Rebuilds the buffer as red, green and blue bytes per pixel. Always succeeds.
    pub fn convert_to_rgb8(&mut self) -> (r: bool)
        requires
            old(self).wf(),
            old(self).width * old(self).height * 3 <= usize::MAX,
        ensures
            r,
            final(self).wf(),
            final(self).width == old(self).width,
            final(self).height == old(self).height,
            final(self).color_type == ColorType::RGB8,
            final(self).data@ == converted_data(old(self).color_type, old(self).data@, ColorType::RGB8),
    {
        self.convert_to(ColorType::RGB8)
    }

    /// Rebuilds the buffer as red, green, blue and alpha bytes per pixel. Always succeeds.
    pub fn convert_to_rgba8(&mut self) -> (r: bool)
        requires
            old(self).wf(),
            old(self).width * old(self).height * 4 <= usize::MAX,
        ensures
            r,
            final(self).wf(),
            final(self).width == old(self).width,
            final(self).height == old(self).height,
            final(self).color_type == ColorType::RGBA8,
            final(self).data@ == converted_data(
                old(self).color_type,
                old(self).data@,
                ColorType::RGBA8,
            ),
    {
        self.convert_to(ColorType::RGBA8)
    }

    /// Rebuilds the buffer for another pixel layout; nothing changes when
    /// the image already has it.
    fn convert_to(&mut self, to: ColorType) -> (r: bool)
        requires
            old(self).wf(),
            old(self).width * old(self).height * bytes_per_pixel(to) <= usize::MAX,
        ensures
            r,
            final(self).wf(),
            final(self).width == old(self).width,
            final(self).height == old(self).height,
            final(self).color_type == to,
            final(self).data@ == converted_data(old(self).color_type, old(self).data@, to),
    {
        if self.color_type != to {
            let data = self.converted(to);
            self.data = data;
            self.color_type = to;
        }
        true
    }

    /// Width in pixels.
    pub fn get_width(&self) -> (r: u32)
        ensures
            r == self.width,
    {
        self.width
    }

    /// Height in pixels.
    pub fn get_height(&self) -> (r: u32)
        ensures
            r == self.height,
    {
        self.height
    }

    /// Layout of the pixels.
    pub fn get_color_type(&self) -> (r: ColorType)
        ensures
            r == self.color_type,
    {
        self.color_type
    }
}

} // verus!
