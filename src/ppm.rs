//! The PPM codec (binary `P6` files), and a small RGB-only pixel grid.

use vstd::prelude::*;
use crate::image::{ColorType, Image, ImageError, ImageModel, result_model};

verus! {

// ---------------------------------------------------------------------------
// Header syntax

/// Space, tab, line feed, vertical tab, form feed or carriage return.
pub open spec fn is_whitespace(c: u8) -> bool {
    c == 0x20u8 || c == 0x09u8 || c == 0x0Au8 || c == 0x0Bu8 || c == 0x0Cu8 || c == 0x0Du8
}

/// The first position at or after `i` that is neither whitespace nor inside
/// a comment, which runs from `#` to the end of its line. `in_comment` says
/// whether position `i` lies inside a comment.
pub open spec fn skip_separators(b: Seq<u8>, i: nat, in_comment: bool) -> nat
    decreases b.len() - i,
{
    if i >= b.len() {
        i
    } else if in_comment {
        skip_separators(b, i + 1, b[i as int] != 0x0Au8)
    } else if is_whitespace(b[i as int]) {
        skip_separators(b, i + 1, false)
    } else if b[i as int] == 0x23u8 {
        skip_separators(b, i + 1, true)
    } else {
        i
    }
}

/// The end of the token that starts at `i`: the first whitespace at or after `i`, or the end.
pub open spec fn token_end(b: Seq<u8>, i: nat) -> nat
    decreases b.len() - i,
{
    if i >= b.len() || is_whitespace(b[i as int]) {
        i
    } else {
        token_end(b, i + 1)
    }
}

/// The value of a sequence of decimal digits.
pub open spec fn decimal_value(s: Seq<u8>) -> nat
    decreases s.len(),
{
    if s.len() == 0 {
        0
    } else {
        decimal_value(s.drop_last()) * 10 + (s.last() - 0x30u8) as nat
    }
}

/// Every byte is an ASCII digit.
pub open spec fn all_digits(s: Seq<u8>) -> bool {
    forall|i: int| 0 <= i < s.len() ==> 0x30u8 <= #[trigger] s[i] <= 0x39u8
}

/// A header number: the token's value when it is an unsigned 32-bit decimal
/// integer, else 0.
pub open spec fn header_number(s: Seq<u8>) -> nat {
    if s.len() > 0 && all_digits(s) && decimal_value(s) <= u32::MAX {
        decimal_value(s)
    } else {
        0
    }
}

/// What reading the bytes of a PPM file gives: after the `P6` magic come
/// the width, height and maximum value tokens, each possibly preceded by
/// whitespace and comments, then one whitespace byte and the RGB triplets
/// row by row, top row first. A width or height that is not a number reads
/// as 0; the maximum value is not used; bytes after the pixels are ignored.
pub open spec fn ppm_decode(b: Seq<u8>) -> Result<ImageModel, ImageError> {
    if b.len() < 2 || b[0] != 0x50u8 || b[1] != 0x36u8 {
        Err(ImageError::InvalidSignature)
    } else {
        let s1 = skip_separators(b, 2, false);
        let e1 = token_end(b, s1);
        let s2 = skip_separators(b, e1, false);
        let e2 = token_end(b, s2);
        let s3 = skip_separators(b, e2, false);
        let e3 = token_end(b, s3);
        if s3 >= b.len() || e3 >= b.len() {
            Err(ImageError::IoError)
        } else {
            let width = header_number(b.subrange(s1 as int, e1 as int));
            let height = header_number(b.subrange(s2 as int, e2 as int));
            let start = e3 + 1;
            if start + width * height * 3 > b.len() {
                Err(ImageError::IoError)
            } else {
                Ok(
                    ImageModel {
                        width,
                        height,
                        color_type: ColorType::RGB8,
                        data: b.subrange(start as int, (start + width * height * 3) as int),
                    },
                )
            }
        }
    }
}

/// The ASCII decimal digits of `n`, most significant first.
pub open spec fn decimal_digits(n: nat) -> Seq<u8>
    decreases n,
{
    if n < 10 {
        seq![(0x30 + n) as u8]
    } else {
        decimal_digits(n / 10).push((0x30 + n % 10) as u8)
    }
}

/// The bytes of the PPM file written for an image: the header
/// `P6 <width> <height> 255` and a line feed, then the pixel buffer.
pub open spec fn ppm_encode(m: ImageModel) -> Seq<u8> {
    seq![0x50u8, 0x36u8, 0x20u8] + decimal_digits(m.width) + seq![0x20u8] + decimal_digits(m.height)
        + seq![0x20u8, 0x32u8, 0x35u8, 0x35u8, 0x0Au8] + m.data
}

// ---------------------------------------------------------------------------
// Decoder

fn is_whitespace_byte(c: u8) -> (r: bool)
    ensures
        r == is_whitespace(c),
{
    c == 0x20u8 || c == 0x09u8 || c == 0x0Au8 || c == 0x0Bu8 || c == 0x0Cu8 || c == 0x0Du8
}

fn find_token_start(b: &[u8], i: usize) -> (r: usize)
    requires
        i <= b@.len(),
    ensures
        r == skip_separators(b@, i as nat, false),
        i <= r <= b@.len(),
{
    let mut j = i;
    let mut in_comment = false;
    while j < b.len()
        invariant
            i <= j <= b@.len(),
            skip_separators(b@, j as nat, in_comment) == skip_separators(b@, i as nat, false),
        decreases b@.len() - j,
    {
        let c = b[j];
        if in_comment {
            in_comment = c != 0x0Au8;
        } else if is_whitespace_byte(c) {
            in_comment = false;
        } else if c == 0x23u8 {
            in_comment = true;
        } else {
            return j;
        }
        j = j + 1;
    }
    j
}

fn find_token_end(b: &[u8], i: usize) -> (r: usize)
    requires
        i <= b@.len(),
    ensures
        r == token_end(b@, i as nat),
        i <= r <= b@.len(),
{
    let mut j = i;
    while j < b.len() && !is_whitespace_byte(b[j])
        invariant
            i <= j <= b@.len(),
            token_end(b@, j as nat) == token_end(b@, i as nat),
        decreases b@.len() - j,
    {
        j = j + 1;
    }
    j
}

/// A prefix of a digit string has at most the value of the whole string.
proof fn lemma_decimal_prefix(s: Seq<u8>, k: int)
    requires
        0 <= k <= s.len(),
        all_digits(s),
    ensures
        decimal_value(s.subrange(0, k)) <= decimal_value(s),
    decreases s.len(),
{
    if k < s.len() {
        let t = s.drop_last();
        assert(all_digits(t)) by {
            assert forall|i: int| 0 <= i < t.len() implies 0x30u8 <= #[trigger] t[i] <= 0x39u8 by {
                assert(t[i] == s[i]);
            }
        }
        lemma_decimal_prefix(t, k);
        assert(t.subrange(0, k) =~= s.subrange(0, k));
    }
    assert(s.subrange(0, s.len() as int) =~= s);
}

/// The header number held by `b[start..end]`.
fn parse_header_number(b: &[u8], start: usize, end: usize) -> (r: u32)
    requires
        start <= end <= b@.len(),
    ensures
        r as nat == header_number(b@.subrange(start as int, end as int)),
{
    let ghost tok = b@.subrange(start as int, end as int);
    if start == end {
        return 0;
    }
    let mut value: u64 = 0;
    let mut i = start;
    while i < end
        invariant
            start <= i <= end <= b@.len(),
            tok == b@.subrange(start as int, end as int),
            all_digits(b@.subrange(start as int, i as int)),
            value == decimal_value(b@.subrange(start as int, i as int)),
            value <= u32::MAX,
        decreases end - i,
    {
        let c = b[i];
        if c < 0x30u8 || c > 0x39u8 {
            assert(tok[i - start] == c);
            return 0;
        }
        let ghost prev = b@.subrange(start as int, i as int);
        value = value * 10 + (c - 0x30u8) as u64;
        i = i + 1;
        proof {
            let cur = b@.subrange(start as int, i as int);
            assert(cur.drop_last() =~= prev);
            assert(all_digits(cur)) by {
                assert forall|j: int| 0 <= j < cur.len() implies 0x30u8 <= #[trigger] cur[j] <= 0x39u8 by {
                    if j < prev.len() {
                        assert(cur[j] == prev[j]);
                    }
                }
            }
        }
        if value > 0xFFFF_FFFF {
            proof {
                let cur = b@.subrange(start as int, i as int);
                if all_digits(tok) {
                    lemma_decimal_prefix(tok, i - start);
                    assert(tok.subrange(0, i - start) =~= cur);
                }
            }
            return 0;
        }
    }
    value as u32
}

/// Decodes the bytes of a binary PPM (`P6`) file into an RGB image.
pub fn read_ppm(b: &[u8]) -> (r: Result<Image, ImageError>)
    ensures
        result_model(r) == ppm_decode(b@),
        r is Ok ==> r->Ok_0.wf(),
{
    let len = b.len();
    if len < 2 || b[0] != 0x50u8 || b[1] != 0x36u8 {
        return Err(ImageError::InvalidSignature);
    }
    let s1 = find_token_start(b, 2);
    let e1 = find_token_end(b, s1);
    let s2 = find_token_start(b, e1);
    let e2 = find_token_end(b, s2);
    let s3 = find_token_start(b, e2);
    let e3 = find_token_end(b, s3);
    if s3 >= len || e3 >= len {
        return Err(ImageError::IoError);
    }
    let width = parse_header_number(b, s1, e1);
    let height = parse_header_number(b, s2, e2);
    let start = e3 + 1;
    assert(width * height * 3 <= 0x1_0000_0000 * 0x1_0000_0000 * 3) by (nonlinear_arith)
        requires
            width < 0x1_0000_0000,
            height < 0x1_0000_0000,
    ;
    let size: u128 = width as u128 * height as u128 * 3;
    if start as u128 + size > len as u128 {
        return Err(ImageError::IoError);
    }
    let size: usize = size as usize;
    let mut data: Vec<u8> = Vec::with_capacity(size);
    let mut i: usize = 0;
    while i < size
        invariant
            i <= size,
            start + size <= len,
            len == b@.len(),
            data@ == b@.subrange(start as int, start + i),
        decreases size - i,
    {
        data.push(b[start + i]);
        i = i + 1;
        assert(data@ =~= b@.subrange(start as int, start + i));
    }
    Ok(Image { width, height, color_type: ColorType::RGB8, data })
}

// ---------------------------------------------------------------------------
// Encoder

/// Appends the decimal digits of `n`.
fn push_decimal(out: &mut Vec<u8>, n: u32)
    ensures
        final(out)@ == old(out)@ + decimal_digits(n as nat),
    decreases n,
{
    if n >= 10 {
        push_decimal(out, n / 10);
    }
    out.push((0x30 + n % 10) as u8);
    assert(final(out)@ =~= old(out)@ + decimal_digits(n as nat));
}

/// The PPM file for a `width` by `height` grid whose buffer is `data`.
fn encode_ppm(width: u32, height: u32, data: &Vec<u8>) -> (r: Vec<u8>)
    ensures
        r@ == ppm_encode(
            ImageModel {
                width: width as nat,
                height: height as nat,
                color_type: ColorType::RGB8,
                data: data@,
            },
        ),
{
    let mut out: Vec<u8> = Vec::new();
    out.push(0x50u8);
    out.push(0x36u8);
    out.push(0x20u8);
    push_decimal(&mut out, width);
    out.push(0x20u8);
    push_decimal(&mut out, height);
    out.push(0x20u8);
    out.push(0x32u8);
    out.push(0x35u8);
    out.push(0x35u8);
    out.push(0x0Au8);
    let ghost header = out@;
    let mut i: usize = 0;
    while i < data.len()
        invariant
            i <= data@.len(),
            out@ == header + data@.subrange(0, i as int),
        decreases data@.len() - i,
    {
        out.push(data[i]);
        i = i + 1;
        assert(out@ =~= header + data@.subrange(0, i as int));
    }
    assert(data@.subrange(0, i as int) =~= data@);
    out
}

/// Encodes an image as a binary PPM file: the header
/// `P6 <width> <height> 255` and a line feed, then the pixel buffer as it
/// is (RGB triplets for an RGB image).
pub fn write_ppm(image: &Image) -> (r: Vec<u8>)
    ensures
        r@ == ppm_encode(image@),
{
    encode_ppm(image.width, image.height, &image.data)
}

// ---------------------------------------------------------------------------
// Laws

/// The decimal digits of `n` are one or more ASCII digits whose value is `n`.
pub proof fn lemma_decimal_digits(n: nat)
    ensures
        decimal_digits(n).len() >= 1,
        all_digits(decimal_digits(n)),
        decimal_value(decimal_digits(n)) == n,
    decreases n,
{
    let d = decimal_digits(n);
    if n >= 10 {
        lemma_decimal_digits(n / 10);
        let prefix = decimal_digits(n / 10);
        assert(d.drop_last() =~= prefix);
        assert(d.last() == (0x30 + n % 10) as u8);
        assert(decimal_value(d) == decimal_value(prefix) * 10 + n % 10);
        assert forall|i: int| 0 <= i < d.len() implies 0x30u8 <= #[trigger] d[i] <= 0x39u8 by {
            if i < prefix.len() {
                assert(d[i] == prefix[i]);
            }
        }
    } else {
        assert(d.drop_last() =~= Seq::<u8>::empty());
        assert(d.last() == (0x30 + n) as u8);
        assert(decimal_value(d) == decimal_value(Seq::<u8>::empty()) * 10 + n);
    }
}

/// A token of non-whitespace bytes from `i` up to the whitespace at `j` ends at `j`.
pub proof fn lemma_token_end(b: Seq<u8>, i: nat, j: nat)
    requires
        i <= j < b.len(),
        is_whitespace(b[j as int]),
        forall|k: int| i <= k < j ==> !is_whitespace(#[trigger] b[k]),
    ensures
        token_end(b, i) == j,
    decreases j - i,
{
    if i < j {
        lemma_token_end(b, i + 1, j);
    }
}

/// Reading the PPM file that the encoder writes for an RGB image gives back
/// the image.
pub proof fn lemma_ppm_round_trip(m: ImageModel)
    requires
        m.wf(),
        m.color_type == ColorType::RGB8,
        m.width <= u32::MAX,
        m.height <= u32::MAX,
    ensures
        ppm_decode(ppm_encode(m)) == Ok::<ImageModel, ImageError>(m),
{
    let b = ppm_encode(m);
    let dw = decimal_digits(m.width);
    let dh = decimal_digits(m.height);
    lemma_decimal_digits(m.width);
    lemma_decimal_digits(m.height);
    let e1 = 3 + dw.len();
    let s2 = e1 + 1;
    let e2 = s2 + dh.len();
    let s3 = e2 + 1;
    let e3 = s3 + 3;
    let start = e3 + 1;
    assert(b.len() == start + m.data.len());
    assert(b.subrange(3, e1 as int) =~= dw);
    assert(b.subrange(s2 as int, e2 as int) =~= dh);
    assert(b.subrange(start as int, b.len() as int) =~= m.data);
    assert(b[0] == 0x50u8 && b[1] == 0x36u8 && b[2] == 0x20u8);
    assert(b[e1 as int] == 0x20u8 && b[e2 as int] == 0x20u8 && b[e3 as int] == 0x0Au8);
    assert(b[s3 as int] == 0x32u8 && b[s3 + 1int] == 0x35u8 && b[s3 + 2int] == 0x35u8);
    assert forall|k: int| 3 <= k < e1 implies !is_whitespace(#[trigger] b[k]) by {
        assert(b[k] == dw[k - 3]);
    }
    assert forall|k: int| s2 <= k < e2 implies !is_whitespace(#[trigger] b[k]) by {
        assert(b[k] == dh[k - s2]);
    }
    assert(b[3] == dw[0]);
    assert(b[s2 as int] == dh[0]);
    assert(skip_separators(b, 3, false) == 3);
    assert(skip_separators(b, 2, false) == 3);
    lemma_token_end(b, 3, e1);
    assert(skip_separators(b, s2, false) == s2);
    assert(skip_separators(b, e1, false) == s2);
    lemma_token_end(b, s2, e2);
    assert(skip_separators(b, s3, false) == s3);
    assert(skip_separators(b, e2, false) == s3);
    lemma_token_end(b, s3, e3);
    assert(m.data.len() == m.width * m.height * 3);
}

// ---------------------------------------------------------------------------
// RGB pixel grid

/// One RGB color.
#[derive(Clone, Copy, PartialEq, Eq, Structural, Debug)]
pub struct Pixel {
    pub r: u8,
    pub g: u8,
    pub b: u8,
}

/// A grid of RGB pixels, three bytes each, stored row by row.
#[derive(Debug, PartialEq, Eq)]
pub struct PPM {
    pub height: u32,
    pub width: u32,
    pub data: Vec<u8>,
}

impl PPM {
    /// The buffer holds exactly three bytes for each position.
    pub open spec fn wf(&self) -> bool {
        self.data@.len() == self.width * self.height * 3
    }

    /// The grid as an RGB image.
    pub open spec fn as_image(&self) -> ImageModel {
        ImageModel {
            width: self.width as nat,
            height: self.height as nat,
            color_type: ColorType::RGB8,
            data: self.data@,
        }
    }

    /// Index of the first byte of pixel `(x, y)`.
    pub open spec fn offset_of(&self, x: int, y: int) -> int {
        (y * self.width + x) * 3
    }

    /// A black grid of the given height and width.
    pub fn new(height: u32, width: u32) -> (r: PPM)
        requires
            width * height * 3 <= usize::MAX,
        ensures
            r.wf(),
            r.height == height,
            r.width == width,
            r.data@ == Seq::new(r.data@.len(), |i: int| 0u8),
    {
        assert(width * height <= width * height * 3) by (nonlinear_arith);
        let size: usize = width as usize * height as usize * 3;
        let mut data: Vec<u8> = Vec::with_capacity(size);
        let mut i: usize = 0;
        while i < size
            invariant
                i <= size,
                data@ == Seq::new(i as nat, |j: int| 0u8),
            decreases size - i,
        {
            data.push(0u8);
            i = i + 1;
            assert(data@ =~= Seq::new(i as nat, |j: int| 0u8));
        }
        PPM { height, width, data }
    }

    /// Index of the first byte of pixel `(x, y)`, or `None` when the pixel
    /// lies outside the grid.
    fn get_offset(&self, x: u32, y: u32) -> (r: Option<usize>)
        requires
            self.wf(),
        ensures
            r is Some <==> (x < self.width && y < self.height),
            r matches Some(offset) ==> offset == self.offset_of(x as int, y as int) && offset + 3
                <= self.data@.len(),
    {
        if x >= self.width || y >= self.height {
            return None;
        }
        proof {
            crate::image::lemma_pixel_in_buffer(self.width as int, self.height as int, x as int, y as int, 3);
        }
        assert(self.data.len() == self.data@.len());
        assert(y * self.width + x <= (y * self.width + x) * 3) by (nonlinear_arith)
            requires
                y * self.width + x >= 0,
        ;
        Some((y as usize * self.width as usize + x as usize) * 3)
    }

    /// The color of pixel `(x, y)`, or `None` when it lies outside the grid.
    pub fn get_pixel(&self, x: u32, y: u32) -> (r: Option<Pixel>)
        requires
            self.wf(),
        ensures
            r is None <==> !(x < self.width && y < self.height),
            r matches Some(p) ==> {
                let o = self.offset_of(x as int, y as int);
                &&& p.r == self.data@[o]
                &&& p.g == self.data@[o + 1]
                &&& p.b == self.data@[o + 2]
            },
    {
        let offset = match self.get_offset(x, y) {
            Some(offset) => offset,
            None => return None,
        };
        assert(self.data.len() == self.data@.len());
        Some(Pixel { r: self.data[offset], g: self.data[offset + 1], b: self.data[offset + 2] })
    }

    /// Sets the color of pixel `(x, y)`. Returns `false` and leaves the grid
    /// unchanged when the pixel lies outside it.
    pub fn set_pixel(&mut self, x: u32, y: u32, color: Pixel) -> (r: bool)
        requires
            old(self).wf(),
        ensures
            r == (x < old(self).width && y < old(self).height),
            final(self).wf(),
            final(self).width == old(self).width,
            final(self).height == old(self).height,
            final(self).data@ == if r {
                crate::image::with_pixel(
                    old(self).data@,
                    old(self).offset_of(x as int, y as int),
                    seq![color.r, color.g, color.b],
                )
            } else {
                old(self).data@
            },
    {
        let offset = match self.get_offset(x, y) {
            Some(offset) => offset,
            None => return false,
        };
        assert(self.data.len() == self.data@.len());
        self.data.set(offset, color.r);
        self.data.set(offset + 1, color.g);
        self.data.set(offset + 2, color.b);
        assert(self.data@ =~= crate::image::with_pixel(
            old(self).data@,
            offset as int,
            seq![color.r, color.g, color.b],
        ));
        true
    }

    /// The bytes of the grid as a binary PPM file: the header
    /// `P6 <width> <height> 255` and a line feed, then the RGB triplets.
    pub fn write_file(&self) -> (r: Vec<u8>)
        ensures
            r@ == ppm_encode(self.as_image()),
    {
        encode_ppm(self.width, self.height, &self.data)
    }
}

} // verus!
