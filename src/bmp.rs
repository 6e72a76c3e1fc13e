//! The BMP codec: BITMAPINFOHEADER (3.x), 4.x and 5.x files with 8-bit
//! grayscale, 24-bit RGB or 32-bit bitfield RGBA pixels.

use vstd::prelude::*;
use vstd::arithmetic::div_mod::lemma_fundamental_div_mod_converse;
use crate::image::{ColorType, Image, ImageError, ImageModel, bytes_per_pixel, result_model};

verus! {

/// Size of the file header that precedes the DIB header.
pub const FILE_HEADER_SIZE: u32 = 14;

/// DIB header size of a 3.x file (BITMAPINFOHEADER).
pub const V3_HEADER_SIZE: u32 = 40;

/// DIB header size of a 4.x file (BITMAPV4HEADER).
pub const V4_HEADER_SIZE: u32 = 108;

/// DIB header size of a 5.x file (BITMAPV5HEADER).
pub const V5_HEADER_SIZE: u32 = 124;

/// Uncompressed pixels (BI_RGB).
pub const COMPRESSION_RGB: u32 = 0;

/// Uncompressed pixels whose channels are given by bit masks (BI_BITFIELDS).
pub const COMPRESSION_BITFIELDS: u32 = 3;

/// Bytes of the headers that the decoder reads: the file header and the
/// fixed start of the DIB header, up to and including the bitmap size.
pub const FIXED_HEADER_BYTES: usize = 38;

// ---------------------------------------------------------------------------
// Little-endian fields

/// The unsigned 16-bit little-endian value stored at `b[i..i + 2]`.
pub open spec fn le16(b: Seq<u8>, i: int) -> nat {
    (b[i] + 256 * b[i + 1]) as nat
}

/// The unsigned 32-bit little-endian value stored at `b[i..i + 4]`.
pub open spec fn le32(b: Seq<u8>, i: int) -> nat {
    (b[i] + 256 * b[i + 1] + 65536 * b[i + 2] + 16777216 * b[i + 3]) as nat
}

/// The two little-endian bytes of `v` (taken modulo 2^16).
pub open spec fn le16_bytes(v: nat) -> Seq<u8> {
    seq![(v % 256) as u8, (v / 256 % 256) as u8]
}

/// The four little-endian bytes of `v` (taken modulo 2^32).
pub open spec fn le32_bytes(v: nat) -> Seq<u8> {
    seq![
        (v % 256) as u8,
        (v / 256 % 256) as u8,
        (v / 256 / 256 % 256) as u8,
        (v / 256 / 256 / 256 % 256) as u8,
    ]
}

/// The little-endian bytes of each word in turn.
pub open spec fn le32_words(words: Seq<u32>) -> Seq<u8>
    decreases words.len(),
{
    if words.len() == 0 {
        Seq::empty()
    } else {
        le32_words(words.drop_last()) + le32_bytes(words.last() as nat)
    }
}

/// Reading back the bytes of a 32-bit value gives the value.
pub proof fn lemma_le32_round_trip(v: nat)
    requires
        v < 0x1_0000_0000,
    ensures
        le32(le32_bytes(v), 0) == v,
{
    let q1 = v / 256;
    let q2 = q1 / 256;
    let q3 = q2 / 256;
    let a = v % 256;
    let b = q1 % 256;
    let c = q2 % 256;
    assert(v == 256 * q1 + a);
    assert(q1 == 256 * q2 + b);
    assert(q2 == 256 * q3 + c);
    assert(q3 < 256) by (nonlinear_arith)
        requires
            v == 256 * q1 + a,
            q1 == 256 * q2 + b,
            q2 == 256 * q3 + c,
            a >= 0,
            b >= 0,
            c >= 0,
            v < 0x1_0000_0000,
    ;
    assert(q3 % 256 == q3);
    let s = le32_bytes(v);
    assert(s[0] == a && s[1] == b && s[2] == c && s[3] == q3);
}

/// Reading back the bytes of a 16-bit value gives the value.
pub proof fn lemma_le16_round_trip(v: nat)
    requires
        v < 0x1_0000,
    ensures
        le16(le16_bytes(v), 0) == v,
{
    let s = le16_bytes(v);
    assert(v / 256 < 256);
    assert(s[0] == v % 256 && s[1] == v / 256);
}

/// Reads the 16-bit little-endian field at `i`.
fn read_le16(b: &[u8], i: usize) -> (r: u16)
    requires
        i + 2 <= b@.len(),
    ensures
        r as nat == le16(b@, i as int),
{
    b[i] as u16 + 256 * (b[i + 1] as u16)
}

/// Reads the 32-bit little-endian field at `i`.
fn read_le32(b: &[u8], i: usize) -> (r: u32)
    requires
        i + 4 <= b@.len(),
    ensures
        r as nat == le32(b@, i as int),
{
    b[i] as u32 + 256 * (b[i + 1] as u32) + 65536 * (b[i + 2] as u32) + 16777216 * (b[i + 3] as u32)
}

// ---------------------------------------------------------------------------
// Layout of the pixel data

/// The pixel layout that a compression type and a bit depth select, if it is handled.
pub open spec fn depth_color_type(compression: nat, bits: nat) -> Option<ColorType> {
    if compression == 0 && bits == 8 {
        Some(ColorType::GRAYSCALE8)
    } else if compression == 0 && bits == 24 {
        Some(ColorType::RGB8)
    } else if compression == 3 && bits == 32 {
        Some(ColorType::RGBA8)
    } else {
        None
    }
}

/// DIB header sizes of the 3.x, 4.x and 5.x versions.
pub open spec fn known_header_size(size: nat) -> bool {
    size == 40 || size == 108 || size == 124
}

/// Bytes one stored scanline takes: its pixels, padded with zeros up to a
/// multiple of four.
pub open spec fn row_stride(width: nat, bpp: nat) -> nat {
    ((width * bpp + 3) / 4 * 4) as nat
}

/// A height field is negative when its top bit is set; the rows are then
/// stored top to bottom.
pub open spec fn is_top_down(raw_height: nat) -> bool {
    raw_height >= 0x8000_0000
}

/// The number of rows that a height field announces (its absolute value).
pub open spec fn rows_of(raw_height: nat) -> nat {
    if is_top_down(raw_height) {
        (0x1_0000_0000 - raw_height) as nat
    } else {
        raw_height
    }
}

/// The stored row that holds image row `y`.
pub open spec fn stored_row(y: int, height: nat, top_down: bool) -> int {
    if top_down {
        y
    } else {
        height - 1 - y
    }
}

/// Byte `j` of stored row `r` of pixel data starting at `offset`.
pub open spec fn stored_byte(b: Seq<u8>, offset: nat, stride: nat, r: int, j: int) -> u8 {
    b[offset + r * stride + j]
}

/// Every stored row pads its `row_bytes` pixel bytes with zero bytes only.
pub open spec fn rows_padded_with_zero(
    b: Seq<u8>,
    offset: nat,
    row_bytes: nat,
    stride: nat,
    height: nat,
) -> bool {
    forall|r: int, j: int|
        0 <= r < height && row_bytes <= j < stride ==> #[trigger] stored_byte(b, offset, stride, r, j)
            == 0
}

/// Position in the file of byte `i` of the decoded buffer: the pixel comes
/// from its stored row, and its channels are stored in reverse order
/// (BGR, or ABGR).
pub open spec fn decoded_source(
    i: int,
    offset: nat,
    width: nat,
    height: nat,
    bpp: nat,
    top_down: bool,
) -> int {
    let row_bytes = (width * bpp) as int;
    let y = i / row_bytes;
    let x = (i % row_bytes) / (bpp as int);
    let k = (i % row_bytes) % (bpp as int);
    offset + stored_row(y, height, top_down) * row_stride(width, bpp) + x * bpp + (bpp - 1 - k)
}

/// What decoding the bytes of a BMP file gives.
pub open spec fn bmp_decode(b: Seq<u8>) -> Result<ImageModel, ImageError> {
    if b.len() < 2 || b[0] != 0x42u8 || b[1] != 0x4Du8 {
        Err(ImageError::InvalidSignature)
    } else if b.len() < 38 {
        Err(ImageError::IoError)
    } else {
        let offset = le32(b, 10);
        let header_size = le32(b, 14);
        let raw_width = le32(b, 18);
        let raw_height = le32(b, 22);
        let bits = le16(b, 28);
        let compression = le32(b, 30);
        if !known_header_size(header_size) || depth_color_type(compression, bits) is None {
            Err(ImageError::UnsupportedBmpVariant)
        } else if raw_width >= 0x8000_0000 || offset < 14 + header_size {
            Err(ImageError::MalformedHeader)
        } else {
            let color_type = depth_color_type(compression, bits)->0;
            let bpp = bytes_per_pixel(color_type);
            let width = raw_width;
            let height = rows_of(raw_height);
            let top_down = is_top_down(raw_height);
            let stride = row_stride(width, bpp);
            if offset + height * stride > b.len() {
                Err(ImageError::IoError)
            } else if !rows_padded_with_zero(b, offset, width * bpp, stride, height) {
                Err(ImageError::PaddingIntegrityError)
            } else {
                Ok(
                    ImageModel {
                        width,
                        height,
                        color_type,
                        data: Seq::new(
                            width * height * bpp,
                            |i: int| b[decoded_source(i, offset, width, height, bpp, top_down)],
                        ),
                    },
                )
            }
        }
    }
}

// ---------------------------------------------------------------------------
// Arithmetic facts about the layout

/// The stride holds the row's pixel bytes and at most three bytes of padding.
pub proof fn lemma_row_stride(width: nat, bpp: nat)
    ensures
        width * bpp <= row_stride(width, bpp) < width * bpp + 4,
        row_stride(width, bpp) % 4 == 0,
{
    let n = width * bpp;
    assert((n + 3) / 4 * 4 <= n + 3) by (nonlinear_arith)
        requires
            n >= 0,
    ;
    assert((n + 3) / 4 * 4 >= n) by (nonlinear_arith)
        requires
            n >= 0,
    ;
    assert(((n + 3) / 4 * 4) % 4 == 0) by (nonlinear_arith);
}

/// Byte `k` of pixel `x` of image row `y`, in a buffer of rows of `width * bpp`
/// bytes, sits at index `y * (width * bpp) + x * bpp + k`; and back.
pub proof fn lemma_split_index(i: int, width: int, bpp: int, y: int, x: int, k: int)
    requires
        bpp > 0,
        0 <= x < width,
        0 <= k < bpp,
        0 <= y,
        i == y * (width * bpp) + x * bpp + k,
    ensures
        i / (width * bpp) == y,
        i % (width * bpp) == x * bpp + k,
        (x * bpp + k) / bpp == x,
        (x * bpp + k) % bpp == k,
{
    assert(x * bpp + k < width * bpp) by (nonlinear_arith)
        requires
            0 <= x < width,
            0 <= k < bpp,
    ;
    lemma_fundamental_div_mod_converse(i, width * bpp, y, x * bpp + k);
    lemma_fundamental_div_mod_converse(x * bpp + k, bpp, x, k);
}

/// Byte `j` of a stored row `r < height` lies before `offset + height * stride`.
pub proof fn lemma_stored_byte_in_bounds(offset: nat, stride: nat, height: nat, r: int, j: int)
    requires
        0 <= r < height,
        0 <= j < stride,
    ensures
        offset <= offset + r * stride + j < offset + height * stride,
{
    assert(r * stride + j < height * stride) by (nonlinear_arith)
        requires
            0 <= r < height,
            0 <= j < stride,
    ;
    assert(0 <= r * stride) by (nonlinear_arith)
        requires
            0 <= r,
    ;
}

// ---------------------------------------------------------------------------
// Decoder

/// Decodes the bytes of a BMP file into an image.
///
/// The file must start with `BM`, carry a 3.x, 4.x or 5.x DIB header, and
/// hold 8-bit grayscale or 24-bit RGB pixels without compression, or 32-bit
/// pixels with bitfield compression. Pixel data starts at the offset that the
/// file header gives; each stored row is padded with zero bytes to a multiple
/// of four. A positive height stores the rows bottom to top, a negative one
/// top to bottom. Channels are stored in reverse order (BGR, ABGR) and come
/// out as RGB or RGBA. An 8-bit image keeps its palette indices as luminance.
pub fn read_bitmap(b: &[u8]) -> (r: Result<Image, ImageError>)
    ensures
        result_model(r) == bmp_decode(b@),
        r is Ok ==> r->Ok_0.wf(),
{
    let len = b.len();
    if len < 2 || b[0] != 0x42u8 || b[1] != 0x4Du8 {
        return Err(ImageError::InvalidSignature);
    }
    if len < FIXED_HEADER_BYTES {
        return Err(ImageError::IoError);
    }
    let offset = read_le32(b, 10);
    let header_size = read_le32(b, 14);
    let raw_width = read_le32(b, 18);
    let raw_height = read_le32(b, 22);
    let bits = read_le16(b, 28);
    let compression = read_le32(b, 30);
    if !(header_size == V3_HEADER_SIZE || header_size == V4_HEADER_SIZE || header_size
        == V5_HEADER_SIZE) {
        return Err(ImageError::UnsupportedBmpVariant);
    }
    let color_type = if compression == COMPRESSION_RGB && bits == 8 {
        ColorType::GRAYSCALE8
    } else if compression == COMPRESSION_RGB && bits == 24 {
        ColorType::RGB8
    } else if compression == COMPRESSION_BITFIELDS && bits == 32 {
        ColorType::RGBA8
    } else {
        return Err(ImageError::UnsupportedBmpVariant);
    };
    if raw_width >= 0x8000_0000 || (offset as u64) < FILE_HEADER_SIZE as u64 + header_size as u64 {
        return Err(ImageError::MalformedHeader);
    }
    let top_down = raw_height >= 0x8000_0000;
    let height: u32 = if top_down {
        (0x1_0000_0000u64 - raw_height as u64) as u32
    } else {
        raw_height
    };
    let width = raw_width;
    let bpp = color_type.bytes_per_pixel();
    assert(1 <= bpp <= 4);
    assert(width * bpp <= 0x8000_0000 * 4) by (nonlinear_arith)
        requires
            width < 0x8000_0000,
            bpp <= 4,
    ;
    let row_bytes: u64 = width as u64 * bpp as u64;
    let stride: u64 = (row_bytes + 3) / 4 * 4;
    proof {
        lemma_row_stride(width as nat, bpp as nat);
        assert(height * stride <= 0x1_0000_0000 * 0x4_0000_0000) by (nonlinear_arith)
            requires
                height < 0x1_0000_0000,
                stride < 0x4_0000_0000,
        ;
    }
    if offset as u128 + height as u128 * stride as u128 > len as u128 {
        return Err(ImageError::IoError);
    }
    let ghost gb = b@;
    if height == 0 {
        assert(Seq::<u8>::empty() =~= Seq::new(
            (width * 0 * bpp) as nat,
            |i: int| gb[decoded_source(i, offset as nat, width as nat, 0, bpp as nat, top_down)],
        ));
        return Ok(Image { width, height, color_type, data: Vec::new() });
    }
    assert(stride <= height * stride) by (nonlinear_arith)
        requires
            height >= 1,
    ;
    let ghost g_stride = row_stride(width as nat, bpp as nat);
    let ghost g_offset = offset as nat;
    assert(stride == g_stride);
    proof {
        assert(height * stride >= 0) by (nonlinear_arith);
        assert(row_bytes * height <= stride * height) by (nonlinear_arith)
            requires
                row_bytes <= stride,
        ;
        assert(width * height * bpp == row_bytes * height) by (nonlinear_arith)
            requires
                row_bytes == width * bpp,
        ;
    }
    let offset: usize = offset as usize;
    let row_bytes: usize = row_bytes as usize;
    let stride: usize = stride as usize;
    let total: usize = height as usize * stride;
    let ghost n = width * height * bpp;
    let ghost spec_data = Seq::new(
        n as nat,
        |i: int| gb[decoded_source(i, g_offset, width as nat, height as nat, bpp as nat, top_down)],
    );
    assert(row_bytes * height <= total) by (nonlinear_arith)
        requires
            row_bytes <= stride,
            total == height * stride,
    ;
    let ghost model = ImageModel {
        width: width as nat,
        height: height as nat,
        color_type,
        data: spec_data,
    };
    assert(bmp_decode(gb) == if rows_padded_with_zero(gb, g_offset, row_bytes as nat, g_stride, height as nat) {
        Ok::<ImageModel, ImageError>(model)
    } else {
        Err::<ImageModel, ImageError>(ImageError::PaddingIntegrityError)
    });
    let mut data: Vec<u8> = Vec::with_capacity(row_bytes * height as usize);
    let mut y: u32 = 0;
    while y < height
        invariant
            b@ == gb,
            len == gb.len(),
            y <= height,
            offset + total <= len,
            total == height * stride,
            stride == g_stride,
            g_stride == row_stride(width as nat, bpp as nat),
            g_offset == offset,
            bmp_decode(gb) == if rows_padded_with_zero(gb, g_offset, row_bytes as nat, g_stride, height as nat) {
                Ok::<ImageModel, ImageError>(model)
            } else {
                Err::<ImageModel, ImageError>(ImageError::PaddingIntegrityError)
            },
            row_bytes == width * bpp,
            row_bytes <= stride,
            bpp == bytes_per_pixel(color_type),
            bpp >= 1,
            n == row_bytes * height,
            spec_data.len() == n,
            spec_data == Seq::new(
                n as nat,
                |i: int| gb[decoded_source(i, g_offset, width as nat, height as nat, bpp as nat, top_down)],
            ),
            data@ == spec_data.subrange(0, y * row_bytes),
            forall|yy: int, j: int|
                0 <= yy < y && row_bytes <= j < stride ==> #[trigger] stored_byte(
                    gb,
                    g_offset,
                    g_stride,
                    stored_row(yy, height as nat, top_down),
                    j,
                ) == 0,
        decreases height - y,
    {
        let r: u32 = if top_down {
            y
        } else {
            height - 1 - y
        };
        assert(r == stored_row(y as int, height as nat, top_down));
        proof {
            assert(r * stride + stride <= height * stride) by (nonlinear_arith)
                requires
                    r < height,
            ;
        }
        let row_start: usize = offset + r as usize * stride;
        let mut j: usize = row_bytes;
        while j < stride
            invariant
                b@ == gb,
                len == gb.len(),
                r < height,
                row_bytes <= j <= stride,
                row_start + stride <= len,
                row_start == g_offset + r * g_stride,
                stride == g_stride,
                bmp_decode(gb) == if rows_padded_with_zero(gb, g_offset, row_bytes as nat, g_stride, height as nat) {
                    Ok::<ImageModel, ImageError>(model)
                } else {
                    Err::<ImageModel, ImageError>(ImageError::PaddingIntegrityError)
                },
                forall|jj: int|
                    row_bytes <= jj < j ==> #[trigger] stored_byte(
                        gb,
                        g_offset,
                        g_stride,
                        r as int,
                        jj,
                    ) == 0,
            decreases stride - j,
        {
            if b[row_start + j] != 0 {
                assert(stored_byte(gb, g_offset, g_stride, r as int, j as int) != 0);
                assert(!rows_padded_with_zero(gb, g_offset, row_bytes as nat, g_stride, height as nat));
                assert(bmp_decode(gb) == Err::<ImageModel, ImageError>(ImageError::PaddingIntegrityError));
                return Err(ImageError::PaddingIntegrityError);
            }
            j = j + 1;
        }
        let mut x: u32 = 0;
        while x < width
            invariant
                b@ == gb,
                len == gb.len(),
                x <= width,
                y < height,
                row_start + stride <= len,
                row_start == g_offset + r * g_stride,
                g_stride == row_stride(width as nat, bpp as nat),
                r == stored_row(y as int, height as nat, top_down),
                row_bytes == width * bpp,
                row_bytes <= stride,
                bpp == bytes_per_pixel(color_type),
                bpp >= 1,
                n == row_bytes * height,
                spec_data.len() == n,
                spec_data == Seq::new(
                    n as nat,
                    |i: int|
                        gb[decoded_source(i, g_offset, width as nat, height as nat, bpp as nat, top_down)],
                ),
                data@ == spec_data.subrange(0, y * row_bytes + x * bpp),
            decreases width - x,
        {
            let mut k: usize = 0;
            while k < bpp
                invariant
                    b@ == gb,
                    len == gb.len(),
                    x < width,
                    y < height,
                    k <= bpp,
                    row_start + stride <= len,
                    row_start == g_offset + r * g_stride,
                    g_stride == row_stride(width as nat, bpp as nat),
                    r == stored_row(y as int, height as nat, top_down),
                    row_bytes == width * bpp,
                    row_bytes <= stride,
                    bpp == bytes_per_pixel(color_type),
                    bpp >= 1,
                    n == row_bytes * height,
                    spec_data.len() == n,
                    spec_data == Seq::new(
                        n as nat,
                        |i: int|
                            gb[decoded_source(
                                i,
                                g_offset,
                                width as nat,
                                height as nat,
                                bpp as nat,
                                top_down,
                            )],
                    ),
                    data@ == spec_data.subrange(0, y * row_bytes + x * bpp + k),
                decreases bpp - k,
            {
                proof {
                    assert(x * bpp + bpp <= row_bytes) by (nonlinear_arith)
                        requires
                            x < width,
                            row_bytes == width * bpp,
                    ;
                    assert(y * row_bytes + row_bytes <= n) by (nonlinear_arith)
                        requires
                            y < height,
                            n == row_bytes * height,
                    ;
                }
                let src: usize = row_start + x as usize * bpp + (bpp - 1 - k);
                let ghost i: int = y * row_bytes + x * bpp + k;
                proof {
                    lemma_split_index(i, width as int, bpp as int, y as int, x as int, k as int);
                    let rb = (width as nat * bpp as nat) as int;
                    assert(rb == row_bytes);
                    assert(i / rb == y);
                    assert((i % rb) / (bpp as int) == x);
                    assert((i % rb) % (bpp as int) == k);
                    assert(row_stride(width as nat, bpp as nat) == g_stride);
                    assert(decoded_source(i, g_offset, width as nat, height as nat, bpp as nat, top_down)
                        == src);
                }
                data.push(b[src]);
                k = k + 1;
                assert(data@ =~= spec_data.subrange(0, y * row_bytes + x * bpp + k));
            }
            x = x + 1;
            assert(y * row_bytes + (x - 1) * bpp + bpp == y * row_bytes + x * bpp) by (nonlinear_arith);
        }
        y = y + 1;
        assert(y * row_bytes == (y - 1) * row_bytes + width * bpp) by (nonlinear_arith)
            requires
                row_bytes == width * bpp,
        ;
    }
    proof {
        assert forall|r: int, j: int|
            0 <= r < height && row_bytes <= j < stride implies #[trigger] stored_byte(
            gb,
            g_offset,
            g_stride,
            r,
            j,
        ) == 0 by {
            let yy = stored_row(r, height as nat, top_down);
            assert(stored_row(yy, height as nat, top_down) == r);
            assert(stored_byte(gb, g_offset, g_stride, stored_row(yy, height as nat, top_down), j) == 0);
        }
        assert(rows_padded_with_zero(gb, g_offset, row_bytes as nat, g_stride, height as nat));
        assert(height * row_bytes == n) by (nonlinear_arith)
            requires
                n == row_bytes * height,
        ;
        assert(data@ =~= spec_data);
    }
    Ok(Image { width, height, color_type, data })
}

// ---------------------------------------------------------------------------
// Encoder

/// The versions of the DIB header.
#[derive(Clone, Copy, PartialEq, Eq, Structural, Debug)]
pub enum BmpVersion {
    /// BMP 3.x: BITMAPINFOHEADER, 40 bytes.
    V3,
    /// BMP 4.x: BITMAPV4HEADER, 108 bytes, with channel masks and color space.
    V4,
    /// BMP 5.x: BITMAPV5HEADER, 124 bytes, adding rendering intent and profile fields.
    V5,
}

/// The size of a DIB header version.
pub open spec fn version_header_size(v: BmpVersion) -> nat {
    match v {
        BmpVersion::V3 => 40,
        BmpVersion::V4 => 108,
        BmpVersion::V5 => 124,
    }
}

impl BmpVersion {
    /// The size of this DIB header version in bytes.
    pub fn header_size(&self) -> (r: u32)
        ensures
            r as nat == version_header_size(*self),
    {
        match self {
            BmpVersion::V3 => V3_HEADER_SIZE,
            BmpVersion::V4 => V4_HEADER_SIZE,
            BmpVersion::V5 => V5_HEADER_SIZE,
        }
    }
}

/// The header version that the encoder writes: 4.x for 8 and 24-bit images,
/// 5.x for 32-bit ones.
pub open spec fn encoded_version(ct: ColorType) -> BmpVersion {
    match ct {
        ColorType::RGBA8 => BmpVersion::V5,
        _ => BmpVersion::V4,
    }
}

/// The header version that the encoder writes for a color type.
pub fn chosen_version(ct: ColorType) -> (r: BmpVersion)
    ensures
        r == encoded_version(ct),
{
    match ct {
        ColorType::RGBA8 => BmpVersion::V5,
        _ => BmpVersion::V4,
    }
}

/// The DIB header size that the encoder writes.
pub open spec fn encoded_header_size(ct: ColorType) -> nat {
    version_header_size(encoded_version(ct))
}

/// Bytes of palette that the encoder writes: a 256-entry gray ramp for 8-bit images.
pub open spec fn encoded_palette_size(ct: ColorType) -> nat {
    match ct {
        ColorType::GRAYSCALE8 => 1024,
        _ => 0,
    }
}

/// Bit depth written for a color type.
pub open spec fn encoded_bits(ct: ColorType) -> nat {
    bytes_per_pixel(ct) * 8
}

/// Compression type written for a color type: bitfields for 32-bit images.
pub open spec fn encoded_compression(ct: ColorType) -> nat {
    match ct {
        ColorType::RGBA8 => 3,
        _ => 0,
    }
}

/// Where the encoder's pixel data starts.
pub open spec fn encoded_pixel_offset(ct: ColorType) -> nat {
    14 + encoded_header_size(ct) + encoded_palette_size(ct)
}

/// Bytes of pixel data, row padding included.
pub open spec fn encoded_pixel_data_size(m: ImageModel) -> nat {
    m.height * row_stride(m.width, bytes_per_pixel(m.color_type))
}

/// Size of the whole file that the encoder writes.
pub open spec fn encoded_file_size(m: ImageModel) -> nat {
    encoded_pixel_offset(m.color_type) + encoded_pixel_data_size(m)
}

/// The image fits the format: its dimensions fit the signed 32-bit header
/// fields and the file's size fits the unsigned 32-bit size field.
pub open spec fn bmp_encodable(m: ImageModel) -> bool {
    m.width < 0x8000_0000 && m.height < 0x8000_0000 && encoded_file_size(m) < 0x1_0000_0000
}

/// The DIB header fields after the bitmap size, as 32-bit words: resolution
/// (2835 pixels per meter), palette counts, channel masks, color space,
/// endpoints and gamma, and for 5.x the rendering intent and profile fields.
pub open spec fn header_tail_words(ct: ColorType) -> Seq<u32> {
    let resolution_and_counts = seq![2835u32, 2835u32, 0u32, 0u32];
    let endpoints_and_gamma = Seq::new(12, |i: int| 0u32);
    match ct {
        ColorType::GRAYSCALE8 => resolution_and_counts + seq![0u32, 0u32, 0u32, 0u32, 0u32]
            + endpoints_and_gamma,
        ColorType::RGB8 => resolution_and_counts + seq![
            0x00FF_0000u32,
            0x0000_FF00u32,
            0x0000_00FFu32,
            0u32,
            0u32,
        ] + endpoints_and_gamma,
        ColorType::RGBA8 => resolution_and_counts + seq![
            0xFF00_0000u32,
            0x00FF_0000u32,
            0x0000_FF00u32,
            0x0000_00FFu32,
            0x7352_4742u32,
        ] + endpoints_and_gamma + seq![2u32, 0u32, 0u32, 0u32],
    }
}

/// The 256-entry gray ramp palette: entry `i` is blue, green and red `i`, then a zero byte.
pub open spec fn grayscale_palette() -> Seq<u8> {
    Seq::new(1024, |i: int| if i % 4 == 3 { 0u8 } else { (i / 4) as u8 })
}

/// The palette written for a color type.
pub open spec fn encoded_palette(ct: ColorType) -> Seq<u8> {
    match ct {
        ColorType::GRAYSCALE8 => grayscale_palette(),
        _ => Seq::empty(),
    }
}

/// Byte `i` of the encoded pixel data: stored row `r` holds image row
/// `height - 1 - r`, each pixel with its channels reversed, then zero padding.
pub open spec fn encoded_pixel_byte(m: ImageModel, i: int) -> u8 {
    let bpp = bytes_per_pixel(m.color_type) as int;
    let stride = row_stride(m.width, bpp as nat) as int;
    let r = i / stride;
    let j = i % stride;
    if j < m.width * bpp {
        let y = m.height - 1 - r;
        let x = j / bpp;
        let k = j % bpp;
        m.data[(y * m.width + x) * bpp + (bpp - 1 - k)]
    } else {
        0u8
    }
}

/// The encoded pixel data, bottom row first.
pub open spec fn encoded_pixel_rows(m: ImageModel) -> Seq<u8> {
    Seq::new(encoded_pixel_data_size(m), |i: int| encoded_pixel_byte(m, i))
}

/// The file header and the fixed start of the DIB header.
pub open spec fn encoded_fixed_header(m: ImageModel) -> Seq<u8> {
    seq![0x42u8, 0x4Du8] + le32_bytes(encoded_file_size(m)) + le32_bytes(0) + le32_bytes(
        encoded_pixel_offset(m.color_type),
    ) + le32_bytes(encoded_header_size(m.color_type)) + le32_bytes(m.width) + le32_bytes(m.height)
        + le16_bytes(1) + le16_bytes(encoded_bits(m.color_type)) + le32_bytes(
        encoded_compression(m.color_type),
    ) + le32_bytes(encoded_pixel_data_size(m))
}

/// The bytes of the BMP file that the encoder writes for an image.
pub open spec fn bmp_encode(m: ImageModel) -> Seq<u8> {
    encoded_fixed_header(m) + le32_words(header_tail_words(m.color_type)) + encoded_palette(
        m.color_type,
    ) + encoded_pixel_rows(m)
}

/// Appends the two little-endian bytes of `v`.
fn push_le16(out: &mut Vec<u8>, v: u16)
    ensures
        final(out)@ == old(out)@ + le16_bytes(v as nat),
{
    out.push((v % 256) as u8);
    out.push((v / 256 % 256) as u8);
    assert(final(out)@ =~= old(out)@ + le16_bytes(v as nat));
}

/// Appends the four little-endian bytes of `v`.
fn push_le32(out: &mut Vec<u8>, v: u32)
    ensures
        final(out)@ == old(out)@ + le32_bytes(v as nat),
{
    out.push((v % 256) as u8);
    out.push((v / 256 % 256) as u8);
    out.push((v / 256 / 256 % 256) as u8);
    out.push((v / 256 / 256 / 256 % 256) as u8);
    assert(final(out)@ =~= old(out)@ + le32_bytes(v as nat));
}

/// Appends the little-endian bytes of each word in turn.
fn push_le32_words(out: &mut Vec<u8>, words: &Vec<u32>)
    ensures
        final(out)@ == old(out)@ + le32_words(words@),
{
    let ghost start = out@;
    let mut i: usize = 0;
    while i < words.len()
        invariant
            i <= words@.len(),
            out@ == start + le32_words(words@.subrange(0, i as int)),
        decreases words@.len() - i,
    {
        push_le32(out, words[i]);
        i = i + 1;
        assert(words@.subrange(0, i as int).drop_last() =~= words@.subrange(0, i - 1));
        assert(out@ =~= start + le32_words(words@.subrange(0, i as int)));
    }
    assert(words@.subrange(0, i as int) =~= words@);
}

/// The header words after the bitmap size, for a color type.
fn header_tail(ct: ColorType) -> (r: Vec<u32>)
    ensures
        r@ == header_tail_words(ct),
{
    let mut r: Vec<u32> = Vec::new();
    r.push(2835);
    r.push(2835);
    r.push(0);
    r.push(0);
    match ct {
        ColorType::GRAYSCALE8 => {
            r.push(0);
            r.push(0);
            r.push(0);
            r.push(0);
        },
        ColorType::RGB8 => {
            r.push(0x00FF_0000);
            r.push(0x0000_FF00);
            r.push(0x0000_00FF);
            r.push(0);
        },
        ColorType::RGBA8 => {
            r.push(0xFF00_0000);
            r.push(0x00FF_0000);
            r.push(0x0000_FF00);
            r.push(0x0000_00FF);
        },
    }
    let cs_type: u32 = match ct {
        ColorType::RGBA8 => 0x7352_4742,
        _ => 0,
    };
    r.push(cs_type);
    let mut i: usize = 0;
    while i < 12
        invariant
            i <= 12,
            r@.len() == 9 + i,
            forall|j: int| 9 <= j < 9 + i ==> r@[j] == 0u32,
            r@.subrange(0, 9) == header_tail_words(ct).subrange(0, 9),
        decreases 12 - i,
    {
        let ghost prev = r@;
        r.push(0);
        i = i + 1;
        assert(r@.subrange(0, 9) =~= prev.subrange(0, 9));
    }
    let ghost zeros = Seq::new(12, |i: int| 0u32);
    assert(r@.subrange(9, 21) =~= zeros);
    assert(r@ =~= r@.subrange(0, 9) + zeros);
    if ct == ColorType::RGBA8 {
        r.push(2);
        r.push(0);
        r.push(0);
        r.push(0);
        assert(r@ =~= header_tail_words(ct).subrange(0, 9) + zeros + seq![2u32, 0u32, 0u32, 0u32]);
    } else {
        assert(r@ =~= header_tail_words(ct).subrange(0, 9) + zeros);
    }
    assert(r@ =~= header_tail_words(ct));
    r
}

/// Appends the 256-entry gray ramp palette.
fn push_grayscale_palette(out: &mut Vec<u8>)
    ensures
        final(out)@ == old(out)@ + grayscale_palette(),
{
    let ghost start = out@;
    let mut i: u32 = 0;
    while i < 256
        invariant
            i <= 256,
            out@ == start + grayscale_palette().subrange(0, 4 * i),
        decreases 256 - i,
    {
        let v = i as u8;
        out.push(v);
        out.push(v);
        out.push(v);
        out.push(0u8);
        i = i + 1;
        proof {
            let p = grayscale_palette();
            assert forall|j: int| 4 * (i - 1) <= j < 4 * i implies p[j] == if j % 4 == 3 {
                0u8
            } else {
                v
            } by {
                lemma_fundamental_div_mod_converse(j, 4, i - 1, j - 4 * (i - 1));
            }
            assert(out@ =~= start + p.subrange(0, 4 * i));
        }
    }
    assert(grayscale_palette().subrange(0, 1024) =~= grayscale_palette());
}

/// Appends the pixel rows of an image, bottom row first, each pixel's
/// channels reversed and each row padded with zeros to a multiple of four.
fn push_pixel_rows(out: &mut Vec<u8>, image: &Image)
    requires
        image.wf(),
        bmp_encodable(image@),
    ensures
        final(out)@ == old(out)@ + encoded_pixel_rows(image@),
{
    let ghost m = image@;
    let ghost start = out@;
    let ghost rows = encoded_pixel_rows(m);
    let width = image.width;
    let height = image.height;
    let bpp = image.color_type.bytes_per_pixel();
    assert(1 <= bpp <= 4);
    if height == 0 {
        assert(m.height * row_stride(m.width, bytes_per_pixel(m.color_type)) == 0) by (nonlinear_arith)
            requires
                m.height == 0,
        ;
        assert(rows =~= Seq::<u8>::empty());
        assert(out@ =~= start + rows);
        return;
    }
    proof {
        lemma_row_stride(width as nat, bpp as nat);
        let st = row_stride(width as nat, bpp as nat);
        assert(st <= height * st) by (nonlinear_arith)
            requires
                height >= 1,
        ;
        assert(height * st == encoded_pixel_data_size(m));
    }
    let row_bytes: usize = width as usize * bpp;
    let stride: usize = (row_bytes + 3) / 4 * 4;
    let data_len = image.data.len();
    let ghost g_stride = row_stride(width as nat, bpp as nat) as int;
    assert(stride == g_stride);
    let mut r: u32 = 0;
    while r < height
        invariant
            image.wf(),
            m == image@,
            rows == encoded_pixel_rows(m),
            bmp_encodable(m),
            width == image.width,
            height == image.height,
            bpp == bytes_per_pixel(image.color_type),
            1 <= bpp <= 4,
            row_bytes == width * bpp,
            row_bytes <= stride < row_bytes + 4,
            stride == g_stride,
            g_stride == row_stride(width as nat, bpp as nat),
            r <= height,
            data_len == image.data@.len(),
            out@ == start + rows.subrange(0, r * stride),
        decreases height - r,
    {
        let y: u32 = height - 1 - r;
        proof {
            assert(r * stride + stride <= height * stride) by (nonlinear_arith)
                requires
                    r < height,
            ;
        }
        let mut x: u32 = 0;
        while x < width
            invariant
                image.wf(),
                m == image@,
                rows == encoded_pixel_rows(m),
                bmp_encodable(m),
                width == image.width,
                height == image.height,
                bpp == bytes_per_pixel(image.color_type),
                1 <= bpp <= 4,
                row_bytes == width * bpp,
                row_bytes <= stride < row_bytes + 4,
                stride == g_stride,
                g_stride == row_stride(width as nat, bpp as nat),
                r < height,
                y == height - 1 - r,
                r * stride + stride <= height * stride,
                data_len == image.data@.len(),
                x <= width,
                out@ == start + rows.subrange(0, r * stride + x * bpp),
            decreases width - x,
        {
            proof {
                crate::image::lemma_pixel_in_buffer(
                    width as int,
                    height as int,
                    x as int,
                    y as int,
                    bpp as int,
                );
                assert(x * bpp + bpp <= row_bytes) by (nonlinear_arith)
                    requires
                        x < width,
                        row_bytes == width * bpp,
                ;
            }
            proof {
                assert(y * row_bytes + x * bpp == (y * width + x) * bpp) by (nonlinear_arith)
                    requires
                        row_bytes == width * bpp,
                ;
                assert(0 <= y * row_bytes) by (nonlinear_arith);
                assert(image.data@.len() == width * height * bpp);
                assert(y * row_bytes + x * bpp + bpp <= data_len);
            }
            let base: usize = y as usize * row_bytes + x as usize * bpp;
            let mut k: usize = 0;
            while k < bpp
                invariant
                    image.wf(),
                    m == image@,
                    rows == encoded_pixel_rows(m),
                    width == image.width,
                    height == image.height,
                    bpp == bytes_per_pixel(image.color_type),
                    1 <= bpp <= 4,
                    row_bytes == width * bpp,
                    row_bytes <= stride < row_bytes + 4,
                    stride == g_stride,
                    g_stride == row_stride(width as nat, bpp as nat),
                    r < height,
                    y == height - 1 - r,
                    r * stride + stride <= height * stride,
                    x < width,
                    x * bpp + bpp <= row_bytes,
                    base == (y * width + x) * bpp,
                    base + bpp <= image.data@.len(),
                    data_len == image.data@.len(),
                    k <= bpp,
                    out@ == start + rows.subrange(0, r * stride + x * bpp + k),
                decreases bpp - k,
            {
                let ghost i: int = r * stride + x * bpp + k;
                proof {
                    lemma_fundamental_div_mod_converse(i, stride as int, r as int, x * bpp + k);
                    lemma_fundamental_div_mod_converse(x * bpp + k, bpp as int, x as int, k as int);
                    assert(encoded_pixel_byte(m, i) == image.data@[base + (bpp - 1 - k)]);
                    assert(height * stride == encoded_pixel_data_size(m)) by (nonlinear_arith)
                        requires
                            stride == row_stride(width as nat, bpp as nat),
                            bpp == bytes_per_pixel(m.color_type),
                            height == m.height,
                            width == m.width,
                    ;
                }
                out.push(image.data[base + (bpp - 1 - k)]);
                k = k + 1;
                assert(out@ =~= start + rows.subrange(0, r * stride + x * bpp + k));
            }
            x = x + 1;
            assert(r * stride + (x - 1) * bpp + bpp == r * stride + x * bpp) by (nonlinear_arith);
        }
        let mut j: usize = row_bytes;
        while j < stride
            invariant
                m == image@,
                rows == encoded_pixel_rows(m),
                width == image.width,
                height == image.height,
                bpp == bytes_per_pixel(image.color_type),
                row_bytes == width * bpp,
                row_bytes <= stride,
                stride == g_stride,
                g_stride == row_stride(width as nat, bpp as nat),
                r < height,
                r * stride + stride <= height * stride,
                row_bytes <= j <= stride,
                out@ == start + rows.subrange(0, r * stride + j),
            decreases stride - j,
        {
            proof {
                let i: int = r * stride + j;
                lemma_fundamental_div_mod_converse(i, stride as int, r as int, j as int);
                assert(encoded_pixel_byte(m, i) == 0u8);
                assert(height * stride == encoded_pixel_data_size(m)) by (nonlinear_arith)
                    requires
                        stride == row_stride(width as nat, bpp as nat),
                        bpp == bytes_per_pixel(m.color_type),
                        height == m.height,
                        width == m.width,
                ;
            }
            out.push(0u8);
            j = j + 1;
            assert(out@ =~= start + rows.subrange(0, r * stride + j));
        }
        r = r + 1;
        assert(r * stride == (r - 1) * stride + stride) by (nonlinear_arith);
    }
    assert(height * stride == rows.len()) by (nonlinear_arith)
        requires
            stride == row_stride(width as nat, bpp as nat),
            bpp == bytes_per_pixel(m.color_type),
            height == m.height,
            width == m.width,
            rows.len() == encoded_pixel_data_size(m),
    ;
    assert(rows.subrange(0, height * stride) =~= rows);
}

/// Whether an image fits the format's header fields (see `bmp_encodable`).
pub fn fits_bmp(image: &Image) -> (r: bool)
    requires
        image.wf(),
    ensures
        r == bmp_encodable(image@),
{
    let bpp = image.color_type.bytes_per_pixel();
    let header: u128 = match image.color_type {
        ColorType::GRAYSCALE8 => 14 + 108 + 1024,
        ColorType::RGB8 => 14 + 108,
        ColorType::RGBA8 => 14 + 124,
    };
    assert(image.width * bpp <= 0x1_0000_0000 * 4) by (nonlinear_arith)
        requires
            image.width < 0x1_0000_0000,
            bpp <= 4,
    ;
    let row_bytes: u128 = image.width as u128 * bpp as u128;
    let stride: u128 = (row_bytes + 3) / 4 * 4;
    assert(image.height * stride <= 0x1_0000_0000 * 0x10_0000_0000) by (nonlinear_arith)
        requires
            image.height < 0x1_0000_0000,
            stride <= 0x10_0000_0000,
    ;
    let size: u128 = header + image.height as u128 * stride;
    image.width < 0x8000_0000 && image.height < 0x8000_0000 && size < 0x1_0000_0000
}

/// Encodes an image as a BMP file.
///
/// 8-bit images get a 4.x header and a 256-entry gray ramp palette; 24-bit
/// images a 4.x header with RGB channel masks; 32-bit images a 5.x header
/// with ABGR channel masks, the sRGB color space and bitfield compression.
/// Rows are written bottom to top, channels in reverse order (BGR, ABGR),
/// each row padded with zero bytes to a multiple of four. Every field is
/// little-endian.
pub fn write_bitmap(image: &Image) -> (r: Vec<u8>)
    requires
        image.wf(),
        bmp_encodable(image@),
    ensures
        r@ == bmp_encode(image@),
{
    let ghost m = image@;
    let ct = image.color_type;
    let bpp = ct.bytes_per_pixel();
    let header_size = chosen_version(ct).header_size();
    let (palette_size, bits, compression): (u32, u16, u32) = match ct {
        ColorType::GRAYSCALE8 => (1024, 8, COMPRESSION_RGB),
        ColorType::RGB8 => (0, 24, COMPRESSION_RGB),
        ColorType::RGBA8 => (0, 32, COMPRESSION_BITFIELDS),
    };
    let offset: u32 = FILE_HEADER_SIZE + header_size + palette_size;
    let row_bytes: u64 = image.width as u64 * bpp as u64;
    let stride: u64 = (row_bytes + 3) / 4 * 4;
    assert(stride == row_stride(m.width, bytes_per_pixel(ct)));
    let pixel_data_size: u32 = (image.height as u64 * stride) as u32;
    let file_size: u32 = offset + pixel_data_size;
    let mut out: Vec<u8> = Vec::new();
    out.push(0x42u8);
    out.push(0x4Du8);
    push_le32(&mut out, file_size);
    push_le32(&mut out, 0);
    push_le32(&mut out, offset);
    push_le32(&mut out, header_size);
    push_le32(&mut out, image.width);
    push_le32(&mut out, image.height);
    push_le16(&mut out, 1);
    push_le16(&mut out, bits);
    push_le32(&mut out, compression);
    push_le32(&mut out, pixel_data_size);
    assert(out@ =~= encoded_fixed_header(m));
    let tail = header_tail(ct);
    push_le32_words(&mut out, &tail);
    if ct == ColorType::GRAYSCALE8 {
        push_grayscale_palette(&mut out);
    }
    assert(out@ =~= encoded_fixed_header(m) + le32_words(header_tail_words(ct)) + encoded_palette(ct));
    push_pixel_rows(&mut out, image);
    out
}

// ---------------------------------------------------------------------------
// Laws

/// The bytes of a list of words take four bytes per word.
pub proof fn lemma_le32_words_len(words: Seq<u32>)
    ensures
        le32_words(words).len() == 4 * words.len(),
    decreases words.len(),
{
    if words.len() > 0 {
        lemma_le32_words_len(words.drop_last());
    }
}

/// A field whose four bytes are those of `v` reads back as `v`.
pub proof fn lemma_le32_at(b: Seq<u8>, i: int, v: nat)
    requires
        0 <= i,
        i + 4 <= b.len(),
        v < 0x1_0000_0000,
        b.subrange(i, i + 4) == le32_bytes(v),
    ensures
        le32(b, i) == v,
{
    lemma_le32_round_trip(v);
    let s = b.subrange(i, i + 4);
    assert(b[i] == s[0] && b[i + 1] == s[1] && b[i + 2] == s[2] && b[i + 3] == s[3]);
}

/// A field whose two bytes are those of `v` reads back as `v`.
pub proof fn lemma_le16_at(b: Seq<u8>, i: int, v: nat)
    requires
        0 <= i,
        i + 2 <= b.len(),
        v < 0x1_0000,
        b.subrange(i, i + 2) == le16_bytes(v),
    ensures
        le16(b, i) == v,
{
    lemma_le16_round_trip(v);
    let s = b.subrange(i, i + 2);
    assert(b[i] == s[0] && b[i + 1] == s[1]);
}

/// The file that the encoder writes ends with `height` scanlines of
/// `row_stride` bytes after the pixel data offset, each padded with zeros.
pub proof fn lemma_encoded_layout(m: ImageModel)
    requires
        m.wf(),
        bmp_encodable(m),
    ensures
        bmp_encode(m).len() == encoded_pixel_offset(m.color_type) + m.height * row_stride(
            m.width,
            bytes_per_pixel(m.color_type),
        ),
        rows_padded_with_zero(
            bmp_encode(m),
            encoded_pixel_offset(m.color_type),
            m.width * bytes_per_pixel(m.color_type),
            row_stride(m.width, bytes_per_pixel(m.color_type)),
            m.height,
        ),
{
    let ct = m.color_type;
    let bpp = bytes_per_pixel(ct);
    let stride = row_stride(m.width, bpp);
    let offset = encoded_pixel_offset(ct);
    let b = bmp_encode(m);
    let words = header_tail_words(ct);
    let rows = encoded_pixel_rows(m);
    lemma_le32_words_len(words);
    lemma_row_stride(m.width, bpp);
    assert(offset == 38 + le32_words(words).len() + encoded_palette(ct).len());
    assert(b.len() == offset + rows.len());
    let rb = m.width * bpp;
    assert(rows_padded_with_zero(b, offset, rb, stride, m.height)) by {
        assert forall|r: int, j: int|
            0 <= r < m.height && rb <= j < stride implies #[trigger] stored_byte(
            b,
            offset,
            stride,
            r,
            j,
        ) == 0 by {
            lemma_stored_byte_in_bounds(0, stride, m.height, r, j);
            lemma_fundamental_div_mod_converse(r * stride + j, stride as int, r, j);
            assert(encoded_pixel_byte(m, r * stride + j) == 0u8);
            assert(b[offset + r * stride + j] == rows[r * stride + j]);
        }
    }
}

/// The header fields that the decoder reads hold, in the file that the
/// encoder writes, the values that the encoder put there.
pub proof fn lemma_encoded_header_fields(m: ImageModel)
    requires
        m.wf(),
        bmp_encodable(m),
    ensures
        ({
            let b = bmp_encode(m);
            let ct = m.color_type;
            &&& b.len() >= 38
            &&& b[0] == 0x42u8 && b[1] == 0x4Du8
            &&& le32(b, 10) == encoded_pixel_offset(ct)
            &&& le32(b, 14) == encoded_header_size(ct)
            &&& le32(b, 18) == m.width
            &&& le32(b, 22) == m.height
            &&& le16(b, 28) == encoded_bits(ct)
            &&& le32(b, 30) == encoded_compression(ct)
        }),
{
    let ct = m.color_type;
    let offset = encoded_pixel_offset(ct);
    let b = bmp_encode(m);
    let words = header_tail_words(ct);
    let fixed = encoded_fixed_header(m);
    let rows = encoded_pixel_rows(m);
    lemma_le32_words_len(words);
    assert(fixed.len() == 38);
    assert(offset == 38 + le32_words(words).len() + encoded_palette(ct).len());
    assert(b.len() == offset + rows.len());
    assert(b.subrange(0, 38) =~= fixed);
    assert(b[0] == 0x42u8 && b[1] == 0x4Du8);
    assert(fixed.subrange(10, 14) =~= le32_bytes(offset));
    assert(fixed.subrange(14, 18) =~= le32_bytes(encoded_header_size(ct)));
    assert(fixed.subrange(18, 22) =~= le32_bytes(m.width));
    assert(fixed.subrange(22, 26) =~= le32_bytes(m.height));
    assert(fixed.subrange(28, 30) =~= le16_bytes(encoded_bits(ct)));
    assert(fixed.subrange(30, 34) =~= le32_bytes(encoded_compression(ct)));
    assert(b.subrange(10, 14) =~= fixed.subrange(10, 14));
    assert(b.subrange(14, 18) =~= fixed.subrange(14, 18));
    assert(b.subrange(18, 22) =~= fixed.subrange(18, 22));
    assert(b.subrange(22, 26) =~= fixed.subrange(22, 26));
    assert(b.subrange(28, 30) =~= fixed.subrange(28, 30));
    assert(b.subrange(30, 34) =~= fixed.subrange(30, 34));
    lemma_le32_at(b, 10, offset);
    lemma_le32_at(b, 14, encoded_header_size(ct));
    lemma_le32_at(b, 18, m.width);
    lemma_le32_at(b, 22, m.height);
    lemma_le16_at(b, 28, encoded_bits(ct));
    lemma_le32_at(b, 30, encoded_compression(ct));
}

/// In the file that the encoder writes, the bytes that the decoder takes
/// for each pixel are the image's own.
pub proof fn lemma_encoded_pixels(m: ImageModel)
    requires
        m.wf(),
        bmp_encodable(m),
    ensures
        Seq::new(
            m.width * m.height * bytes_per_pixel(m.color_type),
            |i: int|
                bmp_encode(m)[decoded_source(
                    i,
                    encoded_pixel_offset(m.color_type),
                    m.width,
                    m.height,
                    bytes_per_pixel(m.color_type),
                    false,
                )],
        ) == m.data,
{
    let ct = m.color_type;
    let bpp = bytes_per_pixel(ct);
    let stride = row_stride(m.width, bpp);
    let offset = encoded_pixel_offset(ct);
    let b = bmp_encode(m);
    let rows = encoded_pixel_rows(m);
    let rb = m.width * bpp;
    lemma_row_stride(m.width, bpp);
    lemma_le32_words_len(header_tail_words(ct));
    assert(offset == 38 + le32_words(header_tail_words(ct)).len() + encoded_palette(ct).len());
    assert(encoded_fixed_header(m).len() == 38);
    let data = Seq::new(
        m.width * m.height * bpp,
        |i: int| b[decoded_source(i, offset, m.width, m.height, bpp, false)],
    );
    assert forall|i: int| 0 <= i < data.len() implies data[i] == m.data[i] by {
        let y = i / (rb as int);
        let c = i % (rb as int);
        let x = c / (bpp as int);
        let k = c % (bpp as int);
        assert(rb > 0) by (nonlinear_arith)
            requires
                0 <= i < m.width * m.height * bpp,
                rb == m.width * bpp,
        ;
        vstd::arithmetic::div_mod::lemma_fundamental_div_mod(i, rb as int);
        vstd::arithmetic::div_mod::lemma_fundamental_div_mod(c, bpp as int);
        assert(0 <= c < rb);
        assert(0 <= k < bpp);
        assert(0 <= y < m.height) by (nonlinear_arith)
            requires
                i == rb * y + c,
                0 <= c < rb,
                0 <= i < m.width * m.height * bpp,
                rb == m.width * bpp,
        ;
        assert(0 <= x < m.width) by (nonlinear_arith)
            requires
                c == bpp * x + k,
                0 <= k < bpp,
                0 <= c < rb,
                rb == m.width * bpp,
        ;
        let r = m.height - 1 - y;
        let j = x * bpp + (bpp - 1 - k);
        assert(j < rb) by (nonlinear_arith)
            requires
                0 <= x < m.width,
                0 <= k < bpp,
                j == x * bpp + (bpp - 1 - k),
                rb == m.width * bpp,
        ;
        lemma_stored_byte_in_bounds(0, stride, m.height, r, j);
        lemma_fundamental_div_mod_converse(r * stride + j, stride as int, r, j);
        lemma_fundamental_div_mod_converse(j, bpp as int, x, bpp - 1 - k);
        assert(decoded_source(i, offset, m.width, m.height, bpp, false) == offset + r * stride + j);
        assert(b[offset + r * stride + j] == rows[r * stride + j]);
        assert(i == (y * m.width + x) * bpp + k) by (nonlinear_arith)
            requires
                i == rb * y + c,
                c == bpp * x + k,
                rb == m.width * bpp,
        ;
    }
    assert(data =~= m.data);
}

/// Decoding the file that the encoder writes for an image gives back the
/// image: its width, height, color type and every pixel byte.
pub proof fn lemma_bmp_round_trip(m: ImageModel)
    requires
        m.wf(),
        bmp_encodable(m),
    ensures
        bmp_decode(bmp_encode(m)) == Ok::<ImageModel, ImageError>(m),
{
    let ct = m.color_type;
    lemma_encoded_header_fields(m);
    lemma_encoded_layout(m);
    lemma_encoded_pixels(m);
    assert(depth_color_type(encoded_compression(ct), encoded_bits(ct)) == Some(ct));
    assert(rows_of(m.height) == m.height);
}

/// Each scanline that the encoder writes takes the row's pixel bytes
/// rounded up to the next multiple of four (for 24-bit images, `3 * width`
/// rounded up), and the file holds exactly `height` such scanlines after
/// the pixel data offset that its header gives (122 for 24-bit images),
/// each padded with zeros.
pub proof fn lemma_scanline_padding(m: ImageModel)
    requires
        m.wf(),
        bmp_encodable(m),
    ensures
        ({
            let bpp = bytes_per_pixel(m.color_type);
            let stride = row_stride(m.width, bpp);
            let b = bmp_encode(m);
            &&& stride % 4 == 0
            &&& m.width * bpp <= stride < m.width * bpp + 4
            &&& m.color_type == ColorType::RGB8 ==> stride == (3 * m.width + 3) / 4 * 4
            &&& le32(b, 10) == encoded_pixel_offset(m.color_type)
            &&& m.color_type == ColorType::RGB8 ==> encoded_pixel_offset(m.color_type) == 122
            &&& b.len() == encoded_pixel_offset(m.color_type) + m.height * stride
            &&& rows_padded_with_zero(
                b,
                encoded_pixel_offset(m.color_type),
                m.width * bpp,
                stride,
                m.height,
            )
        }),
{
    lemma_encoded_header_fields(m);
    lemma_encoded_layout(m);
    lemma_row_stride(m.width, bytes_per_pixel(m.color_type));
}

} // verus!
