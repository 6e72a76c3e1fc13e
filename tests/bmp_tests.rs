use raster::bmp::{chosen_version, fits_bmp, read_bitmap, write_bitmap, BmpVersion};
use raster::image::{ColorType, Image, ImageError};

fn sample(width: u32, height: u32, ct: ColorType) -> Image {
    let mut image = Image::new(width, height, ct);
    for (i, b) in image.data.iter_mut().enumerate() {
        *b = (i * 37 % 251) as u8;
    }
    image
}

fn le32(b: &[u8], i: usize) -> u32 {
    u32::from_le_bytes([b[i], b[i + 1], b[i + 2], b[i + 3]])
}

#[test]
fn test_writing() {
    let images = vec![
        sample(5, 3, ColorType::RGBA8),
        sample(4, 4, ColorType::RGB8),
        sample(3, 2, ColorType::RGB8),
        sample(6, 5, ColorType::GRAYSCALE8),
        sample(1, 7, ColorType::RGB8),
        sample(2, 7, ColorType::RGB8),
        sample(3, 7, ColorType::RGB8),
    ];
    for image in images.iter() {
        assert!(fits_bmp(image));
        let bytes = write_bitmap(image);
        let back = read_bitmap(&bytes).expect("Looks like you didn't get a valid image.");
        assert_eq!(&back, image);
    }
}

#[test]
fn minimal_rgb_round_trip() {
    let mut image = Image::new(2, 2, ColorType::RGB8);
    assert!(image.set_pixel(0, 0, vec![255, 0, 0]));
    assert!(image.set_pixel(1, 1, vec![0, 0, 255]));
    let bytes = write_bitmap(&image);
    let back = read_bitmap(&bytes).unwrap();
    assert_eq!(back.get_width(), 2);
    assert_eq!(back.get_height(), 2);
    assert_eq!(back.get_pixel(0, 0), Some(vec![255, 0, 0]));
    assert_eq!(back.get_pixel(1, 1), Some(vec![0, 0, 255]));
    assert_eq!(back.get_pixel(1, 0), Some(vec![0, 0, 0]));
    assert_eq!(back.get_pixel(0, 1), Some(vec![0, 0, 0]));
}

#[test]
fn round_trip_of_every_color_type_and_width() {
    for ct in [ColorType::GRAYSCALE8, ColorType::RGB8, ColorType::RGBA8] {
        for width in 0..6 {
            for height in 0..4 {
                let image = sample(width, height, ct);
                let back = read_bitmap(&write_bitmap(&image)).unwrap();
                assert_eq!(back, image);
            }
        }
    }
}

#[test]
fn rgb_scanlines_are_padded_to_four_bytes() {
    for width in 1u32..9 {
        let image = sample(width, 3, ColorType::RGB8);
        let bytes = write_bitmap(&image);
        let stride = ((width * 3 + 3) / 4 * 4) as usize;
        assert_eq!(bytes.len(), 122 + 3 * stride);
        for row in 0..3 {
            for j in (width as usize * 3)..stride {
                assert_eq!(bytes[122 + row * stride + j], 0);
            }
        }
    }
}

#[test]
fn exact_bytes_of_a_one_pixel_rgb_file() {
    let mut image = Image::new(1, 1, ColorType::RGB8);
    image.set_pixel(0, 0, vec![1, 2, 3]);
    let b = write_bitmap(&image);
    assert_eq!(&b[0..2], b"BM");
    assert_eq!(le32(&b, 2), 126);
    assert_eq!(le32(&b, 6), 0);
    assert_eq!(le32(&b, 10), 122);
    assert_eq!(le32(&b, 14), 108);
    assert_eq!(le32(&b, 18), 1);
    assert_eq!(le32(&b, 22), 1);
    assert_eq!(&b[26..30], &[1, 0, 24, 0]);
    assert_eq!(le32(&b, 30), 0);
    assert_eq!(le32(&b, 34), 4);
    assert_eq!(le32(&b, 38), 2835);
    assert_eq!(le32(&b, 54), 0x00FF_0000);
    assert_eq!(le32(&b, 58), 0x0000_FF00);
    assert_eq!(le32(&b, 62), 0x0000_00FF);
    assert_eq!(&b[122..], &[3, 2, 1, 0]);
}

#[test]
fn grayscale_file_carries_a_gray_ramp_palette() {
    let image = sample(2, 1, ColorType::GRAYSCALE8);
    let b = write_bitmap(&image);
    assert_eq!(le32(&b, 10), 1146);
    assert_eq!(le32(&b, 2), 1150);
    assert_eq!(&b[28..30], &[8, 0]);
    assert_eq!(&b[122..126], &[0, 0, 0, 0]);
    assert_eq!(&b[122 + 4 * 200..122 + 4 * 201], &[200, 200, 200, 0]);
    assert_eq!(&b[1146..], &[image.data[0], image.data[1], 0, 0]);
}

#[test]
fn rgba_file_uses_a_v5_header_with_bitfields() {
    let mut image = Image::new(1, 2, ColorType::RGBA8);
    image.set_pixel(0, 0, vec![1, 2, 3, 4]);
    image.set_pixel(0, 1, vec![5, 6, 7, 8]);
    let b = write_bitmap(&image);
    assert_eq!(le32(&b, 10), 138);
    assert_eq!(le32(&b, 14), 124);
    assert_eq!(le32(&b, 30), 3);
    assert_eq!(le32(&b, 54), 0xFF00_0000);
    assert_eq!(le32(&b, 66), 0x0000_00FF);
    assert_eq!(le32(&b, 70), 0x7352_4742);
    assert_eq!(le32(&b, 122), 2);
    // bottom row first, each pixel as A, B, G, R
    assert_eq!(&b[138..], &[8, 7, 6, 5, 4, 3, 2, 1]);
}

#[test]
fn chosen_versions() {
    assert_eq!(chosen_version(ColorType::GRAYSCALE8), BmpVersion::V4);
    assert_eq!(chosen_version(ColorType::RGB8), BmpVersion::V4);
    assert_eq!(chosen_version(ColorType::RGBA8), BmpVersion::V5);
    assert_eq!(BmpVersion::V3.header_size(), 40);
    assert_eq!(BmpVersion::V5.header_size(), 124);
}

fn v3_header(width: i32, height: i32, bits: u16, compression: u32, pixel_bytes: usize) -> Vec<u8> {
    let mut b = Vec::new();
    b.extend_from_slice(b"BM");
    b.extend_from_slice(&((54 + pixel_bytes) as u32).to_le_bytes());
    b.extend_from_slice(&0u32.to_le_bytes());
    b.extend_from_slice(&54u32.to_le_bytes());
    b.extend_from_slice(&40u32.to_le_bytes());
    b.extend_from_slice(&width.to_le_bytes());
    b.extend_from_slice(&height.to_le_bytes());
    b.extend_from_slice(&1u16.to_le_bytes());
    b.extend_from_slice(&bits.to_le_bytes());
    b.extend_from_slice(&compression.to_le_bytes());
    b.extend_from_slice(&(pixel_bytes as u32).to_le_bytes());
    b.extend_from_slice(&[0u8; 16]);
    b
}

#[test]
fn unsupported_bmp_variant_is_refused() {
    let mut b = v3_header(2, 2, 4, 1, 8);
    b.extend_from_slice(&[0u8; 8]);
    assert_eq!(read_bitmap(&b), Err(ImageError::UnsupportedBmpVariant));

    let mut b = v3_header(2, 2, 16, 0, 8);
    b.extend_from_slice(&[0u8; 8]);
    assert_eq!(read_bitmap(&b), Err(ImageError::UnsupportedBmpVariant));

    let mut b = v3_header(1, 1, 24, 0, 4);
    b[14] = 12;
    b.extend_from_slice(&[0u8; 4]);
    assert_eq!(read_bitmap(&b), Err(ImageError::UnsupportedBmpVariant));
}

#[test]
fn v3_rgb_file_is_read() {
    let mut b = v3_header(2, 1, 24, 0, 8);
    b.extend_from_slice(&[1, 2, 3, 4, 5, 6, 0, 0]);
    let image = read_bitmap(&b).unwrap();
    assert_eq!(image.color_type, ColorType::RGB8);
    assert_eq!(image.data, vec![3, 2, 1, 6, 5, 4]);
}

#[test]
fn negative_height_stores_rows_top_down() {
    let mut b = v3_header(1, -2, 8, 0, 8);
    b.extend_from_slice(&[10, 0, 0, 0, 20, 0, 0, 0]);
    let image = read_bitmap(&b).unwrap();
    assert_eq!(image.height, 2);
    assert_eq!(image.data, vec![10, 20]);

    let mut b = v3_header(1, 2, 8, 0, 8);
    b.extend_from_slice(&[10, 0, 0, 0, 20, 0, 0, 0]);
    let image = read_bitmap(&b).unwrap();
    assert_eq!(image.data, vec![20, 10]);
}

#[test]
fn bad_signature_is_refused() {
    let mut b = write_bitmap(&sample(2, 2, ColorType::RGB8));
    b[1] = b'X';
    assert_eq!(read_bitmap(&b), Err(ImageError::InvalidSignature));
    assert_eq!(read_bitmap(&[]), Err(ImageError::InvalidSignature));
    assert_eq!(read_bitmap(b"P6 1 1 255\n"), Err(ImageError::InvalidSignature));
}

#[test]
fn truncated_files_are_refused() {
    let b = write_bitmap(&sample(2, 2, ColorType::RGB8));
    assert_eq!(read_bitmap(&b[..b.len() - 1]), Err(ImageError::IoError));
    assert_eq!(read_bitmap(&b[..20]), Err(ImageError::IoError));
}

#[test]
fn nonzero_padding_is_refused() {
    let mut b = write_bitmap(&sample(1, 2, ColorType::RGB8));
    let last = b.len() - 1;
    b[last] = 1;
    assert_eq!(read_bitmap(&b), Err(ImageError::PaddingIntegrityError));
}

#[test]
fn malformed_headers_are_refused() {
    let mut b = v3_header(-1, 1, 24, 0, 4);
    b.extend_from_slice(&[0u8; 4]);
    assert_eq!(read_bitmap(&b), Err(ImageError::MalformedHeader));

    let mut b = v3_header(1, 1, 24, 0, 4);
    b[10] = 20;
    b.extend_from_slice(&[0u8; 4]);
    assert_eq!(read_bitmap(&b), Err(ImageError::MalformedHeader));
}

#[test]
fn oversized_images_do_not_fit() {
    let image = Image::new(0, 0, ColorType::RGB8);
    assert!(fits_bmp(&image));
    let wide = Image { width: 0x8000_0000, height: 0, color_type: ColorType::RGB8, data: Vec::new() };
    assert!(!fits_bmp(&wide));
}
