use raster::image::{ColorType, Image, ImageError};
use raster::ppm::{read_ppm, write_ppm, Pixel, PPM};

#[test]
fn header_parse_keeps_pixels_in_order() {
    let mut bytes = b"P6 3 2 255\n".to_vec();
    let pixels: Vec<u8> = (1..=18).collect();
    bytes.extend_from_slice(&pixels);
    let image = read_ppm(&bytes).unwrap();
    assert_eq!(image.width, 3);
    assert_eq!(image.height, 2);
    assert_eq!(image.color_type, ColorType::RGB8);
    assert_eq!(image.data, pixels);
}

#[test]
fn comments_and_line_breaks_in_the_header() {
    let mut bytes = b"P6\n# made by hand\n2 # width\n1\n255\n".to_vec();
    bytes.extend_from_slice(&[9, 8, 7, 6, 5, 4, 99]);
    let image = read_ppm(&bytes).unwrap();
    assert_eq!((image.width, image.height), (2, 1));
    assert_eq!(image.data, vec![9, 8, 7, 6, 5, 4]);
}

#[test]
fn unparsable_dimensions_read_as_zero() {
    let image = read_ppm(b"P6 x3 2 255\n").unwrap();
    assert_eq!(image.width, 0);
    assert_eq!(image.height, 2);
    assert!(image.data.is_empty());

    let image = read_ppm(b"P6 99999999999 0 255\n").unwrap();
    assert_eq!(image.width, 0);
}

#[test]
fn ppm_errors() {
    assert_eq!(read_ppm(b"P3 1 1 255\n000"), Err(ImageError::InvalidSignature));
    assert_eq!(read_ppm(b"P"), Err(ImageError::InvalidSignature));
    assert_eq!(read_ppm(b"P6 1 1"), Err(ImageError::IoError));
    assert_eq!(read_ppm(b"P6 1 1 255"), Err(ImageError::IoError));
    assert_eq!(read_ppm(b"P6 2 1 255\n123"), Err(ImageError::IoError));
}

#[test]
fn write_ppm_emits_header_and_buffer() {
    let mut image = Image::new(3, 2, ColorType::RGB8);
    image.set_pixel(2, 1, vec![7, 8, 9]);
    let bytes = write_ppm(&image);
    let mut expected = b"P6 3 2 255\n".to_vec();
    expected.extend_from_slice(&image.data);
    assert_eq!(bytes, expected);
    assert_eq!(read_ppm(&bytes).unwrap(), image);
}

#[test]
fn write_ppm_with_large_dimensions_in_the_header() {
    let image = Image { width: 1234567, height: 0, color_type: ColorType::RGB8, data: Vec::new() };
    assert_eq!(write_ppm(&image), b"P6 1234567 0 255\n".to_vec());
}

#[test]
fn ppm_grid_pixels() {
    let mut grid = PPM::new(2, 3);
    assert_eq!(grid.height, 2);
    assert_eq!(grid.width, 3);
    assert_eq!(grid.data.len(), 18);
    assert_eq!(grid.get_pixel(0, 0), Some(Pixel { r: 0, g: 0, b: 0 }));
    assert!(grid.set_pixel(2, 1, Pixel { r: 1, g: 2, b: 3 }));
    assert_eq!(grid.get_pixel(2, 1), Some(Pixel { r: 1, g: 2, b: 3 }));
    assert_eq!(&grid.data[15..18], &[1, 2, 3]);
    assert_eq!(grid.get_pixel(3, 0), None);
    assert_eq!(grid.get_pixel(0, 2), None);
    assert!(!grid.set_pixel(0, 2, Pixel { r: 1, g: 1, b: 1 }));
}

#[test]
fn ppm_round_trip_of_rgb_images() {
    for (width, height) in [(0u32, 0u32), (1, 1), (12, 3), (10, 11)] {
        let mut image = Image::new(width, height, ColorType::RGB8);
        for (i, b) in image.data.iter_mut().enumerate() {
            *b = (i * 29 % 256) as u8;
        }
        assert_eq!(read_ppm(&write_ppm(&image)).unwrap(), image);
    }
}

#[test]
fn ppm_grid_write_file() {
    let mut grid = PPM::new(1, 2);
    assert!(grid.set_pixel(1, 0, Pixel { r: 4, g: 5, b: 6 }));
    let mut expected = b"P6 2 1 255\n".to_vec();
    expected.extend_from_slice(&[0, 0, 0, 4, 5, 6]);
    assert_eq!(grid.write_file(), expected);
}
