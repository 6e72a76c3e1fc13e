use raster::bmp::{read_bitmap, write_bitmap};
use raster::filter::{ConvolutionFilter, PointProcessor};
use raster::image::{ColorType, Image};

#[test]
fn test_blur() {
    let images = vec![
        Image::new(4, 3, ColorType::RGBA8),
        Image::new(5, 2, ColorType::RGB8),
        Image::new(3, 3, ColorType::GRAYSCALE8),
    ];
    for mut image in images {
        for (i, b) in image.data.iter_mut().enumerate() {
            *b = (i * 53 % 256) as u8;
        }
        let width = image.width;
        let height = image.height;
        image.blur();
        assert_eq!((image.width, image.height), (width, height));
        let bytes = write_bitmap(&image);
        assert_eq!(read_bitmap(&bytes).unwrap(), image);
    }
}

#[test]
fn blur_averages_neighbourhoods_and_drops_outside_taps() {
    let mut image = Image::new(3, 3, ColorType::GRAYSCALE8);
    for b in image.data.iter_mut() {
        *b = 9;
    }
    image.blur();
    assert_eq!(image.data, vec![4, 6, 4, 6, 9, 6, 4, 6, 4]);
}

#[test]
fn blur_keeps_alpha() {
    let mut image = Image::new(2, 1, ColorType::RGBA8);
    image.set_pixel(0, 0, vec![90, 0, 18, 7]);
    image.set_pixel(1, 0, vec![0, 9, 0, 200]);
    image.blur();
    assert_eq!(image.data, vec![10, 1, 2, 7, 10, 1, 2, 200]);
}

#[test]
fn negative_inverts_colors_and_keeps_alpha() {
    let mut image = Image::new(1, 1, ColorType::RGBA8);
    image.set_pixel(0, 0, vec![10, 20, 30, 40]);
    image.negative();
    assert_eq!(image.data, vec![245, 235, 225, 40]);

    let mut image = Image::new(3, 1, ColorType::GRAYSCALE8);
    image.set_pixel(1, 0, vec![5]);
    image.negative();
    assert_eq!(image.data, vec![255, 250, 255]);
}

#[test]
fn brighten_clamps_to_a_byte() {
    let mut image = Image::new(1, 1, ColorType::RGB8);
    image.set_pixel(0, 0, vec![250, 10, 100]);
    image.brighten(10);
    assert_eq!(image.data, vec![255, 20, 110]);
    image.brighten(-20);
    assert_eq!(image.data, vec![235, 0, 90]);
    image.brighten(i64::MIN);
    assert_eq!(image.data, vec![0, 0, 0]);
    image.brighten(i64::MAX);
    assert_eq!(image.data, vec![255, 255, 255]);
}

#[test]
fn saturate_moves_channels_around_the_pixel_luminance() {
    let mut image = Image::new(1, 1, ColorType::RGBA8);
    image.set_pixel(0, 0, vec![255, 0, 0, 77]);
    image.saturate(0);
    assert_eq!(image.data, vec![54, 54, 54, 77]);

    let mut image = Image::new(1, 1, ColorType::RGB8);
    image.set_pixel(0, 0, vec![200, 100, 50]);
    image.saturate(1000);
    assert_eq!(image.data, vec![200, 100, 50]);
    // luminance 0.2126*200 + 0.7152*100 + 0.0722*50 = 117.66
    image.saturate(2000);
    assert_eq!(image.data, vec![255, 82, 0]);
}

#[test]
fn contrast_moves_channels_around_the_mean_luminance() {
    let mut image = Image::new(2, 1, ColorType::GRAYSCALE8);
    image.set_pixel(1, 0, vec![100]);
    image.contrast(0);
    assert_eq!(image.data, vec![50, 50]);

    let mut image = Image::new(2, 1, ColorType::GRAYSCALE8);
    image.set_pixel(1, 0, vec![100]);
    image.contrast(2000);
    assert_eq!(image.data, vec![0, 150]);

    let mut image = Image::new(0, 0, ColorType::RGB8);
    image.contrast(500);
    assert!(image.data.is_empty());
}
