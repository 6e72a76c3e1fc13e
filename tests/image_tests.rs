use raster::image::{ColorType, Image};

#[test]
fn test_image_new() {
    let image = Image::new(4, 4, ColorType::GRAYSCALE8);
    assert_eq!(image.get_width(), 4);
    assert_eq!(image.get_height(), 4);

    let image = Image::new(20, 20, ColorType::RGB8);
    assert_eq!(image.get_width(), 20);
    assert_eq!(image.get_height(), 20);

    let image = Image::new(1000, 1000, ColorType::RGB8);
    assert_eq!(image.get_width(), 1000);
    assert_eq!(image.get_height(), 1000);
}

#[test]
fn test_get_empty_pixel() {
    let image = Image::new(20, 20, ColorType::GRAYSCALE8);
    let grayscale_pixel = image.get_pixel(0, 0);
    assert_eq!(grayscale_pixel, Some(vec![0]));

    let image = Image::new(20, 20, ColorType::RGB8);
    let rgb_pixel = image.get_pixel(0, 0);
    assert_eq!(rgb_pixel, Some(vec![0, 0, 0]));

    let image = Image::new(20, 20, ColorType::RGBA8);
    let rgba_pixel = image.get_pixel(0, 0);
    assert_eq!(rgba_pixel, Some(vec![0, 0, 0, 0]));
}

#[test]
fn test_set_empty_pixel() {
    let mut image = Image::new(20, 20, ColorType::GRAYSCALE8);
    image.set_pixel(0, 0, vec![255]);
    let grayscale_pixel = image.get_pixel(0, 0);
    assert_eq!(grayscale_pixel, Some(vec![255]));

    let mut image = Image::new(20, 20, ColorType::RGB8);
    image.set_pixel(0, 0, vec![127, 54, 0]);
    let rgb_pixel = image.get_pixel(0, 0);
    assert_eq!(rgb_pixel, Some(vec![127, 54, 0]));

    let mut image = Image::new(20, 20, ColorType::RGBA8);
    image.set_pixel(0, 0, vec![23, 68, 144, 174]);
    let rgba_pixel = image.get_pixel(0, 0);
    assert_eq!(rgba_pixel, Some(vec![23, 68, 144, 174]));
}

#[test]
fn test_new() {
    let image = Image::new(4, 4, ColorType::GRAYSCALE8);
    assert_eq!(image.width, 4);
    assert_eq!(image.height, 4);

    let image = Image::new(20, 20, ColorType::RGB8);
    assert_eq!(image.width, 20);
    assert_eq!(image.height, 20);

    let image = Image::new(1000, 1000, ColorType::RGB8);
    assert_eq!(image.width, 1000);
    assert_eq!(image.height, 1000);
}

#[test]
fn test_get_pixel() {
    let image = Image::new(20, 20, ColorType::GRAYSCALE8);
    let grayscale_pixel = image.get_pixel(0, 0);
    assert_eq!(grayscale_pixel, Some(vec![0]));

    let image = Image::new(20, 20, ColorType::RGB8);
    let rgb_pixel = image.get_pixel(0, 0);
    assert_eq!(rgb_pixel, Some(vec![0, 0, 0]));

    let image = Image::new(20, 20, ColorType::RGBA8);
    let rgba_pixel = image.get_pixel(0, 0);
    assert_eq!(rgba_pixel, Some(vec![0, 0, 0, 0]));
}

#[test]
fn test_set_pixel() {
    let mut image = Image::new(20, 20, ColorType::GRAYSCALE8);
    image.set_pixel(0, 0, vec![255]);
    let grayscale_pixel = image.get_pixel(0, 0);
    assert_eq!(grayscale_pixel, Some(vec![255]));

    image.set_pixel(0, 0, vec![127]);
    let grayscale_pixel = image.get_pixel(0, 0);
    assert_eq!(grayscale_pixel, Some(vec![127]));

    let mut image = Image::new(20, 20, ColorType::RGB8);
    image.set_pixel(0, 0, vec![127, 54, 0]);
    let rgb_pixel = image.get_pixel(0, 0);
    assert_eq!(rgb_pixel, Some(vec![127, 54, 0]));

    image.set_pixel(0, 0, vec![255, 21, 98]);
    let rgb_pixel = image.get_pixel(0, 0);
    assert_eq!(rgb_pixel, Some(vec![255, 21, 98]));

    let mut image = Image::new(20, 20, ColorType::RGBA8);
    image.set_pixel(0, 0, vec![23, 68, 144, 174]);
    let rgba_pixel = image.get_pixel(0, 0);
    assert_eq!(rgba_pixel, Some(vec![23, 68, 144, 174]));

    image.set_pixel(0, 0, vec![64, 82, 1, 248]);
    let rgba_pixel = image.get_pixel(0, 0);
    assert_eq!(rgba_pixel, Some(vec![64, 82, 1, 248]));
}

#[test]
fn test_convert_to_grayscale8() {
    // RGB8 to GRAYSCALE8
    {
        let mut image = Image::new(1, 1, ColorType::RGB8);
        image.set_pixel(0, 0, vec![255, 0, 0]);
        assert!(image.convert_to_grayscale8());
        assert_eq!(image.get_pixel(0, 0), Some(vec![54]));

        image = Image::new(1, 1, ColorType::RGB8);
        image.set_pixel(0, 0, vec![0, 255, 0]);
        assert!(image.convert_to_grayscale8());
        assert_eq!(image.get_pixel(0, 0), Some(vec![182]));

        image = Image::new(1, 1, ColorType::RGB8);
        image.set_pixel(0, 0, vec![0, 0, 255]);
        assert!(image.convert_to_grayscale8());
        assert_eq!(image.get_pixel(0, 0), Some(vec![18]));

        assert!(image.convert_to_grayscale8());
    }

    // RGBA8 to GRAYSCALE8
    {
        let mut image = Image::new(1, 1, ColorType::RGBA8);
        image.set_pixel(0, 0, vec![255, 0, 0, 0]);
        assert!(image.convert_to_grayscale8());
        assert_eq!(image.get_pixel(0, 0), Some(vec![54]));

        image = Image::new(1, 1, ColorType::RGBA8);
        image.set_pixel(0, 0, vec![0, 255, 0, 0]);
        assert!(image.convert_to_grayscale8());
        assert_eq!(image.get_pixel(0, 0), Some(vec![182]));

        image = Image::new(1, 1, ColorType::RGBA8);
        image.set_pixel(0, 0, vec![0, 0, 255, 0]);
        assert!(image.convert_to_grayscale8());
        assert_eq!(image.get_pixel(0, 0), Some(vec![18]));

        image = Image::new(1, 1, ColorType::RGBA8);
        image.set_pixel(0, 0, vec![0, 0, 0, 255]);
        assert!(image.convert_to_grayscale8());
        assert_eq!(image.get_pixel(0, 0), Some(vec![0]));

        assert!(image.convert_to_grayscale8());
    }
}

#[test]
fn test_convert_to_rgb8() {
    // GRAYSCALE8 to RGB8
    {
        let mut image = Image::new(1, 1, ColorType::GRAYSCALE8);
        image.set_pixel(0, 0, vec![255]);
        assert!(image.convert_to_rgb8());
        assert_eq!(image.get_pixel(0, 0), Some(vec![255, 255, 255]));

        image = Image::new(1, 1, ColorType::GRAYSCALE8);
        assert!(image.convert_to_rgb8());
        assert_eq!(image.get_pixel(0, 0), Some(vec![0, 0, 0]));

        assert!(image.convert_to_rgb8());
    }

    // RGBA8 to RGB8
    {
        let mut image = Image::new(1, 1, ColorType::RGBA8);
        image.set_pixel(0, 0, vec![255, 0, 0, 0]);
        assert!(image.convert_to_rgb8());
        assert_eq!(image.get_pixel(0, 0), Some(vec![255, 0, 0]));

        image = Image::new(1, 1, ColorType::RGBA8);
        image.set_pixel(0, 0, vec![0, 255, 0, 0]);
        assert!(image.convert_to_rgb8());
        assert_eq!(image.get_pixel(0, 0), Some(vec![0, 255, 0]));

        image = Image::new(1, 1, ColorType::RGBA8);
        image.set_pixel(0, 0, vec![0, 0, 255, 0]);
        assert!(image.convert_to_rgb8());
        assert_eq!(image.get_pixel(0, 0), Some(vec![0, 0, 255]));

        image = Image::new(1, 1, ColorType::RGBA8);
        image.set_pixel(0, 0, vec![0, 0, 0, 255]);
        assert!(image.convert_to_rgb8());
        assert_eq!(image.get_pixel(0, 0), Some(vec![0, 0, 0]));

        assert!(image.convert_to_rgb8());
    }
}

#[test]
fn test_convert_to_rgba8() {
    // GRAYSCALE8 to RGBA8
    {
        let mut image = Image::new(1, 1, ColorType::GRAYSCALE8);
        image.set_pixel(0, 0, vec![255]);
        assert!(image.convert_to_rgba8());
        assert_eq!(image.get_pixel(0, 0), Some(vec![255, 255, 255, 255]));

        image = Image::new(1, 1, ColorType::GRAYSCALE8);
        assert!(image.convert_to_rgba8());
        assert_eq!(image.get_pixel(0, 0), Some(vec![0, 0, 0, 255]));

        assert!(image.convert_to_rgba8());
    }

    // RGB8 to RGBA8
    {
        let mut image = Image::new(1, 1, ColorType::RGB8);
        image.set_pixel(0, 0, vec![255, 0, 0]);
        assert!(image.convert_to_rgba8());
        assert_eq!(image.get_pixel(0, 0), Some(vec![255, 0, 0, 255]));

        image = Image::new(1, 1, ColorType::RGB8);
        image.set_pixel(0, 0, vec![0, 255, 0]);
        assert!(image.convert_to_rgba8());
        assert_eq!(image.get_pixel(0, 0), Some(vec![0, 255, 0, 255]));

        image = Image::new(1, 1, ColorType::RGB8);
        image.set_pixel(0, 0, vec![0, 0, 255]);
        assert!(image.convert_to_rgba8());
        assert_eq!(image.get_pixel(0, 0), Some(vec![0, 0, 255, 255]));

        image = Image::new(1, 1, ColorType::RGB8);
        image.set_pixel(0, 0, vec![0, 0, 0]);
        assert!(image.convert_to_rgba8());
        assert_eq!(image.get_pixel(0, 0), Some(vec![0, 0, 0, 255]));

        assert!(image.convert_to_rgba8());
    }
}

#[test]
fn out_of_bounds_pixels_are_refused_for_every_color_type() {
    for ct in [ColorType::GRAYSCALE8, ColorType::RGB8, ColorType::RGBA8] {
        let mut image = Image::new(3, 2, ct);
        let bpp = ct.bytes_per_pixel();
        assert_eq!(image.get_pixel(3, 0), None);
        assert_eq!(image.get_pixel(0, 2), None);
        assert_eq!(image.get_pixel(100, 100), None);
        assert!(!image.set_pixel(3, 0, vec![9; bpp]));
        assert!(!image.set_pixel(0, 2, vec![9; bpp]));
        assert!(image.data.iter().all(|&b| b == 0));
        assert!(image.get_pixel(2, 1).is_some());
        assert!(image.set_pixel(2, 1, vec![9; bpp]));
    }
}

#[test]
fn set_pixel_refuses_a_color_of_the_wrong_length() {
    let mut image = Image::new(2, 2, ColorType::RGB8);
    assert!(!image.set_pixel(0, 0, vec![1, 2]));
    assert!(!image.set_pixel(0, 0, vec![1, 2, 3, 4]));
    assert_eq!(image.get_pixel(0, 0), Some(vec![0, 0, 0]));
}

#[test]
fn set_pixel_writes_only_its_own_bytes() {
    let mut image = Image::new(3, 2, ColorType::RGB8);
    assert!(image.set_pixel(1, 1, vec![7, 8, 9]));
    let mut expected = vec![0u8; 18];
    expected[12] = 7;
    expected[13] = 8;
    expected[14] = 9;
    assert_eq!(image.data, expected);
}

#[test]
fn empty_image_has_no_pixels() {
    let image = Image::new(0, 0, ColorType::RGBA8);
    assert!(image.data.is_empty());
    assert_eq!(image.get_pixel(0, 0), None);
    assert_eq!(image.get_color_type(), ColorType::RGBA8);
}

#[test]
fn rgba_to_rgb_and_back_keeps_colors_and_makes_alpha_opaque() {
    let mut image = Image::new(2, 1, ColorType::RGBA8);
    image.set_pixel(0, 0, vec![10, 20, 30, 40]);
    image.set_pixel(1, 0, vec![50, 60, 70, 255]);
    assert!(image.convert_to_rgb8());
    assert!(image.convert_to_rgba8());
    assert_eq!(image.data, vec![10, 20, 30, 255, 50, 60, 70, 255]);
}

#[test]
fn converting_to_the_same_type_changes_nothing() {
    let mut image = Image::new(1, 2, ColorType::RGBA8);
    image.set_pixel(0, 1, vec![1, 2, 3, 4]);
    assert!(image.convert_to_rgba8());
    assert_eq!(image.data, vec![0, 0, 0, 0, 1, 2, 3, 4]);
}

#[test]
fn luminance_of_white_and_mixed_colors() {
    let mut image = Image::new(2, 1, ColorType::RGB8);
    image.set_pixel(0, 0, vec![255, 255, 255]);
    image.set_pixel(1, 0, vec![100, 150, 200]);
    assert!(image.convert_to_grayscale8());
    // 0.2126*100 + 0.7152*150 + 0.0722*200 = 142.98
    assert_eq!(image.data, vec![255, 142]);
}
