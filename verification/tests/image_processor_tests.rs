use asciigen::image_processor::{ImageProcessor, PrepareError};
use asciigen::raster::GrayImage;
use image::{DynamicImage, Rgb, RgbImage};

#[test]
fn test_convert_to_grayscale() {
    let processor = ImageProcessor::new();
    let rgb_img = RgbImage::new(10, 10);
    let dynamic_img = DynamicImage::ImageRgb8(rgb_img);

    let gray_img = processor.convert_to_grayscale(&dynamic_img);
    assert_eq!(gray_img.width(), 10);
    assert_eq!(gray_img.height(), 10);
}

#[test]
fn test_resize_image() {
    let processor = ImageProcessor::new();
    let rgb_img = RgbImage::new(100, 100);
    let dynamic_img = DynamicImage::ImageRgb8(rgb_img);

    let resized = processor.resize_image(&dynamic_img, 50, 50).unwrap();
    assert_eq!(resized.width(), 50);
    assert_eq!(resized.height(), 50);
}

#[test]
fn test_invert_image() {
    let processor = ImageProcessor::new();
    let mut img = GrayImage::new(2, 2);

    // Set some test pixel values
    img.put_pixel(0, 0, 100);
    img.put_pixel(1, 0, 200);
    img.put_pixel(0, 1, 0);
    img.put_pixel(1, 1, 255);

    processor.invert_image(&mut img);

    // Check that pixels are inverted (255 - original_value)
    assert_eq!(img.get_pixel(0, 0), 155); // 255 - 100
    assert_eq!(img.get_pixel(1, 0), 55); // 255 - 200
    assert_eq!(img.get_pixel(0, 1), 255); // 255 - 0
    assert_eq!(img.get_pixel(1, 1), 0); // 255 - 255
}

#[test]
fn test_prepare_target_image_with_inversion() {
    let processor = ImageProcessor::new();
    let rgb_img = RgbImage::new(10, 10);
    let dynamic_img = DynamicImage::ImageRgb8(rgb_img);

    // Test without inversion
    let result_normal =
        processor.prepare_target_image_with_inversion(&dynamic_img, 5, 5, false).unwrap();
    assert_eq!(result_normal.width(), 5);
    assert_eq!(result_normal.height(), 5);

    // Test with inversion
    let result_inverted =
        processor.prepare_target_image_with_inversion(&dynamic_img, 5, 5, true).unwrap();
    assert_eq!(result_inverted.width(), 5);
    assert_eq!(result_inverted.height(), 5);

    // The inverted result should have different pixel values than the normal result
    let normal_pixel = result_normal.get_pixel(0, 0);
    let inverted_pixel = result_inverted.get_pixel(0, 0);
    assert_eq!(normal_pixel as u32 + inverted_pixel as u32, 255); // Should sum to 255 due to inversion
}

#[test]
fn grayscale_keeps_white_white_and_black_black() {
    let processor = ImageProcessor::new();
    let mut rgb_img = RgbImage::new(3, 2);
    rgb_img.put_pixel(1, 0, Rgb([255, 255, 255]));
    rgb_img.put_pixel(2, 1, Rgb([255, 255, 255]));
    let dynamic_img = DynamicImage::ImageRgb8(rgb_img);
    let gray = processor.convert_to_grayscale(&dynamic_img);
    assert_eq!(gray.dimensions(), (3, 2));
    assert_eq!(gray.to_pixels(), vec![0, 255, 0, 0, 0, 255]);
    let target = processor.finish_target_image(&dynamic_img, true);
    assert_eq!(target.to_pixels(), vec![255, 0, 255, 255, 255, 0]);
    let target = processor.finish_target_image(&dynamic_img, false);
    assert_eq!(target.to_pixels(), vec![0, 255, 0, 0, 0, 255]);
}

#[test]
fn resizing_a_uniform_image_keeps_its_colour() {
    let processor = ImageProcessor::new();
    let mut rgb_img = RgbImage::new(8, 6);
    for pixel in rgb_img.pixels_mut() {
        *pixel = Rgb([255, 255, 255]);
    }
    let dynamic_img = DynamicImage::ImageRgb8(rgb_img);
    let target = processor.prepare_target_image_with_inversion(&dynamic_img, 4, 3, false).unwrap();
    assert_eq!(target.dimensions(), (4, 3));
    assert_eq!(target.to_pixels(), vec![255; 12]);
    let target = processor.prepare_target_image_with_inversion(&dynamic_img, 16, 9, true).unwrap();
    assert_eq!(target.dimensions(), (16, 9));
    assert_eq!(target.to_pixels(), vec![0; 144]);
    // the same size is a plain copy
    let same = processor.resize_image(&dynamic_img, 8, 6).unwrap();
    assert_eq!(same.to_rgb8().into_raw(), vec![255; 8 * 6 * 3]);
}

#[test]
fn inverting_twice_gives_the_image_back() {
    let processor = ImageProcessor::new();
    let pixels: Vec<u8> = (0..30u32).map(|i| (i * 9 % 256) as u8).collect();
    let mut img = GrayImage::from_pixels(6, 5, &pixels).unwrap();
    processor.invert_image(&mut img);
    let inverted: Vec<u8> = pixels.iter().map(|v| 255 - v).collect();
    assert_eq!(img.to_pixels(), inverted);
    processor.invert_image(&mut img);
    assert_eq!(img.to_pixels(), pixels);
    let mut empty = GrayImage::new(0, 0);
    processor.invert_image(&mut empty);
    assert_eq!(empty.to_pixels(), Vec::<u8>::new());
}

#[test]
fn a_target_too_large_to_hold_is_refused() {
    let processor = ImageProcessor::new();
    let dynamic_img = DynamicImage::ImageRgb8(RgbImage::new(4, 4));
    assert!(processor.can_resize(&dynamic_img, 100, 100));
    assert!(processor.can_resize(&dynamic_img, 0, 0));
    assert!(!processor.can_resize(&dynamic_img, u32::MAX, u32::MAX));
    let refused =
        processor.prepare_target_image_with_inversion(&dynamic_img, u32::MAX, u32::MAX, false);
    assert_eq!(refused.err(), Some(PrepareError::TooLarge));
    // an empty target is no error
    let empty = processor.prepare_target_image_with_inversion(&dynamic_img, 0, 5, true).unwrap();
    assert_eq!(empty.dimensions(), (0, 5));
}
