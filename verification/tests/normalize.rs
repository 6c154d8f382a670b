use raster_kernels::error::KernelError;
use raster_kernels::normalize::normalize_matte;
use raster_kernels::ratio::Ratio;

fn rgba(colour: u8, alpha: &[u8]) -> Vec<u8> {
    let mut image = Vec::new();
    for a in alpha {
        image.push(colour);
        image.push(colour);
        image.push(colour);
        image.push(*a);
    }
    image
}

#[test]
fn no_softness_leaves_the_image_alone() {
    let mut image = rgba(200, &[0, 255, 128, 127]);
    let before = image.clone();
    let c = normalize_matte(&mut image, 2, 2, Ratio::whole(0)).unwrap();
    assert_eq!(image, before);
    assert_eq!(c.area, 2);
    assert_eq!((c.x_num, c.y_num, c.den), (1, 1, 2));
    assert_eq!((c.bounds_x, c.bounds_y, c.bounds_width, c.bounds_height), (0, 0, 2, 2));
}

#[test]
fn full_softness_replaces_alpha_by_its_blur() {
    // Radius 2 spans the whole row, so every pixel gets the mean of all
    // three, 255 / 3 = 85, and the colours are scaled by 85 / 255.
    let mut image = rgba(200, &[0, 255, 0]);
    let c = normalize_matte(&mut image, 3, 1, Ratio::whole(1)).unwrap();
    assert_eq!(image, rgba(66, &[85, 85, 85]));
    assert_eq!(c.area, 0);
    assert_eq!((c.x_num, c.y_num, c.den), (3, 1, 2));
    assert_eq!((c.bounds_x, c.bounds_y, c.bounds_width, c.bounds_height), (0, 0, 3, 1));
}

#[test]
fn half_softness_mixes_the_blur_with_the_plane() {
    // Radius 1. The window shrinks to two samples at either end: the blur is
    // 127, 85, 127, and half of it mixed with half of 0, 255, 0 rounds to
    // 64, 170, 64.
    let mut image = rgba(200, &[0, 255, 0]);
    let c = normalize_matte(&mut image, 3, 1, Ratio::new(1, 2)).unwrap();
    let mut expected = Vec::new();
    expected.extend_from_slice(&[50, 50, 50, 64]);
    expected.extend_from_slice(&[133, 133, 133, 170]);
    expected.extend_from_slice(&[50, 50, 50, 64]);
    assert_eq!(image, expected);
    assert_eq!(c.area, 1);
    assert_eq!((c.x_num, c.y_num, c.den), (1, 0, 1));
    assert_eq!((c.bounds_x, c.bounds_y, c.bounds_width, c.bounds_height), (1, 0, 1, 1));
}

#[test]
fn the_blur_runs_along_rows_and_then_columns() {
    // One opaque pixel in the middle of 3 by 3, radius 1 at a softness of
    // one half. Along the rows the middle row becomes 127, 85, 127; along
    // the columns each of those is averaged with the zeros above and below.
    let mut alpha = vec![0u8; 9];
    alpha[4] = 255;
    let mut image = rgba(255, &alpha);
    normalize_matte(&mut image, 3, 3, Ratio::new(1, 2)).unwrap();
    let plane: Vec<u8> = (0..9).map(|i| image[4 * i + 3]).collect();
    // blurred: 63 42 63 / 42 28 42 / 63 42 63, then mixed half and half.
    assert_eq!(plane, vec![32, 21, 32, 21, 142, 21, 32, 21, 32]);
    // Opaque white is premultiplied to the alpha itself.
    for i in 0..9 {
        assert_eq!(image[4 * i], plane[i]);
        assert_eq!(image[4 * i + 1], plane[i]);
        assert_eq!(image[4 * i + 2], plane[i]);
    }
}

#[test]
fn premultiplication_rounds_towards_zero() {
    // A uniform plane is its own blur, so alpha stays 128 and the colours
    // become colour * 128 / 255 cut off: 254 gives 127.49, 2 gives 1.003,
    // 1 gives 0.50.
    let mut image: Vec<u8> = vec![254, 2, 1, 128, 255, 0, 3, 128];
    let c = normalize_matte(&mut image, 2, 1, Ratio::new(1, 4)).unwrap();
    assert_eq!(image, vec![127, 1, 0, 128, 128, 0, 1, 128]);
    assert_eq!(c.area, 2);
}

#[test]
fn the_centroid_is_that_of_the_smoothed_plane() {
    // Before smoothing two pixels reach 128; after it only the first one.
    let mut image = rgba(10, &[130, 255, 0, 0, 0]);
    let c = normalize_matte(&mut image, 5, 1, Ratio::whole(1)).unwrap();
    let plane: Vec<u8> = (0..5).map(|i| image[4 * i + 3]).collect();
    assert_eq!(plane, vec![128, 96, 77, 63, 0]);
    assert_eq!(c.area, 1);
    assert_eq!((c.bounds_x, c.bounds_y, c.bounds_width, c.bounds_height), (0, 0, 1, 1));
}

#[test]
fn matte_refuses_a_softness_above_one() {
    let mut image = rgba(200, &[0, 255, 0]);
    let before = image.clone();
    let r = normalize_matte(&mut image, 3, 1, Ratio::new(3, 2));
    assert!(matches!(r, Err(KernelError::InvalidParameter)));
    assert_eq!(image, before);
    let r = normalize_matte(&mut image, 3, 1, Ratio::new(0, 0));
    assert!(matches!(r, Err(KernelError::InvalidParameter)));
    assert_eq!(image, before);
}

#[test]
fn matte_refuses_a_zero_dimension() {
    let mut image: Vec<u8> = Vec::new();
    let r = normalize_matte(&mut image, 0, 1, Ratio::whole(1));
    assert!(matches!(r, Err(KernelError::InvalidParameter)));
}

#[test]
fn matte_refuses_a_buffer_of_the_wrong_length() {
    let mut image = vec![9u8; 11];
    let r = normalize_matte(&mut image, 3, 1, Ratio::whole(1));
    assert!(matches!(r, Err(KernelError::MalformedInput)));
    assert_eq!(image, vec![9u8; 11]);
    // One byte per pixel is not an RGBA image.
    let mut plane = vec![9u8; 3];
    let r = normalize_matte(&mut plane, 3, 1, Ratio::whole(0));
    assert!(matches!(r, Err(KernelError::MalformedInput)));
}
