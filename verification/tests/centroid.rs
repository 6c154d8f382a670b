use raster_kernels::centroid::{calculate_centroid, Centroid};
use raster_kernels::error::KernelError;

fn centre_x(c: &Centroid) -> f32 {
    (c.x_num as f64 / c.den as f64) as f32
}

fn centre_y(c: &Centroid) -> f32 {
    (c.y_num as f64 / c.den as f64) as f32
}

#[test]
fn test_centroid_empty() {
    let alpha = vec![0u8; 16];
    let c = calculate_centroid(&alpha, 4, 4, 128).unwrap();
    assert_eq!(c.area, 0);
    assert_eq!(centre_x(&c), 2.0);
    assert_eq!(centre_y(&c), 2.0);
}

#[test]
fn test_centroid_filled() {
    let alpha = vec![255u8; 16];
    let c = calculate_centroid(&alpha, 4, 4, 128).unwrap();
    assert_eq!(c.area, 16);
    assert_eq!(centre_x(&c), 1.5);
    assert_eq!(centre_y(&c), 1.5);
}

#[test]
fn an_empty_mask_has_the_whole_image_as_its_box() {
    let alpha = vec![0u8; 15];
    let c = calculate_centroid(&alpha, 5, 3, 128).unwrap();
    assert_eq!(c.area, 0);
    assert_eq!((c.x_num, c.y_num, c.den), (5, 3, 2));
    assert_eq!(centre_x(&c), 2.5);
    assert_eq!(centre_y(&c), 1.5);
    assert_eq!((c.bounds_x, c.bounds_y, c.bounds_width, c.bounds_height), (0, 0, 5, 3));
}

#[test]
fn an_empty_mask_of_odd_sides_is_centred_on_a_half() {
    let alpha = vec![0u8; 9];
    let c = calculate_centroid(&alpha, 3, 3, 128).unwrap();
    assert_eq!(c.area, 0);
    assert_eq!(centre_x(&c), 1.5);
    assert_eq!(centre_y(&c), 1.5);
    assert_eq!((c.bounds_x, c.bounds_y, c.bounds_width, c.bounds_height), (0, 0, 3, 3));
    let row = vec![0u8; 7];
    let c = calculate_centroid(&row, 7, 1, 1).unwrap();
    assert_eq!(centre_x(&c), 3.5);
    assert_eq!(centre_y(&c), 0.5);
}

#[test]
fn a_full_mask_has_the_whole_image_as_its_box() {
    let alpha = vec![255u8; 16];
    let c = calculate_centroid(&alpha, 4, 4, 128).unwrap();
    assert_eq!((c.x_num, c.y_num, c.den), (24, 24, 16));
    assert_eq!((c.bounds_x, c.bounds_y, c.bounds_width, c.bounds_height), (0, 0, 4, 4));
}

#[test]
fn the_box_hugs_the_qualifying_pixels() {
    let alpha: Vec<u8> = vec![
        0, 0, 0, 0, 0, 0, //
        0, 0, 0, 200, 0, 0, //
        0, 0, 128, 0, 127, 0, //
        0, 0, 0, 255, 0, 0, //
        0, 0, 0, 0, 0, 0,
    ];
    let c = calculate_centroid(&alpha, 6, 5, 128).unwrap();
    assert_eq!(c.area, 3);
    assert_eq!((c.x_num, c.y_num, c.den), (8, 6, 3));
    assert_eq!((c.bounds_x, c.bounds_y, c.bounds_width, c.bounds_height), (2, 1, 2, 3));
    assert_eq!(centre_y(&c), 2.0);
}

#[test]
fn the_threshold_is_inclusive() {
    let alpha: Vec<u8> = vec![99, 100, 101];
    assert_eq!(calculate_centroid(&alpha, 3, 1, 100).unwrap().area, 2);
    assert_eq!(calculate_centroid(&alpha, 3, 1, 101).unwrap().area, 1);
    assert_eq!(calculate_centroid(&alpha, 3, 1, 102).unwrap().area, 0);
}

#[test]
fn a_threshold_of_zero_takes_every_pixel() {
    let alpha = vec![0u8; 6];
    let c = calculate_centroid(&alpha, 3, 2, 0).unwrap();
    assert_eq!(c.area, 6);
    assert_eq!((c.x_num, c.y_num, c.den), (6, 3, 6));
    assert_eq!((c.bounds_x, c.bounds_y, c.bounds_width, c.bounds_height), (0, 0, 3, 2));
}

#[test]
fn a_single_pixel_is_its_own_centroid() {
    let mut alpha = vec![0u8; 12];
    alpha[7] = 255;
    let c = calculate_centroid(&alpha, 4, 3, 1).unwrap();
    assert_eq!(c.area, 1);
    assert_eq!(centre_x(&c), 3.0);
    assert_eq!(centre_y(&c), 1.0);
    assert_eq!((c.bounds_x, c.bounds_y, c.bounds_width, c.bounds_height), (3, 1, 1, 1));
}

#[test]
fn centroid_refuses_a_zero_dimension() {
    let alpha: Vec<u8> = Vec::new();
    assert!(matches!(calculate_centroid(&alpha, 0, 4, 128), Err(KernelError::InvalidParameter)));
    assert!(matches!(calculate_centroid(&alpha, 4, 0, 128), Err(KernelError::InvalidParameter)));
}

#[test]
fn centroid_refuses_a_buffer_of_the_wrong_length() {
    let alpha = vec![0u8; 17];
    assert!(matches!(calculate_centroid(&alpha, 4, 4, 128), Err(KernelError::MalformedInput)));
}
