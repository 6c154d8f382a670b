use raster_kernels::error::KernelError;
use raster_kernels::ratio::Ratio;
use raster_kernels::sdf::generate_sdf;

#[test]
fn test_sdf_empty() {
    let alpha = vec![0u8; 16];
    let sdf = generate_sdf(&alpha, 4, 4, Ratio::whole(10)).unwrap();
    assert_eq!(sdf.len(), 16);
}

#[test]
fn test_sdf_filled() {
    let alpha = vec![255u8; 16];
    let sdf = generate_sdf(&alpha, 4, 4, Ratio::whole(10)).unwrap();
    assert_eq!(sdf.len(), 16);
    // All pixels should be "inside" (< 128)
    for v in sdf.iter() {
        assert!(*v <= 128);
    }
}

#[test]
fn a_mask_without_boundary_is_saturated() {
    let clear = vec![0u8; 12];
    assert_eq!(generate_sdf(&clear, 4, 3, Ratio::whole(10)).unwrap(), vec![255u8; 12]);
    let solid = vec![255u8; 12];
    assert_eq!(generate_sdf(&solid, 4, 3, Ratio::whole(10)).unwrap(), vec![1u8; 12]);
    let faint = vec![127u8; 12];
    assert_eq!(generate_sdf(&faint, 4, 3, Ratio::new(7, 3)).unwrap(), vec![255u8; 12]);
    let dense = vec![128u8; 12];
    assert_eq!(generate_sdf(&dense, 4, 3, Ratio::new(7, 3)).unwrap(), vec![1u8; 12]);
}

#[test]
fn transparent_pixels_are_never_below_the_boundary() {
    for limit in [1u32, 2, 10, 1000] {
        let alpha = vec![0u8; 20];
        let sdf = generate_sdf(&alpha, 5, 4, Ratio::whole(limit)).unwrap();
        for v in sdf.iter() {
            assert!(*v >= 128);
        }
    }
}

#[test]
fn each_pixel_lies_on_its_side() {
    let alpha: Vec<u8> = vec![
        0, 0, 0, 0, 0, //
        0, 255, 255, 200, 0, //
        0, 255, 255, 128, 0, //
        0, 0, 127, 0, 0,
    ];
    let sdf = generate_sdf(&alpha, 5, 4, Ratio::whole(3)).unwrap();
    for i in 0..alpha.len() {
        if alpha[i] > 127 {
            assert!(sdf[i] >= 1 && sdf[i] <= 128);
        } else {
            assert!(sdf[i] >= 128);
        }
    }
}

#[test]
fn a_row_across_the_boundary() {
    // The boundary runs between the second and the third pixel, so those two
    // are at distance 0 and the outer two at distance 1: half the limit.
    let alpha: Vec<u8> = vec![255, 255, 0, 0];
    let sdf = generate_sdf(&alpha, 4, 1, Ratio::whole(2)).unwrap();
    assert_eq!(sdf, vec![65, 128, 128, 192]);
}

#[test]
fn a_column_across_the_boundary() {
    let alpha: Vec<u8> = vec![255, 255, 0, 0];
    let sdf = generate_sdf(&alpha, 1, 4, Ratio::whole(2)).unwrap();
    assert_eq!(sdf, vec![65, 128, 128, 192]);
}

#[test]
fn distances_scale_with_the_limit() {
    // One opaque pixel at the left end of a row of nine.
    let mut alpha = vec![0u8; 9];
    alpha[0] = 255;
    let sdf = generate_sdf(&alpha, 9, 1, Ratio::whole(4)).unwrap();
    // Pixel 0 and pixel 1 are on the boundary; pixel k is k - 1 away from
    // pixel 1: 127 * (k - 1) / 4 rounds to 32, 64, 95, and from 4 pixels on
    // the limit is reached.
    assert_eq!(sdf, vec![128, 128, 160, 192, 223, 255, 255, 255, 255]);
}

#[test]
fn a_limit_below_one_pixel_saturates_at_once() {
    let alpha: Vec<u8> = vec![255, 255, 255, 0, 0, 0];
    let sdf = generate_sdf(&alpha, 6, 1, Ratio::new(1, 2)).unwrap();
    assert_eq!(sdf, vec![1, 1, 128, 128, 255, 255]);
}

#[test]
fn a_fraction_is_a_limit_like_any_other() {
    // The limit is 5/2 pixels: a distance of 1 scales to 50.8, of 2 to 101.6.
    let alpha: Vec<u8> = vec![255, 255, 255, 255, 0, 0, 0, 0];
    let sdf = generate_sdf(&alpha, 8, 1, Ratio::new(5, 2)).unwrap();
    assert_eq!(sdf, vec![1, 26, 77, 128, 128, 179, 230, 255]);
    let same = generate_sdf(&alpha, 8, 1, Ratio::new(10, 4)).unwrap();
    assert_eq!(same, sdf);
}

#[test]
fn a_diagonal_distance_is_euclidean() {
    // Only the top left pixel is opaque, so it and its two neighbours are
    // the boundary.
    let mut alpha = vec![0u8; 9];
    alpha[0] = 255;
    let sdf = generate_sdf(&alpha, 3, 3, Ratio::whole(4)).unwrap();
    assert_eq!(sdf[0], 128);
    assert_eq!(sdf[1], 128);
    assert_eq!(sdf[3], 128);
    assert_eq!(sdf[4], 160);
    assert_eq!(sdf[2], 160);
    assert_eq!(sdf[6], 160);
    // sqrt(2) away: 127 * 1.41421 / 4 = 44.9
    assert_eq!(sdf[5], 173);
    assert_eq!(sdf[7], 173);
    // The far corner is sqrt(5) away from either neighbour of the opaque
    // pixel: 127 * 2.23607 / 4 = 71.0
    assert_eq!(sdf[8], 199);
}

#[test]
fn sdf_refuses_a_limit_of_zero() {
    let alpha = vec![0u8; 16];
    assert_eq!(generate_sdf(&alpha, 4, 4, Ratio::whole(0)), Err(KernelError::InvalidParameter));
    assert_eq!(generate_sdf(&alpha, 4, 4, Ratio::new(3, 0)), Err(KernelError::InvalidParameter));
    assert_eq!(generate_sdf(&alpha, 4, 5, Ratio::new(0, 0)), Err(KernelError::InvalidParameter));
}

#[test]
fn sdf_refuses_a_zero_dimension() {
    let alpha: Vec<u8> = Vec::new();
    assert_eq!(generate_sdf(&alpha, 0, 4, Ratio::whole(1)), Err(KernelError::InvalidParameter));
    assert_eq!(generate_sdf(&alpha, 4, 0, Ratio::whole(1)), Err(KernelError::InvalidParameter));
}

#[test]
fn sdf_refuses_a_buffer_of_the_wrong_length() {
    let alpha = vec![0u8; 15];
    assert_eq!(generate_sdf(&alpha, 4, 4, Ratio::whole(10)), Err(KernelError::MalformedInput));
}
