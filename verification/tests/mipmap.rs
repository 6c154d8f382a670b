use raster_kernels::error::KernelError;
use raster_kernels::mipmap::{downsample_2x, generate_mipmaps, select_mipmap_level};

fn srgb_to_linear(value: u8) -> f32 {
    let v = value as f32 / 255.0;
    if v <= 0.04045 {
        v / 12.92
    } else {
        ((v + 0.055) / 1.055).powf(2.4)
    }
}

fn linear_to_srgb(value: f32) -> u8 {
    let v = if value <= 0.0031308 {
        value * 12.92
    } else {
        1.055 * value.powf(1.0 / 2.4) - 0.055
    };
    (v * 255.0).clamp(0.0, 255.0).round() as u8
}

/// Averages four sRGB samples in linear light.
fn gamma_blend(a: u8, b: u8, c: u8, d: u8) -> u8 {
    let sum = srgb_to_linear(a) + srgb_to_linear(b) + srgb_to_linear(c) + srgb_to_linear(d);
    linear_to_srgb(sum / 4.0)
}

/// Averages four samples as they are, so that a test can tell by hand what
/// comes out.
fn plain_blend(a: u8, b: u8, c: u8, d: u8) -> u8 {
    ((a as u16 + b as u16 + c as u16 + d as u16) / 4) as u8
}

fn first(a: u8, _: u8, _: u8, _: u8) -> u8 {
    a
}

fn second(_: u8, b: u8, _: u8, _: u8) -> u8 {
    b
}

fn third(_: u8, _: u8, c: u8, _: u8) -> u8 {
    c
}

fn fourth(_: u8, _: u8, _: u8, d: u8) -> u8 {
    d
}

#[test]
fn test_downsample() {
    // 4x4 red image
    let mut data = vec![0u8; 4 * 4 * 4];
    for i in 0..16 {
        data[i * 4] = 255; // R
        data[i * 4 + 1] = 0; // G
        data[i * 4 + 2] = 0; // B
        data[i * 4 + 3] = 255; // A
    }

    let result = downsample_2x(&data, 4, 4, &gamma_blend).unwrap();
    assert_eq!(result.len(), 2 * 2 * 4);

    // Should still be red
    assert_eq!(result[0], 255); // R
    assert_eq!(result[3], 255); // A
}

#[test]
fn test_level_selection() {
    assert_eq!(select_mipmap_level(512, 512, 4), 0);
    assert_eq!(select_mipmap_level(256, 512, 4), 1);
    assert_eq!(select_mipmap_level(128, 512, 4), 2);
    assert_eq!(select_mipmap_level(64, 512, 4), 3);
}

#[test]
fn the_level_is_the_logarithm_rounded_down() {
    assert_eq!(select_mipmap_level(600, 512, 4), 0);
    assert_eq!(select_mipmap_level(511, 512, 4), 0);
    assert_eq!(select_mipmap_level(257, 512, 4), 0);
    assert_eq!(select_mipmap_level(255, 512, 4), 1);
    assert_eq!(select_mipmap_level(129, 512, 8), 1);
    assert_eq!(select_mipmap_level(100, 512, 8), 2);
    assert_eq!(select_mipmap_level(3, 1000, 16), 8);
    assert_eq!(select_mipmap_level(1, u32::MAX, 64), 31);
}

#[test]
fn the_level_stops_at_the_last() {
    assert_eq!(select_mipmap_level(32, 512, 4), 3);
    assert_eq!(select_mipmap_level(1, 512, 4), 3);
    assert_eq!(select_mipmap_level(1, 512, 1), 0);
    assert_eq!(select_mipmap_level(0, 512, 4), 3);
    assert_eq!(select_mipmap_level(0, 1, 7), 6);
    assert_eq!(select_mipmap_level(0, 0, 0), 0);
    assert_eq!(select_mipmap_level(9, 9, 0), 0);
}

#[test]
fn level_zero_is_the_image() {
    let image: Vec<u8> = (0..64).map(|i| (i * 3 + 1) as u8).collect();
    let pyramid = generate_mipmaps(&image, 4, 4, 1, &gamma_blend).unwrap();
    assert_eq!(pyramid.len(), 1);
    assert_eq!(pyramid[0].data(), image);
    assert_eq!(pyramid[0].width(), 4);
    assert_eq!(pyramid[0].height(), 4);
}

#[test]
fn a_solid_colour_stays_what_it_is() {
    let mut image = Vec::new();
    for _ in 0..16 {
        image.extend_from_slice(&[180, 90, 20, 255]);
    }
    let pyramid = generate_mipmaps(&image, 4, 4, 2, &gamma_blend).unwrap();
    assert_eq!(pyramid.len(), 2);
    assert_eq!(pyramid[0].data(), image);
    assert_eq!(pyramid[1].width(), 2);
    assert_eq!(pyramid[1].height(), 2);
    let level = pyramid[1].data();
    assert_eq!(level.len(), 16);
    for p in 0..4 {
        assert!((level[4 * p] as i32 - 180).abs() <= 1);
        assert!((level[4 * p + 1] as i32 - 90).abs() <= 1);
        assert!((level[4 * p + 2] as i32 - 20).abs() <= 1);
        assert_eq!(level[4 * p + 3], 255);
    }
}

#[test]
fn each_level_halves_the_one_before() {
    let image = vec![100u8; 6 * 5 * 4];
    let pyramid = generate_mipmaps(&image, 6, 5, 5, &plain_blend).unwrap();
    assert_eq!(pyramid.len(), 5);
    let sizes: Vec<(u32, u32)> = pyramid.iter().map(|l| (l.width(), l.height())).collect();
    assert_eq!(sizes, vec![(6, 5), (3, 2), (1, 1), (1, 1), (1, 1)]);
    for level in pyramid.iter() {
        assert_eq!(level.data().len(), (level.width() * level.height() * 4) as usize);
    }
    assert_eq!(pyramid[1].data(), vec![100u8; 3 * 2 * 4]);
    assert_eq!(pyramid[2].data(), vec![100u8; 4]);
    // A single pixel has no neighbours to fill its block, and the sum is
    // still divided by 4 (alpha is rounded, the plain blend is cut off).
    assert_eq!(pyramid[3].data(), vec![25u8, 25, 25, 25]);
    assert_eq!(pyramid[4].data(), vec![6u8, 6, 6, 6]);
}

#[test]
fn each_level_is_the_downsample_of_the_one_before() {
    let image: Vec<u8> = (0..8 * 4 * 4).map(|i| (i * 7 % 256) as u8).collect();
    let pyramid = generate_mipmaps(&image, 8, 4, 4, &gamma_blend).unwrap();
    for k in 1..4 {
        let prev = &pyramid[k - 1];
        let again = downsample_2x(&prev.data(), prev.width(), prev.height(), &gamma_blend).unwrap();
        assert_eq!(pyramid[k].data(), again);
    }
}

#[test]
fn the_block_is_handed_over_row_by_row() {
    // 2 by 2 pixels, whose red is 1, 2 / 3, 4.
    let image: Vec<u8> = vec![1, 0, 0, 0, 2, 0, 0, 0, 3, 0, 0, 0, 4, 0, 0, 0];
    assert_eq!(downsample_2x(&image, 2, 2, &first).unwrap()[0], 1);
    assert_eq!(downsample_2x(&image, 2, 2, &second).unwrap()[0], 2);
    assert_eq!(downsample_2x(&image, 2, 2, &third).unwrap()[0], 3);
    assert_eq!(downsample_2x(&image, 2, 2, &fourth).unwrap()[0], 4);
}

#[test]
fn the_channels_are_kept_apart() {
    let image: Vec<u8> = vec![
        10, 20, 30, 40, 10, 20, 30, 40, //
        10, 20, 30, 40, 10, 20, 30, 40,
    ];
    assert_eq!(downsample_2x(&image, 2, 2, &plain_blend).unwrap(), vec![10, 20, 30, 40]);
}

#[test]
fn alpha_is_averaged_and_rounded() {
    let mut image = vec![0u8; 16];
    image[3] = 255;
    // 255 / 4 = 63.75
    assert_eq!(downsample_2x(&image, 2, 2, &plain_blend).unwrap()[3], 64);
    image[7] = 255;
    // 510 / 4 = 127.5
    assert_eq!(downsample_2x(&image, 2, 2, &plain_blend).unwrap()[3], 128);
    image[11] = 1;
    // 511 / 4 = 127.75
    assert_eq!(downsample_2x(&image, 2, 2, &plain_blend).unwrap()[3], 128);
    image[3] = 0;
    image[7] = 0;
    // 1 / 4 = 0.25
    assert_eq!(downsample_2x(&image, 2, 2, &plain_blend).unwrap()[3], 0);
}

#[test]
fn an_odd_size_drops_its_last_row_and_column() {
    // 3 by 3, red counts the pixels from 1.
    let mut image = vec![0u8; 36];
    for i in 0..9 {
        image[4 * i] = (i + 1) as u8;
        image[4 * i + 3] = 200;
    }
    let level = downsample_2x(&image, 3, 3, &plain_blend).unwrap();
    // The block is 1, 2 / 4, 5.
    assert_eq!(level, vec![3, 0, 0, 200]);
}

#[test]
fn what_lies_beyond_the_buffer_counts_as_nothing() {
    // One row of four: the lower half of each block lies beyond the buffer.
    let image: Vec<u8> = vec![
        80, 0, 0, 255, 80, 0, 0, 255, 40, 0, 0, 100, 40, 0, 0, 100,
    ];
    let level = downsample_2x(&image, 4, 1, &plain_blend).unwrap();
    assert_eq!(level, vec![40, 0, 0, 128, 20, 0, 0, 50]);
    assert_eq!(downsample_2x(&image, 4, 1, &third).unwrap(), vec![0, 0, 0, 128, 0, 0, 0, 50]);
}

#[test]
fn mipmaps_refuse_no_levels() {
    let image = vec![0u8; 64];
    assert!(matches!(
        generate_mipmaps(&image, 4, 4, 0, &gamma_blend),
        Err(KernelError::InvalidParameter)
    ));
}

#[test]
fn mipmaps_refuse_a_zero_dimension() {
    let image: Vec<u8> = Vec::new();
    assert!(matches!(
        generate_mipmaps(&image, 0, 4, 2, &gamma_blend),
        Err(KernelError::InvalidParameter)
    ));
    assert!(matches!(downsample_2x(&image, 4, 0, &gamma_blend), Err(KernelError::InvalidParameter)));
}

#[test]
fn mipmaps_refuse_a_buffer_of_the_wrong_length() {
    let image = vec![0u8; 63];
    assert!(matches!(
        generate_mipmaps(&image, 4, 4, 2, &gamma_blend),
        Err(KernelError::MalformedInput)
    ));
    assert!(matches!(downsample_2x(&image, 4, 4, &gamma_blend), Err(KernelError::MalformedInput)));
    // One byte per pixel is not an RGBA image.
    let plane = vec![0u8; 16];
    assert!(matches!(downsample_2x(&plane, 4, 4, &gamma_blend), Err(KernelError::MalformedInput)));
}

#[test]
fn the_gamma_blend_keeps_four_equal_samples() {
    for v in 0..=255u8 {
        let blended = gamma_blend(v, v, v, v);
        assert!((blended as i32 - v as i32).abs() <= 1);
    }
}

#[test]
fn a_solid_image_stays_solid_at_every_size() {
    for (w, h) in [(2u32, 2u32), (4, 4), (5, 3), (2, 7)] {
        let mut image = Vec::new();
        for _ in 0..w * h {
            image.extend_from_slice(&[201, 7, 99, 130]);
        }
        let level = downsample_2x(&image, w, h, &gamma_blend).unwrap();
        assert_eq!(level.len(), ((w / 2) * (h / 2) * 4) as usize);
        for p in 0..level.len() / 4 {
            assert!((level[4 * p] as i32 - 201).abs() <= 1);
            assert!((level[4 * p + 1] as i32 - 7).abs() <= 1);
            assert!((level[4 * p + 2] as i32 - 99).abs() <= 1);
            assert_eq!(level[4 * p + 3], 130);
        }
        let plain = downsample_2x(&image, w, h, &plain_blend).unwrap();
        for p in 0..plain.len() / 4 {
            assert_eq!(&plain[4 * p..4 * p + 4], &[201, 7, 99, 130]);
        }
    }
}
