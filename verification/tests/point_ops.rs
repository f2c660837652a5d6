use cvcls_rs::buffers::{GrayImage, RgbImage};
use cvcls_rs::pixels::{is_binary, is_grayscale};
use cvcls_rs::point_ops::{apply_gray_lut, apply_rgb_lut, apply_threshold};

fn gray(width: u32, height: u32, data: Vec<u8>) -> GrayImage {
    GrayImage::from_samples(width, height, &data).unwrap()
}

fn inverse_lut() -> [u8; 256] {
    let mut lut = [0u8; 256];
    for (i, v) in lut.iter_mut().enumerate() {
        *v = 255 - i as u8;
    }
    lut
}

#[test]
fn gray_lut_maps_every_level() {
    let out = apply_gray_lut(&gray(2, 2, vec![0, 10, 200, 255]), &inverse_lut());
    assert_eq!(out.dimensions(), (2, 2));
    assert_eq!(out.to_samples(), vec![255, 245, 55, 0]);
}

#[test]
fn identity_lut_keeps_image() {
    let mut lut = [0u8; 256];
    for (i, v) in lut.iter_mut().enumerate() {
        *v = i as u8;
    }
    let data = vec![3, 1, 4, 1, 5, 9];
    assert_eq!(apply_gray_lut(&gray(3, 2, data.clone()), &lut).to_samples(), data);
}

#[test]
fn rgb_lut_maps_each_channel() {
    let src = RgbImage::from_samples(1, 2, &vec![0, 1, 2, 250, 251, 252]).unwrap();
    let out = apply_rgb_lut(&src, &inverse_lut());
    assert_eq!(out.to_samples(), vec![255, 254, 253, 5, 4, 3]);
}

#[test]
fn rgb_lut_keeps_grey_images_grey() {
    let src = RgbImage::from_samples(2, 1, &vec![9, 9, 9, 100, 100, 100]).unwrap();
    assert!(is_grayscale(&apply_rgb_lut(&src, &inverse_lut())));
}

#[test]
fn threshold_plain() {
    let out = apply_threshold(&gray(4, 1, vec![0, 100, 101, 255]), 100, 0);
    assert_eq!(out.to_samples(), vec![0, 0, 255, 255]);
}

#[test]
fn threshold_inverted() {
    let out = apply_threshold(&gray(4, 1, vec![0, 100, 101, 255]), 100, 1);
    assert_eq!(out.to_samples(), vec![255, 255, 0, 0]);
}

#[test]
fn threshold_other_flags_are_plain() {
    let out = apply_threshold(&gray(3, 1, vec![1, 2, 3]), 1, 2);
    assert_eq!(out.to_samples(), vec![0, 255, 255]);
}

#[test]
fn thresholded_image_is_binary() {
    let data: Vec<u8> = (0..=255).collect();
    for flag in [0u8, 1, 2] {
        let out = apply_threshold(&gray(16, 16, data.clone()), 77, flag);
        assert!(is_binary(&out));
    }
}

#[test]
fn thresholded_histogram_has_two_levels() {
    let data: Vec<u8> = (0..=255).collect();
    let out = apply_threshold(&gray(16, 16, data), 99, 0);
    let hist = cvcls_rs::histogram::calculate_histogram(&out);
    assert_eq!(hist[0], 100);
    assert_eq!(hist[255], 156);
    assert!(hist[1..255].iter().all(|&c| c == 0));
}
