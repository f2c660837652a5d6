use cvcls_rs::buffers::{GrayImage, RgbImage};
use cvcls_rs::pixels::{
    check_valid, create_blank_image, get_pixel_value, is_binary, is_grayscale, resample_nearest,
    set_pixel_value,
};

fn rgb(width: u32, height: u32, data: Vec<u8>) -> RgbImage {
    RgbImage::from_samples(width, height, &data).unwrap()
}

fn gray(width: u32, height: u32, data: Vec<u8>) -> GrayImage {
    GrayImage::from_samples(width, height, &data).unwrap()
}

#[test]
fn check_valid_needs_rows_and_columns() {
    assert!(check_valid(&create_blank_image(2, 1, [0, 0, 0])));
    assert!(!check_valid(&create_blank_image(0, 3, [0, 0, 0])));
    assert!(!check_valid(&create_blank_image(3, 0, [0, 0, 0])));
}

#[test]
fn get_pixel_value_reads_row_and_column() {
    let img = rgb(2, 2, vec![1, 2, 3, 4, 5, 6, 7, 8, 9, 10, 11, 12]);
    assert_eq!(get_pixel_value(&img, 0, 1), Some([4, 5, 6]));
    assert_eq!(get_pixel_value(&img, 1, 0), Some([7, 8, 9]));
    assert_eq!(get_pixel_value(&img, 2, 0), None);
    assert_eq!(get_pixel_value(&img, 0, 2), None);
}

#[test]
fn set_then_get_returns_written_value() {
    let mut img = create_blank_image(3, 2, [0, 0, 0]);
    assert!(set_pixel_value(&mut img, 1, 2, [9, 8, 7]));
    assert_eq!(get_pixel_value(&img, 1, 2), Some([9, 8, 7]));
    assert_eq!(get_pixel_value(&img, 0, 2), Some([0, 0, 0]));
    assert_eq!(get_pixel_value(&img, 1, 1), Some([0, 0, 0]));
}

#[test]
fn set_outside_changes_nothing() {
    let mut img = rgb(1, 1, vec![5, 6, 7]);
    assert!(!set_pixel_value(&mut img, 1, 0, [0, 0, 0]));
    assert!(!set_pixel_value(&mut img, 0, 1, [0, 0, 0]));
    assert_eq!(img.to_samples(), vec![5, 6, 7]);
}

#[test]
fn blank_image_has_one_colour() {
    let img = create_blank_image(3, 2, [0, 0, 255]);
    assert_eq!(img.dimensions(), (3, 2));
    assert_eq!(img.to_samples(), [0u8, 0, 255].repeat(6));
}

#[test]
fn grey_blank_image_is_grayscale() {
    assert!(is_grayscale(&create_blank_image(4, 3, [77, 77, 77])));
    assert!(!is_grayscale(&create_blank_image(4, 3, [77, 77, 78])));
}

#[test]
fn grayscale_detects_one_coloured_pixel() {
    let img = rgb(2, 1, vec![3, 3, 3, 1, 2, 3]);
    assert!(!is_grayscale(&img));
    let img = rgb(2, 1, vec![3, 3, 3, 9, 9, 9]);
    assert!(is_grayscale(&img));
    assert!(is_grayscale(&create_blank_image(0, 0, [0, 0, 0])));
}

#[test]
fn binary_accepts_only_black_and_white() {
    assert!(is_binary(&gray(3, 1, vec![0, 255, 0])));
    assert!(!is_binary(&gray(3, 1, vec![0, 255, 1])));
    assert!(is_binary(&gray(2, 2, vec![0; 4])));
}

#[test]
fn resample_takes_mapped_columns_and_rows() {
    let src = rgb(2, 2, vec![1, 1, 1, 2, 2, 2, 3, 3, 3, 4, 4, 4]);
    let out = resample_nearest(&src, 3, 1, &vec![1, 0, 7], &vec![1]);
    assert_eq!(out.dimensions(), (3, 1));
    assert_eq!(out.to_samples(), vec![4, 4, 4, 3, 3, 3, 4, 4, 4]);
}

#[test]
fn resample_with_identity_maps_copies() {
    let data: Vec<u8> = (0..18).collect();
    let src = rgb(3, 2, data.clone());
    let out = resample_nearest(&src, 3, 2, &vec![0, 1, 2], &vec![0, 1]);
    assert_eq!(out.to_samples(), data);
}

#[test]
fn from_samples_rejects_short_buffers() {
    assert!(RgbImage::from_samples(2, 2, &vec![0; 11]).is_none());
    assert!(RgbImage::from_samples(2, 2, &vec![0; 12]).is_some());
    assert!(GrayImage::from_samples(2, 3, &vec![0; 5]).is_none());
    assert!(GrayImage::from_samples(2, 3, &vec![0; 6]).is_some());
}

#[test]
fn samples_round_trip() {
    let data: Vec<u8> = (100..118).collect();
    let img = rgb(2, 3, data.clone());
    assert_eq!(img.dimensions(), (2, 3));
    assert_eq!(get_pixel_value(&img, 2, 1), Some([115, 116, 117]));
    let back = RgbImage::from_samples(2, 3, &img.to_samples()).unwrap();
    assert_eq!(back.to_samples(), data);
    let levels: Vec<u8> = (7..13).collect();
    let g = gray(3, 2, levels.clone());
    assert_eq!(g.dimensions(), (3, 2));
    assert_eq!(GrayImage::from_samples(3, 2, &g.to_samples()).unwrap().to_samples(), levels);
}

#[test]
fn longer_buffers_keep_only_the_image() {
    let img = RgbImage::from_samples(1, 1, &vec![1, 2, 3, 4, 5]).unwrap();
    assert_eq!(img.to_samples(), vec![1, 2, 3]);
}
