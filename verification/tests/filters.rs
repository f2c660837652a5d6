use cvcls_rs::buffers::GrayImage;
use cvcls_rs::filters::{img_gaussian, img_mean, img_median};

fn gray(width: u32, height: u32, data: Vec<u8>) -> GrayImage {
    GrayImage::from_samples(width, height, &data).unwrap()
}

fn ramp() -> GrayImage {
    gray(3, 3, vec![10, 20, 30, 40, 50, 60, 70, 80, 255])
}

#[test]
fn mean_of_ramp() {
    assert_eq!(img_mean(&ramp()).to_samples(), vec![23, 30, 37, 43, 68, 93, 63, 107, 150]);
}

#[test]
fn gaussian_of_ramp() {
    assert_eq!(img_gaussian(&ramp()).to_samples(), vec![20, 28, 35, 43, 60, 88, 65, 103, 173]);
}

#[test]
fn median_of_ramp() {
    assert_eq!(img_median(&ramp()).to_samples(), vec![20, 30, 30, 40, 50, 60, 70, 70, 80]);
}

#[test]
fn median_removes_salt() {
    let src = gray(4, 3, vec![0, 0, 0, 0, 255, 0, 0, 0, 0, 0, 0, 0]);
    assert_eq!(img_median(&src).to_samples(), vec![0; 12]);
    assert_eq!(img_mean(&src).to_samples(), vec![57, 28, 0, 0, 57, 28, 0, 0, 57, 28, 0, 0]);
    assert_eq!(img_gaussian(&src).to_samples(), vec![48, 16, 0, 0, 96, 32, 0, 0, 48, 16, 0, 0]);
}

#[test]
fn gaussian_rounds_halves_up() {
    assert_eq!(img_gaussian(&gray(2, 2, vec![1, 0, 0, 0])).to_samples(), vec![1, 0, 0, 0]);
    assert_eq!(img_gaussian(&gray(1, 1, vec![200])).to_samples(), vec![200]);
}

#[test]
fn filters_keep_uniform_images() {
    let src = gray(5, 4, vec![123; 20]);
    assert_eq!(img_mean(&src).to_samples(), vec![123; 20]);
    assert_eq!(img_gaussian(&src).to_samples(), vec![123; 20]);
    assert_eq!(img_median(&src).to_samples(), vec![123; 20]);
}

#[test]
fn median_picks_a_window_level() {
    let src = gray(3, 1, vec![5, 200, 7]);
    let out = img_median(&src).to_samples();
    assert_eq!(out, vec![5, 7, 7]);
}

#[test]
fn filters_of_empty_image() {
    assert_eq!(img_mean(&gray(0, 3, vec![0; 0])).dimensions(), (0, 3));
    assert_eq!(img_median(&gray(3, 0, vec![0; 0])).dimensions(), (3, 0));
}
