use cvcls_rs::buffers::GrayImage;
use cvcls_rs::pixels::get_pixel_value;
use cvcls_rs::histogram::{
    calculate_histogram, cdf_min, cumulative_histogram, draw_histogram_bars, histogram_peak,
};

fn gray(width: u32, height: u32, data: Vec<u8>) -> GrayImage {
    GrayImage::from_samples(width, height, &data).unwrap()
}

#[test]
fn histogram_counts_levels() {
    let hist = calculate_histogram(&gray(3, 2, vec![0, 7, 7, 255, 7, 0]));
    assert_eq!(hist[0], 2);
    assert_eq!(hist[7], 3);
    assert_eq!(hist[255], 1);
    assert_eq!(hist[1], 0);
}

#[test]
fn histogram_total_is_pixel_count() {
    let data: Vec<u8> = (0..60u32).map(|i| (i * 37 % 256) as u8).collect();
    let hist = calculate_histogram(&gray(12, 5, data));
    assert_eq!(hist.iter().map(|&c| c as u64).sum::<u64>(), 60);
}

#[test]
fn histogram_of_empty_image_is_zero() {
    assert_eq!(calculate_histogram(&gray(0, 4, vec![0; 0])), [0u32; 256]);
}

#[test]
fn cumulative_histogram_sums_prefixes() {
    let mut hist = [0u32; 256];
    hist[2] = 3;
    hist[5] = 4;
    hist[255] = 1;
    let cdf = cumulative_histogram(&hist);
    assert_eq!(cdf[0], 0);
    assert_eq!(cdf[1], 0);
    assert_eq!(cdf[2], 3);
    assert_eq!(cdf[4], 3);
    assert_eq!(cdf[5], 7);
    assert_eq!(cdf[254], 7);
    assert_eq!(cdf[255], 8);
}

#[test]
fn cumulative_histogram_of_image_ends_at_pixel_count() {
    let img = gray(4, 3, vec![9, 1, 200, 9, 9, 3, 3, 4, 0, 0, 255, 17]);
    let cdf = cumulative_histogram(&calculate_histogram(&img));
    assert_eq!(cdf[255], 12);
    assert!(cdf.windows(2).all(|w| w[0] <= w[1]));
}

#[test]
fn cdf_min_finds_first_nonzero() {
    let mut cdf = [0u32; 256];
    assert_eq!(cdf_min(&cdf), 0);
    for i in 40..256 {
        cdf[i] = 5 + i as u32;
    }
    assert_eq!(cdf_min(&cdf), 45);
}

#[test]
fn histogram_peak_is_largest_count() {
    let mut hist = [1u32; 256];
    hist[17] = 90;
    hist[200] = 89;
    assert_eq!(histogram_peak(&hist), 90);
    assert_eq!(histogram_peak(&[0u32; 256]), 0);
}

#[test]
fn histogram_bars_stand_on_the_bottom() {
    let mut heights = [0u32; 256];
    heights[0] = 400;
    heights[1] = 3;
    heights[255] = 1;
    let img = draw_histogram_bars(&heights);
    assert_eq!(img.dimensions(), (512, 400));
    assert_eq!(get_pixel_value(&img, 0, 0).unwrap(), [255, 255, 255]);
    assert_eq!(get_pixel_value(&img, 0, 1).unwrap(), [255, 255, 255]);
    assert_eq!(get_pixel_value(&img, 396, 2).unwrap(), [0, 0, 0]);
    assert_eq!(get_pixel_value(&img, 397, 2).unwrap(), [255, 255, 255]);
    assert_eq!(get_pixel_value(&img, 399, 3).unwrap(), [255, 255, 255]);
    assert_eq!(get_pixel_value(&img, 399, 4).unwrap(), [0, 0, 0]);
    assert_eq!(get_pixel_value(&img, 399, 511).unwrap(), [255, 255, 255]);
    assert_eq!(get_pixel_value(&img, 398, 511).unwrap(), [0, 0, 0]);
    let white = img
        .to_samples()
        .chunks(3)
        .filter(|p| p == &[255u8, 255, 255])
        .count();
    assert_eq!(white, 2 * (400 + 3 + 1));
}
