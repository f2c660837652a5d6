use cvcls_rs::buffers::RgbImage;
use cvcls_rs::geometry::{img_flip, img_transpose, pos_trans, remap_nearest};

fn rgb(width: u32, height: u32, data: Vec<u8>) -> RgbImage {
    RgbImage::from_samples(width, height, &data).unwrap()
}

/// A 3 x 2 image whose pixel at (x, y) has every channel 10 * y + x + 1.
fn sample() -> RgbImage {
    let mut data = Vec::new();
    for y in 0..2u8 {
        for x in 0..3u8 {
            let v = 10 * y + x + 1;
            data.extend_from_slice(&[v, v, v]);
        }
    }
    rgb(3, 2, data)
}

fn levels(img: RgbImage) -> Vec<u8> {
    img.to_samples().chunks(3).map(|p| p[0]).collect()
}

#[test]
fn shift_right_and_down() {
    let out = pos_trans(&sample(), 1, 1);
    assert_eq!(out.dimensions(), (3, 2));
    assert_eq!(levels(out), vec![0, 0, 0, 0, 1, 2]);
}

#[test]
fn shift_left() {
    assert_eq!(levels(pos_trans(&sample(), -2, 0)), vec![3, 0, 0, 13, 0, 0]);
}

#[test]
fn shift_by_zero_copies() {
    assert_eq!(levels(pos_trans(&sample(), 0, 0)), vec![1, 2, 3, 11, 12, 13]);
}

#[test]
fn shift_far_away_is_black() {
    assert_eq!(levels(pos_trans(&sample(), 100, -100)), vec![0; 6]);
}

#[test]
fn shift_there_and_back_keeps_overlap() {
    let there = pos_trans(&sample(), 1, 0);
    assert_eq!(levels(pos_trans(&there, -1, 0)), vec![1, 2, 0, 11, 12, 0]);
}

#[test]
fn flip_vertical() {
    assert_eq!(levels(img_flip(&sample(), 0)), vec![11, 12, 13, 1, 2, 3]);
}

#[test]
fn flip_horizontal() {
    assert_eq!(levels(img_flip(&sample(), 1)), vec![3, 2, 1, 13, 12, 11]);
}

#[test]
fn flip_both_ways() {
    assert_eq!(levels(img_flip(&sample(), -1)), vec![13, 12, 11, 3, 2, 1]);
}

#[test]
fn flip_other_mode_is_horizontal() {
    assert_eq!(levels(img_flip(&sample(), 7)), vec![3, 2, 1, 13, 12, 11]);
}

#[test]
fn flip_twice_restores() {
    for mode in [-1i8, 0, 1, 5] {
        let once = img_flip(&sample(), mode);
        assert_eq!(levels(img_flip(&once, mode)), vec![1, 2, 3, 11, 12, 13]);
    }
}

#[test]
fn flip_both_ways_is_vertical_then_horizontal() {
    let composed = img_flip(&img_flip(&sample(), 0), 1);
    assert_eq!(levels(composed), levels(img_flip(&sample(), -1)));
}

#[test]
fn transpose_swaps_axes() {
    let out = img_transpose(&sample());
    assert_eq!(out.dimensions(), (2, 3));
    assert_eq!(levels(out), vec![1, 11, 2, 12, 3, 13]);
}

#[test]
fn transpose_twice_restores() {
    let out = img_transpose(&img_transpose(&sample()));
    assert_eq!(out.dimensions(), (3, 2));
    assert_eq!(levels(out), vec![1, 2, 3, 11, 12, 13]);
}

#[test]
fn remap_samples_points_and_blacks_out_misses() {
    let points = vec![
        vec![(2, 1), (-1, 0), (0, 0)],
        vec![(3, 0), (1, 1), (0, 2)],
    ];
    assert_eq!(levels(remap_nearest(&sample(), &points)), vec![13, 0, 1, 0, 12, 0]);
}
