use std::io::Cursor;

use yolo_core::preprocess::Preprocessor;

fn png_of(pixels: &[[u8; 3]], w: u32, h: u32) -> Vec<u8> {
    let mut img = image::RgbImage::new(w, h);
    for (i, p) in img.pixels_mut().enumerate() {
        *p = image::Rgb(pixels[i]);
    }
    let mut out = Vec::new();
    img.write_to(&mut Cursor::new(&mut out), image::ImageFormat::Png)
        .unwrap();
    out
}

#[test]
fn planar_layout_is_channel_major() {
    // A 2 x 2 image preprocessed at its own resolution is not resampled,
    // so the tensor must hold the exact samples: all red row by row,
    // then all green, then all blue.
    let pixels = [[1, 5, 9], [2, 6, 10], [3, 7, 11], [4, 8, 12]];
    let bytes = png_of(&pixels, 2, 2);
    let mut pre = Preprocessor::new(2, 2);
    let out = pre.preprocess(&bytes).unwrap();
    assert_eq!(out.width, 2);
    assert_eq!(out.height, 2);
    assert!(!out.cache_hit);
    assert_eq!(out.tensor.data, vec![1, 2, 3, 4, 5, 6, 7, 8, 9, 10, 11, 12]);
}

#[test]
fn second_call_hits_cache_with_identical_tensor() {
    let pixels = [[10, 20, 30], [40, 50, 60], [70, 80, 90], [100, 110, 120]];
    let bytes = png_of(&pixels, 2, 2);
    let mut pre = Preprocessor::new(64, 64);
    let first = pre.preprocess(&bytes).unwrap();
    assert!(!first.cache_hit);
    let second = pre.preprocess(&bytes).unwrap();
    assert!(second.cache_hit);
    assert_eq!(first.tensor.data, second.tensor.data);
    assert_eq!(second.width, 2);
    assert_eq!(second.height, 2);
}

#[test]
fn new_bytes_replace_the_single_slot() {
    let a = png_of(&[[0, 0, 0]; 4], 2, 2);
    let b = png_of(&[[255, 255, 255]; 4], 2, 2);
    let mut pre = Preprocessor::new(16, 16);
    assert!(!pre.preprocess(&a).unwrap().cache_hit);
    assert!(!pre.preprocess(&b).unwrap().cache_hit);
    assert!(pre.preprocess(&b).unwrap().cache_hit);
    assert!(!pre.preprocess(&a).unwrap().cache_hit);
}

#[test]
fn undecodable_bytes_fail_and_leave_cache_untouched() {
    let good = png_of(&[[9, 9, 9]; 4], 2, 2);
    let mut pre = Preprocessor::new(16, 16);
    pre.preprocess(&good).unwrap();
    assert!(pre.preprocess(b"garbage").is_err());
    assert!(pre.preprocess(b"").is_err());
    // The cached tensor is still the good image's.
    assert!(pre.preprocess(&good).unwrap().cache_hit);
}

#[test]
fn tensor_has_fixed_input_resolution() {
    let bytes = png_of(&[[1, 2, 3]; 4], 2, 2);
    let mut pre = Preprocessor::new(32, 16);
    let out = pre.preprocess(&bytes).unwrap();
    assert_eq!(out.tensor.width, 32);
    assert_eq!(out.tensor.height, 16);
    assert_eq!(out.tensor.data.len(), 3 * 32 * 16);
}
