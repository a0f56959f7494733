use scanner_processor::ocr::{encode_png_gray, preprocess_for_ocr};
use scanner_processor::config::RoiPixels;
use scanner_processor::error::ProcessorError;
use scanner_processor::image::{crop, crop_roi, split_vertical, RgbaImage, GrayImage};
use scanner_processor::threshold::adaptive_threshold;

fn rgba(width: u32, height: u32) -> RgbaImage {
    let rows = (0..height)
        .map(|y| (0..width).flat_map(|x| [x as u8, y as u8, (x + y) as u8, 255]).collect())
        .collect();
    RgbaImage { width, height, rows }
}

#[test]
fn roi_width_and_height() {
    let roi = RoiPixels { x1: 198, x2: 2282, y1: 544, y2: 824 };
    assert_eq!(roi.width(), 2084);
    assert_eq!(roi.height(), 280);
}

#[test]
fn split_halves_an_even_width() {
    let img = rgba(6, 2);
    let s = split_vertical(img).unwrap();
    assert_eq!((s.left.width, s.left.height), (3, 2));
    assert_eq!((s.right.width, s.right.height), (3, 2));
    assert_eq!(s.left.rows[1], vec![0, 1, 1, 255, 1, 1, 2, 255, 2, 1, 3, 255]);
    assert_eq!(s.right.rows[0], vec![3, 0, 3, 255, 4, 0, 4, 255, 5, 0, 5, 255]);
}

#[test]
fn split_gives_the_extra_column_to_the_right() {
    let img = rgba(5, 1);
    let s = split_vertical(img).unwrap();
    assert_eq!(s.left.width, 2);
    assert_eq!(s.right.width, 3);
    let mut joined = s.left.rows[0].clone();
    joined.extend_from_slice(&s.right.rows[0]);
    assert_eq!(joined, rgba(5, 1).rows[0]);
}

#[test]
fn split_refuses_narrow_images() {
    assert_eq!(
        split_vertical(rgba(1, 4)).err(),
        Some(ProcessorError::ImageSplitError { width: 1 })
    );
}

#[test]
fn crop_is_cut_to_the_image() {
    let img = rgba(4, 3);
    let c = crop(&img, 3, 1, 10, 10);
    assert_eq!((c.width, c.height), (1, 2));
    assert_eq!(c.rows[0], vec![3, 1, 4, 255]);
    let outside = crop(&img, 9, 9, 2, 2);
    assert_eq!((outside.width, outside.height), (0, 0));
    let roi = crop_roi(&img, &RoiPixels { x1: 1, x2: 3, y1: 0, y2: 1 });
    assert_eq!(roi.rows, vec![vec![1, 0, 1, 255, 2, 0, 2, 255]]);
}

#[test]
fn threshold_marks_dark_pixels_black() {
    // a dark dot on a light background
    let mut rows = vec![vec![200u8; 5]; 5];
    rows[2][2] = 10;
    let img = GrayImage { width: 5, height: 5, rows };
    let out = adaptive_threshold(&img, 31, 10);
    assert_eq!(out.rows[2][2], 0);
    assert_eq!(out.rows[0][0], 255);
    assert_eq!(out.rows.len(), 5);
}

#[test]
fn threshold_uses_the_local_window_mean() {
    // window 3 around (1, 0): columns 0..=2, rows 0..=1; values 0,0,90 / 0,0,0 → mean 15
    let img = GrayImage { width: 3, height: 2, rows: vec![vec![0, 4, 90], vec![0, 0, 0]] };
    let out = adaptive_threshold(&img, 3, 10);
    // 4 < 15 - 10 → black; the corners compare with smaller windows and stay white
    assert_eq!(out.rows[0], vec![255, 0, 255]);
    // with c = 0 a zero pixel equal to its window mean stays white
    let flat = GrayImage { width: 2, height: 1, rows: vec![vec![0, 0]] };
    assert_eq!(adaptive_threshold(&flat, 3, 0).rows, vec![vec![255, 255]]);
}

#[test]
fn threshold_ignores_a_uniform_brightness_change() {
    let rows = vec![vec![10u8, 60, 200, 30], vec![90, 5, 120, 40], vec![0, 250, 70, 15]];
    let img = GrayImage { width: 4, height: 3, rows: rows.clone() };
    let brighter: Vec<Vec<u8>> = rows.iter().map(|r| r.iter().map(|&v| v.min(250) + 5).collect()).collect();
    // 250 + 5 fits, so every pixel moves by exactly 5
    let img2 = GrayImage { width: 4, height: 3, rows: brighter };
    assert_eq!(adaptive_threshold(&img, 3, 10).rows, adaptive_threshold(&img2, 3, 10).rows);
    assert_eq!(adaptive_threshold(&img, 5, -3).rows, adaptive_threshold(&img2, 5, -3).rows);
}

#[test]
fn threshold_with_a_large_negative_offset_marks_all_black() {
    let img = GrayImage { width: 2, height: 2, rows: vec![vec![50, 50], vec![50, 50]] };
    let out = adaptive_threshold(&img, 3, i32::MIN + 100);
    assert_eq!(out.rows, vec![vec![0, 0], vec![0, 0]]);
}

#[test]
fn gray_image_is_encoded_as_png() {
    let img = GrayImage { width: 3, height: 2, rows: vec![vec![0, 128, 255], vec![255, 0, 7]] };
    let bytes = encode_png_gray(&img).unwrap();
    assert_eq!(&bytes[..8], &[0x89, b'P', b'N', b'G', 0x0D, 0x0A, 0x1A, 0x0A]);
    let decoded = image::load_from_memory(&bytes).unwrap().to_luma8();
    assert_eq!(decoded.into_raw(), vec![0, 128, 255, 255, 0, 7]);
}

#[test]
fn preprocessing_doubles_the_size_and_binarises() {
    // light page with a dark 2×2 block in the middle
    let mut img = RgbaImage { width: 6, height: 6, rows: vec![vec![230u8; 24]; 6] };
    for y in 2..4 {
        for x in 2..4 {
            for c in 0..3 {
                img.rows[y][4 * x + c] = 20;
            }
        }
    }
    let out = preprocess_for_ocr(&img);
    assert_eq!((out.width, out.height), (12, 12));
    assert_eq!(out.rows.len(), 12);
    assert!(out.rows.iter().all(|r| r.len() == 12 && r.iter().all(|&v| v == 0 || v == 255)));
    assert_eq!(out.rows[6][6], 0);
    assert_eq!(out.rows[0][0], 255);
}
