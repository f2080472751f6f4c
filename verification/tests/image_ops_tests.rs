use imageproc::distance_transform::Norm;
use phone_scan_wasm::myutils::image::{
    morphology_close, morphology_open, pixel_sums_fit, process_blurred, threshold_adaptive, threshold_otsu, GrayImage, RgbImage,
};

fn pattern(w: u32, h: u32) -> Vec<u8> {
    (0..w * h).map(|i| ((i * 37 + (i / w) * 11) % 256) as u8).collect()
}

fn gray(w: u32, h: u32, data: Vec<u8>) -> GrayImage {
    GrayImage::from_raw(w, h, data).unwrap()
}

fn buffer(w: u32, h: u32, data: Vec<u8>) -> image::GrayImage {
    image::GrayImage::from_raw(w, h, data).unwrap()
}

#[test]
fn inverting_and_thresholding() {
    let img = gray(3, 1, vec![0, 100, 255]);
    assert_eq!(img.inverted().as_raw(), &vec![255u8, 155, 0]);
    assert_eq!(img.threshold_inverted(100).as_raw(), &vec![255u8, 255, 0]);
    assert_eq!(img.threshold_inverted(99).as_raw(), &vec![255u8, 0, 0]);
}

#[test]
fn otsu_threshold_matches_imageproc() {
    let data = pattern(20, 15);
    let ours = threshold_otsu(&gray(20, 15, data.clone()));
    let b = buffer(20, 15, data);
    let level = imageproc::contrast::otsu_level(&b);
    let expected = imageproc::contrast::threshold(&b, level, imageproc::contrast::ThresholdType::BinaryInverted);
    assert_eq!(ours.as_raw(), expected.as_raw());
    assert!(ours.as_raw().iter().any(|&v| v == 0) && ours.as_raw().iter().any(|&v| v == 255));
}

#[test]
fn adaptive_threshold_is_inverted_imageproc() {
    let data = pattern(30, 25);
    let ours = threshold_adaptive(&gray(30, 25, data.clone()));
    let mut expected = imageproc::contrast::adaptive_threshold(&buffer(30, 25, data), 25, 5);
    image::imageops::invert(&mut expected);
    assert_eq!(ours.as_raw(), expected.as_raw());
}

#[test]
fn closing_and_opening_match_imageproc() {
    let mut data = vec![0u8; 20 * 20];
    for y in 5..12 {
        for x in 4..9 {
            data[y * 20 + x] = 255;
        }
    }
    data[15 * 20 + 15] = 255;
    data[7 * 20 + 6] = 0;
    let img = gray(20, 20, data.clone());
    let b = buffer(20, 20, data);
    let closed = morphology_close(&img, 3);
    let expected = imageproc::morphology::erode(&imageproc::morphology::dilate(&b, Norm::LInf, 3), Norm::LInf, 3);
    assert_eq!(closed.as_raw(), expected.as_raw());
    assert_eq!(closed.get_pixel(6, 7), 255);
    let opened = morphology_open(&img, 1);
    let expected = imageproc::morphology::dilate(&imageproc::morphology::erode(&b, Norm::LInf, 1), Norm::LInf, 1);
    assert_eq!(opened.as_raw(), expected.as_raw());
    assert_eq!(opened.get_pixel(15, 15), 0);
}

#[test]
fn processing_binarizes_and_closes() {
    let data = pattern(40, 30);
    let blurred = gray(40, 30, data.clone());
    let rgb = RgbImage::from_raw(40, 30, vec![7u8; 40 * 30 * 3]).unwrap();
    let p = process_blurred(rgb, gray(40, 30, vec![1u8; 1200]), &blurred);
    let thresh = threshold_adaptive(&blurred);
    assert_eq!(p.thresh.as_raw(), thresh.as_raw());
    assert_eq!(p.closed.as_raw(), morphology_close(&thresh, 3).as_raw());
    let opened = morphology_open(&thresh, 3);
    assert_eq!(p.closed_for_location.as_raw(), morphology_close(&opened, 5).as_raw());
    assert_eq!(p.gray.as_raw(), &vec![1u8; 1200]);
    assert_eq!(p.rgb.as_raw(), &vec![7u8; 3600]);
}

#[test]
fn adaptive_threshold_compares_with_the_block_mean() {
    // Every block covers the whole image: mean 40, threshold 40 - 5.
    assert_eq!(threshold_adaptive(&gray(3, 1, vec![10, 20, 90])).as_raw(), &vec![255, 255, 0]);
    assert_eq!(threshold_adaptive(&gray(3, 1, vec![30, 40, 50])).as_raw(), &vec![255, 0, 0]);
    // The mean 1 / 3 rounds down to 0.
    assert_eq!(threshold_adaptive(&gray(3, 1, vec![0, 0, 1])).as_raw(), &vec![0, 0, 0]);
}

#[test]
fn closing_fills_a_narrow_gap() {
    let img = gray(7, 1, vec![255, 0, 255, 0, 0, 0, 0]);
    assert_eq!(morphology_close(&img, 1).as_raw(), &vec![255, 255, 255, 0, 0, 0, 0]);
}

#[test]
fn saturated_distances_at_radius_255() {
    let img = gray(3, 3, vec![0, 0, 0, 0, 255, 0, 0, 0, 0]);
    assert_eq!(morphology_close(&img, 255).as_raw(), &vec![0; 9]);
    assert_eq!(morphology_open(&img, 255).as_raw(), &vec![255; 9]);
}

#[test]
fn pixel_sums_fit_up_to_half_of_u32() {
    assert!(pixel_sums_fit(&gray(1, 1, vec![255])));
    assert!(pixel_sums_fit(&gray(0, 0, vec![])));
    // 4096 * 2056 * 255 = 2_147_450_880 fits under 2^31 - 1; one row more does not.
    assert!(pixel_sums_fit(&gray(4096, 2056, vec![255; 4096 * 2056])));
    assert!(!pixel_sums_fit(&gray(4096, 2057, vec![255; 4096 * 2057])));
}
