use phone_scan_wasm::error::RecError;
use phone_scan_wasm::models::Coordinate;
use phone_scan_wasm::myutils::image::box_sum_in_table;
use phone_scan_wasm::myutils::image::{integral_image, merge_coordinates, sum_pixel, GrayImage, RgbImage};

fn c(x: i32, y: i32, w: i32, h: i32) -> Coordinate {
    Coordinate { x, y, w, h }
}

fn sample() -> GrayImage {
    // 4 wide, 3 high
    GrayImage::from_raw(4, 3, vec![1, 2, 3, 4, 5, 6, 7, 8, 9, 10, 11, 255]).unwrap()
}

#[test]
fn from_raw_checks_the_length() {
    assert!(GrayImage::from_raw(4, 3, vec![0; 11]).is_none());
    assert!(GrayImage::from_raw(4, 3, vec![0; 13]).is_none());
    let g = GrayImage::from_raw(2, 1, vec![7, 9]).unwrap();
    assert_eq!((g.width(), g.height()), (2, 1));
    assert_eq!(g.get_pixel(1, 0), 9);
    assert_eq!(g.clone().into_raw(), vec![7, 9]);
    assert!(RgbImage::from_raw(2, 2, vec![0; 11]).is_none());
    let r = RgbImage::from_raw(2, 2, vec![3; 12]).unwrap();
    assert_eq!((r.width(), r.height()), (2, 2));
    assert_eq!(r.as_raw().len(), 12);
}

#[test]
fn integral_image_holds_prefix_sums() {
    let ii = integral_image(&sample()).unwrap();
    assert_eq!(ii.len(), 4);
    assert!(ii.iter().all(|row| row.len() == 5));
    assert_eq!(ii[0], vec![0, 0, 0, 0, 0]);
    assert_eq!(ii[1], vec![0, 1, 3, 6, 10]);
    assert_eq!(ii[2], vec![0, 6, 14, 24, 36]);
    assert_eq!(ii[3], vec![0, 15, 33, 54, 321]);
}

#[test]
fn integral_image_of_empty_image() {
    let g = GrayImage::from_raw(0, 0, vec![]).unwrap();
    assert_eq!(integral_image(&g).unwrap(), vec![vec![0u64]]);
    let g = GrayImage::from_raw(3, 0, vec![]).unwrap();
    assert_eq!(integral_image(&g).unwrap(), vec![vec![0u64; 4]]);
}

#[test]
fn sum_pixel_gives_box_sums() {
    let g = sample();
    let ii = integral_image(&g).unwrap();
    // whole image
    assert_eq!(sum_pixel(&ii, &c(0, 0, 4, 3)), 1 + 2 + 3 + 4 + 5 + 6 + 7 + 8 + 9 + 10 + 11 + 255);
    // inner box columns 1..3, rows 1..3
    assert_eq!(sum_pixel(&ii, &c(1, 1, 2, 2)), 6 + 7 + 10 + 11);
    // a negative corner is clipped to zero
    assert_eq!(sum_pixel(&ii, &c(-2, -1, 3, 2)), 1);
    // empty box
    assert_eq!(sum_pixel(&ii, &c(2, 2, 0, 0)), 0);
}

#[test]
fn sum_pixel_law_matches_direct_sum() {
    let g = sample();
    let ii = integral_image(&g).unwrap();
    for x in 0..=4i32 {
        for y in 0..=3i32 {
            for w in 0..=(4 - x) {
                for h in 0..=(3 - y) {
                    let mut s = 0u64;
                    for r in y..y + h {
                        for col in x..x + w {
                            s += g.get_pixel(col as u32, r as u32) as u64;
                        }
                    }
                    let got = sum_pixel(&ii, &c(x, y, w, h));
                    if x + w < 5 && y + h < 4 {
                        assert_eq!(got, s);
                    }
                }
            }
        }
    }
}

#[test]
fn sum_pixel_past_the_table_is_zero() {
    let ii = integral_image(&sample()).unwrap();
    assert_eq!(sum_pixel(&ii, &c(0, 0, 5, 1)), 0);
    assert_eq!(sum_pixel(&ii, &c(0, 1, 1, 3)), 0);
    assert_eq!(sum_pixel(&ii, &c(10, 10, 1, 1)), 0);
}

#[test]
fn merge_coordinates_bounds_and_extends() {
    let cs = vec![c(10, 20, 5, 5), c(30, 15, 10, 2), c(12, 40, 1, 1)];
    assert_eq!(merge_coordinates(&cs, 0, 0), c(10, 15, 30, 26));
    assert_eq!(merge_coordinates(&cs, 20, 35), c(-10, -20, 70, 96));
    assert_eq!(merge_coordinates(&vec![c(1, 2, 3, 4)], 1, 1), c(0, 1, 5, 6));
}

#[test]
fn merged_box_contains_every_box() {
    let cs = vec![c(-5, 7, 3, 9), c(4, -2, 1, 1), c(0, 0, 20, 3)];
    let m = merge_coordinates(&cs, 3, 4);
    for b in &cs {
        assert!(m.x + 3 <= b.x && b.x + b.w <= m.x + m.w - 3);
        assert!(m.y + 4 <= b.y && b.y + b.h <= m.y + m.h - 4);
    }
}

#[test]
fn box_sums_inside_the_table_only() {
    let ii = integral_image(&sample()).unwrap();
    let rows = ii.len() as i32;
    let cols = ii[0].len() as i32;
    assert_eq!(box_sum_in_table(&ii, &c(0, 0, cols - 1, rows - 1)), Ok(sum_pixel(&ii, &c(0, 0, cols - 1, rows - 1))));
    assert_eq!(box_sum_in_table(&ii, &c(1, 1, 1, 1)), Ok(sum_pixel(&ii, &c(1, 1, 1, 1))));
    assert_eq!(box_sum_in_table(&ii, &c(-1, 0, 1, 1)), Err(RecError::BoxOutsideTable));
    assert_eq!(box_sum_in_table(&ii, &c(0, 0, cols, 1)), Err(RecError::BoxOutsideTable));
    assert_eq!(box_sum_in_table(&ii, &c(0, 1, 1, rows - 1)), Err(RecError::BoxOutsideTable));
}

#[test]
fn rgb_crop_matches_the_image_crate() {
    let data: Vec<u8> = (0..3 * 4 * 3).map(|v| v as u8).collect();
    let img = RgbImage::from_raw(4, 3, data.clone()).unwrap();
    let buf = image::RgbImage::from_raw(4, 3, data).unwrap();
    for &(x, y, w, h) in &[(1, 0, 5, 2), (0, 0, 4, 3), (3, 2, 1, 1), (5, 1, 2, 2), (2, 1, 0, 2)] {
        let ours = img.crop(x, y, w, h);
        let theirs = image::imageops::crop_imm(&buf, x, y, w, h).to_image();
        assert_eq!((ours.width(), ours.height()), theirs.dimensions());
        assert_eq!(ours.as_raw(), &theirs.into_raw());
    }
    let part = img.crop(1, 1, 2, 1);
    assert_eq!(part.as_raw(), &vec![15, 16, 17, 18, 19, 20]);
}
