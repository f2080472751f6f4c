use phone_scan_wasm::config::{
    AssistLocationPageConfig, CommonConfig, FillPageConfig, ImageProcessingConfig, VxPageConfig,
};
use phone_scan_wasm::error::RecError;
use phone_scan_wasm::models::Coordinate;
use phone_scan_wasm::recognize::assist_location::{get_contour_bounds, AssistLocationModule};
use phone_scan_wasm::recognize::fill::RecFillModule;
use phone_scan_wasm::recognize::location::{convex_hull, get_bounding_rect, LocationModule};
use phone_scan_wasm::recognize::page_number::PageNumberModule;
use phone_scan_wasm::recognize::vx::RecVxModule;

fn c(x: i32, y: i32, w: i32, h: i32) -> Coordinate {
    Coordinate { x, y, w, h }
}

#[test]
fn x_filter_keeps_marks_near_the_median() {
    let marks = vec![c(100, 0, 10, 10), c(105, 30, 10, 10), c(160, 60, 10, 10), c(90, 90, 10, 10)];
    // sorted x: 90 100 105 160, median (100 + 105) / 2 = 102
    let kept = AssistLocationModule::filter_assist_location_by_x(&marks);
    assert_eq!(kept, vec![c(100, 0, 10, 10), c(105, 30, 10, 10), c(90, 90, 10, 10)]);
}

#[test]
fn x_filter_odd_count_and_edges() {
    let marks = vec![c(50, 0, 1, 1), c(10, 1, 1, 1), c(32, 2, 1, 1), c(28, 3, 1, 1), c(-100, 4, 1, 1)];
    // sorted x: -100 10 28 32 50, median 28; kept within 18 of it: 10, 28, 32
    let kept = AssistLocationModule::filter_assist_location_by_x(&marks);
    assert_eq!(kept, vec![c(10, 1, 1, 1), c(32, 2, 1, 1), c(28, 3, 1, 1)]);
    assert!(AssistLocationModule::filter_assist_location_by_x(&vec![]).is_empty());
    // an even count whose middle pair sums to an odd negative number: the median rounds toward zero
    let marks = vec![c(-19, 0, 1, 1), c(-20, 1, 1, 1), c(-38, 2, 1, 1), c(0, 3, 1, 1)];
    // sorted x: -38 -20 -19 0, median (-39) / 2 = -19
    let kept = AssistLocationModule::filter_assist_location_by_x(&marks);
    // rounding toward zero gives -19 (flooring would give -20 and keep -38 instead)
    assert_eq!(kept, vec![c(-19, 0, 1, 1), c(-20, 1, 1, 1)]);
}

#[test]
fn contour_bounds() {
    assert_eq!(get_contour_bounds(&[(5, 9), (2, 11), (7, 3)]), (2, 3, 7, 11));
    assert_eq!(get_contour_bounds(&[]), (-1, -1, 0, 0));
    assert_eq!(get_contour_bounds(&[(4, 4)]), (4, 4, 4, 4));
}

#[test]
fn bounding_rect() {
    assert_eq!(get_bounding_rect(&[(5, 9), (-2, 11), (7, 3)]), (-2, 3, 9, 8));
    assert_eq!(get_bounding_rect(&[(1, 1)]), (1, 1, 0, 0));
}

#[test]
fn hull_of_a_square_with_inner_points() {
    let pts = [(0, 0), (2, 1), (4, 0), (4, 4), (1, 2), (0, 4), (2, 4)];
    let hull = convex_hull(&pts);
    assert_eq!(hull, vec![(0, 0), (4, 0), (4, 4), (0, 4)]);
}

#[test]
fn hull_of_few_points_is_the_input() {
    assert_eq!(convex_hull(&[(3, 1), (0, 0)]), vec![(3, 1), (0, 0)]);
    assert_eq!(convex_hull(&[]), Vec::<(i32, i32)>::new());
}

#[test]
fn hull_of_a_triangle_and_collinear_points() {
    assert_eq!(convex_hull(&[(0, 0), (5, 5), (10, 0)]), vec![(0, 0), (10, 0), (5, 5)]);
    assert_eq!(convex_hull(&[(0, 0), (1, 1), (2, 2)]), vec![(0, 0), (2, 2)]);
}

#[test]
fn page_bits_decode() {
    assert_eq!(PageNumberModule::page_index_from_bits(&[true]), Ok(1));
    assert_eq!(PageNumberModule::page_index_from_bits(&[true, false, true]), Ok(5));
    assert_eq!(PageNumberModule::page_index_from_bits(&[false, false, true, true]), Ok(3));
}

#[test]
fn page_bits_errors() {
    assert_eq!(PageNumberModule::page_index_from_bits(&[]), Err(RecError::PageNumberUnreadable));
    assert_eq!(PageNumberModule::page_index_from_bits(&[false, false]), Err(RecError::PageNumberZero));
    let mut too_big = vec![true];
    too_big.extend(vec![false; 32]);
    assert_eq!(PageNumberModule::page_index_from_bits(&too_big), Err(RecError::PageNumberUnreadable));
    let mut max = vec![false; 8];
    max.extend(vec![true; 32]);
    assert_eq!(PageNumberModule::page_index_from_bits(&max), Ok(u32::MAX as usize));
    let mut leading = vec![false; 40];
    leading.push(true);
    assert_eq!(PageNumberModule::page_index_from_bits(&leading), Ok(1));
}

#[test]
fn modules_and_config() {
    let _ = LocationModule::new();
    let _ = RecFillModule::new();
    let _ = PageNumberModule::new();
    let _ = AssistLocationModule::new();
    assert!(RecVxModule::new_paper("any/path.onnx").is_ok());
    assert_eq!(ImageProcessingConfig::TARGET_WIDTH_A4, 2400);
    assert_eq!(ImageProcessingConfig::TARGET_WIDTH_A3, 4000);
    assert_eq!(ImageProcessingConfig::BOUNDARY_EXTEND_SIZE, 40);
    assert_eq!(AssistLocationPageConfig::assist_area_extend_size_h(), 35);
    assert_eq!(AssistLocationPageConfig::assist_area_extend_size_w(), 20);
    assert_eq!(AssistLocationPageConfig::assist_point_min_size(), 8);
    assert_eq!(AssistLocationPageConfig::assist_point_max_size(), 15);
    assert_eq!(AssistLocationPageConfig::assist_point_whdiff_max(), 4);
    assert_eq!(AssistLocationPageConfig::assist_point_x_median_diff(), 18);
    assert_eq!(FillPageConfig::refine_coor_range(), 4);
    assert_eq!(CommonConfig::PAGE_NUMBER_EXTEND_SIZE, 20);
    assert_eq!(VxPageConfig::vx_model_channels(), 1);
    assert_eq!(VxPageConfig::vx_model_height(), 36);
    assert_eq!(VxPageConfig::vx_model_width(), 50);
    assert_eq!(VxPageConfig::vx_model_padding_value(), 0);
    assert_eq!(VxPageConfig::vx_box_expand_size(), 4);
}

#[test]
fn sheets_without_page_marks_are_page_one() {
    assert_eq!(PageNumberModule::page_index(0, &[]), Ok(1));
    assert_eq!(PageNumberModule::page_index(0, &[true, true]), Ok(1));
    assert_eq!(PageNumberModule::page_index(3, &[true, false]), Ok(2));
    assert_eq!(PageNumberModule::page_index(1, &[]), Err(RecError::PageNumberUnreadable));
    assert_eq!(PageNumberModule::page_index(2, &[false]), Err(RecError::PageNumberZero));
}
