use phone_scan_wasm::error::RecError;
use phone_scan_wasm::models::{AssistLocation, Coordinate};
use phone_scan_wasm::myutils::image::{foreground_contours, GrayImage};
use phone_scan_wasm::recognize::assist_location::{AlignPlan, AssistLocationModule};

fn c(x: i32, y: i32, w: i32, h: i32) -> Coordinate {
    Coordinate { x, y, w, h }
}

/// A black image with white filled rectangles `(x, y, w, h)`.
fn image_with(width: u32, height: u32, rects: &[(u32, u32, u32, u32)]) -> GrayImage {
    let mut data = vec![0u8; (width * height) as usize];
    for &(x, y, w, h) in rects {
        for j in y..y + h {
            for i in x..x + w {
                data[(j * width + i) as usize] = 255;
            }
        }
    }
    GrayImage::from_raw(width, height, data).unwrap()
}

#[test]
fn candidates_keep_mark_sized_contours() {
    // a 10 x 10 square (spans 9 x 9, area 81), a 3 x 3 speck and a 20 x 10 bar
    let img = image_with(40, 40, &[(10, 5, 10, 10), (30, 30, 3, 3), (2, 25, 20, 10)]);
    let (roi, boxes) = AssistLocationModule::assist_mark_candidates(&img, &c(0, 0, 40, 40));
    assert_eq!((roi.width(), roi.height()), (40, 40));
    assert_eq!(boxes, vec![c(10, 5, 9, 9)]);
}

#[test]
fn candidates_are_in_crop_coordinates() {
    let img = image_with(40, 40, &[(10, 5, 10, 10)]);
    let (roi, boxes) = AssistLocationModule::assist_mark_candidates(&img, &c(5, 2, 20, 20));
    assert_eq!((roi.width(), roi.height()), (20, 20));
    assert_eq!(roi.get_pixel(5, 3), 255);
    assert_eq!(boxes, vec![c(5, 3, 9, 9)]);
}

#[test]
fn candidates_clamp_the_search_area() {
    let img = image_with(40, 40, &[(10, 5, 10, 10)]);
    // a negative start reads as 0; the size is cut to what is left of the image
    let (roi, boxes) = AssistLocationModule::assist_mark_candidates(&img, &c(-5, -5, 100, 30));
    assert_eq!((roi.width(), roi.height()), (40, 30));
    assert_eq!(boxes, vec![c(10, 5, 9, 9)]);
    // a negative size wraps to a large one and is clamped too
    let (roi, _) = AssistLocationModule::assist_mark_candidates(&img, &c(0, 0, -1, -1));
    assert_eq!((roi.width(), roi.height()), (40, 40));
    // a start past the image leaves nothing
    let (roi, boxes) = AssistLocationModule::assist_mark_candidates(&img, &c(50, 0, 10, 10));
    assert_eq!(roi.width(), 0);
    assert!(boxes.is_empty());
}

#[test]
fn candidates_need_close_sides_and_area() {
    // 9 x 14 spans: sides differ by 5
    let img = image_with(40, 40, &[(3, 3, 10, 15)]);
    let (_, boxes) = AssistLocationModule::assist_mark_candidates(&img, &c(0, 0, 40, 40));
    assert!(boxes.is_empty());
    // 8 x 8 spans: area 64 < 80
    let img = image_with(40, 40, &[(3, 3, 9, 9)]);
    let (_, boxes) = AssistLocationModule::assist_mark_candidates(&img, &c(0, 0, 40, 40));
    assert!(boxes.is_empty());
    // 12 x 14 spans: area 168 <= 170
    let img = image_with(40, 40, &[(3, 3, 13, 15)]);
    let (_, boxes) = AssistLocationModule::assist_mark_candidates(&img, &c(0, 0, 40, 40));
    assert_eq!(boxes, vec![c(3, 3, 12, 14)]);
}

#[test]
fn placing_moves_sorts_and_filters() {
    let kept = vec![c(5, 30, 9, 9), c(6, 10, 9, 9), c(40, 20, 9, 9)];
    // moved: (105, 230) (106, 210) (140, 220); by y: 106, 140, 105; median x 106
    let placed = AssistLocationModule::place_assist_points(&kept, &c(100, 200, 50, 50));
    assert_eq!(placed, vec![c(106, 210, 9, 9), c(105, 230, 9, 9)]);
}

#[test]
fn placing_keeps_order_of_equal_heights() {
    let kept = vec![c(3, 10, 1, 1), c(1, 10, 2, 2), c(2, 5, 3, 3), c(4, 10, 4, 4)];
    let placed = AssistLocationModule::place_assist_points(&kept, &c(0, 0, 1, 1));
    assert_eq!(placed, vec![c(2, 5, 3, 3), c(3, 10, 1, 1), c(1, 10, 2, 2), c(4, 10, 4, 4)]);
}

#[test]
fn try_placing_refuses_overflow() {
    let kept = vec![c(i32::MAX, 0, 1, 1)];
    assert_eq!(AssistLocationModule::try_place_assist_points(&kept, &c(1, 0, 1, 1)), None);
    let kept = vec![c(i32::MAX, 0, 1, 1), c(i32::MIN + 1, 0, 1, 1)];
    // the median is 0, but the first box lies i32::MAX from it and the second -i32::MAX
    assert!(AssistLocationModule::try_place_assist_points(&kept, &c(0, 0, 1, 1)).is_some());
    let kept = vec![c(i32::MAX, 0, 1, 1), c(i32::MAX, 0, 1, 1)];
    // the two middle positions do not add up within i32
    assert_eq!(AssistLocationModule::try_place_assist_points(&kept, &c(0, 0, 1, 1)), None);
    let kept = vec![c(1, 2, 3, 3)];
    assert_eq!(
        AssistLocationModule::try_place_assist_points(&kept, &c(10, 20, 1, 1)),
        Some(vec![c(11, 22, 3, 3)])
    );
}

#[test]
fn alignment_plans() {
    assert_eq!(AssistLocationModule::plan_alignment(5, 5, 5), Ok(AlignPlan::Matched));
    assert_eq!(AssistLocationModule::plan_alignment(5, 3, 4), Err(RecError::AssistColumnsMismatch));
    assert_eq!(AssistLocationModule::plan_alignment(5, 5, 2), Err(RecError::AssistCountOff));
    assert_eq!(AssistLocationModule::plan_alignment(5, 8, 5), Err(RecError::AssistCountOff));
    assert_eq!(AssistLocationModule::plan_alignment(5, 5, 3), Ok(AlignPlan::RightMissing));
    assert_eq!(AssistLocationModule::plan_alignment(5, 5, 7), Ok(AlignPlan::RightExtra));
    assert_eq!(AssistLocationModule::plan_alignment(5, 4, 5), Ok(AlignPlan::LeftMissing));
    assert_eq!(AssistLocationModule::plan_alignment(5, 6, 5), Ok(AlignPlan::LeftExtra));
    assert_eq!(AssistLocationModule::plan_alignment(0, 0, 0), Ok(AlignPlan::Matched));
}

fn column(n: i32) -> Vec<Coordinate> {
    (0..n).map(|i| c(i, 10 * i, 5, 5)).collect()
}

#[test]
fn missing_marks_leave_the_layout() {
    let detected = AssistLocation { left: column(4), right: column(2) };
    let mut marked = AssistLocation { left: column(4), right: column(4) };
    let r = AssistLocationModule::apply_alignment(AlignPlan::RightMissing, detected.clone(), &mut marked, &[3, 1]);
    assert_eq!(r.left, detected.left);
    assert_eq!(r.right, detected.right);
    assert_eq!(marked.left, column(4));
    assert_eq!(marked.right, vec![c(0, 0, 5, 5), c(2, 20, 5, 5)]);
}

#[test]
fn missing_marks_in_any_order() {
    let detected = AssistLocation { left: column(1), right: column(3) };
    let mut a = AssistLocation { left: column(3), right: column(3) };
    let mut b = AssistLocation { left: column(3), right: column(3) };
    AssistLocationModule::apply_alignment(AlignPlan::LeftMissing, detected.clone(), &mut a, &[0, 2]);
    AssistLocationModule::apply_alignment(AlignPlan::LeftMissing, detected, &mut b, &[2, 0]);
    assert_eq!(a.left, vec![c(1, 10, 5, 5)]);
    assert_eq!(a.left, b.left);
    assert_eq!(a.right, column(3));
}

#[test]
fn extra_detections_leave_the_result() {
    let detected = AssistLocation { left: column(3), right: column(2) };
    let mut marked = AssistLocation { left: column(2), right: column(2) };
    let r = AssistLocationModule::apply_alignment(AlignPlan::LeftExtra, detected.clone(), &mut marked, &[1]);
    assert_eq!(r.left, vec![c(0, 0, 5, 5), c(2, 20, 5, 5)]);
    assert_eq!(r.right, detected.right);
    assert_eq!(marked.left, column(2));
    let r = AssistLocationModule::apply_alignment(AlignPlan::RightExtra, detected.clone(), &mut marked, &[0, 7]);
    assert_eq!(r.right, vec![c(1, 10, 5, 5)]);
    let r = AssistLocationModule::apply_alignment(AlignPlan::Matched, detected.clone(), &mut marked, &[0]);
    assert_eq!(r.left, detected.left);
    assert_eq!(r.right, detected.right);
    assert_eq!(marked.right, column(2));
}

#[test]
fn candidates_lie_inside_the_crop() {
    let img = image_with(40, 40, &[(0, 0, 10, 10), (30, 30, 10, 10), (15, 15, 12, 12)]);
    let (roi, boxes) = AssistLocationModule::assist_mark_candidates(&img, &c(0, 0, 40, 40));
    assert!(!boxes.is_empty());
    for b in &boxes {
        assert!(b.x >= 0 && b.y >= 0);
        assert!(b.x + b.w < roi.width() as i32 && b.y + b.h < roi.height() as i32);
    }
}

#[test]
fn placed_marks_lie_inside_the_search_area() {
    let img = image_with(60, 60, &[(20, 20, 10, 10), (22, 40, 10, 10), (45, 45, 10, 10)]);
    let area = c(15, 15, 35, 40);
    let (_roi, boxes) = AssistLocationModule::assist_mark_candidates(&img, &area);
    assert!(!boxes.is_empty());
    let placed = AssistLocationModule::try_place_assist_points(&boxes, &area).unwrap();
    assert!(!placed.is_empty());
    for p in &placed {
        assert!(area.x <= p.x && p.x + p.w < area.x + area.w);
        assert!(area.y <= p.y && p.y + p.h < area.y + area.h);
    }
}

#[test]
fn mark_sized_contour_boxes() {
    // the border of a 10 x 10 square (spans 9 x 9) and a three-point speck
    let mut square = Vec::new();
    for i in 0..10u32 {
        square.push((10 + i, 10));
        square.push((10 + i, 19));
        square.push((10, 10 + i));
        square.push((19, 10 + i));
    }
    let speck = vec![(0u32, 0u32), (1, 1), (2, 2)];
    let boxes = AssistLocationModule::assist_boxes_in(&vec![speck, square], 100, 100);
    assert_eq!(boxes, vec![c(10, 10, 9, 9)]);
}

#[test]
fn foreground_contours_match_imageproc() {
    let img = image_with(40, 30, &[(5, 5, 10, 10), (20, 10, 4, 12)]);
    let ours = foreground_contours(&img);
    let buf = image::GrayImage::from_raw(40, 30, img.as_raw().clone()).unwrap();
    let theirs: Vec<Vec<(u32, u32)>> = imageproc::contours::find_contours::<u32>(&buf)
        .into_iter()
        .map(|c| c.points.into_iter().map(|p| (p.x, p.y)).collect())
        .collect();
    assert_eq!(ours, theirs);
    assert!(!ours.is_empty());
    for c in &ours {
        assert!(!c.is_empty());
        assert!(c.iter().all(|&(x, y)| x < 40 && y < 30));
    }
}
