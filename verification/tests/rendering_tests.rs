use phone_scan_wasm::models::RecType;
use phone_scan_wasm::myutils::rendering::option_drawn;
use imageproc::rect::Rect;
use phone_scan_wasm::models::{AssistLocation, Coordinate};
use phone_scan_wasm::myutils::image::RgbImage;
use phone_scan_wasm::myutils::rendering::{
    render_assist_location, render_coordinate, render_coordinates, renderable, Colors, RenderMode, Rgb,
};

fn c(x: i32, y: i32, w: i32, h: i32) -> Coordinate {
    Coordinate { x, y, w, h }
}

fn blank(w: u32, h: u32) -> RgbImage {
    RgbImage::from_raw(w, h, vec![0u8; (w * h * 3) as usize]).unwrap()
}

fn blank_buffer(w: u32, h: u32) -> image::RgbImage {
    image::RgbImage::from_raw(w, h, vec![0u8; (w * h * 3) as usize]).unwrap()
}

#[test]
fn colors_are_the_presets() {
    assert_eq!(Colors::red(), Rgb([255, 0, 0]));
    assert_eq!(Colors::green(), Rgb([0, 255, 0]));
    assert_eq!(Colors::blue(), Rgb([0, 0, 255]));
    assert_eq!(Colors::yellow(), Rgb([255, 255, 0]));
    assert_eq!(Colors::orange(), Rgb([255, 165, 0]));
    assert_eq!(Colors::white(), Rgb([255, 255, 255]));
    assert_eq!(Colors::black(), Rgb([0, 0, 0]));
}

#[test]
fn filled_box_sets_exactly_its_pixels() {
    let mut img = blank(6, 5);
    render_coordinate(&mut img, &c(1, 2, 3, 2), RenderMode::Filled, Colors::green(), 1).unwrap();
    let raw = img.as_raw();
    for y in 0..5 {
        for x in 0..6 {
            let inside = (1..4).contains(&x) && (2..4).contains(&y);
            let p = &raw[(y * 6 + x) * 3..(y * 6 + x) * 3 + 3];
            assert_eq!(p, if inside { &[0u8, 255, 0][..] } else { &[0u8, 0, 0][..] }, "pixel {} {}", x, y);
        }
    }
}

#[test]
fn filled_box_is_clipped_to_the_image() {
    let mut img = blank(4, 4);
    render_coordinate(&mut img, &c(-2, 3, 4, 5), RenderMode::Filled, Colors::white(), 1).unwrap();
    let raw = img.as_raw();
    let white: Vec<usize> = (0..16).filter(|i| raw[i * 3] == 255).collect();
    assert_eq!(white, vec![12, 13]);
}

#[test]
fn hollow_box_grows_outward() {
    let mut img = blank(12, 12);
    render_coordinate(&mut img, &c(4, 4, 3, 3), RenderMode::Hollow, Colors::red(), 2).unwrap();
    let mut expected = blank_buffer(12, 12);
    imageproc::drawing::draw_hollow_rect_mut(&mut expected, Rect::at(4, 4).of_size(3, 3), image::Rgb([255, 0, 0]));
    imageproc::drawing::draw_hollow_rect_mut(&mut expected, Rect::at(3, 3).of_size(5, 5), image::Rgb([255, 0, 0]));
    assert_eq!(img.as_raw(), expected.as_raw());
    assert_eq!(img.as_raw()[(4 * 12 + 4) * 3], 255);
    assert_eq!(img.as_raw()[(5 * 12 + 5) * 3], 0);
}

#[test]
fn corner_discs() {
    let mut img = blank(20, 20);
    render_coordinate(&mut img, &c(5, 5, 8, 6), RenderMode::Corners, Colors::blue(), 1).unwrap();
    let mut expected = blank_buffer(20, 20);
    for center in [(5, 5), (13, 5), (13, 11), (5, 11)] {
        imageproc::drawing::draw_filled_circle_mut(&mut expected, center, 2, image::Rgb([0, 0, 255]));
    }
    assert_eq!(img.as_raw(), expected.as_raw());
}

#[test]
fn render_coordinates_defaults_to_red_outlines() {
    let mut img = blank(16, 16);
    let boxes = [c(2, 2, 4, 4), c(9, 9, 3, 3)];
    render_coordinates(&mut img, &boxes, None, None, None).unwrap();
    let mut expected = blank(16, 16);
    for b in &boxes {
        render_coordinate(&mut expected, b, RenderMode::Hollow, Colors::red(), 2).unwrap();
    }
    assert_eq!(img.as_raw(), expected.as_raw());
}

#[test]
fn render_assist_location_draws_both_margins() {
    let mut img = blank(16, 16);
    let marks = AssistLocation { left: vec![c(1, 1, 2, 2)], right: vec![c(10, 10, 2, 2)] };
    render_assist_location(&mut img, &marks, RenderMode::Filled, Colors::white(), 1).unwrap();
    let raw = img.as_raw();
    assert_eq!(raw[(1 * 16 + 1) * 3], 255);
    assert_eq!(raw[(11 * 16 + 11) * 3], 255);
    assert_eq!(raw.iter().filter(|&&v| v == 255).count(), 8 * 3);
}

#[test]
fn renderable_checks_sizes() {
    assert!(!renderable(&c(0, 0, 0, 3), RenderMode::Filled, 1, 10, 10));
    assert!(renderable(&c(0, 0, 1, 3), RenderMode::Filled, 1, 10, 10));
    // a box of no width panics in the drawing code whatever the mode
    assert!(!renderable(&c(0, 0, 0, 0), RenderMode::Hollow, 0, 10, 10));
    assert!(renderable(&c(0, 0, 1, 1), RenderMode::Hollow, 0, 10, 10));
    assert!(!renderable(&c(0, 0, 0, 3), RenderMode::Hollow, 1, 10, 10));
    assert!(renderable(&c(0x4000_0000, 0, 5, 5), RenderMode::Hollow, 2, 10, 10));
    assert!(renderable(&c(i32::MAX - 260, 0, 5, 5), RenderMode::Hollow, 1, 10, 10));
    assert!(!renderable(&c(i32::MAX - 255, 0, 5, 5), RenderMode::Hollow, 1, 10, 10));
    assert!(renderable(&c(i32::MIN, i32::MIN, 5, 5), RenderMode::Hollow, 1, 10, 10));
    assert!(!renderable(&c(i32::MIN, 0, 5, 5), RenderMode::Hollow, 2, 10, 10));
    // a filled box whose far side would pass i32::MAX
    assert!(!renderable(&c(i32::MAX, 0, 1, 1), RenderMode::Filled, 1, 10, 10));
    assert!(renderable(&c(i32::MAX - 1, 0, 1, 1), RenderMode::Filled, 1, 10, 10));
    assert!(!renderable(&c(0, 0, 0, 0), RenderMode::Corners, 3, 10, 10));
    assert!(renderable(&c(0, 0, 2, 2), RenderMode::Corners, 3, 10, 10));
    // discs of radius up to 2^30
    assert!(renderable(&c(0, 0, 2, 2), RenderMode::Corners, 0x2000_0000, 10, 10));
    assert!(!renderable(&c(0, 0, 2, 2), RenderMode::Corners, 0x2000_0001, 10, 10));
    // a negative radius draws nothing, so only the corners must fit in i32
    assert!(renderable(&c(i32::MAX - 2, 0, 1, 1), RenderMode::Corners, -1, 10, 10));
    assert!(!renderable(&c(i32::MAX - 2, 0, 1, 1), RenderMode::Corners, 1, 10, 10));
}

#[test]
fn far_boxes_draw_nothing_inside() {
    let mut img = blank(8, 8);
    render_coordinate(&mut img, &c(0x5000_0000, 0x5000_0000, 4, 4), RenderMode::Hollow, Colors::red(), 2).unwrap();
    render_coordinate(&mut img, &c(i32::MAX - 1, 0, 1, 1), RenderMode::Filled, Colors::red(), 1).unwrap();
    assert!(img.as_raw().iter().all(|&v| v == 0));
}

#[test]
fn location_options_are_always_drawn() {
    let marks = vec![false, true];
    assert!(option_drawn(RecType::Location, &marks, 0));
    assert!(option_drawn(RecType::Location, &vec![], 3));
    assert!(!option_drawn(RecType::Vx, &marks, 0));
    assert!(option_drawn(RecType::Vx, &marks, 1));
    assert!(!option_drawn(RecType::SingleChoice, &marks, 0));
    assert!(option_drawn(RecType::MultipleChoice, &marks, 1));
}

#[test]
fn hollow_box_sets_its_border() {
    let mut img = blank(6, 6);
    render_coordinate(&mut img, &c(1, 1, 3, 3), RenderMode::Hollow, Colors::white(), 1).unwrap();
    let raw = img.as_raw();
    for y in 0..6i32 {
        for x in 0..6i32 {
            let on = (1..4).contains(&x) && (1..4).contains(&y) && (x == 1 || x == 3 || y == 1 || y == 3);
            let v = raw[((y * 6 + x) * 3) as usize];
            assert_eq!(v, if on { 255 } else { 0 }, "pixel {x},{y}");
        }
    }
    // a second layer grows the box by one on every side, clipped to the image
    let mut img = blank(6, 6);
    render_coordinate(&mut img, &c(1, 1, 3, 3), RenderMode::Hollow, Colors::white(), 2).unwrap();
    let raw = img.as_raw();
    for y in 0..6i32 {
        for x in 0..6i32 {
            let first = (1..4).contains(&x) && (1..4).contains(&y) && (x == 1 || x == 3 || y == 1 || y == 3);
            let second = (0..5).contains(&x) && (0..5).contains(&y) && (x == 0 || x == 4 || y == 0 || y == 4);
            let v = raw[((y * 6 + x) * 3) as usize];
            assert_eq!(v, if first || second { 255 } else { 0 }, "pixel {x},{y}");
        }
    }
}
