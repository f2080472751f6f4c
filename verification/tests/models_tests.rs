use phone_scan_wasm::models::{
    default_num_threads, AssistLocation, Coordinate, MarkPage, MarkPaper, Quad, RecItem, RecType,
};
use phone_scan_wasm::recognize::engine::RecEngine;

fn c(x: i32, y: i32, w: i32, h: i32) -> Coordinate {
    Coordinate { x, y, w, h }
}

#[test]
fn rec_type_from_code() {
    assert_eq!(RecType::from(1), RecType::SingleChoice);
    assert_eq!(RecType::from(2), RecType::MultipleChoice);
    assert_eq!(RecType::from(3), RecType::Vx);
    assert_eq!(RecType::from(4), RecType::HandWriting);
    assert_eq!(RecType::from(5), RecType::Location);
    assert_eq!(RecType::from(0), RecType::SingleChoice);
    assert_eq!(RecType::from(99), RecType::SingleChoice);
    assert_eq!(RecType::from(-3), RecType::SingleChoice);
}

#[test]
fn rec_type_to_code_round_trip() {
    for v in 1..=5 {
        assert_eq!(i32::from(RecType::from(v)), v);
    }
    for t in [
        RecType::SingleChoice,
        RecType::MultipleChoice,
        RecType::Vx,
        RecType::HandWriting,
        RecType::Location,
    ] {
        assert_eq!(RecType::from(i32::from(t)), t);
    }
    assert_eq!(i32::from(RecType::from(7)), 1);
}

#[test]
fn quad_to_coordinate_uses_first_three_corners() {
    let q = Quad { points: [(10, 20), (110, 22), (112, 220), (8, 218)] };
    assert_eq!(q.to_coordinate(), c(10, 20, 100, 200));
    let q = Quad { points: [(5, 5), (3, 0), (0, 2), (0, 0)] };
    assert_eq!(q.to_coordinate(), c(5, 5, -2, -3));
}

#[test]
fn init_sort_orders_by_x_then_y_and_keeps_ties() {
    let mut a = AssistLocation {
        left: vec![c(30, 5, 1, 1), c(10, 9, 1, 1), c(10, 2, 1, 1), c(10, 2, 7, 7), c(20, 0, 1, 1)],
        right: vec![c(2, 2, 1, 1), c(1, 1, 1, 1)],
    };
    a.init_sort();
    assert_eq!(
        a.left,
        vec![c(10, 2, 1, 1), c(10, 2, 7, 7), c(10, 9, 1, 1), c(20, 0, 1, 1), c(30, 5, 1, 1)]
    );
    assert_eq!(a.right, vec![c(1, 1, 1, 1), c(2, 2, 1, 1)]);
}

#[test]
fn init_sort_twice_is_init_sort_once() {
    let mut a = AssistLocation {
        left: vec![c(3, 1, 0, 0), c(1, 5, 0, 1), c(1, 5, 0, 2), c(2, 0, 0, 0)],
        right: vec![],
    };
    a.init_sort();
    let once = a.left.clone();
    a.init_sort();
    assert_eq!(a.left, once);
    assert!(a.right.is_empty());
}

fn paper(boundary: Coordinate) -> MarkPaper {
    MarkPaper {
        vx_model_path: "model.onnx".to_string(),
        boundary,
        page_number: vec![c(1, 1, 2, 2)],
        pages: vec![
            MarkPage {
                rec_items: vec![RecItem { rec_type: RecType::Vx, sub_options: vec![c(0, 0, 5, 5)] }],
                assist_location: AssistLocation {
                    left: vec![c(5, 9, 1, 1), c(5, 1, 1, 1)],
                    right: vec![c(50, 4, 1, 1), c(40, 8, 1, 1)],
                },
            },
            MarkPage {
                rec_items: vec![],
                assist_location: AssistLocation { left: vec![c(2, 2, 1, 1)], right: vec![] },
            },
        ],
        num_threads: default_num_threads(),
    }
}

#[test]
fn is_a4_when_narrower_than_high() {
    assert!(paper(c(0, 0, 2100, 2970)).is_a4());
    assert!(!paper(c(0, 0, 2970, 2100)).is_a4());
    assert!(!paper(c(0, 0, 100, 100)).is_a4());
}

#[test]
fn default_thread_count_is_one() {
    assert_eq!(default_num_threads(), 1);
}

#[test]
fn mark_paper_init_sort_sorts_every_page() {
    let mut p = paper(c(0, 0, 10, 20));
    p.init_sort();
    assert_eq!(p.pages[0].assist_location.left, vec![c(5, 1, 1, 1), c(5, 9, 1, 1)]);
    assert_eq!(p.pages[0].assist_location.right, vec![c(40, 8, 1, 1), c(50, 4, 1, 1)]);
    assert_eq!(p.pages[1].assist_location.left, vec![c(2, 2, 1, 1)]);
    assert_eq!(p.pages[0].rec_items.len(), 1);
    assert_eq!(p.page_number, vec![c(1, 1, 2, 2)]);
    assert_eq!(p.vx_model_path, "model.onnx");
}

#[test]
fn engine_keeps_sorted_layout() {
    let engine = RecEngine::new_paper(paper(c(0, 0, 10, 20))).unwrap();
    let p = engine.mark_paper.as_ref().unwrap();
    assert_eq!(p.pages[0].assist_location.left, vec![c(5, 1, 1, 1), c(5, 9, 1, 1)]);
    assert_eq!(p.pages.len(), 2);
    assert_eq!(p.num_threads, 1);
}

#[test]
fn choice_kinds() {
    assert!(RecType::SingleChoice.is_choice());
    assert!(RecType::MultipleChoice.is_choice());
    assert!(!RecType::Vx.is_choice());
    assert!(!RecType::HandWriting.is_choice());
    assert!(!RecType::Location.is_choice());
}

#[test]
fn target_width_follows_the_sheet_size() {
    assert_eq!(paper(Coordinate { x: 0, y: 0, w: 100, h: 200 }).target_width(), 2400);
    assert_eq!(paper(Coordinate { x: 0, y: 0, w: 200, h: 100 }).target_width(), 4000);
    assert_eq!(paper(Coordinate { x: 0, y: 0, w: 100, h: 100 }).target_width(), 4000);
}
