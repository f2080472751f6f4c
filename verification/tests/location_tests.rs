use phone_scan_wasm::myutils::image::GrayImage;
use phone_scan_wasm::recognize::location::{spans_fit, LocationModule};

#[test]
fn spread_quads_skip_close_corners() {
    let points = [(0, 0), (1000, 0), (1000, 1000), (0, 1000), (10, 10)];
    let quads = LocationModule::spread_quads(&points);
    assert_eq!(quads, vec![vec![0, 1, 2, 3], vec![1, 2, 3, 4]]);
}

#[test]
fn spread_quads_distance_is_inclusive() {
    let points = [(0, 0), (800, 0), (800, 800), (0, 800)];
    assert_eq!(LocationModule::spread_quads(&points), vec![vec![0, 1, 2, 3]]);
    let points = [(0, 0), (799, 0), (799, 799), (0, 799)];
    assert!(LocationModule::spread_quads(&points).is_empty());
    // 480^2 + 640^2 = 800^2
    let points = [(0, 0), (480, 640), (5000, 0), (0, 5000)];
    assert_eq!(LocationModule::spread_quads(&points), vec![vec![0, 1, 2, 3]]);
    assert!(LocationModule::spread_quads(&points[..3]).is_empty());
}

#[test]
fn spread_quads_of_six_points_in_order() {
    let points = [(0, 0), (2000, 0), (2000, 2000), (0, 2000), (4000, 0), (4000, 4000)];
    let quads = LocationModule::spread_quads(&points);
    assert_eq!(quads.len(), 15);
    assert_eq!(quads[0], vec![0, 1, 2, 3]);
    assert_eq!(quads[14], vec![2, 3, 4, 5]);
}

#[test]
fn rotation_starts_at_the_top_left() {
    let mut pts = [(10, 0), (0, 0), (0, 10), (10, 10)];
    LocationModule::rotate_to_top_left(&mut pts);
    assert_eq!(pts, [(0, 0), (0, 10), (10, 10), (10, 0)]);
    let mut pts = [(10, 10), (20, 0), (9, 0), (0, 20)];
    // sums 20, 20, 9, 20: the third point leads
    LocationModule::rotate_to_top_left(&mut pts);
    assert_eq!(pts, [(9, 0), (0, 20), (10, 10), (20, 0)]);
}

#[test]
fn rotation_takes_the_first_of_equal_sums() {
    let mut pts = [(20, 20), (5, 5), (0, 10), (10, 0)];
    LocationModule::rotate_to_top_left(&mut pts);
    assert_eq!(pts, [(5, 5), (0, 10), (10, 0), (20, 20)]);
    let mut pts = [(5, 5), (0, 10), (10, 0), (20, 20)];
    LocationModule::rotate_to_top_left(&mut pts);
    assert_eq!(pts, [(5, 5), (0, 10), (10, 0), (20, 20)]);
}

#[test]
fn spans_fit_checks_every_difference() {
    assert!(spans_fit(&[]));
    assert!(spans_fit(&[(i32::MIN, i32::MAX)]));
    assert!(spans_fit(&[(-5, 0), (i32::MAX - 5, 0)]));
    assert!(!spans_fit(&[(i32::MIN, 0), (0, 0)]));
    assert!(!spans_fit(&[(0, -1), (0, i32::MAX)]));
}

#[test]
fn crop_clamps_to_the_image() {
    let img = GrayImage::from_raw(4, 3, (0u8..12).collect()).unwrap();
    let part = img.crop(1, 1, 2, 5);
    assert_eq!((part.width(), part.height()), (2, 2));
    assert_eq!(part.as_raw(), &vec![5u8, 6, 9, 10]);
    let part = img.crop(10, 0, 2, 2);
    assert_eq!((part.width(), part.height()), (0, 2));
    let part = img.crop(0, 0, 4, 3);
    assert_eq!(part.as_raw(), img.as_raw());
}

fn cross(o: (i32, i32), a: (i32, i32), b: (i32, i32)) -> i64 {
    (a.0 - o.0) as i64 * (b.1 - o.1) as i64 - (a.1 - o.1) as i64 * (b.0 - o.0) as i64
}

#[test]
fn hull_encloses_every_point() {
    let pts = [(3, 1), (0, 0), (5, 5), (2, 7), (-3, 4), (1, 2), (4, 3), (0, 6), (-1, 1), (2, 2), (5, 0)];
    let hull = phone_scan_wasm::recognize::location::convex_hull(&pts);
    assert_eq!(hull, vec![(-3, 4), (-1, 1), (0, 0), (5, 0), (5, 5), (2, 7), (0, 6)]);
    for i in 0..hull.len() {
        let (a, b) = (hull[i], hull[(i + 1) % hull.len()]);
        for &p in &pts {
            assert!(cross(a, b, p) >= 0, "{:?} lies right of {:?} -> {:?}", p, a, b);
        }
    }
}

#[test]
fn hull_of_repeated_and_collinear_points() {
    let pts = [(1, 1), (1, 1), (1, 1)];
    let hull = phone_scan_wasm::recognize::location::convex_hull(&pts);
    assert_eq!(hull, vec![(1, 1), (1, 1)]);
    let pts = [(0, 0), (2, 2), (1, 1), (3, 3)];
    let hull = phone_scan_wasm::recognize::location::convex_hull(&pts);
    assert_eq!(hull, vec![(0, 0), (3, 3)]);
}

#[test]
fn frame_margin_is_the_least_gap_to_the_border() {
    // gaps: left 10, top 20, right 100 - 10 - 50 = 40, bottom 80 - 20 - 30 = 30
    assert_eq!(LocationModule::frame_margin((10, 20, 50, 30), 100, 80), 10);
    assert_eq!(LocationModule::frame_margin((30, 25, 50, 30), 100, 80), 20);
    assert_eq!(LocationModule::frame_margin((30, 40, 50, 30), 100, 80), 10);
    // poking out of the image gives 0
    assert_eq!(LocationModule::frame_margin((-5, 20, 50, 30), 100, 80), 0);
    assert_eq!(LocationModule::frame_margin((60, 20, 50, 30), 100, 80), 0);
}

#[test]
fn hull_turns_strictly_left_everywhere() {
    let pts = [(0, 0), (4, 0), (4, 4), (0, 4), (2, 0), (4, 2), (2, 2), (0, 2)];
    let hull = phone_scan_wasm::recognize::location::convex_hull(&pts);
    assert_eq!(hull, vec![(0, 0), (4, 0), (4, 4), (0, 4)]);
    let n = hull.len();
    for i in 0..n {
        assert!(cross(hull[i], hull[(i + 1) % n], hull[(i + 2) % n]) > 0);
    }
}

#[test]
fn hull_visits_each_vertex_once() {
    let pts = [(3, 1), (0, 0), (3, 1), (6, 0), (3, 5), (0, 0), (3, 2), (6, 0), (3, 5)];
    let hull = phone_scan_wasm::recognize::location::convex_hull(&pts);
    assert_eq!(hull, vec![(0, 0), (6, 0), (3, 5)]);
    for i in 0..hull.len() {
        for j in (i + 1)..hull.len() {
            assert_ne!(hull[i], hull[j]);
        }
    }
}

#[test]
fn hull_of_collinear_points_is_its_two_ends() {
    assert_eq!(phone_scan_wasm::recognize::location::convex_hull(&[(2, 2), (0, 0), (1, 1), (3, 3)]), vec![(0, 0), (3, 3)]);
    assert_eq!(phone_scan_wasm::recognize::location::convex_hull(&[(0, 3), (0, 1), (0, 2)]), vec![(0, 1), (0, 3)]);
    assert_eq!(phone_scan_wasm::recognize::location::convex_hull(&[(1, 1), (1, 1), (1, 1)]), vec![(1, 1), (1, 1)]);
}
