use phone_scan_wasm::models::Coordinate;
use phone_scan_wasm::recognize::align::{
    extra_indices_direct, extract_y_centers, filter_by_extra_indices, find_extra_indices,
    find_missing_indices, generate_combinations, missing_indices_direct,
};

fn c(x: i32, y: i32, w: i32, h: i32) -> Coordinate {
    Coordinate { x, y, w, h }
}

#[test]
fn y_centers_round_toward_zero() {
    let cs = [c(0, 10, 3, 5), c(0, 10, 3, -5), c(0, -4, 0, 2), c(0, 0, 0, -1)];
    assert_eq!(extract_y_centers(&cs), vec![12, 8, -3, 0]);
    assert_eq!(extract_y_centers(&[]), Vec::<i32>::new());
}

#[test]
fn missing_indices_of_short_column() {
    let complete = [100, 200, 300, 400, 500];
    assert_eq!(find_missing_indices(&complete, &[105, 310, 495]), vec![1, 3]);
    assert_eq!(find_missing_indices(&complete, &[200, 300, 400, 500]), vec![0]);
    assert_eq!(find_missing_indices(&complete, &[]), vec![0, 1, 2, 3, 4]);
}

#[test]
fn missing_indices_prefer_first_of_equals() {
    // 150 is as near to 100 as to 200: the first free one is taken
    assert_eq!(find_missing_indices(&[100, 200, 300], &[150]), vec![1, 2]);
    // an earlier probe has taken 100, so the second goes to 200
    assert_eq!(find_missing_indices(&[100, 200, 300], &[100, 100]), vec![2]);
}

#[test]
fn missing_indices_need_a_shorter_column() {
    assert!(find_missing_indices(&[1, 2], &[1, 2]).is_empty());
    assert!(find_missing_indices(&[1, 2], &[1, 2, 3]).is_empty());
    assert!(find_missing_indices(&[], &[]).is_empty());
}

#[test]
fn missing_count_is_the_length_difference() {
    let complete = [10, 40, 70, 100, 130, 160, 190];
    for probes in [vec![12, 100], vec![190, 10, 71], vec![], vec![160, 161, 162, 163, 164, 165]] {
        let r = find_missing_indices(&complete, &probes);
        assert_eq!(r.len(), complete.len() - probes.len());
        assert!(r.windows(2).all(|w| w[0] < w[1]));
        assert!(r.iter().all(|&i| i < complete.len()));
    }
}

#[test]
fn extra_indices_of_long_column() {
    let complete = [100, 200, 300];
    assert_eq!(find_extra_indices(&complete, &[98, 150, 202, 299, 350]), vec![1, 4]);
    assert_eq!(find_extra_indices(&complete, &[0, 100, 200, 300]), vec![0]);
    assert!(find_extra_indices(&complete, &[100, 200, 300]).is_empty());
    assert!(find_extra_indices(&complete, &[100]).is_empty());
    assert_eq!(find_extra_indices(&[], &[5, 6]), vec![0, 1]);
}

#[test]
fn filter_drops_listed_positions() {
    let cs = [c(0, 0, 1, 1), c(1, 1, 1, 1), c(2, 2, 1, 1), c(3, 3, 1, 1)];
    assert_eq!(filter_by_extra_indices(&cs, &[1, 3]), vec![c(0, 0, 1, 1), c(2, 2, 1, 1)]);
    assert_eq!(filter_by_extra_indices(&cs, &[]), cs.to_vec());
    assert_eq!(filter_by_extra_indices(&cs, &[9, 0, 0]), cs[1..].to_vec());
}

#[test]
fn filtering_extra_detections_leaves_the_expected_count() {
    let detected = [c(0, 10, 4, 4), c(0, 55, 4, 4), c(0, 58, 4, 4), c(0, 110, 4, 4), c(0, 200, 4, 4)];
    let complete_y = [12, 60, 112];
    let detected_y = extract_y_centers(&detected);
    let extra = find_extra_indices(&complete_y, &detected_y);
    let kept = filter_by_extra_indices(&detected, &extra);
    assert_eq!(kept.len(), complete_y.len());
    assert_eq!(kept, vec![c(0, 10, 4, 4), c(0, 58, 4, 4), c(0, 110, 4, 4)]);
}

#[test]
fn combinations_in_dictionary_order() {
    assert_eq!(
        generate_combinations(4, 2),
        vec![vec![0, 1], vec![0, 2], vec![0, 3], vec![1, 2], vec![1, 3], vec![2, 3]]
    );
    assert_eq!(generate_combinations(3, 1), vec![vec![0], vec![1], vec![2]]);
    assert_eq!(generate_combinations(3, 3), vec![vec![0, 1, 2]]);
    assert_eq!(generate_combinations(2, 0), vec![Vec::<usize>::new()]);
    assert!(generate_combinations(2, 3).is_empty());
    assert_eq!(generate_combinations(5, 2).len(), 10);
}

#[test]
fn direct_choices_leave_one_or_two_to_the_cosine() {
    let complete = [100, 200, 300, 400, 500];
    assert_eq!(missing_indices_direct(&complete, &[100, 200, 300, 400]), None);
    assert_eq!(missing_indices_direct(&complete, &[100, 300, 500]), None);
    assert_eq!(missing_indices_direct(&complete, &[210, 390]), Some(vec![0, 2, 4]));
    assert_eq!(missing_indices_direct(&complete, &complete), Some(vec![]));
    assert_eq!(extra_indices_direct(&[300], &complete), Some(vec![0, 1, 3, 4]));
    assert_eq!(extra_indices_direct(&[100, 200, 300], &complete), None);
    assert_eq!(extra_indices_direct(&complete, &[100]), Some(vec![]));
}
