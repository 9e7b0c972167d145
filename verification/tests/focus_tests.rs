use keeper_raw::pick_keeper;

/// An integer that orders as the (non-NaN) score does; -0.0 and 0.0 rank
/// the same.
fn sharpness_rank(score: f64) -> u64 {
    let score = if score == 0.0 { 0.0 } else { score };
    let bits = score.to_bits();
    if bits >> 63 == 1 {
        !bits
    } else {
        bits | (1 << 63)
    }
}

#[test]
fn test_pick_keeper_selects_sharpest() {
    let scores = vec![
        (1, sharpness_rank(10.5)),
        (2, sharpness_rank(25.3)),
        (3, sharpness_rank(15.0)),
    ];

    let keeper = pick_keeper(&scores);
    assert_eq!(keeper, Some(2), "Image 2 has the highest score");
}

#[test]
fn test_pick_keeper_empty_input() {
    let scores: Vec<(u64, u64)> = vec![];
    let keeper = pick_keeper(&scores);
    assert_eq!(keeper, None);
}

#[test]
fn test_blink_requires_both_eyes() {
    let threshold = 0.21;

    let right_ear = 0.15;
    let left_ear = 0.30;
    let blink = right_ear < threshold && left_ear < threshold;
    assert!(
        !blink,
        "Wink (one eye closed) should not be flagged as blink"
    );

    let right_ear = 0.15;
    let left_ear = 0.12;
    let blink = right_ear < threshold && left_ear < threshold;
    assert!(blink, "Both eyes closed should be flagged as blink");
}

#[test]
fn pick_keeper_prefers_the_last_of_equally_sharp() {
    let scores = vec![(4, 7), (5, 9), (6, 9), (7, 3)];
    assert_eq!(pick_keeper(&scores), Some(6));
}

#[test]
fn pick_keeper_single_candidate() {
    assert_eq!(pick_keeper(&[(42, 0)]), Some(42));
}

#[test]
fn sharpness_rank_orders_like_scores() {
    let values = [-3.5, -0.0, 0.0, 1e-9, 2.0, 1e300];
    for pair in values.windows(2) {
        assert!(sharpness_rank(pair[0]) <= sharpness_rank(pair[1]));
    }
    assert_eq!(sharpness_rank(-0.0), sharpness_rank(0.0));
    assert!(sharpness_rank(-1e-300) < sharpness_rank(0.0));
}

#[test]
fn center_region_is_the_middle_half() {
    assert_eq!(keeper_raw::center_region(200, 100), Some((50, 25, 100, 50)));
    assert_eq!(keeper_raw::center_region(33, 32), Some((8, 8, 16, 16)));
}

#[test]
fn small_images_have_no_center_region() {
    assert_eq!(keeper_raw::center_region(31, 200), None);
    assert_eq!(keeper_raw::center_region(200, 31), None);
    assert_eq!(keeper_raw::center_region(0, 0), None);
}

#[test]
fn eye_region_grows_small_bands_and_stays_inside() {
    assert_eq!(keeper_raw::eye_region(10, 20, 8, 4, 200, 200), Some((10, 20, 16, 16)));
    assert_eq!(keeper_raw::eye_region(150, 20, 80, 30, 200, 200), Some((150, 20, 50, 30)));
}

#[test]
fn eye_region_too_close_to_the_edge_is_refused() {
    assert_eq!(keeper_raw::eye_region(190, 20, 80, 30, 200, 200), None);
    assert_eq!(keeper_raw::eye_region(300, 20, 80, 30, 200, 200), None);
}
