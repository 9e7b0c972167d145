use keeper_raw::{stack_scenes, ImageId, ImageRecord, StackingConfig};

fn make_image(id: ImageId, timestamp_ms: Option<i64>) -> ImageRecord {
    ImageRecord {
        id,
        file_path: format!("test_{}.cr3", id),
        file_name: format!("test_{}.cr3", id),
        timestamp: timestamp_ms,
        camera_make: None,
        camera_model: None,
        iso: None,
        preview_width: 0,
        preview_height: 0,
        preview_data: vec![],
    }
}

fn with_preview(mut image: ImageRecord, preview: Vec<u8>) -> ImageRecord {
    image.preview_data = preview;
    image
}

/// A 64 x 64 JPEG whose brightness follows `pixel`.
fn jpeg(pixel: fn(u32, u32) -> u8) -> Vec<u8> {
    let img = image::GrayImage::from_fn(64, 64, |x, y| image::Luma([pixel(x, y)]));
    let mut out = std::io::Cursor::new(Vec::new());
    image::DynamicImage::ImageLuma8(img)
        .write_to(&mut out, image::ImageFormat::Jpeg)
        .unwrap();
    out.into_inner()
}

fn left_to_right(x: u32, _y: u32) -> u8 {
    (x * 4) as u8
}

fn right_to_left(x: u32, _y: u32) -> u8 {
    255 - (x * 4) as u8
}

fn top_to_bottom(_x: u32, y: u32) -> u8 {
    (y * 4) as u8
}

#[test]
fn test_empty_input() {
    let config = StackingConfig::default();
    let scenes = stack_scenes(&[], &config);
    assert!(scenes.is_empty());
}

#[test]
fn test_single_image() {
    let config = StackingConfig::default();
    let images = vec![make_image(1, Some(1000))];
    let scenes = stack_scenes(&images, &config);
    assert_eq!(scenes.len(), 1);
    assert_eq!(scenes[0].image_ids, vec![1]);
}

#[test]
fn test_tight_burst_grouped_together() {
    let config = StackingConfig::default();

    let images = vec![
        make_image(1, Some(1000)),
        make_image(2, Some(1200)),
        make_image(3, Some(1400)),
        make_image(4, Some(1600)),
        make_image(5, Some(1800)),
    ];

    let scenes = stack_scenes(&images, &config);
    assert_eq!(scenes.len(), 1, "All 5 images should be in one scene");
    assert_eq!(scenes[0].image_ids.len(), 5);
}

#[test]
fn test_two_separate_bursts() {
    let config = StackingConfig::default();

    let images = vec![
        make_image(1, Some(0)),
        make_image(2, Some(200)),
        make_image(3, Some(400)),
        make_image(4, Some(5000)),
        make_image(5, Some(5200)),
        make_image(6, Some(5400)),
    ];

    let scenes = stack_scenes(&images, &config);
    assert_eq!(scenes.len(), 2, "Should produce 2 separate scenes");
    assert_eq!(scenes[0].image_ids, vec![1, 2, 3]);
    assert_eq!(scenes[1].image_ids, vec![4, 5, 6]);
}

#[test]
fn test_images_without_timestamps_become_singletons() {
    let config = StackingConfig::default();

    let images = vec![
        make_image(1, Some(1000)),
        make_image(2, Some(1200)),
        make_image(3, None),
        make_image(4, None),
    ];

    let scenes = stack_scenes(&images, &config);
    assert_eq!(scenes.len(), 3);
}

#[test]
fn test_custom_threshold() {
    let config = StackingConfig {
        burst_threshold_ms: 500,
        ..StackingConfig::default()
    };

    let images = vec![
        make_image(1, Some(0)),
        make_image(2, Some(300)),
        make_image(3, Some(900)),
        make_image(4, Some(1100)),
    ];

    let scenes = stack_scenes(&images, &config);
    assert_eq!(scenes.len(), 2);
    assert_eq!(scenes[0].image_ids, vec![1, 2]);
    assert_eq!(scenes[1].image_ids, vec![3, 4]);
}

#[test]
fn test_unsorted_input_gets_sorted() {
    let images = vec![
        make_image(3, Some(400)),
        make_image(1, Some(0)),
        make_image(5, Some(5200)),
        make_image(2, Some(200)),
        make_image(4, Some(5000)),
    ];

    let config = StackingConfig::default();
    let scenes = stack_scenes(&images, &config);
    assert_eq!(scenes.len(), 2);
    assert_eq!(scenes[0].image_ids, vec![1, 2, 3]);
    assert_eq!(scenes[1].image_ids, vec![4, 5]);
}

#[test]
fn test_all_singletons_when_large_gaps() {
    let config = StackingConfig::default();

    let images = vec![
        make_image(1, Some(0)),
        make_image(2, Some(10_000)),
        make_image(3, Some(20_000)),
        make_image(4, Some(30_000)),
    ];

    let scenes = stack_scenes(&images, &config);
    assert_eq!(scenes.len(), 4, "Each image should be its own scene");
    for scene in &scenes {
        assert_eq!(scene.image_ids.len(), 1);
    }
}

#[test]
fn test_keeper_id_is_none_after_stacking() {
    let config = StackingConfig::default();
    let images = vec![make_image(1, Some(0)), make_image(2, Some(200))];

    let scenes = stack_scenes(&images, &config);
    for scene in &scenes {
        assert!(scene.keeper_id.is_none());
    }
}

#[test]
fn test_long_continuous_burst() {
    let config = StackingConfig::default();

    let images: Vec<ImageRecord> = (0..20)
        .map(|i| make_image(i + 1, Some(i as i64 * 100)))
        .collect();

    let scenes = stack_scenes(&images, &config);
    assert_eq!(scenes.len(), 1, "All 20 should be one continuous burst");
    assert_eq!(scenes[0].image_ids.len(), 20);
}

#[test]
fn scenes_are_numbered_from_one_in_order() {
    let config = StackingConfig::default();
    let images = vec![
        make_image(7, None),
        make_image(8, Some(0)),
        make_image(9, Some(60_000)),
    ];
    let scenes = stack_scenes(&images, &config);
    let ids: Vec<u64> = scenes.iter().map(|s| s.id).collect();
    assert_eq!(ids, vec![1, 2, 3]);
    assert_eq!(scenes[0].image_ids, vec![8]);
    assert_eq!(scenes[1].image_ids, vec![9]);
    assert_eq!(scenes[2].image_ids, vec![7]);
}

#[test]
fn every_image_lands_in_exactly_one_scene() {
    let config = StackingConfig::default();
    let images = vec![
        make_image(4, Some(9000)),
        make_image(1, None),
        make_image(2, Some(0)),
        make_image(3, Some(2500)),
        make_image(5, Some(9100)),
        make_image(6, None),
    ];
    let scenes = stack_scenes(&images, &config);
    let mut all: Vec<u64> = scenes.iter().flat_map(|s| s.image_ids.clone()).collect();
    all.sort();
    assert_eq!(all, vec![1, 2, 3, 4, 5, 6]);
    assert!(scenes.iter().all(|s| !s.image_ids.is_empty()));
    assert!(scenes.len() <= images.len());
}

#[test]
fn gap_equal_to_threshold_stays_in_burst() {
    let config = StackingConfig::default();
    let images = vec![
        make_image(1, Some(0)),
        make_image(2, Some(3000)),
        make_image(3, Some(6001)),
    ];
    let scenes = stack_scenes(&images, &config);
    assert_eq!(scenes.len(), 2);
    assert_eq!(scenes[0].image_ids, vec![1, 2]);
    assert_eq!(scenes[1].image_ids, vec![3]);
}

#[test]
fn equal_times_keep_input_order() {
    let config = StackingConfig::default();
    let images = vec![
        make_image(5, Some(100)),
        make_image(2, Some(100)),
        make_image(9, Some(0)),
    ];
    let scenes = stack_scenes(&images, &config);
    assert_eq!(scenes.len(), 1);
    assert_eq!(scenes[0].image_ids, vec![9, 5, 2]);
}

#[test]
fn burst_splits_where_the_picture_changes() {
    let config = StackingConfig::default();
    let a = jpeg(left_to_right);
    let b = jpeg(right_to_left);
    let images = vec![
        with_preview(make_image(1, Some(0)), a.clone()),
        with_preview(make_image(2, Some(200)), a.clone()),
        with_preview(make_image(3, Some(400)), b),
    ];
    let scenes = stack_scenes(&images, &config);
    assert_eq!(scenes.len(), 2);
    assert_eq!(scenes[0].image_ids, vec![1, 2]);
    assert_eq!(scenes[1].image_ids, vec![3]);
}

#[test]
fn burst_anchor_is_its_first_image_with_a_hash() {
    let config = StackingConfig::default();
    let images = vec![
        make_image(1, Some(0)),
        with_preview(make_image(2, Some(200)), jpeg(left_to_right)),
        with_preview(make_image(3, Some(400)), jpeg(right_to_left)),
    ];
    let scenes = stack_scenes(&images, &config);
    assert_eq!(scenes.len(), 2);
    assert_eq!(scenes[0].image_ids, vec![1, 2]);
    assert_eq!(scenes[1].image_ids, vec![3]);
}

#[test]
fn undecodable_previews_do_not_split() {
    let config = StackingConfig::default();
    let images = vec![
        with_preview(make_image(1, Some(0)), vec![1, 2, 3]),
        with_preview(make_image(2, Some(100)), vec![4, 5, 6]),
    ];
    let scenes = stack_scenes(&images, &config);
    assert_eq!(scenes.len(), 1);
    assert_eq!(scenes[0].image_ids, vec![1, 2]);
}

fn hash(bytes: &[u8]) -> Option<keeper_raw::PerceptualHash> {
    Some(keeper_raw::PerceptualHash { bytes: bytes.to_vec() })
}

#[test]
fn split_by_hashes_compares_with_the_scene_start() {
    let ids = vec![1, 2, 3, 4, 5];
    let hashes = vec![
        hash(&[0x00, 0x00]),
        hash(&[0xff, 0x00]),
        hash(&[0xff, 0xff]),
        None,
        hash(&[0x00, 0xff]),
    ];
    let groups = keeper_raw::split_by_hashes(&ids, &hashes, 8);
    assert_eq!(groups, vec![vec![1, 2], vec![3, 4, 5]]);
}

#[test]
fn split_by_hashes_threshold_is_inclusive() {
    let ids = vec![1, 2];
    let hashes = vec![hash(&[0x00]), hash(&[0x0f])];
    assert_eq!(keeper_raw::split_by_hashes(&ids, &hashes, 4), vec![vec![1, 2]]);
    assert_eq!(keeper_raw::split_by_hashes(&ids, &hashes, 3), vec![vec![1], vec![2]]);
}

#[test]
fn split_by_hashes_anchor_is_first_hashed_image() {
    let ids = vec![1, 2, 3];
    let hashes = vec![None, hash(&[0x00]), hash(&[0xff])];
    assert_eq!(keeper_raw::split_by_hashes(&ids, &hashes, 0), vec![vec![1, 2], vec![3]]);
    let none = vec![None, None, None];
    assert_eq!(keeper_raw::split_by_hashes(&ids, &none, 0), vec![vec![1, 2, 3]]);
}

#[test]
fn test_stacking_splits_mixed_burst_by_phash() {
    let burst_a = jpeg(left_to_right);
    let burst_b = jpeg(right_to_left);
    let images = vec![
        with_preview(make_image(1, Some(1000)), burst_a.clone()),
        with_preview(make_image(2, Some(1200)), burst_a),
        with_preview(make_image(3, Some(1400)), burst_b),
    ];
    let config = StackingConfig::default();

    let scenes = stack_scenes(&images, &config);

    for scene in &scenes {
        println!("  Scene {}: {:?}", scene.id, scene.image_ids);
    }
    assert_eq!(scenes.len(), 2);
    assert_eq!(scenes[0].image_ids, vec![1, 2]);
    assert_eq!(scenes[1].image_ids, vec![3]);
}
