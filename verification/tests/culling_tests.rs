use keeper_raw::{
    assign_verdicts, cull_manifest, select_keepers, ImageRecord, ImageScore, RejectReason, Scene,
    StackingConfig, Verdict,
};

fn score(image_id: u64, sharpness_rank: u64, blink_detected: bool) -> ImageScore {
    ImageScore {
        image_id,
        sharpness_rank,
        has_face: blink_detected,
        blink_detected,
        verdict: Verdict::Unrated,
    }
}

fn image(id: u64, timestamp: Option<i64>) -> ImageRecord {
    ImageRecord {
        id,
        file_path: format!("/shoot/IMG_{}.CR3", id),
        file_name: format!("IMG_{}.CR3", id),
        timestamp,
        camera_make: None,
        camera_model: None,
        iso: None,
        preview_width: 0,
        preview_height: 0,
        preview_data: vec![],
    }
}

fn scene(id: u64, image_ids: Vec<u64>) -> Scene {
    Scene { id, image_ids, keeper_id: None }
}

#[test]
fn keeper_is_sharpest_open_eyed_image() {
    let mut scenes = vec![scene(1, vec![1, 2, 3])];
    let scores = vec![score(1, 50, false), score(2, 90, true), score(3, 70, false)];
    select_keepers(&mut scenes, &scores);
    assert_eq!(scenes[0].keeper_id, Some(3));
    assert_eq!(scenes[0].image_ids, vec![1, 2, 3]);
    assert_eq!(scenes[0].id, 1);
}

#[test]
fn all_blinked_scene_keeps_its_sharpest() {
    let mut scenes = vec![scene(1, vec![1, 2])];
    let scores = vec![score(1, 10, true), score(2, 20, true)];
    select_keepers(&mut scenes, &scores);
    assert_eq!(scenes[0].keeper_id, Some(2));
}

#[test]
fn scene_without_analysed_images_has_no_keeper() {
    let mut scenes = vec![scene(1, vec![8, 9])];
    let scores = vec![score(1, 10, false)];
    select_keepers(&mut scenes, &scores);
    assert_eq!(scenes[0].keeper_id, None);
}

#[test]
fn later_result_for_an_image_wins() {
    let mut scenes = vec![scene(1, vec![1, 2])];
    let scores = vec![score(1, 99, false), score(2, 50, false), score(1, 10, false)];
    select_keepers(&mut scenes, &scores);
    assert_eq!(scenes[0].keeper_id, Some(2));
}

#[test]
fn verdicts_follow_keepers_and_blinks() {
    let scenes = vec![Scene { id: 1, image_ids: vec![1, 2, 3], keeper_id: Some(3) }];
    let mut scores = vec![score(1, 50, false), score(2, 90, true), score(3, 70, false)];
    assign_verdicts(&mut scores, &scenes);
    assert_eq!(scores[0].verdict, Verdict::Unrated);
    assert_eq!(scores[1].verdict, Verdict::Reject { reason: RejectReason::Blink });
    assert_eq!(scores[2].verdict, Verdict::Keeper);
}

#[test]
fn blinked_keeper_is_still_a_keeper() {
    let scenes = vec![Scene { id: 1, image_ids: vec![1], keeper_id: Some(1) }];
    let mut scores = vec![score(1, 5, true)];
    assign_verdicts(&mut scores, &scenes);
    assert_eq!(scores[0].verdict, Verdict::Keeper);
}

#[test]
fn empty_cull_gives_empty_manifest() {
    let m = cull_manifest(&[], &StackingConfig::default(), vec![score(1, 1, false)]);
    assert_eq!(m.total_images, 0);
    assert_eq!(m.total_scenes, 0);
    assert_eq!(m.total_keepers + m.total_rejects + m.total_unrated, 0);
    assert!(m.scenes.is_empty());
    assert!(m.image_scores.is_empty());
}

#[test]
fn cull_manifest_counts_add_up() {
    let images = vec![
        image(1, Some(0)),
        image(2, Some(500)),
        image(3, Some(1000)),
        image(4, Some(60_000)),
        image(5, None),
    ];
    let scores = vec![
        score(1, 30, false),
        score(2, 80, true),
        score(3, 60, false),
        score(4, 10, true),
        score(5, 20, false),
    ];
    let m = cull_manifest(&images, &StackingConfig::default(), scores);
    assert_eq!(m.total_images, 5);
    assert_eq!(m.total_scenes, 3);
    assert_eq!(m.scenes[0].image_ids, vec![1, 2, 3]);
    assert_eq!(m.scenes[0].keeper_id, Some(3));
    assert_eq!(m.scenes[1].keeper_id, Some(4));
    assert_eq!(m.scenes[2].keeper_id, Some(5));
    assert_eq!(m.total_keepers, 3);
    assert_eq!(m.total_rejects, 1);
    assert_eq!(m.total_unrated, 1);
    assert_eq!(m.total_keepers + m.total_rejects + m.total_unrated, m.image_scores.len());
    assert_eq!(m.image_scores[1].verdict, Verdict::Reject { reason: RejectReason::Blink });
    assert_eq!(m.image_scores[3].verdict, Verdict::Keeper);
}
