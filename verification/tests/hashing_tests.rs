use keeper_raw::{compute_phash, hamming_distance, try_compute_phash, KeeperError, PerceptualHash, PhashError};

fn gradient_jpeg(vertical: bool) -> Vec<u8> {
    let img = image::GrayImage::from_fn(32, 32, |x, y| {
        image::Luma([if vertical { (y * 8) as u8 } else { (x * 8) as u8 }])
    });
    let mut out = std::io::Cursor::new(Vec::new());
    image::DynamicImage::ImageLuma8(img)
        .write_to(&mut out, image::ImageFormat::Jpeg)
        .unwrap();
    out.into_inner()
}

#[test]
fn undecodable_bytes_have_no_hash() {
    assert_eq!(compute_phash(&[0, 1, 2]).unwrap_err(), PhashError::UndecodablePreview);
    assert!(try_compute_phash(&[], "empty.jpg").is_none());
}

#[test]
fn same_picture_has_distance_zero() {
    let a = compute_phash(&gradient_jpeg(false)).unwrap();
    let b = compute_phash(&gradient_jpeg(false)).unwrap();
    assert_eq!(hamming_distance(&a, &b), 0);
}

#[test]
fn different_pictures_are_far_apart() {
    let a = compute_phash(&gradient_jpeg(false)).unwrap();
    let b = try_compute_phash(&gradient_jpeg(true), "b.jpg").unwrap();
    assert!(hamming_distance(&a, &b) > 14);
    assert_eq!(hamming_distance(&a, &b), hamming_distance(&b, &a));
}

#[test]
fn hamming_counts_differing_bits() {
    let a = PerceptualHash { bytes: vec![0b1010_1010, 0xff, 0x00] };
    let b = PerceptualHash { bytes: vec![0b0101_0101, 0xff] };
    assert_eq!(hamming_distance(&a, &b), 8);
}

#[test]
fn error_messages_name_the_file() {
    let e = KeeperError::NoPreviewError { path: "/s/a.NEF".to_string() };
    assert_eq!(e.message(), "No preview found in RAW file: /s/a.NEF");
    let e = KeeperError::InferenceError { details: "model missing".to_string() };
    assert_eq!(e.message(), "AI model failed: model missing");
    let e = KeeperError::XmpWriteError {
        path: "/s/a.xmp".to_string(),
        source: std::io::Error::new(std::io::ErrorKind::Other, "disk full"),
    };
    assert_eq!(e.message(), "Could not write XMP file: /s/a.xmp");
}
