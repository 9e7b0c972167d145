use keeper_raw::{
    exif_tags_from_json, exif_tags_of, stack_scenes, JsonValue, StackingConfig,
    assemble_record, datetime_underflows, days_from_date, extract_preview, parse_exif_datetime,
    ExifTags, ExtractError, PreviewSource,
};

fn tags(date: Option<&str>, iso: Option<u64>) -> ExifTags {
    ExifTags {
        date_time_original: date.map(|d| d.to_string()),
        make: Some("Canon".to_string()),
        model: Some("EOS R5".to_string()),
        iso,
    }
}

fn tiny_jpeg(width: u32, height: u32) -> Vec<u8> {
    let img = image::GrayImage::from_fn(width, height, |x, y| image::Luma([((x + y) % 256) as u8]));
    let mut out = std::io::Cursor::new(Vec::new());
    image::DynamicImage::ImageLuma8(img)
        .write_to(&mut out, image::ImageFormat::Jpeg)
        .unwrap();
    out.into_inner()
}

#[test]
fn epoch_is_day_zero() {
    assert_eq!(days_from_date(1970, 1, 1), Some(0));
}

#[test]
fn day_numbers_of_known_dates() {
    assert_eq!(days_from_date(2000, 3, 1), Some(11017));
    assert_eq!(days_from_date(2024, 6, 15), Some(19889));
    assert_eq!(days_from_date(1969, 12, 31), Some(-1));
}

#[test]
fn negative_years_divide_toward_zero() {
    assert_eq!(days_from_date(-5, 3, 1), Some(-721294));
}

#[test]
fn out_of_range_month_or_day_is_rejected() {
    assert_eq!(days_from_date(2024, 0, 1), None);
    assert_eq!(days_from_date(2024, 13, 1), None);
    assert_eq!(days_from_date(2024, 6, 0), None);
    assert_eq!(days_from_date(2024, 6, 32), None);
}

#[test]
fn day_is_not_checked_against_month_length() {
    assert_eq!(days_from_date(2023, 2, 31), Some(19419));
}

#[test]
fn exif_datetime_to_epoch_seconds() {
    assert_eq!(parse_exif_datetime("2024:06:15 14:30:00"), Some(1718461800));
    assert_eq!(parse_exif_datetime("1970:01:01 00:00:00"), Some(0));
}

#[test]
fn exif_datetime_fields_may_carry_a_plus_sign() {
    assert_eq!(parse_exif_datetime("+2024:+06:15 14:30:+00"), Some(1718461800));
}

#[test]
fn exif_datetime_extra_fields_are_ignored() {
    assert_eq!(parse_exif_datetime("2024:06:15 14:30:00 extra"), Some(1718461800));
}

#[test]
fn exif_datetime_hour_is_not_range_checked() {
    assert_eq!(parse_exif_datetime("2024:06:15 25:00:00"), Some(1718409600 + 90000));
}

#[test]
fn malformed_exif_datetimes_give_none() {
    assert_eq!(parse_exif_datetime(""), None);
    assert_eq!(parse_exif_datetime("2024:06:15"), None);
    assert_eq!(parse_exif_datetime("2024:06:15  14:30:00"), None);
    assert_eq!(parse_exif_datetime("2024:06:15 14:30:00.5"), None);
    assert_eq!(parse_exif_datetime("2024:13:15 14:30:00"), None);
    assert_eq!(parse_exif_datetime("2024:-6:15 14:30:00"), None);
    assert_eq!(parse_exif_datetime("2024:06:15 14:30:4294967296"), None);
    assert_eq!(parse_exif_datetime("2147483648:01:01 00:00:00"), None);
    assert_eq!(parse_exif_datetime("x024:06:15 14:30:00"), None);
}

#[test]
fn negative_years_parse() {
    assert_eq!(parse_exif_datetime("-0005:03:01 00:00:00"), Some(-721294 * 86400));
}

#[test]
fn smallest_year_in_january_would_underflow() {
    assert!(datetime_underflows("-2147483648:01:01 00:00:00"));
    assert!(!datetime_underflows("-2147483648:03:01 00:00:00"));
    assert!(!datetime_underflows("2024:01:01 00:00:00"));
    assert!(!datetime_underflows("garbage"));
}

#[test]
fn preview_sources_are_tried_in_order() {
    let first = PreviewSource::first();
    assert_eq!(first, PreviewSource::JpgFromRaw);
    assert_eq!(first.tag(), "JpgFromRaw");
    assert_eq!(first.next(true), Some(PreviewSource::PreviewImage));
    assert_eq!(PreviewSource::PreviewImage.next(true), Some(PreviewSource::OtherImage));
    assert_eq!(PreviewSource::OtherImage.next(true), None);
    assert_eq!(PreviewSource::PreviewImage.next(false), None);
    assert_eq!(PreviewSource::OtherImage.tag(), "OtherImage");
}

#[test]
fn empty_preview_is_an_error() {
    let r = extract_preview(1, "/shoot/IMG_0001.CR3", vec![], tags(None, None));
    match r {
        Err(ExtractError::NoEmbeddedPreview { file_name }) => assert_eq!(file_name, "IMG_0001.CR3"),
        Ok(_) => panic!("expected an error"),
    }
}

#[test]
fn record_carries_exif_and_dimensions() {
    let jpeg = tiny_jpeg(24, 16);
    let rec = extract_preview(
        7,
        "/shoot/IMG_0007.NEF",
        jpeg.clone(),
        tags(Some("2024:06:15 14:30:00"), Some(400)),
    )
    .unwrap();
    assert_eq!(rec.id, 7);
    assert_eq!(rec.file_path, "/shoot/IMG_0007.NEF");
    assert_eq!(rec.file_name, "IMG_0007.NEF");
    assert_eq!(rec.timestamp, Some(1718461800000));
    assert_eq!(rec.camera_make, Some("Canon".to_string()));
    assert_eq!(rec.camera_model, Some("EOS R5".to_string()));
    assert_eq!(rec.iso, Some(400));
    assert_eq!((rec.preview_width, rec.preview_height), (24, 16));
    assert_eq!(rec.preview_data, jpeg);
}

#[test]
fn unreadable_preview_has_zero_dimensions() {
    let rec = extract_preview(2, "a.ARW", vec![1, 2, 3, 4], tags(Some("bad"), None)).unwrap();
    assert_eq!((rec.preview_width, rec.preview_height), (0, 0));
    assert_eq!(rec.timestamp, None);
    assert_eq!(rec.iso, None);
}

#[test]
fn iso_keeps_its_low_32_bits() {
    let rec = assemble_record(3, "b.DNG", vec![9], None, tags(None, Some((1u64 << 32) + 100)));
    assert_eq!(rec.iso, Some(100));
}

#[test]
fn assembled_record_takes_given_dimensions() {
    let rec = assemble_record(4, "dir/c.RAF", vec![9], Some((6000, 4000)), tags(None, None));
    assert_eq!((rec.preview_width, rec.preview_height), (6000, 4000));
    let rec = assemble_record(5, "dir/c.RAF", vec![9], None, tags(None, None));
    assert_eq!((rec.preview_width, rec.preview_height), (0, 0));
    assert_eq!(rec.file_name, "c.RAF");
}

#[test]
fn capture_time_too_far_out_for_milliseconds_is_dropped() {
    let rec = assemble_record(6, "e.NEF", vec![9], None, tags(Some("300000000:01:01 00:00:00"), None));
    assert_eq!(rec.timestamp, None);
}

#[test]
fn shots_ten_seconds_apart_are_separate_scenes() {
    let a = assemble_record(1, "/s/a.NEF", vec![9], None, tags(Some("2024:01:15 10:30:00"), None));
    let b = assemble_record(2, "/s/b.NEF", vec![9], None, tags(Some("2024:01:15 10:30:10"), None));
    assert_eq!(a.timestamp, Some(1705314600000));
    assert_eq!(b.timestamp, Some(1705314610000));
    let scenes = stack_scenes(&[a, b], &StackingConfig::default());
    assert_eq!(scenes.len(), 2);
}

#[test]
fn shots_two_seconds_apart_share_a_scene() {
    let a = assemble_record(1, "/s/a.NEF", vec![], None, tags(Some("2024:01:15 10:30:00"), None));
    let b = assemble_record(2, "/s/b.NEF", vec![], None, tags(Some("2024:01:15 10:30:02"), None));
    let scenes = stack_scenes(&[a, b], &StackingConfig::default());
    assert_eq!(scenes.len(), 1);
}

#[test]
fn next_calendar_day_is_one_more() {
    assert_eq!(days_from_date(2000, 3, 1).unwrap() - days_from_date(2000, 2, 28).unwrap(), 2);
    assert_eq!(days_from_date(1900, 3, 1).unwrap() - days_from_date(1900, 2, 28).unwrap(), 1);
    assert_eq!(days_from_date(2024, 1, 1).unwrap() - days_from_date(2023, 12, 31).unwrap(), 1);
    assert_eq!(days_from_date(2024, 5, 1).unwrap() - days_from_date(2024, 4, 30).unwrap(), 1);
}

#[test]
fn exiftool_json_gives_the_tags() {
    let json = br#"[{
  "SourceFile": "/s/IMG_0001.CR3",
  "DateTimeOriginal": "2024:06:15 14:30:00",
  "Make": "Canon",
  "Model": "Canon EOS R5",
  "FocalLength": "50.0 mm",
  "FNumber": 2.8,
  "ISO": 800
}]"#;
    let t = exif_tags_from_json(json);
    assert_eq!(t.date_time_original, Some("2024:06:15 14:30:00".to_string()));
    assert_eq!(t.make, Some("Canon".to_string()));
    assert_eq!(t.model, Some("Canon EOS R5".to_string()));
    assert_eq!(t.iso, Some(800));
}

#[test]
fn exiftool_json_with_wrong_types_gives_no_tags() {
    let json = br#"[{"DateTimeOriginal": 20240615, "Make": null, "Model": ["x"], "ISO": "800"}]"#;
    let t = exif_tags_from_json(json);
    assert_eq!(t.date_time_original, None);
    assert_eq!(t.make, None);
    assert_eq!(t.model, None);
    assert_eq!(t.iso, None);
    let t = exif_tags_from_json(br#"[{"ISO": 100.5}]"#);
    assert_eq!(t.iso, None);
    let t = exif_tags_from_json(br#"[{"ISO": -3}]"#);
    assert_eq!(t.iso, None);
}

#[test]
fn output_that_is_not_an_array_of_objects_gives_no_tags() {
    let inputs: [&[u8]; 5] = [b"", b"not json", b"{\"Make\": \"Canon\"}", b"[]", b"[1, {\"Make\": \"Canon\"}]"];
    for text in inputs {
        let t = exif_tags_from_json(text);
        assert_eq!(t.make, None);
    }
}

#[test]
fn only_the_first_object_counts() {
    let t = exif_tags_from_json(br#"[{"Make": "Nikon"}, {"Make": "Canon"}]"#);
    assert_eq!(t.make, Some("Nikon".to_string()));
}

#[test]
fn tags_of_a_parsed_document() {
    let doc = Some(JsonValue::Array(vec![JsonValue::Object(vec![
        ("ISO".to_string(), JsonValue::Number(Some(64))),
        ("Make".to_string(), JsonValue::Text("Sony".to_string())),
        ("Make".to_string(), JsonValue::Text("Fujifilm".to_string())),
    ])]));
    let t = exif_tags_of(&doc);
    assert_eq!(t.iso, Some(64));
    assert_eq!(t.make, Some("Fujifilm".to_string()));
    assert_eq!(t.model, None);
    assert_eq!(exif_tags_of(&None).iso, None);
}
