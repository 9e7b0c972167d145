use keeper_raw::{
    export_entries, export_response, parse_export_verdict, ExportImageVerdict, ExportResult,
    ExportVerdict, ImageRecord,
};

fn image(id: u64, path: &str) -> ImageRecord {
    ImageRecord {
        id,
        file_path: path.to_string(),
        file_name: String::new(),
        timestamp: None,
        camera_make: None,
        camera_model: None,
        iso: None,
        preview_width: 0,
        preview_height: 0,
        preview_data: vec![],
    }
}

fn verdict(image_id: u64, name: &str) -> ExportImageVerdict {
    ExportImageVerdict { image_id, verdict: name.to_string() }
}

#[test]
fn verdict_names_are_read() {
    assert_eq!(parse_export_verdict("keeper"), ExportVerdict::Keeper);
    assert_eq!(parse_export_verdict("reject"), ExportVerdict::Reject);
    assert_eq!(parse_export_verdict("unrated"), ExportVerdict::Unrated);
    assert_eq!(parse_export_verdict("Keeper"), ExportVerdict::Unrated);
    assert_eq!(parse_export_verdict(""), ExportVerdict::Unrated);
}

#[test]
fn entries_follow_the_verdicts_and_skip_unknown_images() {
    let images = vec![image(1, "/s/a.NEF"), image(2, "/s/b.NEF")];
    let verdicts = vec![verdict(2, "reject"), verdict(9, "keeper"), verdict(1, "keeper")];
    let entries = export_entries(&images, &verdicts);
    assert_eq!(entries.len(), 2);
    assert_eq!(entries[0].raw_file_path, "/s/b.NEF");
    assert_eq!(entries[0].verdict, ExportVerdict::Reject);
    assert_eq!(entries[1].raw_file_path, "/s/a.NEF");
    assert_eq!(entries[1].verdict, ExportVerdict::Keeper);
}

#[test]
fn last_image_with_an_id_wins() {
    let images = vec![image(1, "/s/old.NEF"), image(1, "/s/new.NEF")];
    let entries = export_entries(&images, &[verdict(1, "keeper")]);
    assert_eq!(entries[0].raw_file_path, "/s/new.NEF");
}

#[test]
fn response_lines_name_path_and_reason() {
    let result = ExportResult {
        files_written: 2,
        files_skipped: 3,
        errors: vec![("/s/a.xmp".to_string(), "Permission denied".to_string())],
    };
    let response = export_response(&result);
    assert_eq!(response.files_written, 2);
    assert_eq!(response.files_skipped, 3);
    assert_eq!(response.errors, vec!["/s/a.xmp: Permission denied".to_string()]);
}
