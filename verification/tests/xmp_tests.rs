use keeper_raw::{
    export_action, generate_xmp_content, get_xmp_path, ExportEntry, ExportResult, ExportVerdict,
};

#[test]
fn test_xmp_path_from_nef() {
    let raw = "A:\\photos\\DSC_0571.NEF";
    let xmp = get_xmp_path(raw);
    assert_eq!(xmp, "A:\\photos\\DSC_0571.xmp");
}

#[test]
fn test_xmp_path_from_cr3() {
    let raw = "/home/user/photos/IMG_1234.CR3";
    let xmp = get_xmp_path(raw);
    assert_eq!(xmp, "/home/user/photos/IMG_1234.xmp");
}

#[test]
fn test_keeper_xmp_contains_rating_5() {
    let content = generate_xmp_content(ExportVerdict::Keeper);
    assert!(content.contains(r#"xmp:Rating="5""#));
    assert!(!content.contains(r#"xmp:Label="Reject""#));
}

#[test]
fn test_reject_xmp_contains_rating_negative_1() {
    let content = generate_xmp_content(ExportVerdict::Reject);
    assert!(content.contains(r#"xmp:Rating="-1""#));
    assert!(content.contains(r#"xmp:Label="Reject""#));
}

#[test]
fn test_xmp_contains_xpacket() {
    let content = generate_xmp_content(ExportVerdict::Keeper);
    assert!(content.contains("<?xpacket begin="));
    assert!(content.contains("<?xpacket end="));
}

#[test]
fn test_xmp_contains_creator_tool() {
    let content = generate_xmp_content(ExportVerdict::Keeper);
    assert!(content.contains(r#"xmp:CreatorTool="keeper.raw""#));
}

#[test]
fn keeper_sidecar_is_the_full_document() {
    let content = generate_xmp_content(ExportVerdict::Keeper);
    let expected = "<?xpacket begin=\"\u{feff}\" id=\"W5M0MpCehiHzreSzNTczkc9d\"?>\n\
<x:xmpmeta xmlns:x=\"adobe:ns:meta/\">\n  \
<rdf:RDF xmlns:rdf=\"http://www.w3.org/1999/02/22-rdf-syntax-ns#\">\n    \
<rdf:Description rdf:about=\"\"\n      \
xmlns:xmp=\"http://ns.adobe.com/xap/1.0/\"\n      \
xmlns:dc=\"http://purl.org/dc/elements/1.1/\"\n      \
xmp:Rating=\"5\"\n      \
xmp:CreatorTool=\"keeper.raw\">\n      \
<dc:description>\n        <rdf:Alt>\n          \
<rdf:li xml:lang=\"x-default\">Processed by keeper.raw</rdf:li>\n        \
</rdf:Alt>\n      </dc:description>\n    </rdf:Description>\n  </rdf:RDF>\n\
</x:xmpmeta>\n<?xpacket end=\"w\"?>";
    assert_eq!(content, expected);
}

#[test]
fn reject_label_follows_creator_tool() {
    let content = generate_xmp_content(ExportVerdict::Reject);
    assert!(content.contains("xmp:CreatorTool=\"keeper.raw\"\n      xmp:Label=\"Reject\">"));
}

#[test]
fn unrated_content_has_rating_zero() {
    let content = generate_xmp_content(ExportVerdict::Unrated);
    assert!(content.contains(r#"xmp:Rating="0""#));
    assert!(!content.contains("xmp:Label"));
}

#[test]
fn sidecar_paths_follow_the_file_name() {
    assert_eq!(get_xmp_path("photos/archive.tar.nef"), "photos/archive.tar.xmp");
    assert_eq!(get_xmp_path("photos/.hidden"), "photos/.hidden.xmp");
    assert_eq!(get_xmp_path("photos/IMG_1/"), "photos/IMG_1.xmp");
    assert_eq!(get_xmp_path("photos/IMG_2.CR2/."), "photos/IMG_2.xmp");
    assert_eq!(get_xmp_path("noext"), "noext.xmp");
    assert_eq!(get_xmp_path("/"), "/");
    assert_eq!(get_xmp_path("photos/.."), "photos/..");
    assert_eq!(get_xmp_path(""), "");
}

#[test]
fn unrated_entries_need_no_sidecar() {
    let entry = ExportEntry {
        raw_file_path: "/shoot/test_skip.NEF".to_string(),
        verdict: ExportVerdict::Unrated,
    };
    assert!(export_action(&entry).is_none());
}

#[test]
fn keeper_entries_get_a_sidecar_next_to_the_raw_file() {
    let entry = ExportEntry {
        raw_file_path: "/shoot/test_keeper.CR2".to_string(),
        verdict: ExportVerdict::Keeper,
    };
    let write = export_action(&entry).unwrap();
    assert_eq!(write.path, "/shoot/test_keeper.xmp");
    assert_eq!(write.content, generate_xmp_content(ExportVerdict::Keeper));
}

#[test]
fn export_result_counts_outcomes() {
    let mut result = ExportResult::new();
    result.record_skip();
    result.record_write("/a.xmp".to_string(), Ok(()));
    result.record_write("/b.xmp".to_string(), Err("denied".to_string()));
    assert_eq!(result.files_written, 1);
    assert_eq!(result.files_skipped, 1);
    assert_eq!(result.errors, vec![("/b.xmp".to_string(), "denied".to_string())]);
}

fn entry(path: &str, verdict: ExportVerdict) -> ExportEntry {
    ExportEntry { raw_file_path: path.to_string(), verdict }
}

#[test]
fn export_summary_tallies_a_whole_run() {
    let entries = vec![
        entry("/s/a.NEF", ExportVerdict::Keeper),
        entry("/s/b.NEF", ExportVerdict::Unrated),
        entry("/s/c.CR3", ExportVerdict::Reject),
        entry("/s/d.ARW", ExportVerdict::Keeper),
        entry("/s/e.ARW", ExportVerdict::Unrated),
    ];
    let outcomes = vec![Ok(()), Err("disk full".to_string()), Err("denied".to_string())];
    let result = keeper_raw::export_summary(&entries, &outcomes);
    assert_eq!(result.files_skipped, 2);
    assert_eq!(result.files_written, 1);
    assert_eq!(
        result.errors,
        vec![
            ("/s/c.xmp".to_string(), "disk full".to_string()),
            ("/s/d.xmp".to_string(), "denied".to_string()),
        ]
    );
}

#[test]
fn export_summary_of_unrated_only_skips_everything() {
    let entries = vec![entry("/s/a.NEF", ExportVerdict::Unrated)];
    let result = keeper_raw::export_summary(&entries, &[]);
    assert_eq!(result.files_skipped, 1);
    assert_eq!(result.files_written, 0);
    assert!(result.errors.is_empty());
}
