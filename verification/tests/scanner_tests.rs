use keeper_raw::{raw_extension, scan_directory, DirEntryInfo, ScanError};

fn file(name: &str) -> DirEntryInfo {
    DirEntryInfo { file_name: name.to_string(), is_file: true }
}

fn dir(name: &str) -> DirEntryInfo {
    DirEntryInfo { file_name: name.to_string(), is_file: false }
}

#[test]
fn not_a_directory_is_an_error() {
    assert_eq!(scan_directory("/shoot/a.NEF", false, &[]), Err(ScanError::NotADirectory));
}

#[test]
fn raw_files_are_found_and_sorted() {
    let entries = vec![
        file("b.NEF"),
        file("notes.txt"),
        file("a.cr3"),
        dir("c.ARW"),
        file("C.Dng"),
        file(".nef"),
        file("d.jpg"),
        file("e.rw2"),
    ];
    let found = scan_directory("/shoot", true, &entries).unwrap();
    assert_eq!(
        found,
        vec![
            "/shoot/C.Dng".to_string(),
            "/shoot/a.cr3".to_string(),
            "/shoot/b.NEF".to_string(),
            "/shoot/e.rw2".to_string(),
        ]
    );
}

#[test]
fn directory_with_trailing_slash_is_joined_once() {
    let found = scan_directory("/shoot/", true, &[file("x.orf"), file("w.raf")]).unwrap();
    assert_eq!(found, vec!["/shoot/w.raf".to_string(), "/shoot/x.orf".to_string()]);
}

#[test]
fn empty_directory_gives_nothing() {
    assert_eq!(scan_directory("/empty", true, &[]), Ok(vec![]));
}

#[test]
fn every_supported_extension_is_recognised() {
    for ext in ["cr2", "CR3", "nef", "ARW", "raf", "Dng", "orf", "RW2"] {
        assert!(raw_extension(ext), "{} should be a RAW extension", ext);
    }
    for ext in ["jpg", "xmp", "cr", "nefx", "", "tiff"] {
        assert!(!raw_extension(ext), "{} should not be a RAW extension", ext);
    }
}
