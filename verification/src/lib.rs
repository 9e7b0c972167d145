//! Verified core of a photo-culling tool: RAW file selection, EXIF reading,
//! burst stacking, keeper selection and XMP sidecar generation.

pub mod commands;
pub mod culling;
pub mod error;
pub mod extractor;
pub mod focus;
pub mod hashing;
pub mod json;
pub mod paths;
pub mod scanner;
pub mod stacker;
pub mod types;
pub mod xmp;

pub use commands::{
    export_entries, export_response, parse_export_verdict, ExportImageVerdict, ExportResponse,
};
pub use culling::{
    assign_verdicts, cull_manifest, pick_keeper, select_keepers, CullManifest, ImageScore,
};
pub use error::KeeperError;
pub use extractor::{
    assemble_record, datetime_underflows, days_from_date, exif_tags_from_json, exif_tags_of,
    extract_preview, parse_exif_datetime, ExifTags, ExtractError, PreviewSource,
};
pub use focus::{center_region, eye_region};
pub use json::JsonValue;
pub use hashing::{compute_phash, hamming_distance, try_compute_phash, PerceptualHash, PhashError};
pub use paths::{extension_of, file_name_of, replace_extension};
pub use scanner::{jpeg_extension, raw_extension, scan_directory, DirEntryInfo, ScanError};
pub use stacker::{split_by_hashes, stack_scenes};
pub use types::{ImageId, ImageRecord, RejectReason, Scene, SceneId, StackingConfig, Verdict};
pub use xmp::{
    export_action, export_summary, generate_xmp_content, get_xmp_path, ExportEntry, ExportResult, ExportVerdict,
    SidecarWrite,
};
