use vstd::prelude::*;

verus! {

/// Trusted: declares `std::io::Error` so that errors can carry it; nothing
/// is read from it here.
#[verifier::external_type_specification]
#[verifier::external_body]
pub struct ExIoError(std::io::Error);

/// The failures of the culling workflow.
#[derive(Debug)]
pub enum KeeperError {
    FileReadError { path: String, source: std::io::Error },
    NoPreviewError { path: String },
    ExifError { path: String },
    InferenceError { details: String },
    XmpWriteError { path: String, source: std::io::Error },
}

/// The message that describes an error.
pub open spec fn error_message(e: KeeperError) -> Seq<char> {
    match e {
        KeeperError::FileReadError { path, .. } => "Failed to read file: "@ + path@,
        KeeperError::NoPreviewError { path } => "No preview found in RAW file: "@ + path@,
        KeeperError::ExifError { path } => "Could not parse EXIF data: "@ + path@,
        KeeperError::InferenceError { details } => "AI model failed: "@ + details@,
        KeeperError::XmpWriteError { path, .. } => "Could not write XMP file: "@ + path@,
    }
}

impl KeeperError {
    /// The message that describes this error (see `error_message`).
    pub fn message(&self) -> (r: String)
        ensures
            r@ == error_message(*self),
    {
        let (head, tail) = match self {
            KeeperError::FileReadError { path, .. } => ("Failed to read file: ", path),
            KeeperError::NoPreviewError { path } => ("No preview found in RAW file: ", path),
            KeeperError::ExifError { path } => ("Could not parse EXIF data: ", path),
            KeeperError::InferenceError { details } => ("AI model failed: ", details),
            KeeperError::XmpWriteError { path, .. } => ("Could not write XMP file: ", path),
        };
        let mut out = String::from_str(head);
        out.append(tail.as_str());
        out
    }
}

} // verus!
