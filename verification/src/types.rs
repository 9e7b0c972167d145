use vstd::prelude::*;

verus! {

/// Identifier of an ingested image.
pub type ImageId = u64;

/// Identifier of a scene (a burst of shots of one moment).
pub type SceneId = u64;

/// Why an image was rejected.
#[derive(Debug, Clone, Copy, PartialEq, Eq, Structural)]
pub enum RejectReason {
    Blink,
    OutOfFocus,
}

/// The culling decision for one image.
#[derive(Debug, Clone, Copy, PartialEq, Eq, Structural)]
pub enum Verdict {
    Keeper,
    Reject { reason: RejectReason },
    Unrated,
}

/// A group of images taken of the same moment; one of them may be chosen
/// as the keeper.
#[derive(Debug, Clone)]
pub struct Scene {
    pub id: SceneId,
    pub image_ids: Vec<ImageId>,
    pub keeper_id: Option<ImageId>,
}

/// One ingested image: where it came from, what its EXIF said and the
/// bytes of its embedded JPEG preview.
#[derive(Debug, Clone)]
pub struct ImageRecord {
    pub id: ImageId,
    pub file_path: String,
    pub file_name: String,
    /// Capture time, in milliseconds since the Unix epoch.
    pub timestamp: Option<i64>,
    pub camera_make: Option<String>,
    pub camera_model: Option<String>,
    pub iso: Option<u32>,
    pub preview_width: u32,
    pub preview_height: u32,
    pub preview_data: Vec<u8>,
}

/// The thresholds that scene stacking works with.
#[derive(Debug, Clone, Copy, PartialEq, Eq, Structural)]
pub struct StackingConfig {
    /// Largest gap, in milliseconds, between consecutive capture times within
    /// one burst.
    pub burst_threshold_ms: i64,
    /// Largest perceptual-hash distance from a scene's first hashed image for
    /// an image to stay in that scene.
    pub phash_similarity_threshold: u32,
}

impl Default for StackingConfig {
    /// Bursts of shots at most 3 seconds apart; scenes split above a hash
    /// distance of 14 bits.
    fn default() -> (r: Self)
        ensures
            r.burst_threshold_ms == 3000,
            r.phash_similarity_threshold == 14,
    {
        StackingConfig { burst_threshold_ms: 3000, phash_similarity_threshold: 14 }
    }
}

} // verus!
