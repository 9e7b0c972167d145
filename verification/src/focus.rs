use vstd::prelude::*;

verus! {

/// Smallest side, in pixels, of a region that sharpness is measured on.
pub const MIN_REGION_SIDE: u32 = 16;

/// The central region of a `width` x `height` image that sharpness is
/// measured on when no face was found: the middle half in each direction,
/// as `(x, y, width, height)`; none where that is under 16 pixels on a side.
pub open spec fn spec_center_region(width: u32, height: u32) -> Option<(u32, u32, u32, u32)> {
    if width / 2 < MIN_REGION_SIDE || height / 2 < MIN_REGION_SIDE {
        None
    } else {
        Some(((width / 4) as u32, (height / 4) as u32, (width / 2) as u32, (height / 2) as u32))
    }
}

/// The central region of an image (see `spec_center_region`).
pub fn center_region(width: u32, height: u32) -> (r: Option<(u32, u32, u32, u32)>)
    ensures
        r == spec_center_region(width, height),
        r matches Some((x, y, w, h)) ==> x + w <= width && y + h <= height,
{
    let crop_w = width / 2;
    let crop_h = height / 2;
    if crop_w < MIN_REGION_SIDE || crop_h < MIN_REGION_SIDE {
        return None;
    }
    Some((width / 4, height / 4, crop_w, crop_h))
}

/// The eye band that sharpness is measured on, from its top-left corner
/// `(x, y)` and its size `(w, h)` as measured on the face, in a
/// `width` x `height` image: each side is raised to at least 16 pixels, then
/// cut to what the image holds from the corner on; none where a side ends
/// up under 16 pixels.
pub open spec fn spec_eye_region(x: u32, y: u32, w: u32, h: u32, width: u32, height: u32) -> Option<
    (u32, u32, u32, u32),
> {
    let w1: int = if w < MIN_REGION_SIDE { MIN_REGION_SIDE as int } else { w as int };
    let h1: int = if h < MIN_REGION_SIDE { MIN_REGION_SIDE as int } else { h as int };
    let room_w: int = if width >= x { width - x } else { 0 };
    let room_h: int = if height >= y { height - y } else { 0 };
    let w2: int = if w1 <= room_w { w1 } else { room_w };
    let h2: int = if h1 <= room_h { h1 } else { room_h };
    if w2 < MIN_REGION_SIDE || h2 < MIN_REGION_SIDE {
        None
    } else {
        Some((x, y, w2 as u32, h2 as u32))
    }
}

/// The eye band of a face (see `spec_eye_region`).
pub fn eye_region(x: u32, y: u32, w: u32, h: u32, width: u32, height: u32) -> (r: Option<(u32, u32, u32, u32)>)
    ensures
        r == spec_eye_region(x, y, w, h, width, height),
        r matches Some((rx, ry, rw, rh)) ==> rx + rw <= width && ry + rh <= height && rw >= 16 && rh >= 16,
{
    let crop_w = if w < MIN_REGION_SIDE { MIN_REGION_SIDE } else { w };
    let crop_h = if h < MIN_REGION_SIDE { MIN_REGION_SIDE } else { h };
    let room_w = width.saturating_sub(x);
    let room_h = height.saturating_sub(y);
    let crop_w = if crop_w <= room_w { crop_w } else { room_w };
    let crop_h = if crop_h <= room_h { crop_h } else { room_h };
    if crop_w < MIN_REGION_SIDE || crop_h < MIN_REGION_SIDE {
        return None;
    }
    Some((x, y, crop_w, crop_h))
}

} // verus!
