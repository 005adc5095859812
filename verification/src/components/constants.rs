//! Defaults offered to the user.

use vstd::prelude::*;

verus! {

/// Width of the preview, in pixels.
pub const VIEW_WIDTH_PX: u32 = 500;

/// Width of an image shown beside the preview, in pixels.
pub const IMAGE_WIDTH_PX: u32 = 250;

/// Pixels at most this bright count as foreground.
pub const DEFAULT_THRESHOLD_VALUE: u8 = 128;

} // verus!
