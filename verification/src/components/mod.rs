//! Helpers for a front end: defaults, the kinds of image file and the colour map
//! used for previews.

pub mod constants;
pub mod decode;
pub mod utils;
