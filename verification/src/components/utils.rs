//! A two-colour map for grey pixels.

use vstd::prelude::*;
use crate::raster::Luma;

verus! {

/// Maps grey pixels to black or white around a cut-off value.
#[derive(Clone, Copy, Debug, PartialEq, Eq, Structural)]
pub struct SplitColor {
    pub value: u8,
}

impl SplitColor {
    pub fn new(value: u8) -> (c: SplitColor)
        ensures
            c.value == value,
    {
        Self { value }
    }

    /// The colour `color` maps to: white when it is brighter than the
    /// cut-off, black otherwise.
    pub open spec fn spec_map_color(&self, color: Luma) -> Luma {
        if color.0 > self.value {
            Luma(255)
        } else {
            Luma(0)
        }
    }

    /// Position in the palette of the colour that `color` maps to: 1 when
    /// it is brighter than the cut-off, 0 otherwise.
    pub fn index_of(&self, color: &Luma) -> (idx: usize)
        ensures
            idx == if color.0 > self.value { 1usize } else { 0usize },
    {
        if color.0 > self.value {
            1
        } else {
            0
        }
    }

    /// The palette: black at 0, white at 1.
    pub fn lookup(&self, idx: usize) -> (color: Option<Luma>)
        ensures
            color == match idx {
                0 => Some(Luma(0)),
                1 => Some(Luma(255)),
                _ => None,
            },
    {
        if idx == 0 {
            Some(Luma(0))
        } else if idx == 1 {
            Some(Luma(255))
        } else {
            None
        }
    }

    /// The map has a palette.
    pub fn has_lookup(&self) -> (b: bool)
        ensures
            b,
    {
        true
    }

    /// Replaces `color` by the colour it maps to.
    pub fn map_color(&self, color: &mut Luma)
        ensures
            *final(color) == self.spec_map_color(*old(color)),
    {
        let new_color: u8 = if self.index_of(color) == 1 { 0xFF } else { 0 };
        color.0 = new_color;
    }
}

} // verus!
