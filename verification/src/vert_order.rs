//! The order of vertices.

use core::cmp::Ordering;
use vstd::prelude::*;
use crate::vert::Vert;

verus! {

impl PartialOrd for Vert {
    /// Two vertices are equal when both coordinates are; of two others,
    /// the one with the smaller abscissa is the smaller, and a vertex is
    /// greater than any other vertex that does not lie to its right.
    fn partial_cmp(&self, other: &Self) -> (o: Option<Ordering>) {
        if self.x == other.x && self.y == other.y {
            Some(Ordering::Equal)
        } else if self.x < other.x {
            Some(Ordering::Less)
        } else {
            Some(Ordering::Greater)
        }
    }
}

impl vstd::std_specs::cmp::PartialOrdSpecImpl for Vert {
    open spec fn obeys_partial_cmp_spec() -> bool {
        true
    }

    open spec fn partial_cmp_spec(&self, other: &Self) -> Option<Ordering> {
        if self.x == other.x && self.y == other.y {
            Some(Ordering::Equal)
        } else if self.x < other.x {
            Some(Ordering::Less)
        } else {
            Some(Ordering::Greater)
        }
    }
}

} // verus!
