//! The order in which bounds stand in a sorted collection.

use vstd::prelude::*;
use core::cmp::Ordering;
use crate::bounds::{key_le, IncludeBounds};

verus! {

impl IncludeBounds {
    /// Compares two bounds by where they start in the buffer, and by
    /// where they end if they start at the same place.
    pub fn cmp(&self, other: &Self) -> (r: Ordering)
        ensures
            (r == Ordering::Less) <==> (key_le(self@, other@) && !key_le(other@, self@)),
            (r == Ordering::Greater) <==> (key_le(other@, self@) && !key_le(self@, other@)),
            (r == Ordering::Equal) <==> (key_le(self@, other@) && key_le(other@, self@)),
    {
        if self.global_start < other.global_start {
            Ordering::Less
        } else if self.global_start > other.global_start {
            Ordering::Greater
        } else if self.len < other.len {
            Ordering::Less
        } else if self.len > other.len {
            Ordering::Greater
        } else {
            Ordering::Equal
        }
    }
}

} // verus!
