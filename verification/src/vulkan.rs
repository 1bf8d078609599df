//! Device-queue bookkeeping at the graphics-API boundary.
//!
//! Queue-family selection walks a device's queue families and records the
//! first graphics-capable and the first presentation-capable family; a
//! device is usable once both have been found.

use vstd::prelude::*;

verus! {

/// The queue families chosen while probing a physical device.
#[derive(Debug, Clone, Copy, PartialEq, Eq, Structural)]
pub struct QueueFamilyIndices {
    pub graphic_family: Option<u32>,
    pub present_family: Option<u32>,
}

impl QueueFamilyIndices {
    /// True once both required queue families have been recorded.
    pub fn is_complete(&self) -> (r: bool)
        ensures
            r == (self.graphic_family is Some && self.present_family is Some),
    {
        self.graphic_family.is_some() && self.present_family.is_some()
    }
}

} // verus!
