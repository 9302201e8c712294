//! Says of a directive whether a way of removing it applies.
use crate::parser::{Element, NodeView};
use vstd::prelude::*;

pub mod range_marker_availability;
pub mod unwrap_block_marker_availability;

verus! {

/// A test that says of a directive whether a way of removing applies to it.
pub trait MarkerAvailability {
    /// Whether the way of removing applies to this directive.
    spec fn available(&self, element: NodeView) -> bool;

    /// Whether the way of removing applies to `element`.
    fn is_available(&self, element: &Element) -> (available: bool)
        ensures
            available == self.available(element@),
    ;
}

} // verus!
