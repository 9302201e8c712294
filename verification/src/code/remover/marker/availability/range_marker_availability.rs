
use crate::code::remover::marker::availability::MarkerAvailability;
use crate::parser::{Element, NodeView};
use vstd::prelude::*;

verus! {

/// Removing a directive whole applies to every directive.
pub struct RangeMarkerAvailability {}

impl Default for RangeMarkerAvailability {
    fn default() -> (made: Self)
        ensures
            made == (RangeMarkerAvailability {  }),
    {
        RangeMarkerAvailability {  }
    }
}

impl MarkerAvailability for RangeMarkerAvailability {
    open spec fn available(&self, element: NodeView) -> bool {
        true
    }

    fn is_available(&self, _element: &Element) -> (available: bool) {
        true
    }
}

} // verus!
