
use crate::code::remover::marker::availability::MarkerAvailability;
use crate::element_parser::first_named;
use crate::parser::{Element, NodeView};
use vstd::prelude::*;
use vstd::string::StringSliceAdditionalSpecFns;

verus! {

/// Unwrapping applies to a directive whose opening tag has an attribute of
/// the given name.
pub struct UnwrapBlockMarkerAvailability {
    pub tag_name: &'static str,
}

impl UnwrapBlockMarkerAvailability {
    /// The test for the attribute named `tag_name`.
    pub fn new(tag_name: &'static str) -> (made: Self)
        ensures
            made.tag_name == tag_name,
    {
        Self { tag_name }
    }
}

impl MarkerAvailability for UnwrapBlockMarkerAvailability {
    open spec fn available(&self, element: NodeView) -> bool {
        first_named(element.start_element.attrs, self.tag_name.spec_bytes()) is Some
    }

    fn is_available(&self, element: &Element) -> (available: bool) {
        element.start_element.attribute(self.tag_name).is_some()
    }
}

} // verus!
