
use crate::code::remover::marker::builder::{MarkerBuilder, RemovableRange};
use crate::parser::{Element, NodeView};
use std::ops::Range;
use vstd::prelude::*;

verus! {

/// Removes a directive whole: both tags and all between them.
pub struct RangeMarkerBuilder {}

impl Default for RangeMarkerBuilder {
    fn default() -> (made: Self)
        ensures
            made == (RangeMarkerBuilder {  }),
    {
        RangeMarkerBuilder {  }
    }
}

impl MarkerBuilder for RangeMarkerBuilder {
    open spec fn built_on(&self, source: Seq<u8>) -> bool {
        true
    }

    open spec fn built(&self, element: NodeView) -> RemovableRange {
        (
            Range {
                start: element.start_token.byte_start as usize,
                end: element.end_token.byte_end as usize,
            },
            None,
        )
    }

    fn build(&self, el: &Element) -> (range: RemovableRange) {
        (el.start_token.byte_start..el.end_token.byte_end, None)
    }
}

} // verus!
