//! Turns a directive that is to be removed into the byte ranges to delete.
use crate::code::utils::text::is_boundary;
use crate::parser::{node_tokens_fit, Element, NodeView};
use std::ops::Range;
use vstd::prelude::*;

pub mod range_marker_builder;
pub mod unwrap_block_marker_builder;

verus! {

/// What is removed for one directive: a range, and with it a second range
/// further on where the directive is unwrapped.
pub type RemovableRange = (Range<usize>, Option<Range<usize>>);

/// True when `range` is a sound answer for `element`: it removes nothing, or
/// it starts where the opening tag starts, ends where the closing tag ends,
/// takes both tags whole, and cuts between characters. In two parts it leaves
/// out a stretch between the tags.
pub open spec fn range_fits(source: Seq<u8>, element: NodeView, range: RemovableRange) -> bool {
    let primary = range.0;
    primary.start >= primary.end || {
        &&& primary.start == element.start_token.byte_start
        &&& element.start_token.byte_end <= primary.end
        &&& is_boundary(source, primary.end as int)
        &&& match range.1 {
            Some(paired) => {
                &&& primary.end <= paired.start <= element.end_token.byte_start
                &&& paired.end == element.end_token.byte_end
                &&& is_boundary(source, paired.start as int)
            },
            None => primary.end == element.end_token.byte_end,
        }
    }
}

/// A way of removing a directive.
pub trait MarkerBuilder {
    /// True when this builder was made for the text `source`.
    spec fn built_on(&self, source: Seq<u8>) -> bool;

    /// The ranges that `build` gives for a directive.
    spec fn built(&self, element: NodeView) -> RemovableRange;

    /// Gives the ranges to remove for `element`. On the text that the builder
    /// was made for, and for a directive whose tags are pieces of that text,
    /// the answer is sound.
    fn build(&self, element: &Element) -> (range: RemovableRange)
        ensures
            range == self.built(element@),
            forall|source: Seq<u8>|
                #![trigger self.built_on(source)]
                self.built_on(source) && node_tokens_fit(source, element@) ==> range_fits(
                    source,
                    element@,
                    range,
                ),
    ;
}

} // verus!
