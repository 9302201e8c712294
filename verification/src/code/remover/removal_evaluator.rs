//! Decides whether a directive is due for removal.
use crate::element_parser::{Element, ElementView};
use vstd::prelude::*;

pub mod marker_evaluator;
pub mod time_limited_evaluator;

verus! {

/// A rule that says of a directive's opening tag whether the directive is to
/// be removed.
pub trait RemovalEvaluator {
    /// Whether a directive with this opening tag is to be removed.
    spec fn removal(&self, start_el: ElementView) -> bool;

    /// Whether the directive with the opening tag `start_el` is to be
    /// removed.
    fn is_removal(&self, start_el: &Element) -> (removal: bool)
        ensures
            removal == self.removal(start_el@),
    ;
}

} // verus!
