//! Removal by name: a directive is due when its `name` is on a list.
use crate::code::remover::removal_evaluator::RemovalEvaluator;
use crate::code::utils::text::str_eq;
use crate::element_parser::{first_named, Element, ElementView};
use vstd::prelude::*;
use vstd::string::StringSliceAdditionalSpecFns;
use vstd::utf8::encode_utf8;

verus! {

/// The names whose directives are to be removed.
#[derive(Debug, PartialEq, Clone)]
pub struct MarkerEvaluator {
    pub marker_removal_names: Vec<String>,
}

/// True when one of `names` is the text `value`.
pub open spec fn is_listed(names: Seq<String>, value: Seq<u8>) -> bool {
    exists|i: int| 0 <= i < names.len() && encode_utf8(#[trigger] names[i]@) == value
}

/// Whether a directive with these attributes is named for removal: its first
/// `name` attribute has a value, and the value is on the list.
pub open spec fn spec_is_named(names: Seq<String>, start_el: ElementView) -> bool {
    match first_named(start_el.attrs, "name".spec_bytes()) {
        Some(attr) => match attr.value {
            Some(value) => is_listed(names, value),
            None => false,
        },
        None => false,
    }
}

impl MarkerEvaluator {
    /// Whether `value` is one of the names on the list.
    pub fn lists(&self, value: &str) -> (listed: bool)
        ensures
            listed == is_listed(self.marker_removal_names@, value.spec_bytes()),
    {
        let mut i: usize = 0;
        while i < self.marker_removal_names.len()
            invariant
                i <= self.marker_removal_names.len(),
                forall|k: int|
                    0 <= k < i ==> encode_utf8(#[trigger] self.marker_removal_names@[k]@) != value.spec_bytes(),
            decreases self.marker_removal_names.len() - i,
        {
            if str_eq(self.marker_removal_names[i].as_str(), value) {
                assert(encode_utf8(self.marker_removal_names@[i as int]@) == value.spec_bytes());
                return true;
            }
            i += 1;
        }
        false
    }
}

impl RemovalEvaluator for MarkerEvaluator {
    open spec fn removal(&self, start_el: ElementView) -> bool {
        spec_is_named(self.marker_removal_names@, start_el)
    }

    fn is_removal(&self, start_el: &Element) -> (removal: bool) {
        match start_el.attribute("name") {
            Some(attr) => match attr.value {
                Some(value) => self.lists(value),
                None => false,
            },
            None => false,
        }
    }
}

} // verus!
