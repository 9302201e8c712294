
use crate::code::remover::marker::builder::{range_fits, MarkerBuilder, RemovableRange};
use crate::code::utils::line_break_pos_finder::{
    find_next_line_break_pos, find_prev_line_break_pos, lemma_next_line_break, lemma_prev_line_break,
    spec_find_next_line_break_pos, spec_find_prev_line_break_pos,
};
use crate::code::utils::text::lemma_ascii_boundaries;
use crate::parser::node_tokens_fit;
use crate::parser::{Element, NodeView};
use std::ops::Range;
use std::rc::Rc;
use vstd::prelude::*;
use vstd::utf8::{encode_utf8, encode_utf8_valid_utf8};

verus! {

/// Unwraps a directive: removes the opening tag with the rest of its line and
/// the line after it, and the closing tag with its line and the line before
/// it, and keeps what lies between. `content` is the whole text that the
/// directive stands in.
pub struct UnwrapBlockMarkerBuilder {
    pub content: Rc<String>,
}

/// The second line break at or after byte `from` of `content`.
pub open spec fn second_line_break_after(content: Seq<u8>, from: int) -> Option<int> {
    match spec_find_next_line_break_pos(content, content, from, false) {
        Some(first) => spec_find_next_line_break_pos(content, content, first + 1, false),
        None => None,
    }
}

/// The second line break before byte `from` of `content`.
pub open spec fn second_line_break_before(content: Seq<u8>, from: int) -> Option<int> {
    match spec_find_prev_line_break_pos(content, content, from, false) {
        Some(first) => spec_find_prev_line_break_pos(content, content, first, false),
        None => None,
    }
}

/// The ranges that unwrapping removes for a directive that stands in
/// `content`: from the opening tag up to the second line break after it, and
/// from behind the second line break before the closing tag to the end of
/// that tag. Where one of the line breaks is missing, or the two ranges would
/// meet, nothing is removed: an empty range at the opening tag.
pub open spec fn spec_unwrap(content: Seq<u8>, element: NodeView) -> RemovableRange {
    let from = element.start_token.byte_start as usize;
    let nothing = (Range { start: from, end: from }, None);
    match (
        second_line_break_after(content, element.start_token.byte_end),
        second_line_break_before(content, element.end_token.byte_start),
    ) {
        (Some(end), Some(start)) => if start > end {
            (
                Range { start: from, end: end as usize },
                Some(Range { start: (start + 1) as usize, end: element.end_token.byte_end as usize }),
            )
        } else {
            nothing
        },
        _ => nothing,
    }
}

/// On the text it was computed from, and for a directive whose tags are
/// pieces of that text, what unwrapping removes is sound.
pub proof fn lemma_unwrap_fits(source: Seq<u8>, element: NodeView)
    requires
        vstd::utf8::valid_utf8(source),
        source.len() <= usize::MAX,
        node_tokens_fit(source, element),
    ensures
        range_fits(source, element, spec_unwrap(source, element)),
{
    let from = element.start_token.byte_end;
    let to = element.end_token.byte_start;
    lemma_next_line_break(source, source, from, false);
    if let Some(first) = spec_find_next_line_break_pos(source, source, from, false) {
        lemma_next_line_break(source, source, first + 1, false);
    }
    lemma_prev_line_break(source, source, to, false);
    if let Some(first) = spec_find_prev_line_break_pos(source, source, to, false) {
        lemma_prev_line_break(source, source, first, false);
        if let Some(start) = spec_find_prev_line_break_pos(source, source, first, false) {
            lemma_ascii_boundaries(source, start);
        }
    }
}

impl MarkerBuilder for UnwrapBlockMarkerBuilder {
    open spec fn built_on(&self, source: Seq<u8>) -> bool {
        encode_utf8((*self.content)@) == source
    }

    open spec fn built(&self, element: NodeView) -> RemovableRange {
        spec_unwrap(encode_utf8((*self.content)@), element)
    }

    fn build(&self, el: &Element) -> (range: RemovableRange) {
        let content: &str = self.content.as_str();
        let bytes = content.as_bytes();
        let len = bytes.len();
        proof {
            assert(bytes@.len() == len);
            encode_utf8_valid_utf8((*self.content)@);
            if node_tokens_fit(bytes@, el@) {
                lemma_unwrap_fits(bytes@, el@);
            }
        }
        let start_el_remove_end_pos = match find_next_line_break_pos(
            content,
            bytes,
            el.start_token.byte_end,
            false,
        ) {
            Some(pos) => find_next_line_break_pos(content, bytes, pos + 1, false),
            None => None,
        };
        let end_el_remove_start_pos = match find_prev_line_break_pos(
            content,
            bytes,
            el.end_token.byte_start,
            false,
        ) {
            Some(pos) => find_prev_line_break_pos(content, bytes, pos, false),
            None => None,
        };

        let nothing = (el.start_token.byte_start..el.start_token.byte_start, None);
        match (start_el_remove_end_pos, end_el_remove_start_pos) {
            (Some(end), Some(start)) => {
                if start > end {
                    (el.start_token.byte_start..end, Some(start + 1..el.end_token.byte_end))
                } else {
                    nothing
                }
            },
            _ => nothing,
        }
    }
}

} // verus!
