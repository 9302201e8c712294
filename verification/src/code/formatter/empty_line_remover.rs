
use crate::code::formatter::Formatter;
use crate::code::utils::line_break_pos_finder::{
    find_next_line_break_pos, find_prev_line_break_pos, spec_find_next_line_break_pos,
    spec_find_prev_line_break_pos,
};
use crate::code::utils::text::{lemma_ascii_boundaries, lemma_str_valid, NEWLINE};
use vstd::prelude::*;
use vstd::string::StringSliceAdditionalSpecFns;

verus! {

/// Where a cut leaves an empty line between two lines of text, the empty line
/// goes.
pub struct EmptyLineRemover {}

/// The second of two line breaks that follow byte `from` with nothing but
/// blanks before each.
pub open spec fn blank_line_after(content: Seq<u8>, from: int) -> Option<int> {
    match spec_find_next_line_break_pos(content, content, from, true) {
        Some(first) => spec_find_next_line_break_pos(content, content, first + 1, true),
        None => None,
    }
}

/// The second of two line breaks that lie before byte `from` with nothing but
/// blanks behind each.
pub open spec fn blank_line_before(content: Seq<u8>, from: int) -> Option<int> {
    match spec_find_prev_line_break_pos(content, content, from, true) {
        Some(first) => spec_find_prev_line_break_pos(content, content, first, true),
        None => None,
    }
}

/// The line break to delete at a cut at `byte_pos`: the one that stands at
/// the cut, where no blank line follows it and no blank line that starts
/// behind the cut before lies before it; nothing otherwise.
pub open spec fn spec_empty_line(content: Seq<u8>, byte_pos: int, prev_byte_pos: int) -> (int, int) {
    if byte_pos >= content.len() || content[byte_pos] != NEWLINE {
        (byte_pos, byte_pos)
    } else {
        let no_blank_after = blank_line_after(content, byte_pos) is None;
        let no_blank_before = match blank_line_before(content, byte_pos) {
            Some(pos) => pos <= prev_byte_pos,
            None => true,
        };
        if no_blank_after && no_blank_before {
            (byte_pos, byte_pos + 1)
        } else {
            (byte_pos, byte_pos)
        }
    }
}

impl Formatter for EmptyLineRemover {
    open spec fn spec_format(&self, content: Seq<u8>, byte_pos: int, prev_byte_pos: int) -> (int, int) {
        spec_empty_line(content, byte_pos, prev_byte_pos)
    }

    fn format(&self, content: &str, byte_pos: usize, prev_byte_pos: usize) -> (range: (usize, usize)) {
        let bytes = content.as_bytes();
        proof {
            lemma_str_valid(content);
        }
        if byte_pos >= bytes.len() || bytes[byte_pos] != NEWLINE {
            return (byte_pos, byte_pos);
        }
        proof {
            lemma_ascii_boundaries(content.spec_bytes(), byte_pos as int);
        }
        let is_not_next_line_empty = match find_next_line_break_pos(content, bytes, byte_pos, true) {
            Some(pos) => find_next_line_break_pos(content, bytes, pos + 1, true).is_none(),
            None => true,
        };
        let is_not_prev_line_empty = match find_prev_line_break_pos(content, bytes, byte_pos, true) {
            Some(pos) => match find_prev_line_break_pos(content, bytes, pos, true) {
                Some(pos) => pos <= prev_byte_pos,
                None => true,
            },
            None => true,
        };

        if is_not_next_line_empty && is_not_prev_line_empty {
            (byte_pos, byte_pos + 1)
        } else {
            (byte_pos, byte_pos)
        }
    }
}

} // verus!
