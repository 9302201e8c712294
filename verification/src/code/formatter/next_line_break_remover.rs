
use crate::code::formatter::Formatter;
use crate::code::formatter::empty_line_remover::blank_line_after;
use crate::code::utils::line_break_pos_finder::{find_next_line_break_pos, lemma_next_line_break_blanks};
use crate::code::utils::text::{is_boundary, lemma_ascii_boundaries, lemma_boundary_is_char_boundary, lemma_str_valid};
use vstd::prelude::*;
use vstd::string::StringSliceAdditionalSpecFns;

verus! {

/// Where two blank lines follow a cut, the first of them goes.
pub struct NextLineBreakRemover {}

/// The text to delete behind a cut at `byte_pos`: from the cut up to the
/// second of two line breaks that follow it with nothing but blanks before
/// each; nothing where there are no two, or where the position lies inside a
/// character.
pub open spec fn spec_next_line_break(content: Seq<u8>, byte_pos: int) -> (int, int) {
    if !is_boundary(content, byte_pos) {
        (byte_pos, byte_pos)
    } else {
        match blank_line_after(content, byte_pos) {
            Some(line_break_pos) => (byte_pos, line_break_pos),
            None => (byte_pos, byte_pos),
        }
    }
}

impl Formatter for NextLineBreakRemover {
    open spec fn spec_format(&self, content: Seq<u8>, byte_pos: int, prev_byte_pos: int) -> (int, int) {
        spec_next_line_break(content, byte_pos)
    }

    fn format(&self, content: &str, byte_pos: usize, _prev_byte_pos: usize) -> (range: (usize, usize)) {
        let bytes = content.as_bytes();
        let len = bytes.len();
        assert(bytes@.len() == len);
        proof {
            lemma_str_valid(content);
            lemma_boundary_is_char_boundary(content.spec_bytes(), byte_pos as int);
        }
        if !content.is_char_boundary(byte_pos) {
            return (byte_pos, byte_pos);
        }
        let first = find_next_line_break_pos(content, bytes, byte_pos, true);
        proof {
            lemma_next_line_break_blanks(content.spec_bytes(), byte_pos as int);
            if let Some(pos) = first {
                lemma_ascii_boundaries(content.spec_bytes(), pos as int);
                lemma_next_line_break_blanks(content.spec_bytes(), pos + 1);
            }
        }
        let line_break_pos = match first {
            Some(pos) => find_next_line_break_pos(content, bytes, pos + 1, true),
            None => None,
        };

        if let Some(line_break_pos) = line_break_pos {
            (byte_pos, line_break_pos)
        } else {
            (byte_pos, byte_pos)
        }
    }
}

} // verus!
