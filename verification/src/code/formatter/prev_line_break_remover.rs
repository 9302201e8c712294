
use crate::code::formatter::Formatter;
use crate::code::formatter::empty_line_remover::blank_line_before;
use crate::code::utils::line_break_pos_finder::{find_prev_line_break_pos, lemma_prev_line_break_blanks};
use crate::code::utils::text::{lemma_ascii_boundaries, lemma_str_valid};
use vstd::prelude::*;
use vstd::string::StringSliceAdditionalSpecFns;

verus! {

/// Where two blank lines lie before a cut, the second of them goes.
pub struct PrevLineBreakRemover {}

/// The text to delete before a cut at `byte_pos`: from behind the second of
/// two line breaks that lie before it with nothing but blanks behind each, up
/// to the cut; nothing where there are no two, or where the second lies
/// before the cut before.
pub open spec fn spec_prev_line_break(content: Seq<u8>, byte_pos: int, prev_byte_pos: int) -> (int, int) {
    match blank_line_before(content, byte_pos) {
        Some(line_break_pos) => if line_break_pos < prev_byte_pos {
            (byte_pos, byte_pos)
        } else {
            (line_break_pos + 1, byte_pos)
        },
        None => (byte_pos, byte_pos),
    }
}

impl Formatter for PrevLineBreakRemover {
    open spec fn spec_format(&self, content: Seq<u8>, byte_pos: int, prev_byte_pos: int) -> (int, int) {
        spec_prev_line_break(content, byte_pos, prev_byte_pos)
    }

    fn format(&self, content: &str, byte_pos: usize, prev_byte_pos: usize) -> (range: (usize, usize)) {
        let bytes = content.as_bytes();
        proof {
            lemma_str_valid(content);
            lemma_prev_line_break_blanks(content.spec_bytes(), byte_pos as int);
        }

        let first = find_prev_line_break_pos(content, bytes, byte_pos, true);
        proof {
            if let Some(pos) = first {
                lemma_ascii_boundaries(content.spec_bytes(), pos as int);
                lemma_prev_line_break_blanks(content.spec_bytes(), pos as int);
            }
        }
        let line_break_pos = match first {
            Some(pos) => find_prev_line_break_pos(content, bytes, pos, true),
            None => None,
        };

        if let Some(line_break_pos) = line_break_pos {
            if line_break_pos >= prev_byte_pos {
                proof {
                    lemma_ascii_boundaries(content.spec_bytes(), line_break_pos as int);
                }
                return (line_break_pos + 1, byte_pos);
            }
        }
        (byte_pos, byte_pos)
    }
}

} // verus!
