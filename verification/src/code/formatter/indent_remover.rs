
use crate::code::formatter::Formatter;
use crate::code::utils::text::{
    blank_between, is_boundary, lemma_ascii_boundaries, lemma_boundary_is_char_boundary, lemma_scalar_step,
    lemma_str_valid, NEWLINE, SPACE, TAB,
};
use vstd::prelude::*;
use vstd::string::StringSliceAdditionalSpecFns;

verus! {

/// Where a cut leaves a line of nothing but blanks before it, the blanks go.
pub struct IndentRemover {}

/// The start of the line that ends at byte `cursor`, where nothing but spaces
/// and tabs lie between the two and the line starts behind byte `prev`.
pub open spec fn indent_start(content: Seq<u8>, cursor: int, prev: int) -> Option<int>
    decreases cursor,
{
    if cursor <= 0 || cursor - 1 <= prev {
        None
    } else if !is_boundary(content, cursor - 1) {
        indent_start(content, cursor - 1, prev)
    } else if content[cursor - 1] == SPACE || content[cursor - 1] == TAB {
        indent_start(content, cursor - 1, prev)
    } else if content[cursor - 1] == NEWLINE {
        Some(cursor)
    } else {
        None
    }
}

/// The blanks to delete before a cut at `byte_pos`: those of the line that the
/// cut ends, where a line break stands at the cut and the line holds nothing
/// else and starts behind the cut before; nothing otherwise.
pub open spec fn spec_indent(content: Seq<u8>, byte_pos: int, prev_byte_pos: int) -> (int, int) {
    if byte_pos >= content.len() || !is_boundary(content, byte_pos) || content[byte_pos] != NEWLINE {
        (byte_pos, byte_pos)
    } else {
        match indent_start(content, byte_pos, prev_byte_pos) {
            Some(start) => (start, byte_pos),
            None => (byte_pos, byte_pos),
        }
    }
}

/// The start of a line that `indent_start` finds lies between characters, at
/// or before the place the search began, with nothing but spaces and tabs
/// between the two. A search that begins inside a character finds nothing.
pub proof fn lemma_indent_start(content: Seq<u8>, cursor: int, prev: int)
    requires
        vstd::utf8::valid_utf8(content),
        cursor <= content.len(),
    ensures
        indent_start(content, cursor, prev) matches Some(start) ==> 0 < start <= cursor && is_boundary(
            content,
            start,
        ) && blank_between(content, start, cursor),
        !is_boundary(content, cursor) ==> indent_start(content, cursor, prev) is None,
    decreases cursor,
{
    if cursor <= 0 || cursor - 1 <= prev {
    } else if !is_boundary(content, cursor - 1) {
        lemma_indent_start(content, cursor - 1, prev);
    } else {
        lemma_scalar_step(content, cursor - 1);
        if content[cursor - 1] == SPACE || content[cursor - 1] == TAB {
            lemma_indent_start(content, cursor - 1, prev);
        } else if content[cursor - 1] == NEWLINE {
            lemma_ascii_boundaries(content, cursor - 1);
        }
    }
}

impl Formatter for IndentRemover {
    open spec fn spec_format(&self, content: Seq<u8>, byte_pos: int, prev_byte_pos: int) -> (int, int) {
        spec_indent(content, byte_pos, prev_byte_pos)
    }

    fn format(&self, content: &str, byte_pos: usize, prev_byte_pos: usize) -> (range: (usize, usize)) {
        let mut cursor = byte_pos;
        let bytes = content.as_bytes();
        let ghost text = content.spec_bytes();
        proof {
            lemma_str_valid(content);
            lemma_boundary_is_char_boundary(text, byte_pos as int);
        }
        if cursor >= bytes.len() || !content.is_char_boundary(cursor) || bytes[cursor] != NEWLINE {
            return (byte_pos, byte_pos);
        }
        proof {
            lemma_indent_start(text, byte_pos as int, prev_byte_pos as int);
        }
        let mut found = false;
        loop
            invariant_except_break
                !found,
                indent_start(text, cursor as int, prev_byte_pos as int) == indent_start(
                    text,
                    byte_pos as int,
                    prev_byte_pos as int,
                ),
            invariant
                cursor <= byte_pos < bytes.len(),
                bytes@ == text,
                text == content.spec_bytes(),
                vstd::utf8::valid_utf8(text),
            ensures
                cursor <= byte_pos,
                found ==> indent_start(text, byte_pos as int, prev_byte_pos as int) == Some(cursor as int),
                !found ==> indent_start(text, byte_pos as int, prev_byte_pos as int) is None,
            decreases cursor,
        {
            if cursor == 0 {
                break ;
            }
            cursor -= 1;
            if cursor <= prev_byte_pos {
                break ;
            }
            proof {
                lemma_boundary_is_char_boundary(text, cursor as int);
            }
            if content.is_char_boundary(cursor) {
                let current = bytes[cursor];
                if current == SPACE || current == TAB {
                } else if current == NEWLINE {
                    cursor += 1;
                    found = true;
                    break ;
                } else {
                    break ;
                }
            }
        }

        if found {
            return (cursor, byte_pos);
        }
        (byte_pos, byte_pos)
    }
}

} // verus!
