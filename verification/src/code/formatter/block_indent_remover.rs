
use crate::code::formatter::{all_blank, BlockFormatter};
use crate::code::utils::char_pos_finder::{
    find_next_char_pos, lemma_next_char_blanks, lemma_next_char_resumes, spec_find_next_char_pos,
};
use crate::code::utils::line_break_pos_finder::{
    find_next_line_break_pos, find_prev_line_break_pos, spec_find_next_line_break_pos,
    spec_find_prev_line_break_pos,
};
use crate::code::utils::text::{is_boundary, lemma_boundary_is_char_boundary, lemma_str_valid, range_in_text};
use std::ops::Range;
use vstd::prelude::*;
use vstd::string::StringSliceAdditionalSpecFns;

verus! {

/// Takes one step of indentation from every line of a block that was
/// unwrapped.
pub struct BlockIndentRemover {}

/// The number of blanks that the line before byte `byte_pos` starts with.
pub open spec fn spec_indent_len(content: Seq<u8>, byte_pos: int) -> int {
    match spec_find_prev_line_break_pos(content, content, byte_pos, false) {
        Some(line_break) => match spec_find_next_char_pos(content, content, line_break + 1) {
            Some(first_char) => first_char - line_break - 1,
            None => 0,
        },
        None => 0,
    }
}

/// The smaller of two numbers.
pub open spec fn least(a: int, b: int) -> int {
    if a < b {
        a
    } else {
        b
    }
}

/// The blanks to delete from the line that starts at byte `line_start`: up to
/// `indent_len` of them behind the first `indent_ofs`, and none of the text
/// of the line. Nothing is deleted from a line without text, nor where a cut
/// would fall inside a character.
pub open spec fn line_indent(content: Seq<u8>, line_start: int, indent_ofs: int, indent_len: int) -> Seq<
    Range<usize>,
> {
    match spec_find_next_char_pos(content, content, line_start) {
        Some(first_char) => {
            let start = least(line_start + indent_ofs, first_char);
            let end = least(start + indent_len, first_char);
            if start != end && is_boundary(content, start) && is_boundary(content, end) {
                seq![Range { start: start as usize, end: end as usize }]
            } else {
                Seq::empty()
            }
        },
        None => Seq::empty(),
    }
}

/// The blanks to delete from the lines that start at byte `current_pos` and
/// behind it and end no later than byte `end_byte_pos`.
pub open spec fn block_lines(
    content: Seq<u8>,
    current_pos: int,
    end_byte_pos: int,
    indent_ofs: int,
    indent_len: int,
) -> Seq<Range<usize>>
    decreases content.len() - current_pos,
{
    if end_byte_pos <= current_pos {
        Seq::empty()
    } else {
        match spec_find_next_line_break_pos(content, content, current_pos, false) {
            Some(line_break) => if line_break + 1 > end_byte_pos || !(current_pos <= line_break
                < content.len()) {
                Seq::empty()
            } else {
                line_indent(content, current_pos, indent_ofs, indent_len) + block_lines(
                    content,
                    line_break + 1,
                    end_byte_pos,
                    indent_ofs,
                    indent_len,
                )
            },
            None => Seq::empty(),
        }
    }
}

/// The blanks to delete between the cut at `start_byte_pos`, where the head
/// of a block went, and the cut at `end_byte_pos`, where its foot went: from
/// each line between them as many blanks as the first of these lines has more
/// than the line of the first cut has before the cut.
pub open spec fn spec_block_indent(content: Seq<u8>, start_byte_pos: int, end_byte_pos: int) -> Seq<
    Range<usize>,
> {
    if end_byte_pos <= start_byte_pos {
        Seq::empty()
    } else {
        let indent_ofs = match spec_find_prev_line_break_pos(content, content, start_byte_pos, true) {
            Some(pos) => start_byte_pos - pos - 1,
            None => 0,
        };
        let first_indent_len = spec_indent_len(content, start_byte_pos + 1);
        let indent_len = if first_indent_len > indent_ofs {
            first_indent_len - indent_ofs
        } else {
            0
        };
        block_lines(content, start_byte_pos + 1, end_byte_pos, indent_ofs, indent_len)
    }
}

impl BlockFormatter for BlockIndentRemover {
    open spec fn spec_format(&self, content: Seq<u8>, start_byte_pos: int, end_byte_pos: int) -> Seq<
        Range<usize>,
    > {
        spec_block_indent(content, start_byte_pos, end_byte_pos)
    }

    fn format(&self, content: &str, start_byte_pos: usize, end_byte_pos: usize) -> (ranges: Vec<
        Range<usize>,
    >) {
        let bytes = content.as_bytes();
        let len = bytes.len();
        let ghost text = content.spec_bytes();
        let mut positions: Vec<Range<usize>> = Vec::new();
        if end_byte_pos <= start_byte_pos {
            return positions;
        }
        let indent_ofs = match find_prev_line_break_pos(content, bytes, start_byte_pos, true) {
            Some(pos) => start_byte_pos - pos - 1,
            None => 0,
        };
        let mut current_pos = start_byte_pos + 1;
        let first_indent_len = get_indent_len(content, current_pos);
        let indent_len = if first_indent_len > indent_ofs {
            first_indent_len - indent_ofs
        } else {
            0
        };
        let ghost whole = block_lines(
            text,
            current_pos as int,
            end_byte_pos as int,
            indent_ofs as int,
            indent_len as int,
        );
        assert(positions@ + whole =~= whole);
        while end_byte_pos > current_pos
            invariant
                bytes@ == text,
                text == content.spec_bytes(),
                len == text.len(),
                positions@ + block_lines(
                    text,
                    current_pos as int,
                    end_byte_pos as int,
                    indent_ofs as int,
                    indent_len as int,
                ) == whole,
                forall|i: int| 0 <= i < positions@.len() ==> range_in_text(text, #[trigger] positions@[i]),
                all_blank(text, positions@),
            ensures
                positions@ == whole,
                forall|i: int| 0 <= i < positions@.len() ==> range_in_text(text, #[trigger] positions@[i]),
                all_blank(text, positions@),
            decreases len - current_pos,
        {
            let ghost before = positions@;
            let next_pos = match find_next_line_break_pos(content, bytes, current_pos, false) {
                Some(pos) => pos + 1,
                None => {
                    assert(before + Seq::<Range<usize>>::empty() =~= before);
                    break ;
                },
            };
            if next_pos > end_byte_pos {
                assert(before + Seq::<Range<usize>>::empty() =~= before);
                break ;
            }
            let ghost own = line_indent(text, current_pos as int, indent_ofs as int, indent_len as int);
            let ghost rest = block_lines(
                text,
                next_pos as int,
                end_byte_pos as int,
                indent_ofs as int,
                indent_len as int,
            );
            if let Some(indent_pos) = find_next_char_pos(content, bytes, current_pos) {
                let start = if indent_ofs > indent_pos - current_pos {
                    indent_pos
                } else {
                    current_pos + indent_ofs
                };
                let end = if indent_len > indent_pos - start {
                    indent_pos
                } else {
                    start + indent_len
                };
                proof {
                    lemma_str_valid(content);
                    lemma_boundary_is_char_boundary(text, start as int);
                    lemma_boundary_is_char_boundary(text, end as int);
                }
                if start != end && content.is_char_boundary(start) && content.is_char_boundary(end) {
                    proof {
                        if current_pos < start {
                            lemma_next_char_resumes(text, current_pos as int, start as int);
                        }
                        lemma_next_char_blanks(text, start as int);
                    }
                    positions.push(start..end);
                    assert(positions@ =~= before + own);
                } else {
                    assert(before + own =~= before);
                }
            } else {
                assert(before + own =~= before);
            }
            assert((before + own) + rest =~= before + (own + rest));
            current_pos = next_pos;
        }
        proof {
            assert(positions@ + Seq::<Range<usize>>::empty() =~= positions@);
        }
        positions
    }
}

/// The number of blanks that the line before byte `byte_pos` starts with.
fn get_indent_len(content: &str, byte_pos: usize) -> (indent: usize)
    ensures
        indent == spec_indent_len(content.spec_bytes(), byte_pos as int),
{
    let bytes = content.as_bytes();
    let len = bytes.len();
    match find_prev_line_break_pos(content, bytes, byte_pos, false) {
        Some(p) => match find_next_char_pos(content, bytes, p + 1) {
            Some(e) => e - p - 1,
            None => 0,
        },
        None => 0,
    }
}

} // verus!
