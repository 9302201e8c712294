//! Looks for the line break next to a position, across blanks.
use crate::code::utils::text::{
    blank_between, is_boundary, lemma_ascii_boundaries, lemma_boundary_is_char_boundary, lemma_scalar_step,
    lemma_str_valid, NEWLINE, SPACE, TAB,
};
use vstd::prelude::*;
use vstd::string::StringSliceAdditionalSpecFns;
use vstd::utf8::valid_utf8;

verus! {

/// What a search makes of one byte: it goes on past it, it has found what it
/// looks for, or it has met something else.
#[derive(Debug, Clone, Copy)]
pub enum CheckResult {
    Skip,
    Found,
    Stop,
}

/// What a search for a line break makes of byte `cursor` of `bytes`. A byte
/// inside a character of `content`, a space and a tab are passed over; a line
/// break is found; any other byte, and the end of the bytes, is something
/// else.
pub open spec fn spec_check(content: Seq<u8>, bytes: Seq<u8>, cursor: int) -> CheckResult {
    if !is_boundary(content, cursor) {
        CheckResult::Skip
    } else if cursor < 0 || cursor >= bytes.len() {
        CheckResult::Stop
    } else if bytes[cursor] == SPACE || bytes[cursor] == TAB {
        CheckResult::Skip
    } else if bytes[cursor] == NEWLINE {
        CheckResult::Found
    } else {
        CheckResult::Stop
    }
}

/// The first line break at or after byte `cursor`. With `pause_on_char` only
/// blanks may lie before it; without, anything may. A search that starts at
/// byte 0 finds nothing.
pub open spec fn spec_find_next_line_break_pos(
    content: Seq<u8>,
    bytes: Seq<u8>,
    cursor: int,
    pause_on_char: bool,
) -> Option<int>
    decreases bytes.len() - cursor,
{
    if cursor >= bytes.len() || cursor <= 0 {
        None
    } else {
        match spec_check(content, bytes, cursor) {
            CheckResult::Skip => spec_find_next_line_break_pos(content, bytes, cursor + 1, pause_on_char),
            CheckResult::Found => Some(cursor),
            CheckResult::Stop => if pause_on_char {
                None
            } else {
                spec_find_next_line_break_pos(content, bytes, cursor + 1, pause_on_char)
            },
        }
    }
}

/// The last line break before byte `cursor`. With `pause_on_char` only blanks
/// may lie behind it; without, anything may.
pub open spec fn spec_find_prev_line_break_pos(
    content: Seq<u8>,
    bytes: Seq<u8>,
    cursor: int,
    pause_on_char: bool,
) -> Option<int>
    decreases cursor,
{
    if cursor <= 0 || cursor - 1 >= bytes.len() {
        None
    } else {
        match spec_check(content, bytes, cursor - 1) {
            CheckResult::Skip => spec_find_prev_line_break_pos(content, bytes, cursor - 1, pause_on_char),
            CheckResult::Found => Some(cursor - 1),
            CheckResult::Stop => if pause_on_char {
                None
            } else {
                spec_find_prev_line_break_pos(content, bytes, cursor - 1, pause_on_char)
            },
        }
    }
}

/// A line break that the forward search finds lies at or after the start of
/// the search, and is a line break.
pub proof fn lemma_next_line_break(content: Seq<u8>, bytes: Seq<u8>, cursor: int, pause_on_char: bool)
    ensures
        match spec_find_next_line_break_pos(content, bytes, cursor, pause_on_char) {
            Some(pos) => {
                &&& 0 < cursor <= pos < bytes.len()
                &&& bytes[pos] == NEWLINE
                &&& is_boundary(content, pos)
            },
            None => true,
        },
    decreases bytes.len() - cursor,
{
    if cursor >= bytes.len() || cursor <= 0 {
    } else {
        lemma_next_line_break(content, bytes, cursor + 1, pause_on_char);
    }
}

/// A line break that the backward search finds lies before the start of the
/// search, and is a line break.
pub proof fn lemma_prev_line_break(content: Seq<u8>, bytes: Seq<u8>, cursor: int, pause_on_char: bool)
    ensures
        match spec_find_prev_line_break_pos(content, bytes, cursor, pause_on_char) {
            Some(pos) => {
                &&& 0 <= pos < cursor
                &&& pos < bytes.len()
                &&& bytes[pos] == NEWLINE
                &&& is_boundary(content, pos)
            },
            None => true,
        },
    decreases cursor,
{
    if cursor <= 0 || cursor - 1 >= bytes.len() {
    } else {
        lemma_prev_line_break(content, bytes, cursor - 1, pause_on_char);
    }
}

/// A forward search across blanks that starts between two characters and
/// finds a line break has passed nothing but spaces and tabs.
pub proof fn lemma_next_line_break_blanks(content: Seq<u8>, cursor: int)
    requires
        valid_utf8(content),
        is_boundary(content, cursor),
    ensures
        spec_find_next_line_break_pos(content, content, cursor, true) matches Some(pos) ==> blank_between(
            content,
            cursor,
            pos + 1,
        ),
    decreases content.len() - cursor,
{
    if cursor >= content.len() || cursor <= 0 {
    } else if content[cursor] == SPACE || content[cursor] == TAB {
        lemma_ascii_boundaries(content, cursor);
        lemma_next_line_break_blanks(content, cursor + 1);
    }
}

/// A backward search across blanks finds nothing when it starts inside a
/// character; one that finds a line break has passed nothing but spaces and
/// tabs.
pub proof fn lemma_prev_line_break_blanks(content: Seq<u8>, cursor: int)
    requires
        valid_utf8(content),
    ensures
        !is_boundary(content, cursor) ==> spec_find_prev_line_break_pos(content, content, cursor, true) is None,
        spec_find_prev_line_break_pos(content, content, cursor, true) matches Some(pos) ==> blank_between(
            content,
            pos,
            cursor,
        ),
    decreases cursor,
{
    if cursor <= 0 || cursor - 1 >= content.len() {
    } else if !is_boundary(content, cursor - 1) {
        lemma_prev_line_break_blanks(content, cursor - 1);
    } else {
        lemma_scalar_step(content, cursor - 1);
        if content[cursor - 1] == SPACE || content[cursor - 1] == TAB {
            lemma_prev_line_break_blanks(content, cursor - 1);
        }
    }
}

/// The position of the first line break of `bytes`, the bytes of `content`,
/// at or after `byte_pos`. With `pause_on_char` the search ends without a
/// find at the first byte that is neither a blank nor a line break; without,
/// it goes on to the end of the text. A search that starts at byte 0 finds
/// nothing.
pub fn find_next_line_break_pos(content: &str, bytes: &[u8], byte_pos: usize, pause_on_char: bool) -> (found:
    Option<usize>)
    ensures
        match found {
            Some(pos) => spec_find_next_line_break_pos(content.spec_bytes(), bytes@, byte_pos as int, pause_on_char)
                == Some(pos as int),
            None => spec_find_next_line_break_pos(content.spec_bytes(), bytes@, byte_pos as int, pause_on_char)
                is None,
        },
        found matches Some(pos) ==> byte_pos <= pos < bytes@.len() && bytes@[pos as int] == NEWLINE
            && is_boundary(content.spec_bytes(), pos as int),
{
    proof {
        lemma_next_line_break(content.spec_bytes(), bytes@, byte_pos as int, pause_on_char);
    }
    let mut cursor = byte_pos;
    loop
        invariant
            byte_pos <= cursor,
            spec_find_next_line_break_pos(content.spec_bytes(), bytes@, cursor as int, pause_on_char)
                == spec_find_next_line_break_pos(content.spec_bytes(), bytes@, byte_pos as int, pause_on_char),
        decreases bytes.len() - cursor,
    {
        if cursor >= bytes.len() || cursor == 0 {
            return None;
        }
        match check(content, bytes, cursor) {
            CheckResult::Skip => {},
            CheckResult::Found => {
                return Some(cursor);
            },
            CheckResult::Stop => {
                if pause_on_char {
                    return None;
                }
            },
        }
        cursor += 1;
    }
}

/// The position of the last line break of `bytes`, the bytes of `content`,
/// before `byte_pos`. With `pause_on_char` the search ends without a find at
/// the first byte that is neither a blank nor a line break; without, it goes
/// on to the start of the text.
pub fn find_prev_line_break_pos(content: &str, bytes: &[u8], byte_pos: usize, pause_on_char: bool) -> (found:
    Option<usize>)
    ensures
        match found {
            Some(pos) => spec_find_prev_line_break_pos(content.spec_bytes(), bytes@, byte_pos as int, pause_on_char)
                == Some(pos as int),
            None => spec_find_prev_line_break_pos(content.spec_bytes(), bytes@, byte_pos as int, pause_on_char)
                is None,
        },
        found matches Some(pos) ==> pos < byte_pos && pos < bytes@.len() && bytes@[pos as int] == NEWLINE
            && is_boundary(content.spec_bytes(), pos as int),
{
    proof {
        lemma_prev_line_break(content.spec_bytes(), bytes@, byte_pos as int, pause_on_char);
    }
    let mut cursor = byte_pos;
    loop
        invariant
            cursor <= byte_pos,
            spec_find_prev_line_break_pos(content.spec_bytes(), bytes@, cursor as int, pause_on_char)
                == spec_find_prev_line_break_pos(content.spec_bytes(), bytes@, byte_pos as int, pause_on_char),
        decreases cursor,
    {
        if cursor == 0 {
            return None;
        }
        cursor -= 1;
        if cursor >= bytes.len() {
            return None;
        }
        match check(content, bytes, cursor) {
            CheckResult::Skip => {},
            CheckResult::Found => {
                return Some(cursor);
            },
            CheckResult::Stop => {
                if pause_on_char {
                    return None;
                }
            },
        }
    }
}

/// What the search makes of byte `cursor`.
fn check(content: &str, bytes: &[u8], cursor: usize) -> (result: CheckResult)
    ensures
        result == spec_check(content.spec_bytes(), bytes@, cursor as int),
{
    proof {
        lemma_str_valid(content);
        lemma_boundary_is_char_boundary(content.spec_bytes(), cursor as int);
    }
    if !content.is_char_boundary(cursor) {
        return CheckResult::Skip;
    }
    if cursor >= bytes.len() {
        return CheckResult::Stop;
    }
    let c = bytes[cursor];
    if c == SPACE || c == TAB {
        CheckResult::Skip
    } else if c == NEWLINE {
        CheckResult::Found
    } else {
        CheckResult::Stop
    }
}

} // verus!
