//! Looks for the first character behind the blanks at a position.
use crate::code::utils::line_break_pos_finder::CheckResult;
use crate::code::utils::text::{
    blank_between, is_boundary, lemma_ascii_boundaries, lemma_boundary_is_char_boundary, lemma_str_valid, SPACE,
    TAB,
};
use vstd::prelude::*;
use vstd::string::StringSliceAdditionalSpecFns;
use vstd::utf8::valid_utf8;

verus! {

/// What a search for a character makes of byte `cursor` of `bytes`. A byte
/// inside a character of `content`, a space and a tab are passed over; any
/// other byte is found; the end of the bytes ends the search.
pub open spec fn spec_check(content: Seq<u8>, bytes: Seq<u8>, cursor: int) -> CheckResult {
    if !is_boundary(content, cursor) {
        CheckResult::Skip
    } else if cursor < 0 || cursor >= bytes.len() {
        CheckResult::Stop
    } else if bytes[cursor] == SPACE || bytes[cursor] == TAB {
        CheckResult::Skip
    } else {
        CheckResult::Found
    }
}

/// The first byte at or after `cursor` that is neither a space nor a tab. A
/// search that starts at byte 0 finds nothing.
pub open spec fn spec_find_next_char_pos(content: Seq<u8>, bytes: Seq<u8>, cursor: int) -> Option<int>
    decreases bytes.len() - cursor,
{
    if cursor >= bytes.len() || cursor <= 0 {
        None
    } else {
        match spec_check(content, bytes, cursor) {
            CheckResult::Skip => spec_find_next_char_pos(content, bytes, cursor + 1),
            CheckResult::Found => Some(cursor),
            CheckResult::Stop => None,
        }
    }
}

/// A character that the search finds lies at or after the start of the
/// search, at the start of a character.
pub proof fn lemma_next_char(content: Seq<u8>, bytes: Seq<u8>, cursor: int)
    ensures
        match spec_find_next_char_pos(content, bytes, cursor) {
            Some(pos) => 0 < cursor <= pos < bytes.len() && is_boundary(content, pos),
            None => true,
        },
    decreases bytes.len() - cursor,
{
    if cursor >= bytes.len() || cursor <= 0 {
    } else {
        lemma_next_char(content, bytes, cursor + 1);
    }
}

/// A search that finds a character finds the same one from any place between
/// its start and the character.
pub proof fn lemma_next_char_resumes(content: Seq<u8>, cursor: int, from: int)
    requires
        spec_find_next_char_pos(content, content, cursor) matches Some(pos) && cursor <= from < pos,
    ensures
        spec_find_next_char_pos(content, content, from) == spec_find_next_char_pos(content, content, cursor),
    decreases from - cursor,
{
    if cursor < from {
        lemma_next_char(content, content, cursor + 1);
        lemma_next_char_resumes(content, cursor + 1, from);
    }
}

/// A search that starts between two characters and finds a character has
/// passed nothing but spaces and tabs.
pub proof fn lemma_next_char_blanks(content: Seq<u8>, cursor: int)
    requires
        valid_utf8(content),
        is_boundary(content, cursor),
    ensures
        spec_find_next_char_pos(content, content, cursor) matches Some(pos) ==> blank_between(
            content,
            cursor,
            pos,
        ),
    decreases content.len() - cursor,
{
    if cursor >= content.len() || cursor <= 0 {
    } else if content[cursor] == SPACE || content[cursor] == TAB {
        lemma_ascii_boundaries(content, cursor);
        lemma_next_char_blanks(content, cursor + 1);
    }
}

/// The position of the first byte of `bytes`, the bytes of `content`, at or
/// after `byte_pos` that is neither a space nor a tab; nothing where the text
/// ends before one comes, or where the search starts at byte 0. What is found
/// is the start of a character.
pub fn find_next_char_pos(content: &str, bytes: &[u8], byte_pos: usize) -> (found: Option<usize>)
    ensures
        match found {
            Some(pos) => spec_find_next_char_pos(content.spec_bytes(), bytes@, byte_pos as int) == Some(
                pos as int,
            ),
            None => spec_find_next_char_pos(content.spec_bytes(), bytes@, byte_pos as int) is None,
        },
        found matches Some(pos) ==> byte_pos <= pos < bytes@.len() && is_boundary(
            content.spec_bytes(),
            pos as int,
        ),
{
    proof {
        lemma_next_char(content.spec_bytes(), bytes@, byte_pos as int);
    }
    let mut cursor = byte_pos;
    loop
        invariant
            byte_pos <= cursor,
            spec_find_next_char_pos(content.spec_bytes(), bytes@, cursor as int) == spec_find_next_char_pos(
                content.spec_bytes(),
                bytes@,
                byte_pos as int,
            ),
        decreases bytes.len() - cursor,
    {
        if cursor >= bytes.len() || cursor == 0 {
            return None;
        }
        match check(content, bytes, cursor) {
            CheckResult::Skip => {},
            CheckResult::Found => {
                return Some(cursor);
            },
            CheckResult::Stop => {
                return None;
            },
        }
        cursor += 1;
    }
}

/// What the search makes of byte `cursor`.
fn check(content: &str, bytes: &[u8], cursor: usize) -> (result: CheckResult)
    ensures
        result == spec_check(content.spec_bytes(), bytes@, cursor as int),
{
    proof {
        lemma_str_valid(content);
        lemma_boundary_is_char_boundary(content.spec_bytes(), cursor as int);
    }
    if !content.is_char_boundary(cursor) {
        return CheckResult::Skip;
    }
    if cursor >= bytes.len() {
        return CheckResult::Stop;
    }
    let c = bytes[cursor];
    if c == SPACE || c == TAB {
        CheckResult::Skip
    } else {
        CheckResult::Found
    }
}

} // verus!
