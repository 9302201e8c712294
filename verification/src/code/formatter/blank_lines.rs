//! Counts the lines of a text that hold nothing but spaces and tabs.
use crate::code::formatter::all_blank;
use crate::code::utils::text::{blank_between, cut_out, end_before, is_blank, kept_upto, ranges_fit, NEWLINE, SPACE, TAB};
use std::ops::Range;
use vstd::prelude::*;

verus! {

/// 1 for a line that holds nothing but blanks, 0 for any other.
pub open spec fn one_if(blank: bool) -> nat {
    if blank {
        1
    } else {
        0
    }
}

/// The number of blank lines that `text` ends or leaves open, where `blank`
/// says whether the line in which `text` starts has held nothing but spaces
/// and tabs so far. Lines are parted by line breaks; what follows the last
/// line break is a line, empty or not.
pub open spec fn blank_lines_from(text: Seq<u8>, blank: bool) -> nat
    decreases text.len(),
{
    if text.len() == 0 {
        one_if(blank)
    } else if text[0] == NEWLINE {
        one_if(blank) + blank_lines_from(text.drop_first(), true)
    } else if text[0] == SPACE || text[0] == TAB {
        blank_lines_from(text.drop_first(), blank)
    } else {
        blank_lines_from(text.drop_first(), false)
    }
}

/// The number of lines of `text` that hold nothing but spaces and tabs.
pub open spec fn blank_lines(text: Seq<u8>) -> nat {
    blank_lines_from(text, true)
}

/// A text that starts in a line with text before it has no more blank lines
/// than one that starts in a line of blanks.
pub proof fn lemma_blank_lines_rise(text: Seq<u8>)
    ensures
        blank_lines_from(text, false) <= blank_lines_from(text, true),
    decreases text.len(),
{
    if text.len() > 0 && (text[0] == SPACE || text[0] == TAB) {
        lemma_blank_lines_rise(text.drop_first());
    }
}

/// Taking spaces, tabs and line breaks from the start of a text adds no blank
/// line.
pub proof fn lemma_blank_lines_without_head(head: Seq<u8>, tail: Seq<u8>, blank: bool)
    requires
        blank_between(head, 0, head.len() as int),
    ensures
        blank_lines_from(tail, blank) <= blank_lines_from(head + tail, blank),
    decreases head.len(),
{
    if head.len() == 0 {
        assert(head + tail =~= tail);
    } else {
        let rest = head.drop_first();
        assert((head + tail).drop_first() =~= rest + tail);
        assert((head + tail)[0] == head[0]);
        assert(is_blank(head[0]));
        assert forall|i: int| 0 <= i < rest.len() implies is_blank(#[trigger] rest[i]) by {
            assert(rest[i] == head[i + 1]);
        }
        if head[0] == NEWLINE {
            lemma_blank_lines_without_head(rest, tail, true);
            lemma_blank_lines_rise(tail);
        } else {
            lemma_blank_lines_without_head(rest, tail, blank);
        }
    }
}

/// Of two texts with the same start, the one whose rest has no more blank
/// lines has no more blank lines.
pub proof fn lemma_blank_lines_behind(head: Seq<u8>, less: Seq<u8>, more: Seq<u8>, blank: bool)
    requires
        blank_lines_from(less, true) <= blank_lines_from(more, true),
        blank_lines_from(less, false) <= blank_lines_from(more, false),
    ensures
        blank_lines_from(head + less, blank) <= blank_lines_from(head + more, blank),
    decreases head.len(),
{
    if head.len() == 0 {
        assert(head + less =~= less);
        assert(head + more =~= more);
    } else {
        let rest = head.drop_first();
        assert((head + less).drop_first() =~= rest + less);
        assert((head + more).drop_first() =~= rest + more);
        assert((head + less)[0] == head[0]);
        assert((head + more)[0] == head[0]);
        if head[0] == NEWLINE {
            lemma_blank_lines_behind(rest, less, more, true);
        } else if head[0] == SPACE || head[0] == TAB {
            lemma_blank_lines_behind(rest, less, more, blank);
        } else {
            lemma_blank_lines_behind(rest, less, more, false);
        }
    }
}

/// The text with the first `n` of `ranges` left out.
pub open spec fn cut_upto(bytes: Seq<u8>, ranges: Seq<Range<usize>>, n: int) -> Seq<u8> {
    kept_upto(bytes, ranges, n) + bytes.subrange(end_before(ranges, n), bytes.len() as int)
}

/// Leaving out ranges of spaces, tabs and line breaks adds no blank line,
/// whatever stood before the text.
pub proof fn lemma_cut_upto_blank_lines(bytes: Seq<u8>, ranges: Seq<Range<usize>>, n: int, blank: bool)
    requires
        ranges_fit(bytes, ranges),
        all_blank(bytes, ranges),
        0 <= n <= ranges.len(),
    ensures
        blank_lines_from(cut_upto(bytes, ranges, n), blank) <= blank_lines_from(bytes, blank),
    decreases n,
{
    let len = bytes.len() as int;
    if n == 0 {
        assert(cut_upto(bytes, ranges, 0) =~= bytes);
    } else {
        lemma_cut_upto_blank_lines(bytes, ranges, n - 1, blank);
        let range = ranges[n - 1];
        let from = end_before(ranges, n - 1);
        if n > 1 {
            assert(ranges[n - 2].end <= range.start);
        }
        let head = kept_upto(bytes, ranges, n);
        let gone = bytes.subrange(range.start as int, range.end as int);
        let tail = bytes.subrange(range.end as int, len);
        assert(blank_between(bytes, range.start as int, range.end as int));
        assert forall|i: int| 0 <= i < gone.len() implies is_blank(#[trigger] gone[i]) by {
            assert(gone[i] == bytes[range.start + i]);
        }
        lemma_blank_lines_without_head(gone, tail, true);
        lemma_blank_lines_without_head(gone, tail, false);
        lemma_blank_lines_behind(head, tail, gone + tail, blank);
        assert(cut_upto(bytes, ranges, n) =~= head + tail);
        assert(cut_upto(bytes, ranges, n - 1) =~= head + (gone + tail));
    }
}

/// A text from which ranges of spaces, tabs and line breaks are cut has no
/// more blank lines than it had.
pub proof fn lemma_cut_blank_lines(bytes: Seq<u8>, ranges: Seq<Range<usize>>)
    requires
        ranges_fit(bytes, ranges),
        all_blank(bytes, ranges),
    ensures
        blank_lines(cut_out(bytes, ranges)) <= blank_lines(bytes),
{
    lemma_cut_upto_blank_lines(bytes, ranges, ranges.len() as int, true);
}

} // verus!
