//! Tidies the text around the places where directives were cut out.
use crate::code::remover::RemovedMarker;
use crate::code::utils::text::{blank_between, cut_out, cut_ranges, is_boundary, range_in_text, ranges_fit};
use std::ops::Range;
use vstd::prelude::*;
use vstd::string::StringSliceAdditionalSpecFns;
use vstd::utf8::encode_utf8;
use self::blank_lines::{blank_lines, lemma_cut_blank_lines};

pub mod blank_lines;
pub mod block_indent_remover;
pub mod empty_line_remover;
pub mod indent_remover;
pub mod next_line_break_remover;
pub mod prev_line_break_remover;

verus! {

/// A rule that looks at one cut in the text and says what blank text next to
/// it is to go as well.
pub trait Formatter {
    /// The range that the rule gives for a cut at `byte_pos`, when the cut
    /// before it was at `prev_byte_pos`.
    spec fn spec_format(&self, content: Seq<u8>, byte_pos: int, prev_byte_pos: int) -> (int, int);

    /// Gives the start and the end of the text to delete at the cut
    /// `byte_pos`. For a cut between two characters both lie between
    /// characters, the cut lies between them, and they hold nothing but
    /// spaces, tabs and line breaks. For a position inside a character, or
    /// behind the text, nothing is deleted.
    fn format(&self, content: &str, byte_pos: usize, prev_byte_pos: usize) -> (range: (usize, usize))
        ensures
            (range.0 as int, range.1 as int) == self.spec_format(
                content.spec_bytes(),
                byte_pos as int,
                prev_byte_pos as int,
            ),
            !is_boundary(content.spec_bytes(), byte_pos as int) ==> range == (byte_pos, byte_pos),
            is_boundary(content.spec_bytes(), byte_pos as int) ==> {
                &&& range.0 <= byte_pos <= range.1
                &&& is_boundary(content.spec_bytes(), range.0 as int)
                &&& is_boundary(content.spec_bytes(), range.1 as int)
                &&& blank_between(content.spec_bytes(), range.0 as int, range.1 as int)
            },
    ;
}

/// A rule that looks at the text between two cuts that belong together and
/// says what is to go from it.
pub trait BlockFormatter {
    /// The ranges that the rule gives for the text between the two cuts.
    spec fn spec_format(&self, content: Seq<u8>, start_byte_pos: int, end_byte_pos: int) -> Seq<
        Range<usize>,
    >;

    /// Gives the ranges to delete between the cut `start_byte_pos` and the cut
    /// `end_byte_pos`; each lies in the text and between characters, and holds
    /// nothing but spaces, tabs and line breaks.
    fn format(&self, content: &str, start_byte_pos: usize, end_byte_pos: usize) -> (ranges: Vec<
        Range<usize>,
    >)
        ensures
            ranges@ == self.spec_format(content.spec_bytes(), start_byte_pos as int, end_byte_pos as int),
            forall|i: int| 0 <= i < ranges@.len() ==> range_in_text(content.spec_bytes(), #[trigger] ranges@[i]),
            all_blank(content.spec_bytes(), ranges@),
    ;
}

/// The larger of two numbers.
pub open spec fn greater(a: int, b: int) -> int {
    if a > b {
        a
    } else {
        b
    }
}

/// The smaller of two numbers.
pub open spec fn smaller(a: int, b: int) -> int {
    if a < b {
        a
    } else {
        b
    }
}

/// The range to delete at the cut `pos` by the first `n` of `formatters`: it
/// spans what each of them gives, takes in the cut, and starts no earlier
/// than the cut before, `prev_pos`.
pub open spec fn spec_format_block(
    formatters: Seq<Box<dyn Formatter>>,
    n: nat,
    content: Seq<u8>,
    pos: int,
    prev_pos: int,
) -> (int, int)
    decreases n,
{
    if n == 0 || n > formatters.len() {
        (pos, pos)
    } else {
        let range = spec_format_block(formatters, (n - 1) as nat, content, pos, prev_pos);
        let (start, end) = formatters[n - 1].spec_format(content, pos, prev_pos);
        (greater(smaller(start, range.0), prev_pos), greater(greater(end, range.1), pos))
    }
}

/// The position of the cut before cut `k`: the start of the text for the
/// first cut.
pub open spec fn prev_cut(removed_pos: Seq<RemovedMarker>, k: int) -> int {
    if k <= 0 {
        0
    } else {
        removed_pos[k - 1].0 as int
    }
}

/// For each cut the range that is deleted at it, where `point` gives the range
/// for a cut and the cut before it.
pub open spec fn point_ranges(
    content: Seq<u8>,
    removed_pos: Seq<RemovedMarker>,
    point: spec_fn(Seq<u8>, int, int) -> (int, int),
) -> Seq<Range<usize>> {
    Seq::new(
        removed_pos.len(),
        |k: int|
            {
                let range = point(content, removed_pos[k].0 as int, prev_cut(removed_pos, k));
                Range { start: range.0 as usize, end: range.1 as usize }
            },
    )
}

/// What the first `n` of the block formatters delete between two cuts.
pub open spec fn structure_ranges(
    structure_formatters: Seq<Box<dyn BlockFormatter>>,
    n: nat,
    content: Seq<u8>,
    start: int,
    end: int,
) -> Seq<Range<usize>>
    decreases n,
{
    if n == 0 || n > structure_formatters.len() {
        Seq::empty()
    } else {
        structure_ranges(structure_formatters, (n - 1) as nat, content, start, end) + structure_formatters[n
            - 1].spec_format(content, start, end)
    }
}

/// What is deleted between cuts that belong together for the first `k` cuts:
/// for each cut that goes with a later cut, what `block` gives for the two.
pub open spec fn open_ranges(
    content: Seq<u8>,
    removed_pos: Seq<RemovedMarker>,
    k: nat,
    block: spec_fn(Seq<u8>, int, int) -> Seq<Range<usize>>,
) -> Seq<Range<usize>>
    decreases k,
{
    if k == 0 || k > removed_pos.len() {
        Seq::empty()
    } else {
        let before = open_ranges(content, removed_pos, (k - 1) as nat, block);
        let (pos, pair) = removed_pos[k - 1];
        match pair {
            Some(at) => if at < removed_pos.len() && pos < removed_pos[at as int].0 {
                before + block(content, pos as int, removed_pos[at as int].0 as int)
            } else {
                before
            },
            None => before,
        }
    }
}

/// The place of the last range at or before place `cursor` that starts before
/// `start`; -1 where there is none.
pub open spec fn seek(ranges: Seq<Range<usize>>, cursor: int, start: usize) -> int
    decreases cursor + 1,
{
    if cursor < 0 || cursor >= ranges.len() {
        -1
    } else if ranges[cursor].start < start {
        cursor
    } else {
        seek(ranges, cursor - 1, start)
    }
}

/// `ranges` with the first `n` of `new_ranges` put in, last first: each goes
/// behind the last range that starts before it, looking back from `cursor`,
/// the place where the one before it went.
pub open spec fn merged(ranges: Seq<Range<usize>>, new_ranges: Seq<Range<usize>>, n: int, cursor: int) -> Seq<
    Range<usize>,
>
    decreases n,
{
    if n <= 0 || n > new_ranges.len() {
        ranges
    } else {
        let new_range = new_ranges[n - 1];
        let place = seek(ranges, cursor, new_range.start);
        merged(ranges.insert(place + 1, new_range), new_ranges, n - 1, place)
    }
}

/// `ranges` with `new_ranges` put in so that a list in the order of its
/// starts stays in that order. Nothing is put into an empty list.
pub open spec fn spec_merge_ranges(ranges: Seq<Range<usize>>, new_ranges: Seq<Range<usize>>) -> Seq<
    Range<usize>,
> {
    if ranges.len() == 0 {
        ranges
    } else {
        merged(ranges, new_ranges, new_ranges.len() as int, ranges.len() - 1)
    }
}

/// The first `n` of `ranges` with every range that starts at or before the
/// end of what came before it joined to that.
pub open spec fn collapsed(ranges: Seq<Range<usize>>, n: int) -> Seq<Range<usize>>
    decreases n,
{
    if n <= 0 || n > ranges.len() {
        Seq::empty()
    } else if n == 1 {
        seq![ranges[0]]
    } else {
        let before = collapsed(ranges, n - 1);
        let last = before.last();
        let range = ranges[n - 1];
        if last.end >= range.start {
            before.update(
                before.len() - 1,
                Range {
                    start: last.start,
                    end: if last.end > range.end {
                        last.end
                    } else {
                        range.end
                    },
                },
            )
        } else {
            before.push(range)
        }
    }
}

/// `ranges` with the ranges that overlap or touch joined.
pub open spec fn spec_merge_overlapped_ranges(ranges: Seq<Range<usize>>) -> Seq<Range<usize>> {
    collapsed(ranges, ranges.len() as int)
}

/// True when every one of `ranges` lies in `content`, starts no later than it
/// ends, and cuts between characters.
pub open spec fn all_in_text(content: Seq<u8>, ranges: Seq<Range<usize>>) -> bool {
    forall|i: int| 0 <= i < ranges.len() ==> range_in_text(content, #[trigger] ranges[i])
}

/// True when every one of `ranges` holds nothing but spaces, tabs and line
/// breaks of `content`.
pub open spec fn all_blank(content: Seq<u8>, ranges: Seq<Range<usize>>) -> bool {
    forall|i: int|
        0 <= i < ranges.len() ==> blank_between(content, (#[trigger] ranges[i]).start as int, ranges[i].end as int)
}

/// A place that `seek` gives is a place of the list, or -1.
pub proof fn lemma_seek_place(ranges: Seq<Range<usize>>, cursor: int, start: usize)
    requires
        -1 <= cursor < ranges.len(),
    ensures
        -1 <= seek(ranges, cursor, start) <= cursor,
        seek(ranges, cursor, start) < ranges.len(),
    decreases cursor + 1,
{
    if cursor >= 0 && !(ranges[cursor].start < start) {
        lemma_seek_place(ranges, cursor - 1, start);
    }
}

/// Putting ranges of the text into ranges of the text gives ranges of the
/// text; where all of them hold nothing but blanks, so do the ranges given.
pub proof fn lemma_merged_in_text(
    content: Seq<u8>,
    ranges: Seq<Range<usize>>,
    new_ranges: Seq<Range<usize>>,
    n: int,
    cursor: int,
)
    requires
        all_in_text(content, ranges),
        all_in_text(content, new_ranges),
        -1 <= cursor < ranges.len(),
    ensures
        all_in_text(content, merged(ranges, new_ranges, n, cursor)),
        all_blank(content, ranges) && all_blank(content, new_ranges) ==> all_blank(
            content,
            merged(ranges, new_ranges, n, cursor),
        ),
    decreases n,
{
    if n <= 0 || n > new_ranges.len() {
    } else {
        let new_range = new_ranges[n - 1];
        let place = seek(ranges, cursor, new_range.start);
        lemma_seek_place(ranges, cursor, new_range.start);
        let next = ranges.insert(place + 1, new_range);
        assert forall|i: int| 0 <= i < next.len() implies range_in_text(content, #[trigger] next[i]) by {
            if i < place + 1 {
                assert(next[i] == ranges[i]);
            } else if i > place + 1 {
                assert(next[i] == ranges[i - 1]);
            }
        }
        if all_blank(content, ranges) && all_blank(content, new_ranges) {
            assert forall|i: int| 0 <= i < next.len() implies blank_between(
                content,
                (#[trigger] next[i]).start as int,
                next[i].end as int,
            ) by {
                if i < place + 1 {
                    assert(next[i] == ranges[i]);
                } else if i > place + 1 {
                    assert(next[i] == ranges[i - 1]);
                }
            }
        }
        lemma_merged_in_text(content, next, new_ranges, n - 1, place);
    }
}

/// Joined ranges of the text can be cut out of the text: they are ranges of
/// the text, and text is left between each and the next. Where the ranges
/// hold nothing but blanks, so do the joined ranges.
pub proof fn lemma_collapsed_fit(content: Seq<u8>, ranges: Seq<Range<usize>>, n: int)
    requires
        all_in_text(content, ranges),
        0 <= n <= ranges.len(),
    ensures
        ranges_fit(content, collapsed(ranges, n)),
        all_in_text(content, collapsed(ranges, n)),
        n > 0 ==> collapsed(ranges, n).len() > 0,
        forall|i: int|
            0 < i < collapsed(ranges, n).len() ==> collapsed(ranges, n)[i - 1].end < (#[trigger] collapsed(
                ranges,
                n,
            )[i]).start,
        all_blank(content, ranges) ==> all_blank(content, collapsed(ranges, n)),
    decreases n,
{
    if n <= 0 {
    } else if n == 1 {
        assert(range_in_text(content, ranges[0]));
    } else {
        lemma_collapsed_fit(content, ranges, n - 1);
        let before = collapsed(ranges, n - 1);
        let out = collapsed(ranges, n);
        let range = ranges[n - 1];
        assert(range_in_text(content, range));
        assert(range_in_text(content, before.last()));
        assert forall|i: int| 0 <= i < out.len() implies range_in_text(content, #[trigger] out[i]) by {
            if i < before.len() - 1 {
                assert(out[i] == before[i]);
                assert(range_in_text(content, before[i]));
            }
        }
        assert forall|i: int| 0 < i < out.len() implies out[i - 1].end < (#[trigger] out[i]).start by {
            if i < before.len() - 1 {
                assert(out[i] == before[i]);
                assert(out[i - 1] == before[i - 1]);
                assert(before[i - 1].end < before[i].start);
            } else if i == before.len() - 1 {
                assert(out[i - 1] == before[i - 1]);
                assert(before[i - 1].end < before[i].start);
            }
        }
        if all_blank(content, ranges) {
            assert(blank_between(content, range.start as int, range.end as int));
            assert(blank_between(content, before.last().start as int, before.last().end as int));
            assert forall|i: int| 0 <= i < out.len() implies blank_between(
                content,
                (#[trigger] out[i]).start as int,
                out[i].end as int,
            ) by {
                if i < before.len() - 1 {
                    assert(out[i] == before[i]);
                    assert(blank_between(content, before[i].start as int, before[i].end as int));
                }
            }
        }
    }
}

/// True when `removed_pos` can be formatted in `content`: each cut lies
/// between characters, no cut lies before the one before it, and each cut
/// that points at another points inside the list.
pub open spec fn cuts_fit(content: Seq<u8>, removed_pos: Seq<RemovedMarker>) -> bool {
    &&& forall|i: int| 0 <= i < removed_pos.len() ==> is_boundary(content, (#[trigger] removed_pos[i]).0 as int)
    &&& forall|i: int| 0 < i < removed_pos.len() ==> removed_pos[i - 1].0 <= (#[trigger] removed_pos[i]).0
    &&& forall|i: int|
        0 <= i < removed_pos.len() ==> ((#[trigger] removed_pos[i]).1 matches Some(at) ==> at
            < removed_pos.len())
}

/// What is deleted from `content` to tidy it at the cuts `removed_pos`, where
/// `point` gives what is deleted at a cut and `block` what is deleted between
/// two cuts that belong together: all of it, joined where it overlaps.
pub open spec fn deleted_with(
    point: spec_fn(Seq<u8>, int, int) -> (int, int),
    block: spec_fn(Seq<u8>, int, int) -> Seq<Range<usize>>,
    content: Seq<u8>,
    removed_pos: Seq<RemovedMarker>,
) -> Seq<Range<usize>> {
    spec_merge_overlapped_ranges(
        spec_merge_ranges(
            point_ranges(content, removed_pos, point),
            open_ranges(content, removed_pos, removed_pos.len(), block),
        ),
    )
}

/// The text `content` tidied at the cuts `removed_pos`: `content` without
/// what `deleted_with` gives.
pub open spec fn format_with(
    point: spec_fn(Seq<u8>, int, int) -> (int, int),
    block: spec_fn(Seq<u8>, int, int) -> Seq<Range<usize>>,
    content: Seq<u8>,
    removed_pos: Seq<RemovedMarker>,
) -> Seq<u8> {
    cut_out(content, deleted_with(point, block, content, removed_pos))
}

/// What the formatters delete from `content` to tidy it at the cuts
/// `removed_pos`.
pub open spec fn spec_deleted(
    content: Seq<u8>,
    removed_pos: Seq<RemovedMarker>,
    formatters: Seq<Box<dyn Formatter>>,
    structure_formatters: Seq<Box<dyn BlockFormatter>>,
) -> Seq<Range<usize>> {
    deleted_with(
        |text: Seq<u8>, pos: int, prev_pos: int|
            spec_format_block(formatters, formatters.len(), text, pos, prev_pos),
        |text: Seq<u8>, start: int, end: int|
            structure_ranges(structure_formatters, structure_formatters.len(), text, start, end),
        content,
        removed_pos,
    )
}

/// The text `content` tidied at the cuts `removed_pos`: what the formatters
/// delete at each cut and what the block formatters delete between cuts that
/// belong together is joined where it overlaps and left out.
pub open spec fn spec_format(
    content: Seq<u8>,
    removed_pos: Seq<RemovedMarker>,
    formatters: Seq<Box<dyn Formatter>>,
    structure_formatters: Seq<Box<dyn BlockFormatter>>,
) -> Seq<u8> {
    format_with(
        |text: Seq<u8>, pos: int, prev_pos: int|
            spec_format_block(formatters, formatters.len(), text, pos, prev_pos),
        |text: Seq<u8>, start: int, end: int|
            structure_ranges(structure_formatters, structure_formatters.len(), text, start, end),
        content,
        removed_pos,
    )
}

/// A text without cuts is left as it is.
pub proof fn lemma_format_without_cuts(
    point: spec_fn(Seq<u8>, int, int) -> (int, int),
    block: spec_fn(Seq<u8>, int, int) -> Seq<Range<usize>>,
    content: Seq<u8>,
)
    ensures
        format_with(point, block, content, Seq::empty()) == content,
{
    let none = Seq::<RemovedMarker>::empty();
    let points = point_ranges(content, none, point);
    assert(points.len() == 0);
    let ranges = spec_merge_ranges(points, open_ranges(content, none, 0, block));
    assert(ranges.len() == 0);
    assert(spec_merge_overlapped_ranges(ranges).len() == 0);
    assert(cut_out(content, spec_merge_overlapped_ranges(ranges)) =~= content);
}

/// Tidies `content` at the cuts `removed_pos`, the positions at which text was
/// removed from it. At each cut the formatters say what blank text goes; for
/// a cut that goes with a later one the block formatters say what goes
/// between the two. What comes back is `content` without the ranges of
/// `spec_deleted`: these lie one behind the other between characters and hold
/// nothing but spaces, tabs and line breaks, so every other character is kept
/// whole and in its place among the others, and no blank line is added.
pub fn format(
    content: &str,
    removed_pos: &[RemovedMarker],
    formatters: &[Box<dyn Formatter>],
    structure_formatters: &[Box<dyn BlockFormatter>],
) -> (formatted: String)
    requires
        cuts_fit(content.spec_bytes(), removed_pos@),
    ensures
        encode_utf8(formatted@) == spec_format(
            content.spec_bytes(),
            removed_pos@,
            formatters@,
            structure_formatters@,
        ),
        encode_utf8(formatted@) == cut_out(
            content.spec_bytes(),
            spec_deleted(content.spec_bytes(), removed_pos@, formatters@, structure_formatters@),
        ),
        ranges_fit(
            content.spec_bytes(),
            spec_deleted(content.spec_bytes(), removed_pos@, formatters@, structure_formatters@),
        ),
        all_blank(
            content.spec_bytes(),
            spec_deleted(content.spec_bytes(), removed_pos@, formatters@, structure_formatters@),
        ),
        blank_lines(encode_utf8(formatted@)) <= blank_lines(content.spec_bytes()),
{
    let ghost text = content.spec_bytes();
    let ghost point = |text: Seq<u8>, pos: int, prev_pos: int|
        spec_format_block(formatters@, formatters@.len(), text, pos, prev_pos);
    let ghost block = |text: Seq<u8>, start: int, end: int|
        structure_ranges(structure_formatters@, structure_formatters@.len(), text, start, end);
    let mut ranges: Vec<Range<usize>> = Vec::new();
    let mut open_structure_remove_range: Vec<Range<usize>> = Vec::new();
    let mut prev_pos: usize = 0;
    let mut k: usize = 0;
    while k < removed_pos.len()
        invariant
            k <= removed_pos.len(),
            text == content.spec_bytes(),
            cuts_fit(text, removed_pos@),
            prev_pos == prev_cut(removed_pos@, k as int),
            is_boundary(text, prev_pos as int),
            ranges@.len() == k,
            forall|i: int| 0 <= i < k ==> ranges@[i] == point_ranges(text, removed_pos@, point)[i],
            all_in_text(text, ranges@),
            open_structure_remove_range@ == open_ranges(text, removed_pos@, k as nat, block),
            point == |text: Seq<u8>, pos: int, prev_pos: int|
                spec_format_block(formatters@, formatters@.len(), text, pos, prev_pos),
            block == |text: Seq<u8>, start: int, end: int|
                structure_ranges(structure_formatters@, structure_formatters@.len(), text, start, end),
            all_in_text(text, open_structure_remove_range@),
            all_blank(text, ranges@),
            all_blank(text, open_structure_remove_range@),
        decreases removed_pos.len() - k,
    {
        let pos = removed_pos[k].0;
        let pair_idx = removed_pos[k].1;
        proof {
            if k > 0 {
                assert(removed_pos@[k - 1].0 <= removed_pos@[k as int].0);
            }
        }
        let range = format_block(content, pos, prev_pos, formatters);
        ranges.push(range);
        if let Some(pair_idx) = pair_idx {
            let pair_start_pos = removed_pos[pair_idx].0;
            if pos < pair_start_pos {
                let ghost before = open_structure_remove_range@;
                let mut n: usize = 0;
                assert(before + Seq::<Range<usize>>::empty() =~= before);
                while n < structure_formatters.len()
                    invariant
                        n <= structure_formatters.len(),
                        text == content.spec_bytes(),
                        open_structure_remove_range@ == before + structure_ranges(
                            structure_formatters@,
                            n as nat,
                            text,
                            pos as int,
                            pair_start_pos as int,
                        ),
                        all_in_text(text, open_structure_remove_range@),
                        all_blank(text, open_structure_remove_range@),
                    decreases structure_formatters.len() - n,
                {
                    let ghost so_far = open_structure_remove_range@;
                    let ghost done = structure_ranges(
                        structure_formatters@,
                        n as nat,
                        text,
                        pos as int,
                        pair_start_pos as int,
                    );
                    let mut own = structure_formatters[n].format(content, pos, pair_start_pos);
                    let ghost added = own@;
                    open_structure_remove_range.append(&mut own);
                    proof {
                        assert((before + done) + added =~= before + (done + added));
                        assert forall|i: int| 0 <= i < open_structure_remove_range@.len() implies range_in_text(
                            text,
                            #[trigger] open_structure_remove_range@[i],
                        ) by {
                            if i < so_far.len() {
                                assert(open_structure_remove_range@[i] == so_far[i]);
                            } else {
                                assert(open_structure_remove_range@[i] == added[i - so_far.len()]);
                            }
                        }
                        assert forall|i: int| 0 <= i < open_structure_remove_range@.len() implies blank_between(
                            text,
                            (#[trigger] open_structure_remove_range@[i]).start as int,
                            open_structure_remove_range@[i].end as int,
                        ) by {
                            if i < so_far.len() {
                                assert(open_structure_remove_range@[i] == so_far[i]);
                            } else {
                                assert(open_structure_remove_range@[i] == added[i - so_far.len()]);
                            }
                        }
                    }
                    n += 1;
                }
            }
        }
        prev_pos = pos;
        k += 1;
    }
    proof {
        assert(ranges@ =~= point_ranges(text, removed_pos@, point));
        if ranges@.len() > 0 {
            lemma_merged_in_text(
                text,
                ranges@,
                open_structure_remove_range@,
                open_structure_remove_range@.len() as int,
                ranges@.len() - 1,
            );
        }
        let all = spec_merge_ranges(ranges@, open_structure_remove_range@);
        lemma_collapsed_fit(text, all, all.len() as int);
        lemma_cut_blank_lines(text, spec_merge_overlapped_ranges(all));
    }
    merge_ranges(&mut ranges, open_structure_remove_range);
    merge_overlapped_ranges(&mut ranges);
    cut_ranges(content, &ranges)
}

/// The range to delete at the cut `pos`: it spans what each formatter gives,
/// takes in the cut, and starts no earlier than the cut before.
fn format_block(content: &str, pos: usize, prev_pos: usize, formatters: &[Box<dyn Formatter>]) -> (range:
    Range<usize>)
    requires
        is_boundary(content.spec_bytes(), pos as int),
        is_boundary(content.spec_bytes(), prev_pos as int),
        prev_pos <= pos,
    ensures
        (range.start as int, range.end as int) == spec_format_block(
            formatters@,
            formatters@.len(),
            content.spec_bytes(),
            pos as int,
            prev_pos as int,
        ),
        range_in_text(content.spec_bytes(), range),
        prev_pos <= range.start <= pos <= range.end,
        blank_between(content.spec_bytes(), range.start as int, range.end as int),
{
    let mut start = pos;
    let mut end = pos;
    let mut n: usize = 0;
    while n < formatters.len()
        invariant
            n <= formatters.len(),
            is_boundary(content.spec_bytes(), pos as int),
            is_boundary(content.spec_bytes(), prev_pos as int),
            is_boundary(content.spec_bytes(), start as int),
            is_boundary(content.spec_bytes(), end as int),
            prev_pos <= start <= pos <= end,
            blank_between(content.spec_bytes(), start as int, end as int),
            (start as int, end as int) == spec_format_block(
                formatters@,
                n as nat,
                content.spec_bytes(),
                pos as int,
                prev_pos as int,
            ),
        decreases formatters.len() - n,
    {
        let (s, e) = formatters[n].format(content, pos, prev_pos);
        let low = if s < start {
            s
        } else {
            start
        };
        start = if low > prev_pos {
            low
        } else {
            prev_pos
        };
        let high = if e > end {
            e
        } else {
            end
        };
        end = if high > pos {
            high
        } else {
            pos
        };
        n += 1;
    }
    start..end
}

/// Puts `new_ranges` into `ranges` so that a list in the order of its starts
/// stays in that order. Nothing is put into an empty list.
pub fn merge_ranges(ranges: &mut Vec<Range<usize>>, new_ranges: Vec<Range<usize>>)
    ensures
        final(ranges)@ == spec_merge_ranges(old(ranges)@, new_ranges@),
{
    if ranges.len() == 0 {
        return ;
    }
    let mut cursor: Option<usize> = Some(ranges.len() - 1);
    let mut n = new_ranges.len();
    while n > 0
        invariant
            n <= new_ranges.len(),
            cursor matches Some(c) ==> c < ranges.len(),
            merged(
                ranges@,
                new_ranges@,
                n as int,
                match cursor {
                    Some(c) => c as int,
                    None => -1,
                },
            ) == spec_merge_ranges(old(ranges)@, new_ranges@),
        decreases n,
    {
        let new_range = new_ranges[n - 1].start..new_ranges[n - 1].end;
        let ghost from = match cursor {
            Some(c) => c as int,
            None => -1,
        };
        cursor =
        match cursor {
            Some(at) => {
                let mut at = at;
                let mut found = true;
                loop
                    invariant_except_break
                        found,
                        seek(ranges@, at as int, new_range.start) == seek(ranges@, from, new_range.start),
                    invariant
                        at < ranges.len(),
                    ensures
                        found ==> seek(ranges@, from, new_range.start) == at as int,
                        !found ==> seek(ranges@, from, new_range.start) == -1,
                    decreases at,
                {
                    if ranges[at].start < new_range.start {
                        break ;
                    }
                    if at == 0 {
                        assert(seek(ranges@, -1, new_range.start) == -1);
                        found = false;
                        break ;
                    }
                    at -= 1;
                }
                if found {
                    Some(at)
                } else {
                    None
                }
            },
            None => None,
        };
        match cursor {
            Some(at) => ranges.insert(at + 1, new_range),
            None => ranges.insert(0, new_range),
        }
        n -= 1;
    }
}

/// Joins the ranges of `ranges` that overlap or touch: each range that starts
/// at or before the end of what came before it goes into that.
pub fn merge_overlapped_ranges(ranges: &mut Vec<Range<usize>>)
    ensures
        final(ranges)@ == spec_merge_overlapped_ranges(old(ranges)@),
{
    if ranges.len() == 0 {
        assert(ranges@ =~= spec_merge_overlapped_ranges(ranges@));
        return ;
    }
    let ghost all = ranges@;
    let mut write_cursor: usize = 0;
    let mut read_cursor: usize = 1;
    assert(ranges@.subrange(0, 1) =~= collapsed(all, 1));
    while read_cursor < ranges.len()
        invariant
            1 <= read_cursor <= ranges.len(),
            write_cursor < read_cursor,
            ranges.len() == all.len(),
            ranges@.subrange(0, write_cursor + 1) == collapsed(all, read_cursor as int),
            forall|i: int| read_cursor <= i < ranges.len() ==> ranges@[i] == all[i],
        decreases ranges.len() - read_cursor,
    {
        let ghost before = collapsed(all, read_cursor as int);
        let ghost held = ranges@;
        assert(before.last() == held[write_cursor as int]);
        let last_start = ranges[write_cursor].start;
        let last_end = ranges[write_cursor].end;
        let start = ranges[read_cursor].start;
        let end = ranges[read_cursor].end;
        if last_end >= start {
            let joined_end = if last_end > end {
                last_end
            } else {
                end
            };
            ranges.set(write_cursor, last_start..joined_end);
            assert(ranges@.subrange(0, write_cursor + 1) =~= before.update(
                before.len() - 1,
                Range { start: last_start, end: joined_end },
            ));
        } else {
            write_cursor += 1;
            if write_cursor != read_cursor {
                ranges.set(write_cursor, start..end);
            }
            assert(ranges@.subrange(0, write_cursor + 1) =~= before.push(Range { start, end })) by {
                assert(ranges@.subrange(0, write_cursor as int) =~= held.subrange(0, write_cursor as int));
            }
        }
        read_cursor += 1;
    }
    ranges.truncate(write_cursor + 1);
}

} // verus!
