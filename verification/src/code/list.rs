//! Shows what would be removed: each range with the lines that hold it.
use crate::code::remover::RemoveMarker;
use crate::code::utils::blank_counter::{count_tabspace, occurrences};
use crate::code::utils::line_break_pos_finder::{
    find_next_line_break_pos, find_prev_line_break_pos, spec_find_next_line_break_pos,
    spec_find_prev_line_break_pos,
};
use crate::code::utils::line_map::{find_line, spec_find_line};
use crate::code::utils::text::{
    is_boundary, lemma_ascii_boundaries, lemma_encode_concat, lemma_str_valid, range_in_text, slice, NEWLINE, TAB,
};
use std::ops::Range;
use vstd::prelude::*;
use vstd::string::StringExecFns;
use vstd::string::StringSliceAdditionalSpecFns;
use vstd::utf8::{encode_utf8, valid_utf8};

verus! {

/// The byte of a carriage return.
pub const CARRIAGE_RETURN: u8 = 0x0d;

/// The width of the column that numbers the lines.
pub const LINE_COLUMN_WIDTH: usize = 9;

/// Whether a range is removed now or only once its directive is due.
#[derive(Debug, PartialEq)]
pub enum ItemStatus {
    Ready,
    Pending,
}

/// A range of the report: the lines that it spans, counted from 1, the lines
/// themselves with marks at the start and the end of the range, and whether
/// the range is removed now.
#[derive(Debug, PartialEq)]
pub struct ListItem {
    pub line_range: Option<(usize, usize)>,
    pub annotated_code_block: String,
    pub current_status: ItemStatus,
}

/// What an item of the report stands for, its text taken as bytes.
pub struct ListItemView {
    pub line_range: Option<(usize, usize)>,
    pub annotated_code_block: Seq<u8>,
    pub current_status: ItemStatus,
}

impl View for ListItem {
    type V = ListItemView;

    open spec fn view(&self) -> ListItemView {
        ListItemView {
            line_range: self.line_range,
            annotated_code_block: encode_utf8(self.annotated_code_block@),
            current_status: self.current_status,
        }
    }
}

/// The lines of `text` from byte `i` on, when the line under way began at
/// byte `line_start`.
pub open spec fn lines_from(text: Seq<u8>, i: int, line_start: int) -> Seq<Seq<u8>>
    decreases text.len() - i,
{
    if i >= text.len() {
        if line_start < text.len() {
            seq![text.subrange(line_start, text.len() as int)]
        } else {
            Seq::empty()
        }
    } else if text[i] == NEWLINE {
        let line_end = if i > line_start && text[i - 1] == CARRIAGE_RETURN {
            i - 1
        } else {
            i
        };
        seq![text.subrange(line_start, line_end)] + lines_from(text, i + 1, i + 1)
    } else {
        lines_from(text, i + 1, line_start)
    }
}

/// The lines of `text`. A line ends at a line break, which is no part of it,
/// nor is a carriage return just before the line break. No line follows a
/// line break at the end of the text.
pub open spec fn spec_lines(text: Seq<u8>) -> Seq<Seq<u8>> {
    lines_from(text, 0, 0)
}

/// `piece` written `n` times.
pub open spec fn repeated(piece: Seq<u8>, n: int) -> Seq<u8>
    decreases n,
{
    if n <= 0 {
        Seq::empty()
    } else {
        repeated(piece, n - 1) + piece
    }
}

/// The first `n` bytes of `text` with four spaces in place of every tab.
pub open spec fn expanded_upto(text: Seq<u8>, n: int) -> Seq<u8>
    decreases n,
{
    if n <= 0 || n > text.len() {
        Seq::empty()
    } else if text[n - 1] == TAB {
        expanded_upto(text, n - 1) + "    ".spec_bytes()
    } else {
        expanded_upto(text, n - 1).push(text[n - 1])
    }
}

/// `text` with four spaces in place of every tab.
pub open spec fn expand_tabs(text: Seq<u8>) -> Seq<u8> {
    expanded_upto(text, text.len() as int)
}

/// The digit `d`.
pub open spec fn digit(d: int) -> Seq<u8> {
    if d == 0 {
        "0".spec_bytes()
    } else if d == 1 {
        "1".spec_bytes()
    } else if d == 2 {
        "2".spec_bytes()
    } else if d == 3 {
        "3".spec_bytes()
    } else if d == 4 {
        "4".spec_bytes()
    } else if d == 5 {
        "5".spec_bytes()
    } else if d == 6 {
        "6".spec_bytes()
    } else if d == 7 {
        "7".spec_bytes()
    } else if d == 8 {
        "8".spec_bytes()
    } else {
        "9".spec_bytes()
    }
}

/// The number `n` in decimal digits.
pub open spec fn decimal(n: int) -> Seq<u8>
    decreases n,
{
    if n < 10 {
        digit(n)
    } else {
        decimal(n / 10) + digit(n % 10)
    }
}

/// How many decimal digits the number `n` has.
pub open spec fn digit_count(n: int) -> int
    decreases n,
{
    if n < 10 {
        1
    } else {
        digit_count(n / 10) + 1
    }
}

/// The column that numbers a line: the number `n` flush right in seven
/// places, a space and a bar.
pub open spec fn line_column(n: int) -> Seq<u8> {
    repeated(" ".spec_bytes(), LINE_COLUMN_WIDTH - 2 - digit_count(n)) + decimal(n) + " |".spec_bytes()
}

/// The lines from place `k` on, each between `start_color` and `reset_color`,
/// with a line break between one and the next.
pub open spec fn colored_from(lines: Seq<Seq<u8>>, k: int, start_color: Seq<u8>, reset_color: Seq<u8>) -> Seq<
    u8,
>
    decreases lines.len() - k,
{
    if k < 0 || k >= lines.len() {
        Seq::empty()
    } else {
        (if k > 0 {
            "\n".spec_bytes()
        } else {
            Seq::empty()
        }) + start_color + lines[k] + reset_color + colored_from(lines, k + 1, start_color, reset_color)
    }
}

/// The lines from place `k` on with their numbers, which start at `first` for
/// the first line and end at `last`: each line that has a number stands, its
/// tabs made spaces, behind the column with its number.
pub open spec fn numbered_from(lines: Seq<Seq<u8>>, first: int, last: int, k: int) -> Seq<u8>
    decreases last - first - k + 1,
{
    if k < 0 || first + k > last || k >= lines.len() {
        Seq::empty()
    } else {
        line_column(first + k) + expand_tabs(lines[k]) + "\n".spec_bytes() + numbered_from(
            lines,
            first,
            last,
            k + 1,
        )
    }
}

/// Where the line that holds byte `at` starts.
pub open spec fn spec_line_start(content: Seq<u8>, at: int) -> int {
    match spec_find_prev_line_break_pos(content, content, at, false) {
        Some(line_break) => line_break + 1,
        None => 0,
    }
}

/// The colour of the marks, of a range that is removed now or, for `pending`,
/// of one that is not yet due, and the end of a colour: all empty without
/// colouring.
pub open spec fn colors(is_removal: bool, coloring: bool) -> (Seq<u8>, Seq<u8>, Seq<u8>) {
    if coloring {
        (
            "\x1b[32m".spec_bytes(),
            if is_removal {
                "\x1b[31m".spec_bytes()
            } else {
                "\x1b[33m".spec_bytes()
            },
            "\x1b[0m".spec_bytes(),
        )
    } else {
        (Seq::empty(), Seq::empty(), Seq::empty())
    }
}

/// The lines of `content` that hold the range from `start` to `end`, with the
/// part of each line that lies in the range between `start_color` and
/// `reset_color`, and a line break at the end.
pub open spec fn spec_removed_lines(
    content: Seq<u8>,
    start: int,
    end: int,
    start_color: Seq<u8>,
    reset_color: Seq<u8>,
) -> Seq<u8> {
    let line_start = spec_line_start(content, start);
    let line_end = match spec_find_next_line_break_pos(content, content, end - 1, false) {
        Some(line_break) => line_break,
        None => content.len() as int,
    };
    let color_end = if end < line_end {
        end
    } else {
        line_end
    };
    content.subrange(line_start, start) + colored_from(
        spec_lines(content.subrange(start, color_end)),
        0,
        start_color,
        reset_color,
    ) + content.subrange(color_end, line_end) + "\n".spec_bytes()
}

/// The mark that stands over the start of a range or under its end: as many
/// times four spaces as tabs lie before the place, a space for every other
/// byte before it and for every place of the column of numbers, and the word
/// in its colour.
pub open spec fn spec_mark(tabs: int, before: int, column: int, color: Seq<u8>, word: Seq<u8>, reset: Seq<u8>) -> Seq<
    u8,
> {
    repeated("    ".spec_bytes(), tabs) + repeated(" ".spec_bytes(), before + column - tabs) + color + word
        + reset
}

/// The entry of the report for the range from `start` to `end` of `content`:
/// a mark over the start of the range, the lines that hold the range, and a
/// mark under its end. With `line_range` the lines are numbered from its
/// first number to its second. Nothing for an empty range or an empty text.
pub open spec fn spec_item(
    content: Seq<u8>,
    start: int,
    end: int,
    is_removal: bool,
    coloring: bool,
    line_range: Option<(usize, usize)>,
) -> Seq<u8> {
    if end - start == 0 || content.len() == 0 {
        Seq::empty()
    } else {
        let (marker_color, start_color, reset_color) = colors(is_removal, coloring);
        let removed = spec_removed_lines(content, start, end, start_color, reset_color);
        let line_start = spec_line_start(content, start);
        let line_end_start_pos = spec_line_start(content, end - 1);
        let (code_block, column) = match line_range {
            Some((first, last)) => (
                numbered_from(spec_lines(removed), first as int, last as int, 0),
                LINE_COLUMN_WIDTH as int,
            ),
            None => (expand_tabs(removed), 0),
        };
        spec_mark(
            occurrences(content.subrange(line_start, start), TAB) as int,
            start - line_start,
            column,
            marker_color,
            "_start".spec_bytes(),
            reset_color,
        ) + "\n".spec_bytes() + code_block + spec_mark(
            occurrences(content.subrange(line_end_start_pos, end), TAB) as int,
            end - line_end_start_pos - 1,
            column,
            marker_color,
            "‾end".spec_bytes(),
            reset_color,
        )
    }
}

/// The lines that hold a range, counted from 1: the line of its first byte
/// and the line of its last byte.
pub open spec fn spec_line_range(line_map: Seq<usize>, range: Range<usize>) -> (usize, usize) {
    (
        spec_find_line(line_map, range.start) as usize,
        spec_find_line(
            line_map,
            if range.end > 0 {
                (range.end - 1) as usize
            } else {
                0
            },
        ) as usize,
    )
}

/// The head of the report's entry number `idx`.
pub open spec fn spec_head(idx: int, is_removal: bool) -> Seq<u8> {
    "\n".spec_bytes() + "-------- [ ".spec_bytes() + decimal(idx) + (if is_removal {
        " ]  Ready  ".spec_bytes()
    } else {
        " ] Pending ".spec_bytes()
    }) + "--------".spec_bytes() + "\n".spec_bytes()
}

/// The report for the first `n` of `markers`: for each a head with its number
/// and whether it is removed now, and the entry for its range in colour.
pub open spec fn pretty_upto(
    content: Seq<u8>,
    markers: Seq<(RemoveMarker, bool)>,
    line_map: Option<Seq<usize>>,
    n: int,
) -> Seq<u8>
    decreases n,
{
    if n <= 0 || n > markers.len() {
        Seq::empty()
    } else {
        let (marker, is_removal) = markers[n - 1];
        pretty_upto(content, markers, line_map, n - 1) + spec_head(n, is_removal) + spec_item(
            content,
            marker.0.start as int,
            marker.0.end as int,
            is_removal,
            true,
            match line_map {
                Some(map) => Some(spec_line_range(map, marker.0)),
                None => None,
            },
        )
    }
}

/// The report for `markers` as one text, with a line break at its end.
pub open spec fn spec_pretty_string(
    content: Seq<u8>,
    markers: Seq<(RemoveMarker, bool)>,
    line_map: Option<Seq<usize>>,
) -> Seq<u8> {
    pretty_upto(content, markers, line_map, markers.len() as int) + "\n".spec_bytes()
}

/// The report's item for one marker: its lines, the entry for its range
/// without colour, and whether it is removed now.
pub open spec fn spec_list_item(
    content: Seq<u8>,
    marker: (RemoveMarker, bool),
    line_map: Option<Seq<usize>>,
) -> ListItemView {
    let line_range = match line_map {
        Some(map) => Some(spec_line_range(map, marker.0.0)),
        None => None,
    };
    ListItemView {
        line_range,
        annotated_code_block: spec_item(
            content,
            marker.0.0.start as int,
            marker.0.0.end as int,
            marker.1,
            false,
            line_range,
        ),
        current_status: if marker.1 {
            ItemStatus::Ready
        } else {
            ItemStatus::Pending
        },
    }
}

/// The views of a run of items.
pub open spec fn item_views(items: Seq<ListItem>) -> Seq<ListItemView> {
    Seq::new(items.len(), |i: int| items[i]@)
}

/// True when every range of `markers` lies in `content` and cuts between
/// characters.
pub open spec fn markers_in_text(content: Seq<u8>, markers: Seq<(RemoveMarker, bool)>) -> bool {
    forall|i: int| 0 <= i < markers.len() ==> range_in_text(content, (#[trigger] markers[i]).0.0)
}

/// Writes `piece` behind `out`.
fn push(out: &mut String, piece: &str)
    ensures
        encode_utf8(final(out)@) == encode_utf8(old(out)@) + piece.spec_bytes(),
{
    proof {
        lemma_encode_concat(out@, piece@);
    }
    out.append(piece);
}

/// Writes `piece` `n` times behind `out`.
fn push_repeated(out: &mut String, piece: &str, n: usize)
    ensures
        encode_utf8(final(out)@) == encode_utf8(old(out)@) + repeated(piece.spec_bytes(), n as int),
{
    let ghost before = encode_utf8(out@);
    let mut k: usize = 0;
    assert(before + repeated(piece.spec_bytes(), 0) =~= before);
    while k < n
        invariant
            k <= n,
            encode_utf8(out@) == before + repeated(piece.spec_bytes(), k as int),
        decreases n - k,
    {
        push(out, piece);
        k += 1;
        assert(before + repeated(piece.spec_bytes(), k - 1) + piece.spec_bytes() =~= before + repeated(
            piece.spec_bytes(),
            k as int,
        ));
    }
}

/// Writes `piece` behind `out` with four spaces in place of every tab.
fn push_expanded(out: &mut String, piece: &str)
    ensures
        encode_utf8(final(out)@) == encode_utf8(old(out)@) + expand_tabs(piece.spec_bytes()),
{
    let bytes = piece.as_bytes();
    let ghost text = piece.spec_bytes();
    let ghost before = encode_utf8(out@);
    proof {
        lemma_str_valid(piece);
    }
    let mut from: usize = 0;
    let mut i: usize = 0;
    assert(before + expanded_upto(text, 0) + text.subrange(0, 0) =~= before);
    while i < bytes.len()
        invariant
            from <= i <= bytes.len(),
            bytes@ == text,
            text == piece.spec_bytes(),
            valid_utf8(text),
            is_boundary(text, from as int),
            expanded_upto(text, i as int) == expanded_upto(text, from as int) + text.subrange(
                from as int,
                i as int,
            ),
            encode_utf8(out@) == before + expanded_upto(text, from as int),
        decreases bytes.len() - i,
    {
        if bytes[i] == TAB {
            proof {
                lemma_ascii_boundaries(text, i as int);
            }
            push(out, slice(piece, from, i));
            push(out, "    ");
            from = i + 1;
            proof {
                assert(expanded_upto(text, i + 1) == expanded_upto(text, i as int) + "    ".spec_bytes());
                assert(expanded_upto(text, from as int) + text.subrange(from as int, from as int)
                    =~= expanded_upto(text, from as int));
            }
        } else {
            proof {
                assert(expanded_upto(text, i + 1) == expanded_upto(text, i as int).push(text[i as int]));
                assert(text.subrange(from as int, i + 1) =~= text.subrange(from as int, i as int).push(
                    text[i as int],
                ));
                assert(expanded_upto(text, from as int) + text.subrange(from as int, i as int).push(
                    text[i as int],
                ) =~= (expanded_upto(text, from as int) + text.subrange(from as int, i as int)).push(
                    text[i as int],
                ));
            }
        }
        i += 1;
    }
    push(out, slice(piece, from, bytes.len()));
}

/// The text of the digit `d`.
fn digit_text(d: usize) -> (text: &'static str)
    requires
        d < 10,
    ensures
        text.spec_bytes() == digit(d as int),
{
    if d == 0 {
        "0"
    } else if d == 1 {
        "1"
    } else if d == 2 {
        "2"
    } else if d == 3 {
        "3"
    } else if d == 4 {
        "4"
    } else if d == 5 {
        "5"
    } else if d == 6 {
        "6"
    } else if d == 7 {
        "7"
    } else if d == 8 {
        "8"
    } else {
        "9"
    }
}

/// The number `n` in decimal digits, and how many digits these are.
fn decimal_text(n: usize) -> (digits: (String, usize))
    ensures
        encode_utf8(digits.0@) == decimal(n as int),
        digits.1 == digit_count(n as int),
    decreases n,
{
    if n < 10 {
        let mut out = String::new();
        push(&mut out, digit_text(n));
        assert(Seq::<u8>::empty() + digit(n as int) =~= digit(n as int));
        (out, 1)
    } else {
        let (mut out, count) = decimal_text(n / 10);
        push(&mut out, digit_text(n % 10));
        proof {
            lemma_digit_count_bound(n as int / 10);
        }
        (out, count + 1)
    }
}

/// A number of machine size has few digits.
proof fn lemma_digit_count_bound(n: int)
    requires
        0 <= n,
    ensures
        1 <= digit_count(n) <= n + 1,
    decreases n,
{
    if n >= 10 {
        lemma_digit_count_bound(n / 10);
    }
}

/// Writes behind `out` the column that numbers line `n`.
fn push_line_column(out: &mut String, n: usize)
    ensures
        encode_utf8(final(out)@) == encode_utf8(old(out)@) + line_column(n as int),
{
    let ghost before = encode_utf8(out@);
    let (digits, count) = decimal_text(n);
    let pad = if count < LINE_COLUMN_WIDTH - 2 {
        LINE_COLUMN_WIDTH - 2 - count
    } else {
        0
    };
    push_repeated(out, " ", pad);
    push(out, digits.as_str());
    push(out, " |");
    proof {
        let spaces = repeated(" ".spec_bytes(), LINE_COLUMN_WIDTH - 2 - digit_count(n as int));
        assert(repeated(" ".spec_bytes(), pad as int) == spaces);
        assert(before + spaces + decimal(n as int) + " |".spec_bytes() =~= before + (spaces + decimal(n as int)
            + " |".spec_bytes()));
    }
}

/// The texts of a run of lines.
pub open spec fn line_texts(lines: Seq<&str>) -> Seq<Seq<u8>> {
    Seq::new(lines.len(), |i: int| lines[i].spec_bytes())
}

/// The lines of `text`.
fn lines<'a>(text: &'a str) -> (found: Vec<&'a str>)
    ensures
        line_texts(found@) == spec_lines(text.spec_bytes()),
{
    let bytes = text.as_bytes();
    let ghost all = text.spec_bytes();
    proof {
        lemma_str_valid(text);
    }
    let mut found: Vec<&'a str> = Vec::new();
    let mut line_start: usize = 0;
    let mut i: usize = 0;
    assert(line_texts(found@) + lines_from(all, 0, 0) =~= spec_lines(all));
    while i < bytes.len()
        invariant
            line_start <= i <= bytes.len(),
            bytes@ == all,
            all == text.spec_bytes(),
            valid_utf8(all),
            is_boundary(all, line_start as int),
            line_texts(found@) + lines_from(all, i as int, line_start as int) == spec_lines(all),
        decreases bytes.len() - i,
    {
        if bytes[i] == NEWLINE {
            let line_end = if i > line_start && bytes[i - 1] == CARRIAGE_RETURN {
                i - 1
            } else {
                i
            };
            proof {
                lemma_ascii_boundaries(all, i as int);
                if line_end < i {
                    lemma_ascii_boundaries(all, line_end as int);
                }
            }
            let line = slice(text, line_start, line_end);
            let ghost before = line_texts(found@);
            let ghost rest = lines_from(all, i + 1, i + 1);
            found.push(line);
            proof {
                assert(line_texts(found@) =~= before.push(line.spec_bytes()));
                assert(before.push(line.spec_bytes()) + rest =~= before + (seq![line.spec_bytes()] + rest));
            }
            line_start = i + 1;
        }
        i += 1;
    }
    if line_start < bytes.len() {
        let line = slice(text, line_start, bytes.len());
        let ghost before = line_texts(found@);
        found.push(line);
        proof {
            assert(line_texts(found@) =~= before.push(line.spec_bytes()));
            assert(before.push(line.spec_bytes()) =~= before + seq![line.spec_bytes()]);
        }
    } else {
        proof {
            assert(line_texts(found@) + Seq::<Seq<u8>>::empty() =~= line_texts(found@));
        }
    }
    found
}

/// Where the line that holds byte `at` starts.
fn line_start_of(content: &str, at: usize) -> (line_start: usize)
    ensures
        line_start == spec_line_start(content.spec_bytes(), at as int),
        line_start <= at,
        is_boundary(content.spec_bytes(), line_start as int),
{
    let bytes = content.as_bytes();
    let len = bytes.len();
    proof {
        lemma_str_valid(content);
    }
    match find_prev_line_break_pos(content, bytes, at, false) {
        Some(line_break) => {
            proof {
                lemma_ascii_boundaries(content.spec_bytes(), line_break as int);
            }
            line_break + 1
        },
        None => 0,
    }
}

/// The lines of `content` that hold the range from `start` to `end`, with the
/// part of each line that lies in the range between the two colours.
fn removed_lines(content: &str, start: usize, end: usize, start_color: &str, reset_color: &str) -> (removed:
    String)
    requires
        start < end,
        range_in_text(content.spec_bytes(), Range { start, end }),
    ensures
        encode_utf8(removed@) == spec_removed_lines(
            content.spec_bytes(),
            start as int,
            end as int,
            start_color.spec_bytes(),
            reset_color.spec_bytes(),
        ),
{
    let bytes = content.as_bytes();
    let ghost text = content.spec_bytes();
    let line_start = line_start_of(content, start);
    let line_end = match find_next_line_break_pos(content, bytes, end - 1, false) {
        Some(line_break) => line_break,
        None => bytes.len(),
    };
    let color_end = if end < line_end {
        end
    } else {
        line_end
    };
    let mut removed = String::new();
    push(&mut removed, slice(content, line_start, start));
    let colored = lines(slice(content, start, color_end));
    let ghost texts = line_texts(colored@);
    let ghost before = encode_utf8(removed@);
    let mut k: usize = 0;
    assert(before + Seq::<u8>::empty() =~= before);
    while k < colored.len()
        invariant
            k <= colored.len(),
            texts == line_texts(colored@),
            encode_utf8(removed@) + colored_from(texts, k as int, start_color.spec_bytes(), reset_color.spec_bytes())
                == before + colored_from(texts, 0, start_color.spec_bytes(), reset_color.spec_bytes()),
        decreases colored.len() - k,
    {
        let ghost so_far = encode_utf8(removed@);
        let ghost rest = colored_from(texts, k + 1, start_color.spec_bytes(), reset_color.spec_bytes());
        if k > 0 {
            push(&mut removed, "\n");
        }
        push(&mut removed, start_color);
        push(&mut removed, colored[k]);
        push(&mut removed, reset_color);
        proof {
            let own = (if k > 0 {
                "\n".spec_bytes()
            } else {
                Seq::empty()
            }) + start_color.spec_bytes() + texts[k as int] + reset_color.spec_bytes();
            assert(encode_utf8(removed@) =~= so_far + own);
            assert(so_far + own + rest =~= so_far + (own + rest));
        }
        k += 1;
    }
    proof {
        assert(encode_utf8(removed@) + Seq::<u8>::empty() =~= encode_utf8(removed@));
    }
    push(&mut removed, slice(content, color_end, line_end));
    push(&mut removed, "\n");
    proof {
        assert(Seq::<u8>::empty() + text.subrange(line_start as int, start as int) =~= text.subrange(
            line_start as int,
            start as int,
        ));
    }
    removed
}

/// Writes behind `out` the mark that stands over the start of a range or
/// under its end.
fn push_mark(out: &mut String, tabs: usize, before: usize, column: usize, color: &str, word: &str, reset: &str)
    requires
        tabs <= before + 1,
        column == 0 || column == LINE_COLUMN_WIDTH,
    ensures
        encode_utf8(final(out)@) == encode_utf8(old(out)@) + spec_mark(
            tabs as int,
            before as int,
            column as int,
            color.spec_bytes(),
            word.spec_bytes(),
            reset.spec_bytes(),
        ),
{
    let ghost at_first = encode_utf8(out@);
    let ghost space = " ".spec_bytes();
    push_repeated(out, "    ", tabs);
    if tabs <= before {
        push_repeated(out, " ", before - tabs);
        push_repeated(out, " ", column);
        proof {
            lemma_repeated_sum(space, before - tabs, column as int);
        }
    } else if column > 0 {
        push_repeated(out, " ", column - 1);
        proof {
            assert(repeated(space, column - 1) == repeated(space, before + column - tabs));
        }
    } else {
        proof {
            assert(repeated(space, before + column - tabs) =~= Seq::<u8>::empty());
        }
    }
    push(out, color);
    push(out, word);
    push(out, reset);
    proof {
        let tab_part = repeated("    ".spec_bytes(), tabs as int);
        let space_part = repeated(space, before + column - tabs);
        assert(encode_utf8(out@) =~= at_first + (tab_part + space_part + color.spec_bytes() + word.spec_bytes()
            + reset.spec_bytes()));
    }
}

/// Writing a piece `a` times and then `b` times is writing it `a + b` times.
proof fn lemma_repeated_sum(piece: Seq<u8>, a: int, b: int)
    requires
        0 <= a,
        0 <= b,
    ensures
        repeated(piece, a) + repeated(piece, b) == repeated(piece, a + b),
    decreases b,
{
    if b == 0 {
        assert(repeated(piece, a) + repeated(piece, 0) =~= repeated(piece, a));
    } else {
        lemma_repeated_sum(piece, a, b - 1);
        assert(repeated(piece, a) + (repeated(piece, b - 1) + piece) =~= (repeated(piece, a) + repeated(
            piece,
            b - 1,
        )) + piece);
    }
}

/// A byte occurs in a stretch of text at most as often as the stretch has
/// bytes.
proof fn lemma_tabs_bound(text: Seq<u8>, from: int, to: int)
    requires
        0 <= from <= to <= text.len(),
    ensures
        occurrences(text.subrange(from, to), TAB) <= to - from,
{
    crate::code::utils::blank_counter::lemma_occurrences_bound(text.subrange(from, to), TAB);
}

/// The entry of the report for the range from `start` to `end` of `content`:
/// a mark over the start of the range, the lines that hold the range with the
/// range in colour, and a mark under its end. `is_removal` picks the colour;
/// without `coloring` there is none. With `line_range` the lines are
/// numbered. The range must lie in the text and cut between characters.
pub fn build_pretty_string_item(
    content: &str,
    start: usize,
    end: usize,
    is_removal: bool,
    coloring: bool,
    line_range: Option<(usize, usize)>,
) -> (item: String)
    requires
        range_in_text(content.spec_bytes(), Range { start, end }),
    ensures
        encode_utf8(item@) == spec_item(
            content.spec_bytes(),
            start as int,
            end as int,
            is_removal,
            coloring,
            line_range,
        ),
{
    let ghost text = content.spec_bytes();
    let mut result = String::new();
    if end - start == 0 || content.as_bytes().len() == 0 {
        return result;
    }
    let (marker_color, start_color, reset_color) = if coloring {
        (
            "\x1b[32m",
            if is_removal {
                "\x1b[31m"
            } else {
                "\x1b[33m"
            },
            "\x1b[0m",
        )
    } else {
        ("", "", "")
    };
    proof {
        assert("".spec_bytes() =~= Seq::<u8>::empty()) by {
            reveal_strlit("");
        }
    }
    let removed = removed_lines(content, start, end, start_color, reset_color);
    let line_start = line_start_of(content, start);
    let line_end_start_pos = line_start_of(content, end - 1);
    let column = if line_range.is_some() {
        LINE_COLUMN_WIDTH
    } else {
        0
    };

    let marker_start_tab_len = count_tabspace(slice(content, line_start, start));
    let marker_end_tab_len = count_tabspace(slice(content, line_end_start_pos, end));
    proof {
        lemma_tabs_bound(text, line_start as int, start as int);
        lemma_tabs_bound(text, line_end_start_pos as int, end as int);
    }
    let ghost at_first = encode_utf8(result@);
    push_mark(
        &mut result,
        marker_start_tab_len,
        start - line_start,
        column,
        marker_color,
        "_start",
        reset_color,
    );
    push(&mut result, "\n");
    let ghost head = encode_utf8(result@);

    match line_range {
        Some((first, last)) => {
            let numbered = lines(removed.as_str());
            let ghost texts = line_texts(numbered@);
            let mut k: usize = 0;
            assert(head + Seq::<u8>::empty() =~= head);
            while k < numbered.len() && first <= last && k <= last - first
                invariant
                    k <= numbered.len(),
                    texts == line_texts(numbered@),
                    encode_utf8(result@) + numbered_from(texts, first as int, last as int, k as int) == head
                        + numbered_from(texts, first as int, last as int, 0),
                decreases numbered.len() - k,
            {
                let ghost so_far = encode_utf8(result@);
                let ghost rest = numbered_from(texts, first as int, last as int, k + 1);
                push_line_column(&mut result, first + k);
                push_expanded(&mut result, numbered[k]);
                push(&mut result, "\n");
                proof {
                    let own = line_column(first + k) + expand_tabs(texts[k as int]) + "\n".spec_bytes();
                    assert(encode_utf8(result@) =~= so_far + own);
                    assert(so_far + own + rest =~= so_far + (own + rest));
                }
                k += 1;
            }
            proof {
                assert(encode_utf8(result@) + Seq::<u8>::empty() =~= encode_utf8(result@));
            }
        },
        None => {
            push_expanded(&mut result, removed.as_str());
        },
    }

    push_mark(
        &mut result,
        marker_end_tab_len,
        end - line_end_start_pos - 1,
        column,
        marker_color,
        "‾end",
        reset_color,
    );
    proof {
        assert(Seq::<u8>::empty() + spec_mark(
            marker_start_tab_len as int,
            start - line_start,
            column as int,
            marker_color.spec_bytes(),
            "_start".spec_bytes(),
            reset_color.spec_bytes(),
        ) =~= spec_mark(
            marker_start_tab_len as int,
            start - line_start,
            column as int,
            marker_color.spec_bytes(),
            "_start".spec_bytes(),
            reset_color.spec_bytes(),
        ));
    }
    result
}

/// The plain entry for the range from `start` to `end` of `content`: a mark
/// over the start of the range, the lines that hold the range with the range
/// in one stretch of colour, and a mark under its end. Nothing for an empty
/// range or an empty text.
pub open spec fn spec_build_item(content: Seq<u8>, start: int, end: int) -> Seq<u8> {
    if end - start == 0 || content.len() == 0 {
        Seq::empty()
    } else {
        let line_start = spec_line_start(content, start);
        let line_end_start_pos = spec_line_start(content, end - 1);
        let line_end = match spec_find_next_line_break_pos(content, content, end - 1, false) {
            Some(line_break) => line_break,
            None => content.len() as int,
        };
        let color_end = if end < line_end {
            end
        } else {
            line_end
        };
        repeated(" ".spec_bytes(), start - line_start) + "\x1b[32m_start\x1b[0m".spec_bytes() + "\n".spec_bytes()
            + content.subrange(line_start, start) + "\x1b[31m".spec_bytes() + content.subrange(start, color_end)
            + "\x1b[0m".spec_bytes() + content.subrange(color_end, line_end) + "\n".spec_bytes() + repeated(
            " ".spec_bytes(),
            end - line_end_start_pos - 1,
        ) + "\x1b[32m‾end\x1b[0m".spec_bytes()
    }
}

/// The plain entry for the range from `start` to `end` of `content`: a mark
/// over the start of the range, the lines that hold the range with the range
/// in colour, and a mark under its end. The range must lie in the text and
/// cut between characters.
pub fn build_item(content: &str, start: usize, end: usize) -> (item: String)
    requires
        range_in_text(content.spec_bytes(), Range { start, end }),
    ensures
        encode_utf8(item@) == spec_build_item(content.spec_bytes(), start as int, end as int),
{
    let ghost text = content.spec_bytes();
    let mut result = String::new();
    let bytes = content.as_bytes();
    if end - start == 0 || bytes.len() == 0 {
        return result;
    }
    let line_start = line_start_of(content, start);
    let line_end_start_pos = line_start_of(content, end - 1);
    let line_end = match find_next_line_break_pos(content, bytes, end - 1, false) {
        Some(line_break) => line_break,
        None => bytes.len(),
    };
    let color_end = if end < line_end {
        end
    } else {
        line_end
    };

    push_repeated(&mut result, " ", start - line_start);
    push(&mut result, "\x1b[32m_start\x1b[0m");
    push(&mut result, "\n");
    push(&mut result, slice(content, line_start, start));
    push(&mut result, "\x1b[31m");
    push(&mut result, slice(content, start, color_end));
    push(&mut result, "\x1b[0m");
    push(&mut result, slice(content, color_end, line_end));
    push(&mut result, "\n");
    push_repeated(&mut result, " ", end - line_end_start_pos - 1);
    push(&mut result, "\x1b[32m‾end\x1b[0m");
    proof {
        assert(Seq::<u8>::empty() + repeated(" ".spec_bytes(), start - line_start) =~= repeated(
            " ".spec_bytes(),
            start - line_start,
        ));
    }
    result
}

/// The lines that hold `range`, counted from 1.
fn get_line_range(line_map: &[usize], range: &Range<usize>) -> (lines: (usize, usize))
    requires
        line_map@.len() < usize::MAX,
    ensures
        lines == spec_line_range(line_map@, *range),
{
    let last = if range.end > 0 {
        range.end - 1
    } else {
        0
    };
    (find_line(line_map, range.start), find_line(line_map, last))
}

/// The lines of a marker under the line breaks of `line_map`, if there is one.
fn line_range_of(line_map: Option<&Vec<usize>>, range: &Range<usize>) -> (lines: Option<(usize, usize)>)
    requires
        line_map matches Some(map) ==> map@.len() < usize::MAX,
    ensures
        lines == match line_map {
            Some(map) => Some(spec_line_range(map@, *range)),
            None => None,
        },
{
    match line_map {
        Some(map) => Some(get_line_range(map.as_slice(), range)),
        None => None,
    }
}

/// The line breaks of a line map as plain positions.
pub open spec fn map_view(line_map: Option<&Vec<usize>>) -> Option<Seq<usize>> {
    match line_map {
        Some(map) => Some(map@),
        None => None,
    }
}

/// Writes behind `out` the head of the report's entry number `idx`.
fn push_head(out: &mut String, idx: usize, is_removal: bool)
    ensures
        encode_utf8(final(out)@) == encode_utf8(old(out)@) + spec_head(idx as int, is_removal),
{
    let ghost before = encode_utf8(out@);
    push(out, "\n");
    push(out, "-------- [ ");
    let (digits, _) = decimal_text(idx);
    push(out, digits.as_str());
    let status = if is_removal {
        " ]  Ready  "
    } else {
        " ] Pending "
    };
    push(out, status);
    push(out, "--------");
    push(out, "\n");
    assert(encode_utf8(out@) =~= before + spec_head(idx as int, is_removal));
}

/// The report for `markers` as one text: for each marker a head with its
/// number and whether it is removed now, then the lines that hold its range
/// with marks at the start and the end of the range. With `line_map`, the
/// positions of the line breaks of `content`, the lines are numbered.
pub fn build_pretty_string(content: &str, markers: &[(RemoveMarker, bool)], line_map: Option<&Vec<usize>>) -> (output:
    String)
    requires
        markers_in_text(content.spec_bytes(), markers@),
        line_map matches Some(map) ==> map@.len() < usize::MAX,
    ensures
        encode_utf8(output@) == spec_pretty_string(content.spec_bytes(), markers@, map_view(line_map)),
{
    let ghost text = content.spec_bytes();
    let mut output = String::new();
    let mut n: usize = 0;
    while n < markers.len()
        invariant
            n <= markers.len(),
            text == content.spec_bytes(),
            markers_in_text(text, markers@),
            line_map matches Some(map) ==> map@.len() < usize::MAX,
            encode_utf8(output@) == pretty_upto(text, markers@, map_view(line_map), n as int),
        decreases markers.len() - n,
    {
        let range = &markers[n].0.0;
        let is_removal = markers[n].1;
        let ghost before = encode_utf8(output@);
        assert(range_in_text(text, markers@[n as int].0.0));
        let line_range = line_range_of(line_map, range);

        push_head(&mut output, n + 1, is_removal);
        let item = build_pretty_string_item(content, range.start, range.end, is_removal, true, line_range);
        push(&mut output, item.as_str());
        proof {
            assert(encode_utf8(output@) =~= before + spec_head(n + 1, is_removal) + encode_utf8(item@));
        }
        n += 1;
    }
    push(&mut output, "\n");
    output
}

/// The report for `markers` as items: for each marker the lines that it
/// spans, the lines that hold its range with marks at the start and the end
/// of the range, and whether it is removed now.
pub fn build_list(content: &str, markers: &[(RemoveMarker, bool)], line_map: Option<&Vec<usize>>) -> (items:
    Vec<ListItem>)
    requires
        markers_in_text(content.spec_bytes(), markers@),
        line_map matches Some(map) ==> map@.len() < usize::MAX,
    ensures
        items@.len() == markers@.len(),
        forall|i: int|
            0 <= i < markers@.len() ==> (#[trigger] items@[i])@ == spec_list_item(
                content.spec_bytes(),
                markers@[i],
                map_view(line_map),
            ),
{
    let ghost text = content.spec_bytes();
    let mut items: Vec<ListItem> = Vec::new();
    let mut n: usize = 0;
    while n < markers.len()
        invariant
            n <= markers.len(),
            text == content.spec_bytes(),
            markers_in_text(text, markers@),
            line_map matches Some(map) ==> map@.len() < usize::MAX,
            items@.len() == n,
            forall|i: int|
                0 <= i < n ==> (#[trigger] items@[i])@ == spec_list_item(text, markers@[i], map_view(line_map)),
        decreases markers.len() - n,
    {
        let range = &markers[n].0.0;
        let is_removal = markers[n].1;
        assert(range_in_text(text, markers@[n as int].0.0));
        let line_range = line_range_of(line_map, range);
        let text_block = build_pretty_string_item(content, range.start, range.end, is_removal, false, line_range);
        items.push(
            ListItem {
                line_range,
                annotated_code_block: text_block,
                current_status: if is_removal {
                    ItemStatus::Ready
                } else {
                    ItemStatus::Pending
                },
            },
        );
        n += 1;
    }
    items
}

} // verus!
