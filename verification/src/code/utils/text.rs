//! UTF-8 text as a byte sequence: cut points, slices and comparison.
use std::ops::Range;
use vstd::prelude::*;
use vstd::string::StringExecFns;
use vstd::string::StringSliceAdditionalSpecFns;
use vstd::utf8::*;

verus! {

/// The byte of a space.
pub const SPACE: u8 = 0x20;

/// The byte of a tab.
pub const TAB: u8 = 0x09;

/// The byte of a line break.
pub const NEWLINE: u8 = 0x0a;

/// True when `b` is a space, a tab or a line break.
pub open spec fn is_blank(b: u8) -> bool {
    b == SPACE || b == TAB || b == NEWLINE
}

/// True when every byte of `bytes` from `from` up to `to` is a space, a tab
/// or a line break.
pub open spec fn blank_between(bytes: Seq<u8>, from: int, to: int) -> bool {
    forall|i: int| from <= i < to && 0 <= i < bytes.len() ==> is_blank(#[trigger] bytes[i])
}

/// True when `i` is a position of `bytes` at which UTF-8 text may be cut:
/// either end of the text, or the first byte of a character.
pub open spec fn is_boundary(bytes: Seq<u8>, i: int) -> bool {
    0 <= i <= bytes.len() && (i == 0 || i == bytes.len() || !is_continuation_byte(bytes[i]))
}

/// The number of bytes that a character takes whose first byte is `lead`.
pub open spec fn width_of(lead: u8) -> int {
    if lead <= 0x7f {
        1
    } else if lead <= 0xdf {
        2
    } else if lead <= 0xef {
        3
    } else {
        4
    }
}

/// The bytes of the character of `text` that starts at byte `i`.
pub open spec fn char_at(text: Seq<u8>, i: int) -> Seq<u8> {
    text.subrange(i, i + width_of(text[i]))
}

/// The byte behind the character that starts at byte `i` of `source`.
pub open spec fn next_char(source: Seq<u8>, i: int) -> int {
    if i + width_of(source[i]) <= source.len() {
        i + width_of(source[i])
    } else {
        source.len() as int
    }
}

/// The number of bytes of the character whose first byte is `lead`.
pub fn width(lead: u8) -> (w: usize)
    ensures
        w == width_of(lead),
{
    if lead <= 0x7f {
        1
    } else if lead <= 0xdf {
        2
    } else if lead <= 0xef {
        3
    } else {
        4
    }
}

/// On valid UTF-8 the cut points are exactly the character boundaries.
pub proof fn lemma_boundary_is_char_boundary(bytes: Seq<u8>, i: int)
    requires
        valid_utf8(bytes),
    ensures
        is_char_boundary(bytes, i) == is_boundary(bytes, i),
{
    if 0 <= i < bytes.len() {
        is_char_boundary_iff_not_is_continuation_byte(bytes, i);
    } else if i == bytes.len() {
        is_char_boundary_start_end_of_seq(bytes);
    }
}

/// The bytes of a string are valid UTF-8.
pub proof fn lemma_str_valid(s: &str)
    ensures
        valid_utf8(s.spec_bytes()),
{
    encode_utf8_valid_utf8(s@);
}

/// In valid UTF-8 the character that starts at a cut point `j` ends at a cut
/// point, `width_of` its first byte further on.
pub proof fn lemma_scalar_step(bytes: Seq<u8>, j: int)
    requires
        valid_utf8(bytes),
        is_boundary(bytes, j),
        j < bytes.len(),
    ensures
        !is_continuation_byte(bytes[j]),
        j + width_of(bytes[j]) <= bytes.len(),
        is_boundary(bytes, j + width_of(bytes[j])),
        forall|k: int| j < k < j + width_of(bytes[j]) ==> is_continuation_byte(#[trigger] bytes[k]),
    decreases bytes.len(),
{
    let first = length_of_first_scalar(bytes);
    let rest = pop_first_scalar(bytes);
    assert(valid_first_scalar(bytes));
    assert(valid_utf8(rest));
    if j == 0 {
        assert(first == width_of(bytes[0]));
        if rest.len() > 0 {
            assert(valid_first_scalar(rest));
            assert(rest[0] == bytes[first]);
        }
    } else {
        assert(j >= first) by {
            if j < first {
                assert(is_continuation_byte(bytes[j]));
            }
        }
        assert(rest[j - first] == bytes[j]);
        lemma_scalar_step(rest, j - first);
        let w = width_of(bytes[j]);
        assert forall|k: int| j < k < j + w implies is_continuation_byte(#[trigger] bytes[k]) by {
            assert(rest[k - first] == bytes[k]);
        }
        if j + w < bytes.len() {
            assert(rest[j + w - first] == bytes[j + w]);
        }
    }
}

/// In valid UTF-8 an ASCII byte is a whole character: the text may be cut
/// before it and after it.
pub proof fn lemma_ascii_boundaries(bytes: Seq<u8>, i: int)
    requires
        valid_utf8(bytes),
        0 <= i < bytes.len(),
        bytes[i] <= 0x7f,
    ensures
        is_boundary(bytes, i),
        is_boundary(bytes, i + 1),
{
    lemma_scalar_step(bytes, i);
}

/// Where `part` occurs in `bytes` from a cut point `at` on, and both are valid
/// UTF-8, every cut point of `part` is a cut point of `bytes`.
pub proof fn lemma_boundary_through_match(bytes: Seq<u8>, part: Seq<u8>, at: int, q: int)
    requires
        valid_utf8(bytes),
        valid_utf8(part),
        is_boundary(bytes, at),
        at + part.len() <= bytes.len(),
        bytes.subrange(at, at + part.len()) == part,
        is_boundary(part, q),
        is_boundary(bytes, at + q),
    ensures
        is_boundary(bytes, at + part.len()),
    decreases part.len() - q,
{
    if q < part.len() {
        assert(bytes.subrange(at, at + part.len())[q] == bytes[at + q]);
        lemma_scalar_step(part, q);
        lemma_scalar_step(bytes, at + q);
        lemma_boundary_through_match(bytes, part, at, q + width_of(part[q]));
    }
}

/// Encoding distributes over concatenation.
pub proof fn lemma_encode_concat(a: Seq<char>, b: Seq<char>)
    ensures
        encode_utf8(a + b) == encode_utf8(a) + encode_utf8(b),
    decreases a.len(),
{
    if a.len() == 0 {
        assert(a + b =~= b);
        assert(encode_utf8(a) + encode_utf8(b) =~= encode_utf8(b));
    } else {
        lemma_encode_concat(a.drop_first(), b);
        assert((a + b).drop_first() =~= a.drop_first() + b);
        assert((a + b)[0] == a[0]);
        assert(encode_utf8(a + b) =~= encode_utf8(a) + encode_utf8(b));
    }
}

/// The part of `s` from byte `from` up to byte `to`.
pub fn slice<'a>(s: &'a str, from: usize, to: usize) -> (part: &'a str)
    requires
        from <= to,
        is_boundary(s.spec_bytes(), from as int),
        is_boundary(s.spec_bytes(), to as int),
    ensures
        part.spec_bytes() == s.spec_bytes().subrange(from as int, to as int),
{
    proof {
        lemma_str_valid(s);
        lemma_boundary_is_char_boundary(s.spec_bytes(), from as int);
    }
    let (_, tail) = s.split_at(from);
    proof {
        lemma_str_valid(tail);
        lemma_boundary_is_char_boundary(tail.spec_bytes(), to - from);
        if from < to && to < s.spec_bytes().len() {
            assert(tail.spec_bytes()[to - from] == s.spec_bytes()[to as int]);
        }
    }
    let (part, _) = tail.split_at(to - from);
    assert(part.spec_bytes() =~= s.spec_bytes().subrange(from as int, to as int));
    part
}

/// Whether two strings hold the same text.
pub fn str_eq(a: &str, b: &str) -> (same: bool)
    ensures
        same == (a.spec_bytes() == b.spec_bytes()),
{
    let x = a.as_bytes();
    let y = b.as_bytes();
    if x.len() != y.len() {
        return false;
    }
    let mut i: usize = 0;
    while i < x.len()
        invariant
            x.len() == y.len(),
            i <= x.len(),
            x@ == a.spec_bytes(),
            y@ == b.spec_bytes(),
            forall|k: int| 0 <= k < i ==> x@[k] == y@[k],
        decreases x.len() - i,
    {
        if x[i] != y[i] {
            return false;
        }
        i += 1;
    }
    assert(x@ =~= y@);
    true
}

/// True when `range` lies in `source`, starts no later than it ends, and
/// cuts between characters.
pub open spec fn range_in_text(source: Seq<u8>, range: Range<usize>) -> bool {
    &&& range.start <= range.end <= source.len()
    &&& is_boundary(source, range.start as int)
    &&& is_boundary(source, range.end as int)
}

/// Where the range before range `n` ends: the start of the text for the
/// first range.
pub open spec fn end_before(ranges: Seq<Range<usize>>, n: int) -> int {
    if n <= 0 {
        0
    } else {
        ranges[n - 1].end as int
    }
}

/// True when `ranges` can be cut out of `bytes`: each lies in the text, starts
/// no later than it ends and cuts between characters, and none starts before
/// the one before it has ended.
pub open spec fn ranges_fit(bytes: Seq<u8>, ranges: Seq<Range<usize>>) -> bool {
    &&& forall|i: int|
        0 <= i < ranges.len() ==> {
            &&& (#[trigger] ranges[i]).start <= ranges[i].end <= bytes.len()
            &&& is_boundary(bytes, ranges[i].start as int)
            &&& is_boundary(bytes, ranges[i].end as int)
        }
    &&& forall|i: int| 0 < i < ranges.len() ==> ranges[i - 1].end <= (#[trigger] ranges[i]).start
}

/// The text before the start of range `n - 1`, with the ranges before it left
/// out.
pub open spec fn kept_upto(bytes: Seq<u8>, ranges: Seq<Range<usize>>, n: int) -> Seq<u8>
    decreases n,
{
    if n <= 0 {
        Seq::empty()
    } else {
        kept_upto(bytes, ranges, n - 1) + bytes.subrange(end_before(ranges, n - 1), ranges[n - 1].start as int)
    }
}

/// `bytes` with `ranges` left out.
pub open spec fn cut_out(bytes: Seq<u8>, ranges: Seq<Range<usize>>) -> Seq<u8> {
    kept_upto(bytes, ranges, ranges.len() as int) + bytes.subrange(
        end_before(ranges, ranges.len() as int),
        bytes.len() as int,
    )
}

/// A stretch of valid UTF-8 between two cut points is valid UTF-8.
pub proof fn lemma_subrange_valid(bytes: Seq<u8>, from: int, to: int)
    requires
        valid_utf8(bytes),
        from <= to,
        is_boundary(bytes, from),
        is_boundary(bytes, to),
    ensures
        valid_utf8(bytes.subrange(from, to)),
{
    lemma_boundary_is_char_boundary(bytes, to);
    valid_utf8_split(bytes, to);
    let head = bytes.subrange(0, to);
    if from < to {
        assert(head[from] == bytes[from]);
    }
    lemma_boundary_is_char_boundary(head, from);
    valid_utf8_split(head, from);
    assert(head.subrange(from, head.len() as int) =~= bytes.subrange(from, to));
}

/// What is kept before a range is valid UTF-8 and no longer than the text
/// before that range.
pub proof fn lemma_kept_valid(bytes: Seq<u8>, ranges: Seq<Range<usize>>, n: int)
    requires
        valid_utf8(bytes),
        ranges_fit(bytes, ranges),
        0 <= n <= ranges.len(),
    ensures
        valid_utf8(kept_upto(bytes, ranges, n)),
        kept_upto(bytes, ranges, n).len() <= end_before(ranges, n),
        n > 0 ==> kept_upto(bytes, ranges, n).len() <= ranges[n - 1].start,
    decreases n,
{
    if n > 0 {
        lemma_kept_valid(bytes, ranges, n - 1);
        if n > 1 {
            assert(ranges[n - 2].end <= ranges[n - 1].start);
        }
        lemma_subrange_valid(bytes, end_before(ranges, n - 1), ranges[n - 1].start as int);
        valid_utf8_concat(
            kept_upto(bytes, ranges, n - 1),
            bytes.subrange(end_before(ranges, n - 1), ranges[n - 1].start as int),
        );
    }
}

/// The text with ranges left out can be cut where each of the ranges was.
pub proof fn lemma_cut_boundary(bytes: Seq<u8>, ranges: Seq<Range<usize>>, n: int)
    requires
        valid_utf8(bytes),
        ranges_fit(bytes, ranges),
        0 <= n <= ranges.len(),
    ensures
        valid_utf8(cut_out(bytes, ranges)),
        is_boundary(cut_out(bytes, ranges), kept_upto(bytes, ranges, n).len() as int),
    decreases ranges.len() - n,
{
    let all = ranges.len() as int;
    let tail = bytes.subrange(end_before(ranges, all), bytes.len() as int);
    lemma_kept_valid(bytes, ranges, all);
    lemma_subrange_valid(bytes, end_before(ranges, all), bytes.len() as int);
    valid_utf8_concat(kept_upto(bytes, ranges, all), tail);
    if n < all {
        lemma_cut_boundary(bytes, ranges, n + 1);
        lemma_kept_valid(bytes, ranges, n);
        lemma_kept_valid(bytes, ranges, n + 1);
        let head = kept_upto(bytes, ranges, n);
        let piece = bytes.subrange(end_before(ranges, n), ranges[n].start as int);
        if n > 0 {
            assert(ranges[n - 1].end <= ranges[n].start);
        }
        lemma_subrange_valid(bytes, end_before(ranges, n), ranges[n].start as int);
        if piece.len() > 0 {
            lemma_kept_prefix(bytes, ranges, n + 1, all);
            let whole = cut_out(bytes, ranges);
            assert(whole[head.len() as int] == kept_upto(bytes, ranges, n + 1)[head.len() as int]);
            assert(kept_upto(bytes, ranges, n + 1)[head.len() as int] == piece[0]);
            lemma_scalar_step(piece, 0);
        }
    }
}

/// What is kept before a range is the start of what is kept before any later
/// range.
pub proof fn lemma_kept_prefix(bytes: Seq<u8>, ranges: Seq<Range<usize>>, n: int, m: int)
    requires
        0 <= n <= m,
    ensures
        kept_upto(bytes, ranges, n).len() <= kept_upto(bytes, ranges, m).len(),
        kept_upto(bytes, ranges, m).subrange(0, kept_upto(bytes, ranges, n).len() as int) == kept_upto(
            bytes,
            ranges,
            n,
        ),
    decreases m - n,
{
    if n < m {
        lemma_kept_prefix(bytes, ranges, n, m - 1);
        let shorter = kept_upto(bytes, ranges, m - 1);
        let longer = kept_upto(bytes, ranges, m);
        let short = kept_upto(bytes, ranges, n);
        assert(longer.subrange(0, short.len() as int) =~= shorter.subrange(0, short.len() as int));
    } else {
        assert(kept_upto(bytes, ranges, n).subrange(0, kept_upto(bytes, ranges, n).len() as int)
            =~= kept_upto(bytes, ranges, n));
    }
}

/// `content` with `ranges` left out.
pub fn cut_ranges(content: &str, ranges: &Vec<Range<usize>>) -> (cut: String)
    requires
        ranges_fit(content.spec_bytes(), ranges@),
    ensures
        encode_utf8(cut@) == cut_out(content.spec_bytes(), ranges@),
{
    let ghost bytes = content.spec_bytes();
    let mut cut = String::new();
    let mut from: usize = 0;
    let mut n: usize = 0;
    let len = content.as_bytes().len();
    while n < ranges.len()
        invariant
            n <= ranges.len(),
            bytes == content.spec_bytes(),
            len == bytes.len(),
            ranges_fit(bytes, ranges@),
            from == end_before(ranges@, n as int),
            from <= len,
            is_boundary(bytes, from as int),
            encode_utf8(cut@) == kept_upto(bytes, ranges@, n as int),
        decreases ranges.len() - n,
    {
        let range = &ranges[n];
        proof {
            if n > 0 {
                assert(ranges@[n - 1].end <= ranges@[n as int].start);
            }
        }
        let piece = slice(content, from, range.start);
        proof {
            lemma_encode_concat(cut@, piece@);
        }
        cut.append(piece);
        from = range.end;
        n += 1;
    }
    let piece = slice(content, from, len);
    proof {
        lemma_encode_concat(cut@, piece@);
    }
    cut.append(piece);
    cut
}

} // verus!
