//! The positions of the line breaks of a text, and the line of a position.
use crate::code::utils::text::NEWLINE;
use vstd::prelude::*;
use vstd::string::StringSliceAdditionalSpecFns;

verus! {

/// The positions of the line breaks among the first `n` bytes, in rising
/// order.
pub open spec fn line_breaks(bytes: Seq<u8>, n: int) -> Seq<usize>
    decreases n,
{
    if n <= 0 || n > bytes.len() {
        Seq::empty()
    } else if bytes[n - 1] == NEWLINE {
        line_breaks(bytes, n - 1).push((n - 1) as usize)
    } else {
        line_breaks(bytes, n - 1)
    }
}

/// The number of the line that holds byte `needle`, counting from 1: one more
/// than the number of line breaks at or before `needle`, where `line_map`
/// holds the line breaks in rising order.
pub open spec fn spec_find_line(line_map: Seq<usize>, needle: usize) -> int
    decreases line_map.len(),
{
    if line_map.len() == 0 {
        1
    } else if line_map[0] > needle {
        1
    } else {
        1 + spec_find_line(line_map.drop_first(), needle)
    }
}

/// A text has no more line breaks than bytes.
pub proof fn lemma_line_breaks_len(bytes: Seq<u8>, n: int)
    requires
        0 <= n <= bytes.len(),
    ensures
        line_breaks(bytes, n).len() <= n,
    decreases n,
{
    if n > 0 {
        lemma_line_breaks_len(bytes, n - 1);
    }
}

/// The positions of the line breaks of `content`, in rising order.
pub fn build_line_map(content: &str) -> (line_map: Vec<usize>)
    ensures
        line_map@ == line_breaks(content.spec_bytes(), content.spec_bytes().len() as int),
        line_map@.len() <= content.spec_bytes().len(),
{
    proof {
        lemma_line_breaks_len(content.spec_bytes(), content.spec_bytes().len() as int);
    }
    let bytes = content.as_bytes();
    let mut line_map: Vec<usize> = Vec::new();
    let mut i: usize = 0;
    while i < bytes.len()
        invariant
            i <= bytes.len(),
            bytes@ == content.spec_bytes(),
            line_map@ == line_breaks(bytes@, i as int),
        decreases bytes.len() - i,
    {
        if bytes[i] == NEWLINE {
            line_map.push(i);
        }
        i += 1;
    }
    line_map
}

/// The number of the line that holds byte `needle`, counting from 1: the
/// place of the first entry of `line_map` beyond `needle`, or one more than
/// the number of entries where none is beyond it.
pub fn find_line(line_map: &[usize], needle: usize) -> (line: usize)
    requires
        line_map@.len() < usize::MAX,
    ensures
        line == spec_find_line(line_map@, needle),
        1 <= line <= line_map@.len() + 1,
{
    let mut i: usize = 0;
    assert(line_map@.subrange(0, line_map@.len() as int) =~= line_map@);
    while i < line_map.len()
        invariant
            i <= line_map.len(),
            line_map@.len() < usize::MAX,
            spec_find_line(line_map@, needle) == i + spec_find_line(
                line_map@.subrange(i as int, line_map@.len() as int),
                needle,
            ),
        decreases line_map.len() - i,
    {
        let ghost rest = line_map@.subrange(i as int, line_map@.len() as int);
        assert(rest[0] == line_map@[i as int]);
        if line_map[i] > needle {
            return i + 1;
        }
        assert(rest.drop_first() =~= line_map@.subrange(i + 1, line_map@.len() as int));
        i += 1;
    }
    assert(line_map@.subrange(i as int, line_map@.len() as int).len() == 0);
    i + 1
}

} // verus!
