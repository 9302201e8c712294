//! Counts the spaces and the tabs of a text.
use crate::code::utils::text::{SPACE, TAB};
use vstd::prelude::*;
use vstd::string::StringSliceAdditionalSpecFns;

verus! {

/// How often `byte` occurs in `bytes`.
pub open spec fn occurrences(bytes: Seq<u8>, byte: u8) -> nat
    decreases bytes.len(),
{
    if bytes.len() == 0 {
        0
    } else {
        occurrences(bytes.drop_last(), byte) + if bytes.last() == byte {
            1nat
        } else {
            0nat
        }
    }
}

/// A byte occurs in a text at most as often as the text has bytes.
pub proof fn lemma_occurrences_bound(bytes: Seq<u8>, byte: u8)
    ensures
        occurrences(bytes, byte) <= bytes.len(),
    decreases bytes.len(),
{
    if bytes.len() > 0 {
        lemma_occurrences_bound(bytes.drop_last(), byte);
    }
}

/// How often `byte` occurs in `s`.
fn count_byte(s: &str, byte: u8) -> (n: usize)
    ensures
        n == occurrences(s.spec_bytes(), byte),
{
    let bytes = s.as_bytes();
    let mut n: usize = 0;
    let mut i: usize = 0;
    while i < bytes.len()
        invariant
            i <= bytes.len(),
            bytes@ == s.spec_bytes(),
            n == occurrences(bytes@.subrange(0, i as int), byte),
            n <= i,
        decreases bytes.len() - i,
    {
        assert(bytes@.subrange(0, i + 1).drop_last() =~= bytes@.subrange(0, i as int));
        if bytes[i] == byte {
            n += 1;
        }
        i += 1;
    }
    assert(bytes@.subrange(0, i as int) =~= bytes@);
    n
}

/// The number of spaces in `s`.
pub fn count(s: &str) -> (n: usize)
    ensures
        n == occurrences(s.spec_bytes(), SPACE),
{
    count_byte(s, SPACE)
}

/// The number of tabs in `s`.
pub fn count_tabspace(s: &str) -> (n: usize)
    ensures
        n == occurrences(s.spec_bytes(), TAB),
{
    count_byte(s, TAB)
}

} // verus!
