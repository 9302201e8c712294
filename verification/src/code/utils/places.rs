//! Where the bytes of a text that is left after cuts stood before the cuts.
use crate::code::utils::text::{cut_out, end_before, kept_upto, ranges_fit};
use std::ops::Range;
use vstd::prelude::*;

verus! {

/// The places from `from` up to `to`, in their order.
pub open spec fn places_between(from: int, to: int) -> Seq<int> {
    if from < to {
        Seq::new((to - from) as nat, |i: int| from + i)
    } else {
        Seq::empty()
    }
}

/// The places of the bytes that are kept before range `n - 1` starts.
pub open spec fn places_upto(ranges: Seq<Range<usize>>, n: int) -> Seq<int>
    decreases n,
{
    if n <= 0 {
        Seq::empty()
    } else {
        places_upto(ranges, n - 1) + places_between(end_before(ranges, n - 1), ranges[n - 1].start as int)
    }
}

/// For each byte of what is left of a text of `len` bytes when `ranges` are
/// cut out, the place at which the byte stood in the text.
pub open spec fn kept_places(len: int, ranges: Seq<Range<usize>>) -> Seq<int> {
    places_upto(ranges, ranges.len() as int) + places_between(end_before(ranges, ranges.len() as int), len)
}

/// True when place `p` lies in none of `ranges`.
pub open spec fn outside_all(ranges: Seq<Range<usize>>, p: int) -> bool {
    forall|i: int| 0 <= i < ranges.len() ==> !((#[trigger] ranges[i]).start <= p < ranges[i].end)
}

/// True when `left` is what the bytes of `bytes` at `places` spell: `places`
/// rise, each is a place of `bytes`, and each byte of `left` is the byte of
/// `bytes` at its place.
pub open spec fn spelled_at(bytes: Seq<u8>, places: Seq<int>, left: Seq<u8>) -> bool {
    &&& places.len() == left.len()
    &&& forall|q: int| 0 <= q < places.len() ==> 0 <= #[trigger] places[q] < bytes.len() && left[q] == bytes[places[q]]
    &&& forall|q: int, r: int| 0 <= q < r < places.len() ==> #[trigger] places[q] < #[trigger] places[r]
}

/// Ranges that can be cut out of a text stand in order.
pub proof fn lemma_ranges_in_order(bytes: Seq<u8>, ranges: Seq<Range<usize>>, i: int, j: int)
    requires
        ranges_fit(bytes, ranges),
        0 <= i <= j < ranges.len(),
    ensures
        ranges[i].start <= ranges[j].start,
        ranges[i].end <= ranges[j].end,
        i < j ==> ranges[i].end <= ranges[j].start,
    decreases j - i,
{
    if i < j {
        lemma_ranges_in_order(bytes, ranges, i, j - 1);
        assert(ranges[j - 1].end <= ranges[j].start);
    }
}

/// A place between the end of one range and the start of the next lies in no
/// range.
pub proof fn lemma_gap_outside(bytes: Seq<u8>, ranges: Seq<Range<usize>>, k: int, p: int)
    requires
        ranges_fit(bytes, ranges),
        0 <= k <= ranges.len(),
        end_before(ranges, k) <= p,
        k < ranges.len() ==> p < ranges[k].start,
    ensures
        outside_all(ranges, p),
{
    assert forall|i: int| 0 <= i < ranges.len() implies !((#[trigger] ranges[i]).start <= p < ranges[i].end) by {
        if i < k {
            lemma_ranges_in_order(bytes, ranges, i, k - 1);
        } else {
            lemma_ranges_in_order(bytes, ranges, k, i);
        }
    }
}

/// What is kept before a range starts is spelled by the bytes at
/// `places_upto`, which lie in no range and before the start of that range.
pub proof fn lemma_places_upto(bytes: Seq<u8>, ranges: Seq<Range<usize>>, n: int)
    requires
        ranges_fit(bytes, ranges),
        0 <= n <= ranges.len(),
    ensures
        spelled_at(bytes, places_upto(ranges, n), kept_upto(bytes, ranges, n)),
        forall|q: int|
            0 <= q < places_upto(ranges, n).len() ==> outside_all(ranges, #[trigger] places_upto(ranges, n)[q])
                && n > 0 && places_upto(ranges, n)[q] < ranges[n - 1].start,
    decreases n,
{
    if n > 0 {
        lemma_places_upto(bytes, ranges, n - 1);
        let before = places_upto(ranges, n - 1);
        let from = end_before(ranges, n - 1);
        let to = ranges[n - 1].start as int;
        let own = places_between(from, to);
        let places = places_upto(ranges, n);
        let left = kept_upto(bytes, ranges, n);
        if n > 1 {
            assert(ranges[n - 2].end <= ranges[n - 1].start);
        }
        assert(places =~= before + own);
        assert(left =~= kept_upto(bytes, ranges, n - 1) + bytes.subrange(from, to));
        assert forall|q: int| 0 <= q < places.len() implies 0 <= #[trigger] places[q] < bytes.len() && left[q]
            == bytes[places[q]] && outside_all(ranges, places[q]) && places[q] < ranges[n - 1].start by {
            if q < before.len() {
                assert(places[q] == before[q]);
            } else {
                assert(places[q] == from + (q - before.len()));
                lemma_gap_outside(bytes, ranges, n - 1, places[q]);
            }
        }
        assert forall|q: int, r: int| 0 <= q < r < places.len() implies #[trigger] places[q] < #[trigger] places[r] by {
            if r < before.len() {
                assert(places[q] == before[q] && places[r] == before[r]);
            } else if q < before.len() {
                assert(places[q] == before[q]);
                assert(places[r] == from + (r - before.len()));
            }
        }
    }
}

/// What is left of a text when ranges are cut out of it is spelled by the
/// bytes of the text at `kept_places`: these rise, so the bytes that are left
/// keep their order, and none of them lies in a range.
pub proof fn lemma_kept_places(bytes: Seq<u8>, ranges: Seq<Range<usize>>)
    requires
        ranges_fit(bytes, ranges),
    ensures
        spelled_at(bytes, kept_places(bytes.len() as int, ranges), cut_out(bytes, ranges)),
        forall|q: int|
            0 <= q < kept_places(bytes.len() as int, ranges).len() ==> outside_all(
                ranges,
                #[trigger] kept_places(bytes.len() as int, ranges)[q],
            ),
{
    let n = ranges.len() as int;
    let len = bytes.len() as int;
    lemma_places_upto(bytes, ranges, n);
    let before = places_upto(ranges, n);
    let from = end_before(ranges, n);
    let own = places_between(from, len);
    let places = kept_places(len, ranges);
    let left = cut_out(bytes, ranges);
    assert(places =~= before + own);
    assert(left =~= kept_upto(bytes, ranges, n) + bytes.subrange(from, len));
    assert forall|q: int| 0 <= q < places.len() implies 0 <= #[trigger] places[q] < bytes.len() && left[q]
        == bytes[places[q]] && outside_all(ranges, places[q]) by {
        if q < before.len() {
            assert(places[q] == before[q]);
        } else {
            assert(places[q] == from + (q - before.len()));
            lemma_gap_outside(bytes, ranges, n, places[q]);
        }
    }
    assert forall|q: int, r: int| 0 <= q < r < places.len() implies #[trigger] places[q] < #[trigger] places[r] by {
        if r < before.len() {
            assert(places[q] == before[q] && places[r] == before[r]);
        } else if q < before.len() {
            assert(places[q] == before[q]);
            assert(places[r] == from + (r - before.len()));
        }
    }
}

} // verus!
