//! Where the markers lie in the text that is left when they are removed.
use crate::code::remover::merge::{markers_within};
use crate::code::remover::{RemoveMarker, RemovedMarker};
use crate::code::utils::text::{cut_out, is_boundary, kept_upto, end_before, lemma_cut_boundary, ranges_fit};
use std::ops::Range;
use vstd::prelude::*;

verus! {

/// The ranges of a run of markers.
pub open spec fn marker_ranges(markers: Seq<RemoveMarker>) -> Seq<Range<usize>> {
    Seq::new(markers.len(), |i: int| markers[i].0)
}

/// Sound markers can be cut out of the text.
pub proof fn lemma_markers_cut(source: Seq<u8>, markers: Seq<RemoveMarker>)
    requires
        markers_within(source, markers, 0, source.len() as int),
    ensures
        ranges_fit(source, marker_ranges(markers)),
{
    let ranges = marker_ranges(markers);
    assert forall|i: int| 0 <= i < ranges.len() implies {
        &&& (#[trigger] ranges[i]).start <= ranges[i].end <= source.len()
        &&& is_boundary(source, ranges[i].start as int)
        &&& is_boundary(source, ranges[i].end as int)
    } by {
        assert(ranges[i] == markers[i].0);
    }
    assert forall|i: int| 0 < i < ranges.len() implies ranges[i - 1].end <= (#[trigger] ranges[i]).start by {
        assert(ranges[i] == markers[i].0);
        assert(ranges[i - 1] == markers[i - 1].0);
    }
}

/// True when each marker starts no later than it ends and ends no later than
/// any marker behind it starts.
pub open spec fn markers_ordered(markers: Seq<RemoveMarker>) -> bool {
    &&& forall|i: int| 0 <= i < markers.len() ==> (#[trigger] markers[i]).0.start <= markers[i].0.end
    &&& forall|i: int, j: int|
        0 <= i < j < markers.len() ==> (#[trigger] markers[i]).0.end <= (#[trigger] markers[j]).0.start
}

/// Sound markers are in order.
pub proof fn lemma_within_ordered(source: Seq<u8>, markers: Seq<RemoveMarker>, lo: int, hi: int)
    requires
        markers_within(source, markers, lo, hi),
    ensures
        markers_ordered(markers),
{
}

/// The number of bytes that the first `n` markers remove.
pub open spec fn removed_before(markers: Seq<RemoveMarker>, n: int) -> int
    decreases n,
{
    if n <= 0 {
        0
    } else {
        removed_before(markers, n - 1) + (markers[n - 1].0.end - markers[n - 1].0.start)
    }
}

/// Where marker `k` starts in the text as it is once the markers before it
/// are removed.
pub open spec fn removed_pos(markers: Seq<RemoveMarker>, k: int) -> int {
    markers[k].0.start - removed_before(markers, k)
}

/// For each marker the position at which it starts once the markers before
/// it are removed, with the place that the marker points to.
pub open spec fn spec_get_removed_pos(markers: Seq<RemoveMarker>) -> Seq<RemovedMarker> {
    Seq::new(markers.len(), |k: int| (removed_pos(markers, k) as usize, markers[k].1))
}

/// Markers in order remove, before any one of them, no more than the text
/// before it.
pub proof fn lemma_removed_before_bound(markers: Seq<RemoveMarker>, n: int)
    requires
        markers_ordered(markers),
        0 <= n <= markers.len(),
    ensures
        0 <= removed_before(markers, n),
        n > 0 ==> removed_before(markers, n) <= markers[n - 1].0.end,
        n < markers.len() ==> removed_before(markers, n) <= markers[n].0.start,
    decreases n,
{
    if n > 0 {
        lemma_removed_before_bound(markers, n - 1);
        if n < markers.len() {
            assert(markers[n - 1].0.end <= markers[n].0.start);
        }
    }
}

/// The positions of markers in order never fall: a later marker starts, once
/// all before it are removed, no earlier than an earlier one.
pub proof fn lemma_removed_pos_rises(markers: Seq<RemoveMarker>, i: int, j: int)
    requires
        markers_ordered(markers),
        0 <= i <= j < markers.len(),
    ensures
        removed_pos(markers, i) <= removed_pos(markers, j),
    decreases j - i,
{
    if i < j {
        lemma_removed_pos_rises(markers, i, j - 1);
        assert(markers[j - 1].0.end <= markers[j].0.start);
    }
}

/// Where text is left between every marker and the next, the positions rise
/// strictly: a later marker starts, once all before it are removed, behind an
/// earlier one.
pub proof fn lemma_removed_pos_strictly_rises(markers: Seq<RemoveMarker>, i: int, j: int)
    requires
        markers_ordered(markers),
        0 <= i < j < markers.len(),
        forall|k: int| i <= k < j ==> (#[trigger] markers[k]).0.end < markers[k + 1].0.start,
    ensures
        removed_pos(markers, i) < removed_pos(markers, j),
    decreases j - i,
{
    assert(markers[j - 1].0.end < markers[j].0.start);
    if i < j - 1 {
        lemma_removed_pos_strictly_rises(markers, i, j - 1);
    }
}

/// For each marker the position at which it starts once the markers before it
/// are removed: its start less the bytes that the markers before it remove.
/// The positions are in the order of the markers and never fall.
pub fn get_removed_pos(markers: &[RemoveMarker]) -> (positions: Vec<RemovedMarker>)
    requires
        markers_ordered(markers@),
    ensures
        positions@ == spec_get_removed_pos(markers@),
        forall|i: int, j: int|
            0 <= i <= j < positions@.len() ==> (#[trigger] positions@[i]).0 <= (#[trigger] positions@[j]).0,
{
    let mut positions: Vec<RemovedMarker> = Vec::new();
    let mut removed_len: usize = 0;
    let mut k: usize = 0;
    while k < markers.len()
        invariant
            k <= markers.len(),
            markers_ordered(markers@),
            removed_len == removed_before(markers@, k as int),
            positions@.len() == k,
            forall|t: int| 0 <= t < k ==> positions@[t] == spec_get_removed_pos(markers@)[t],
        decreases markers.len() - k,
    {
        proof {
            lemma_removed_before_bound(markers@, k as int);
            lemma_removed_before_bound(markers@, k + 1);
        }
        let marker = &markers[k];
        positions.push((marker.0.start - removed_len, marker.1));
        removed_len += marker.0.end - marker.0.start;
        k += 1;
    }
    proof {
        assert(positions@ =~= spec_get_removed_pos(markers@));
        assert forall|i: int, j: int| 0 <= i <= j < positions@.len() implies (#[trigger] positions@[i]).0 <= (
        #[trigger] positions@[j]).0 by {
            lemma_removed_pos_rises(markers@, i, j);
            lemma_removed_before_bound(markers@, i);
            lemma_removed_before_bound(markers@, j);
        }
    }
    positions
}

/// What is kept before marker `n` ends where that marker starts once the
/// markers before it are removed.
pub proof fn lemma_kept_len(source: Seq<u8>, markers: Seq<RemoveMarker>, n: int)
    requires
        markers_within(source, markers, 0, source.len() as int),
        0 <= n < markers.len(),
    ensures
        kept_upto(source, marker_ranges(markers), n + 1).len() == removed_pos(
            markers,
            n,
        ),
    decreases n,
{
    let ranges = marker_ranges(markers);
    assert(ranges[n] == markers[n].0);
    let from = end_before(ranges, n);
    let piece = source.subrange(from, ranges[n].start as int);
    assert(kept_upto(source, ranges, n + 1)
        == kept_upto(source, ranges, n) + piece);
    if n > 0 {
        lemma_kept_len(source, markers, n - 1);
        assert(ranges[n - 1] == markers[n - 1].0);
        assert(markers[n - 1].0.end <= markers[n].0.start);
        assert(removed_before(markers, n) == removed_before(markers, n - 1) + (markers[n - 1].0.end
            - markers[n - 1].0.start));
        assert(piece.len() == ranges[n].start - from);
    } else {
        assert(kept_upto(source, ranges, 0).len() == 0);
        assert(piece.len() == ranges[n].start - from);
    }
}

/// The positions of sound markers can be formatted in the text that is left
/// when the markers are removed: each lies between characters of that text,
/// none lies before the one before it, and each that points at another points
/// inside the list.
pub proof fn lemma_removed_pos_fit(source: Seq<u8>, markers: Seq<RemoveMarker>)
    requires
        vstd::utf8::valid_utf8(source),
        markers_within(source, markers, 0, source.len() as int),
    ensures
        crate::code::formatter::cuts_fit(
            cut_out(source, marker_ranges(markers)),
            spec_get_removed_pos(markers),
        ),
{
    let ranges = marker_ranges(markers);
    let left = cut_out(source, ranges);
    let positions = spec_get_removed_pos(markers);
    lemma_markers_cut(source, markers);
    assert forall|i: int| 0 <= i < positions.len() implies is_boundary(left, (#[trigger] positions[i]).0 as int) by {
        lemma_kept_len(source, markers, i);
        lemma_cut_boundary(source, ranges, i + 1);
        lemma_removed_before_bound(markers, i);
    }
    assert forall|i: int| 0 < i < positions.len() implies positions[i - 1].0 <= (#[trigger] positions[i]).0 by {
        lemma_removed_pos_rises(markers, i - 1, i);
        lemma_removed_before_bound(markers, i);
        lemma_removed_before_bound(markers, i - 1);
    }
    assert forall|i: int| 0 <= i < positions.len() implies ((#[trigger] positions[i]).1 matches Some(at) ==> at
        < positions.len()) by {
        assert(positions[i].1 == markers[i].1);
    }
}

} // verus!
