//! Turns trees of ranges into a flat list of markers.
use crate::code::remover::RemoveMarker;
use crate::code::remover::marker::builder::RemovableRange;
use crate::code::utils::text::is_boundary;
use std::ops::Range;
use vstd::prelude::*;

verus! {

/// The range of a directive that is to be removed, with the ranges of the
/// directives inside it.
pub struct RemovalRangeTree {
    pub range: RemovableRange,
    pub children: Vec<RemovalRangeTree>,
}

/// What a tree of ranges stands for.
pub struct RangeTreeView {
    pub range: RemovableRange,
    pub children: Seq<RangeTreeView>,
}

/// What a tree of ranges stands for.
pub open spec fn tree_view(tree: RemovalRangeTree) -> RangeTreeView
    decreases tree,
{
    RangeTreeView { range: tree.range, children: tree_views_upto(tree.children@, tree.children@.len()) }
}

/// The views of the first `n` of `trees`.
pub open spec fn tree_views_upto(trees: Seq<RemovalRangeTree>, n: nat) -> Seq<RangeTreeView>
    decreases trees, n,
{
    if n == 0 || n > trees.len() {
        Seq::empty()
    } else {
        tree_views_upto(trees, (n - 1) as nat).push(tree_view(trees[n - 1]))
    }
}

/// The views of a run of trees.
pub open spec fn tree_views(trees: Seq<RemovalRangeTree>) -> Seq<RangeTreeView> {
    tree_views_upto(trees, trees.len())
}

impl View for RemovalRangeTree {
    type V = RangeTreeView;

    open spec fn view(&self) -> RangeTreeView {
        tree_view(*self)
    }
}

/// The views of a run of trees depend on no tree behind the run.
pub proof fn lemma_tree_views_prefix(a: Seq<RemovalRangeTree>, b: Seq<RemovalRangeTree>, n: nat)
    requires
        n <= a.len(),
        n <= b.len(),
        forall|i: int| 0 <= i < n ==> a[i] == b[i],
    ensures
        tree_views_upto(a, n) == tree_views_upto(b, n),
    decreases n,
{
    if n > 0 {
        lemma_tree_views_prefix(a, b, (n - 1) as nat);
    }
}

/// The views of trees with one more tree behind them.
pub proof fn lemma_tree_views_push(trees: Seq<RemovalRangeTree>, tree: RemovalRangeTree)
    ensures
        tree_views(trees.push(tree)) == tree_views(trees).push(tree@),
{
    lemma_tree_views_prefix(trees.push(tree), trees, trees.len());
}

/// The views of two runs of trees, one behind the other.
pub proof fn lemma_tree_views_concat(a: Seq<RemovalRangeTree>, b: Seq<RemovalRangeTree>)
    ensures
        tree_views(a + b) == tree_views(a) + tree_views(b),
    decreases b.len(),
{
    if b.len() == 0 {
        assert(a + b =~= a);
        assert(tree_views(a) + tree_views(b) =~= tree_views(a));
    } else {
        let front = b.drop_last();
        lemma_tree_views_concat(a, front);
        lemma_tree_views_push(a + front, b.last());
        lemma_tree_views_push(front, b.last());
        assert((a + front).push(b.last()) =~= a + b);
        assert(front.push(b.last()) =~= b);
        assert(tree_views(a + b) =~= tree_views(a) + tree_views(b));
    }
}

/// The tree at place `i` of a run has the view at place `i` of the run's
/// views.
pub proof fn lemma_tree_views_index(trees: Seq<RemovalRangeTree>, n: nat, i: int)
    requires
        0 <= i < n <= trees.len(),
    ensures
        tree_views_upto(trees, n).len() == n,
        tree_views_upto(trees, n)[i] == trees[i]@,
    decreases n,
{
    lemma_tree_views_len(trees, n);
    if i < n - 1 {
        lemma_tree_views_index(trees, (n - 1) as nat, i);
    } else {
        lemma_tree_views_len(trees, (n - 1) as nat);
    }
}

/// A run of trees has as many views as trees.
pub proof fn lemma_tree_views_len(trees: Seq<RemovalRangeTree>, n: nat)
    requires
        n <= trees.len(),
    ensures
        tree_views_upto(trees, n).len() == n,
    decreases n,
{
    if n > 0 {
        lemma_tree_views_len(trees, (n - 1) as nat);
    }
}

/// True when the start or the end of `child` lies inside `marker`.
pub open spec fn overlaps(marker: Range<usize>, child: Range<usize>) -> bool {
    (marker.start <= child.start < marker.end) || (marker.start <= child.end < marker.end)
}

/// The range that spans `marker` and `child`.
pub open spec fn joined(marker: Range<usize>, child: Range<usize>) -> Range<usize> {
    Range {
        start: if child.start < marker.start {
            child.start
        } else {
            marker.start
        },
        end: if child.end > marker.end {
            child.end
        } else {
            marker.end
        },
    }
}

/// `marker` grown over the markers of `kids` from place `i` on, as long as
/// each overlaps what has grown so far; with it the place of the first marker
/// that is left.
pub open spec fn absorb_front(marker: Range<usize>, kids: Seq<RemoveMarker>, i: int) -> (Range<usize>, int)
    decreases kids.len() - i,
{
    if 0 <= i < kids.len() && overlaps(marker, kids[i].0) {
        absorb_front(joined(marker, kids[i].0), kids, i + 1)
    } else {
        (marker, i)
    }
}

/// `marker` grown over the markers of `kids` before place `i`, last first, as
/// long as each overlaps what has grown so far; with it the place behind the
/// last marker that is left.
pub open spec fn absorb_back(marker: Range<usize>, kids: Seq<RemoveMarker>, i: int) -> (Range<usize>, int)
    decreases i,
{
    if 0 < i <= kids.len() && overlaps(marker, kids[i - 1].0) {
        absorb_back(joined(marker, kids[i - 1].0), kids, i - 1)
    } else {
        (marker, i)
    }
}

/// The place that a marker of `kids` points to, once the markers before place
/// `front` have gone into the marker at place 0, those from place `back` on
/// into the marker at place `last`, and those between stand behind place 0.
pub open spec fn rebased_place(pair: usize, front: int, back: int, last: int) -> usize {
    if pair < front {
        0
    } else if pair >= back {
        last as usize
    } else {
        (1 + pair - front) as usize
    }
}

/// `middle` with every place that a marker points to rebased.
pub open spec fn rebased(middle: Seq<RemoveMarker>, front: int, back: int, last: int) -> Seq<RemoveMarker> {
    Seq::new(
        middle.len(),
        |k: int|
            (
                middle[k].0,
                match middle[k].1 {
                    Some(pair) => Some(rebased_place(pair, front, back, last)),
                    None => None,
                },
            ),
    )
}

/// `markers` with every place that a marker points to moved on by `by`.
pub open spec fn shifted(markers: Seq<RemoveMarker>, by: int) -> Seq<RemoveMarker> {
    Seq::new(
        markers.len(),
        |k: int|
            (
                markers[k].0,
                match markers[k].1 {
                    Some(pair) => Some((pair + by) as usize),
                    None => None,
                },
            ),
    )
}

/// The markers of one tree of ranges.
///
/// The range takes in the markers of the directives inside it that it
/// overlaps, from the first on. A range in two parts does the same for its
/// second part from the last marker back; the markers that neither part took
/// in stay between the two, and the two parts point at each other. The second
/// part never starts before the first one ends. A marker between the two
/// whose partner was taken in points at the part that took it.
pub open spec fn spec_merge_tree(tree: RangeTreeView) -> Seq<RemoveMarker>
    decreases tree,
{
    let kids = merge_forest(tree.children, tree.children.len());
    let (primary, front) = absorb_front(tree.range.0, kids, 0);
    match tree.range.1 {
        None => seq![(primary, None)],
        Some(second) => {
            let (grown, back) = absorb_back(second, kids, kids.len() as int);
            let paired = Range {
                start: if grown.start < primary.end {
                    primary.end
                } else {
                    grown.start
                },
                end: grown.end,
            };
            let middle = if front < back {
                kids.subrange(front, back)
            } else {
                Seq::empty()
            };
            let last = middle.len() + 1;
            seq![(primary, Some(last as usize))] + rebased(middle, front, back, last as int) + seq![
                (paired, Some(0usize)),
            ]
        },
    }
}

/// The markers of the first `n` trees of a run, one tree after the other.
pub open spec fn merge_forest(forest: Seq<RangeTreeView>, n: nat) -> Seq<RemoveMarker>
    decreases forest, n,
{
    if n == 0 || n > forest.len() {
        Seq::empty()
    } else {
        let before = merge_forest(forest, (n - 1) as nat);
        before + shifted(spec_merge_tree(forest[n - 1]), before.len() as int)
    }
}

/// The markers of a run of trees.
pub open spec fn spec_merge_markers(forest: Seq<RangeTreeView>) -> Seq<RemoveMarker> {
    merge_forest(forest, forest.len())
}

/// True when every marker that points at another points inside the list.
pub open spec fn pairs_in_range(markers: Seq<RemoveMarker>) -> bool {
    forall|i: int| 0 <= i < markers.len() ==> ((#[trigger] markers[i]).1 matches Some(pair) ==> pair < markers.len())
}

/// Taking in markers from the front stops at a place of the list.
pub proof fn lemma_absorb_front_place(marker: Range<usize>, kids: Seq<RemoveMarker>, i: int)
    requires
        0 <= i <= kids.len(),
    ensures
        i <= absorb_front(marker, kids, i).1 <= kids.len(),
    decreases kids.len() - i,
{
    if i < kids.len() && overlaps(marker, kids[i].0) {
        lemma_absorb_front_place(joined(marker, kids[i].0), kids, i + 1);
    }
}

/// Taking in markers from the back stops at a place of the list.
pub proof fn lemma_absorb_back_place(marker: Range<usize>, kids: Seq<RemoveMarker>, i: int)
    requires
        0 <= i <= kids.len(),
    ensures
        0 <= absorb_back(marker, kids, i).1 <= i,
    decreases i,
{
    if 0 < i && overlaps(marker, kids[i - 1].0) {
        lemma_absorb_back_place(joined(marker, kids[i - 1].0), kids, i - 1);
    }
}

/// The markers of a tree point inside their list.
pub proof fn lemma_merge_tree_pairs(tree: RangeTreeView)
    ensures
        pairs_in_range(spec_merge_tree(tree)),
        spec_merge_tree(tree).len() >= 1,
    decreases tree,
{
    let kids = merge_forest(tree.children, tree.children.len());
    let (primary, front) = absorb_front(tree.range.0, kids, 0);
    lemma_absorb_front_place(tree.range.0, kids, 0);
    if let Some(second) = tree.range.1 {
        let (grown, back) = absorb_back(second, kids, kids.len() as int);
        lemma_absorb_back_place(second, kids, kids.len() as int);
        let middle = if front < back {
            kids.subrange(front, back)
        } else {
            Seq::empty()
        };
        let last = middle.len() + 1;
        let out = spec_merge_tree(tree);
        assert(out.len() == middle.len() + 2);
        assert forall|i: int| 0 <= i < out.len() implies ((#[trigger] out[i]).1 matches Some(pair) ==> pair
            < out.len()) by {
            if 1 <= i <= middle.len() {
                assert(out[i] == rebased(middle, front, back, last as int)[i - 1]);
            }
        }
    }
}

/// The markers of a run of trees point inside their list.
pub proof fn lemma_merge_forest_pairs(forest: Seq<RangeTreeView>, n: nat)
    ensures
        pairs_in_range(merge_forest(forest, n)),
    decreases forest, n,
{
    if n == 0 || n > forest.len() {
    } else {
        let before = merge_forest(forest, (n - 1) as nat);
        let own = spec_merge_tree(forest[n - 1]);
        lemma_merge_forest_pairs(forest, (n - 1) as nat);
        lemma_merge_tree_pairs(forest[n - 1]);
        let out = merge_forest(forest, n);
        assert forall|i: int| 0 <= i < out.len() implies ((#[trigger] out[i]).1 matches Some(pair) ==> pair
            < out.len()) by {
            if i < before.len() {
                assert(out[i] == before[i]);
            } else {
                assert(out[i] == shifted(own, before.len() as int)[i - before.len()]);
                assert(own[i - before.len()].1 matches Some(pair) ==> pair < own.len());
            }
        }
    }
}

/// Where the last range of a tree ends.
pub open spec fn tree_end(tree: RangeTreeView) -> int {
    match tree.range.1 {
        Some(second) => second.end as int,
        None => tree.range.0.end as int,
    }
}

/// True when a tree of ranges is sound on `source`: its range is not empty
/// and cuts between characters, a second part starts no earlier than the
/// first ends, and the trees inside it are sound and lie, in order, strictly
/// between the start of the range and its end.
pub open spec fn tree_fits(source: Seq<u8>, tree: RangeTreeView) -> bool
    decreases tree,
{
    let first = tree.range.0;
    &&& first.start < first.end
    &&& is_boundary(source, first.start as int)
    &&& is_boundary(source, first.end as int)
    &&& match tree.range.1 {
        Some(second) => {
            &&& first.end <= second.start < second.end
            &&& is_boundary(source, second.start as int)
            &&& is_boundary(source, second.end as int)
        },
        None => true,
    }
    &&& forest_fits(source, tree.children, tree.children.len(), first.start + 1, tree_end(tree) - 1)
}

/// True when the first `n` trees of a run are sound on `source` and lie, in
/// order and without overlap, between byte `lo` and byte `hi`.
pub open spec fn forest_fits(source: Seq<u8>, forest: Seq<RangeTreeView>, n: nat, lo: int, hi: int) -> bool
    decreases forest, n,
{
    if n == 0 {
        lo <= hi
    } else if n > forest.len() {
        false
    } else {
        let tree = forest[n - 1];
        &&& tree_fits(source, tree)
        &&& tree_end(tree) <= hi
        &&& lo <= tree.range.0.start
        &&& forest_fits(source, forest, (n - 1) as nat, lo, tree.range.0.start as int)
    }
}

/// True when `markers` are sound on `source` between byte `lo` and byte `hi`:
/// each lies there, is not empty and cuts between characters, each ends no
/// later than the next starts, and each that points at another points inside
/// the list.
pub open spec fn markers_within(source: Seq<u8>, markers: Seq<RemoveMarker>, lo: int, hi: int) -> bool {
    &&& lo <= hi
    &&& forall|i: int|
        0 <= i < markers.len() ==> {
            &&& lo <= (#[trigger] markers[i]).0.start < markers[i].0.end <= hi
            &&& is_boundary(source, markers[i].0.start as int)
            &&& is_boundary(source, markers[i].0.end as int)
        }
    &&& forall|i: int, j: int|
        0 <= i < j < markers.len() ==> (#[trigger] markers[i]).0.end <= (#[trigger] markers[j]).0.start
    &&& pairs_in_range(markers)
}

/// What growing a range from the front over sound markers gives: the range
/// keeps its start, ends between characters, and ends before every marker
/// that it left.
pub proof fn lemma_absorb_front_fits(
    source: Seq<u8>,
    marker: Range<usize>,
    kids: Seq<RemoveMarker>,
    i: int,
    lo: int,
    hi: int,
)
    requires
        markers_within(source, kids, lo, hi),
        0 <= i <= kids.len(),
        marker.start <= lo,
        marker.start <= marker.end,
        is_boundary(source, marker.end as int),
    ensures
        ({
            let (grown, place) = absorb_front(marker, kids, i);
            &&& grown.start == marker.start
            &&& marker.end <= grown.end
            &&& (grown.end == marker.end || grown.end <= hi)
            &&& is_boundary(source, grown.end as int)
            &&& i <= place <= kids.len()
            &&& forall|k: int| place <= k < kids.len() ==> (#[trigger] kids[k]).0.start >= grown.end
        }),
    decreases kids.len() - i,
{
    if i < kids.len() && overlaps(marker, kids[i].0) {
        lemma_absorb_front_fits(source, joined(marker, kids[i].0), kids, i + 1, lo, hi);
    } else {
        assert forall|k: int| i <= k < kids.len() implies (#[trigger] kids[k]).0.start >= marker.end by {
            if k > i {
                assert(kids[i].0.end <= kids[k].0.start);
            }
        }
    }
}

/// What growing a range from the back over sound markers gives: the range
/// keeps its end, starts between characters, and starts behind every marker
/// that it left.
pub proof fn lemma_absorb_back_fits(
    source: Seq<u8>,
    marker: Range<usize>,
    kids: Seq<RemoveMarker>,
    i: int,
    lo: int,
    hi: int,
)
    requires
        markers_within(source, kids, lo, hi),
        0 <= i <= kids.len(),
        hi < marker.end,
        marker.start <= marker.end,
        is_boundary(source, marker.start as int),
    ensures
        ({
            let (grown, place) = absorb_back(marker, kids, i);
            &&& grown.end == marker.end
            &&& grown.start <= marker.start
            &&& (grown.start == marker.start || lo <= grown.start)
            &&& is_boundary(source, grown.start as int)
            &&& 0 <= place <= i
            &&& forall|k: int| 0 <= k < place ==> (#[trigger] kids[k]).0.end < grown.start
        }),
    decreases i,
{
    if 0 < i && overlaps(marker, kids[i - 1].0) {
        lemma_absorb_back_fits(source, joined(marker, kids[i - 1].0), kids, i - 1, lo, hi);
    } else {
        assert forall|k: int| 0 <= k < i implies (#[trigger] kids[k]).0.end < marker.start by {
            if k < i - 1 {
                assert(kids[k].0.end <= kids[i - 1].0.start);
            }
        }
    }
}

/// The markers of a sound tree of ranges are sound, and lie between the start
/// of its range and its end.
pub proof fn lemma_merge_tree_fits(source: Seq<u8>, tree: RangeTreeView)
    requires
        tree_fits(source, tree),
    ensures
        markers_within(source, spec_merge_tree(tree), tree.range.0.start as int, tree_end(tree)),
    decreases tree, 0nat,
{
    let first = tree.range.0;
    let lo = first.start + 1;
    let hi = tree_end(tree) - 1;
    let kids = merge_forest(tree.children, tree.children.len());
    lemma_merge_forest_fits(source, tree.children, tree.children.len(), lo, hi);
    lemma_absorb_front_fits(source, first, kids, 0, lo, hi);
    lemma_merge_tree_pairs(tree);
    let (primary, front) = absorb_front(first, kids, 0);
    let out = spec_merge_tree(tree);
    match tree.range.1 {
        None => {
            assert(out =~= seq![(primary, None::<usize>)]);
        },
        Some(second) => {
            lemma_absorb_back_fits(source, second, kids, kids.len() as int, lo, hi);
            let (grown, back) = absorb_back(second, kids, kids.len() as int);
            let middle = if front < back {
                kids.subrange(front, back)
            } else {
                Seq::empty()
            };
            let last = middle.len() + 1;
            let moved = rebased(middle, front, back, last as int);
            assert(out.len() == middle.len() + 2);
            assert(out[0].0 == primary);
            assert(out[last as int].0.end == second.end);
            assert forall|i: int| 1 <= i < last implies (#[trigger] out[i]).0 == kids[front + i - 1].0 by {
                assert(out[i] == moved[i - 1]);
            }
            assert forall|i: int| 0 <= i < out.len() implies {
                &&& first.start <= (#[trigger] out[i]).0.start < out[i].0.end <= tree_end(tree)
                &&& is_boundary(source, out[i].0.start as int)
                &&& is_boundary(source, out[i].0.end as int)
            } by {
                if 1 <= i < last {
                    assert(out[i].0 == kids[front + i - 1].0);
                }
            }
            assert forall|i: int, j: int| 0 <= i < j < out.len() implies (#[trigger] out[i]).0.end <= (
            #[trigger] out[j]).0.start by {
                if 1 <= i < last {
                    assert(out[i].0 == kids[front + i - 1].0);
                }
                if 1 <= j < last {
                    assert(out[j].0 == kids[front + j - 1].0);
                }
            }
        },
    }
}

/// The markers of a sound run of trees are sound, and lie where the run lies.
pub proof fn lemma_merge_forest_fits(source: Seq<u8>, forest: Seq<RangeTreeView>, n: nat, lo: int, hi: int)
    requires
        forest_fits(source, forest, n, lo, hi),
    ensures
        markers_within(source, merge_forest(forest, n), lo, hi),
    decreases forest, n, 1nat,
{
    if n == 0 {
    } else {
        let tree = forest[n - 1];
        let before = merge_forest(forest, (n - 1) as nat);
        let own = spec_merge_tree(tree);
        let mid = tree.range.0.start as int;
        lemma_merge_forest_fits(source, forest, (n - 1) as nat, lo, mid);
        lemma_merge_tree_fits(source, tree);
        lemma_merge_forest_pairs(forest, n);
        let moved = shifted(own, before.len() as int);
        let out = merge_forest(forest, n);
        assert(out =~= before + moved);
        assert forall|i: int| 0 <= i < out.len() implies {
            &&& lo <= (#[trigger] out[i]).0.start < out[i].0.end <= hi
            &&& is_boundary(source, out[i].0.start as int)
            &&& is_boundary(source, out[i].0.end as int)
        } by {
            if i < before.len() {
                assert(out[i] == before[i]);
            } else {
                assert(out[i].0 == own[i - before.len()].0);
            }
        }
        assert forall|i: int, j: int| 0 <= i < j < out.len() implies (#[trigger] out[i]).0.end <= (
        #[trigger] out[j]).0.start by {
            if i < before.len() {
                assert(out[i] == before[i]);
            } else {
                assert(out[i].0 == own[i - before.len()].0);
            }
            if j < before.len() {
                assert(out[j] == before[j]);
            } else {
                assert(out[j].0 == own[j - before.len()].0);
            }
        }
    }
}

/// Whether the start or the end of `child` lies inside `marker`.
fn overlap(marker: &Range<usize>, child: &Range<usize>) -> (yes: bool)
    ensures
        yes == overlaps(*marker, *child),
{
    (marker.start <= child.start && child.start < marker.end) || (marker.start <= child.end && child.end
        < marker.end)
}

/// The range that spans `marker` and `child`.
fn join(marker: &Range<usize>, child: &Range<usize>) -> (both: Range<usize>)
    ensures
        both == joined(*marker, *child),
{
    let start = if child.start < marker.start {
        child.start
    } else {
        marker.start
    };
    let end = if child.end > marker.end {
        child.end
    } else {
        marker.end
    };
    start..end
}

/// Grows `marker` over the markers inside it that it overlaps: from the first
/// on, or with `from_back` from the last back. Gives the grown marker and the
/// place at which the growing stopped.
fn merge_child_markers(child_markers: &Vec<RemoveMarker>, marker: Range<usize>, from_back: bool) -> (grown:
    (Range<usize>, usize))
    ensures
        !from_back ==> (grown.0, grown.1 as int) == absorb_front(marker, child_markers@, 0),
        from_back ==> (grown.0, grown.1 as int) == absorb_back(
            marker,
            child_markers@,
            child_markers@.len() as int,
        ),
        grown.1 <= child_markers@.len(),
{
    let mut marker = marker;
    if from_back {
        let ghost first = marker;
        let mut cursor = child_markers.len();
        while cursor > 0 && overlap(&marker, &child_markers[cursor - 1].0)
            invariant
                cursor <= child_markers.len(),
                absorb_back(marker, child_markers@, cursor as int) == absorb_back(
                    first,
                    child_markers@,
                    child_markers@.len() as int,
                ),
            decreases cursor,
        {
            marker = join(&marker, &child_markers[cursor - 1].0);
            cursor -= 1;
        }
        (marker, cursor)
    } else {
        let ghost first = marker;
        let mut cursor: usize = 0;
        while cursor < child_markers.len() && overlap(&marker, &child_markers[cursor].0)
            invariant
                cursor <= child_markers.len(),
                absorb_front(marker, child_markers@, cursor as int) == absorb_front(first, child_markers@, 0),
            decreases child_markers.len() - cursor,
        {
            marker = join(&marker, &child_markers[cursor].0);
            cursor += 1;
        }
        (marker, cursor)
    }
}

/// Moves on by `by` every place that a marker of `markers` from place `from`
/// on points to.
fn shift_pairs(markers: &mut Vec<RemoveMarker>, from: usize, by: usize)
    requires
        from <= old(markers).len(),
        forall|k: int|
            from <= k < old(markers).len() ==> ((#[trigger] old(markers)[k]).1 matches Some(pair) ==> pair + by
                < old(markers).len()),
    ensures
        final(markers)@ == old(markers)@.subrange(0, from as int) + shifted(
            old(markers)@.subrange(from as int, old(markers)@.len() as int),
            by as int,
        ),
{
    let ghost before = markers@;
    let ghost target = before.subrange(0, from as int) + shifted(
        before.subrange(from as int, before.len() as int),
        by as int,
    );
    let mut k = from;
    while k < markers.len()
        invariant
            from <= k <= markers.len(),
            markers.len() == before.len(),
            target.len() == before.len(),
            forall|i: int| 0 <= i < k ==> markers@[i] == target[i],
            forall|i: int| k <= i < markers.len() ==> markers@[i] == before[i],
            forall|i: int|
                from <= i < before.len() ==> ((#[trigger] before[i]).1 matches Some(pair) ==> pair + by
                    < before.len()),
            target == before.subrange(0, from as int) + shifted(
                before.subrange(from as int, before.len() as int),
                by as int,
            ),
        decreases markers.len() - k,
    {
        let start = markers[k].0.start;
        let end = markers[k].0.end;
        let pair = markers[k].1;
        assert(markers@[k as int] == before[k as int]);
        let moved = match pair {
            Some(place) => Some(place + by),
            None => None,
        };
        markers.set(k, (start..end, moved));
        assert(markers@[k as int] == target[k as int]) by {
            assert(before.subrange(from as int, before.len() as int)[k - from] == before[k as int]);
        }
        k += 1;
    }
    assert(markers@ =~= target);
}

/// Rebases every place that a marker of `markers` between place 0 and place
/// `last` points to.
fn rebase_pairs(markers: &mut Vec<RemoveMarker>, front: usize, back: usize, last: usize)
    requires
        1 <= last == old(markers).len(),
        front <= back,
        last - 1 <= back - front,
    ensures
        final(markers)@ == seq![old(markers)@[0]] + rebased(
            old(markers)@.subrange(1, last as int),
            front as int,
            back as int,
            last as int,
        ),
{
    let ghost before = markers@;
    let ghost target = seq![before[0]] + rebased(
        before.subrange(1, last as int),
        front as int,
        back as int,
        last as int,
    );
    let mut k: usize = 1;
    while k < last
        invariant
            1 <= k <= last,
            last == markers.len(),
            markers.len() == before.len(),
            target.len() == before.len(),
            front <= back,
            last - 1 <= back - front,
            forall|i: int| 0 <= i < k ==> markers@[i] == target[i],
            forall|i: int| k <= i < markers.len() ==> markers@[i] == before[i],
            target == seq![before[0]] + rebased(
                before.subrange(1, last as int),
                front as int,
                back as int,
                last as int,
            ),
        decreases last - k,
    {
        let start = markers[k].0.start;
        let end = markers[k].0.end;
        let pair = markers[k].1;
        assert(markers@[k as int] == before[k as int]);
        let moved = match pair {
            Some(place) => Some(
                if place < front {
                    0
                } else if place >= back {
                    last
                } else {
                    1 + (place - front)
                },
            ),
            None => None,
        };
        markers.set(k, (start..end, moved));
        assert(markers@[k as int] == target[k as int]) by {
            assert(before.subrange(1, last as int)[k - 1] == before[k as int]);
        }
        k += 1;
    }
    assert(markers@ =~= target);
}

/// The markers of one tree of ranges.
fn merge_tree(tree: &RemovalRangeTree) -> (out: Vec<RemoveMarker>)
    ensures
        out@ == spec_merge_tree(tree@),
    decreases tree,
{
    let child_markers = merge_markers(&tree.children);
    let ghost kids = child_markers@;
    let first = tree.range.0.start..tree.range.0.end;
    let (primary, start_cursor) = merge_child_markers(&child_markers, first, false);
    let mut out: Vec<RemoveMarker> = Vec::new();
    match &tree.range.1 {
        None => {
            out.push((primary, None));
            assert(out@ =~= seq![(primary, None::<usize>)]);
        },
        Some(second) => {
            let (grown, end_cursor) = merge_child_markers(&child_markers, second.start..second.end, true);
            let paired = if grown.start < primary.end {
                primary.end..grown.end
            } else {
                grown.start..grown.end
            };
            let ghost middle = if start_cursor < end_cursor {
                kids.subrange(start_cursor as int, end_cursor as int)
            } else {
                Seq::empty()
            };
            let at_start = primary.start;
            let at_end = primary.end;
            out.push((primary, None));
            let mut k = start_cursor;
            while k < end_cursor
                invariant
                    start_cursor <= k,
                    start_cursor < end_cursor ==> k <= end_cursor,
                    start_cursor >= end_cursor ==> k == start_cursor,
                    end_cursor <= child_markers.len(),
                    kids == child_markers@,
                    out.len() == 1 + (k - start_cursor),
                    out@[0] == (Range { start: at_start, end: at_end }, None::<usize>),
                    forall|i: int| 1 <= i < out.len() ==> out@[i] == kids[start_cursor + i - 1],
                decreases end_cursor - k,
            {
                let child = &child_markers[k];
                out.push((child.0.start..child.0.end, child.1));
                k += 1;
            }
            let last = out.len();
            assert(out@.subrange(1, last as int) =~= middle) by {
                assert(out@.subrange(1, last as int).len() == middle.len());
                assert forall|i: int| 0 <= i < middle.len() implies out@.subrange(1, last as int)[i]
                    == middle[i] by {
                    assert(out@[i + 1] == kids[start_cursor + (i + 1) - 1]);
                }
            }
            if start_cursor < end_cursor {
                rebase_pairs(&mut out, start_cursor, end_cursor, last);
            } else {
                assert(out@ =~= seq![out@[0]] + rebased(middle, start_cursor as int, end_cursor as int, last as int));
            }
            out.set(0, (at_start..at_end, Some(last)));
            out.push((paired, Some(0)));
            assert(out@ =~= spec_merge_tree(tree@));
        },
    }
    out
}

/// The markers of a run of trees of ranges, one tree after the other.
pub fn merge_markers(ranges: &Vec<RemovalRangeTree>) -> (out: Vec<RemoveMarker>)
    ensures
        out@ == spec_merge_markers(tree_views(ranges@)),
    decreases ranges@,
{
    let ghost forest = tree_views(ranges@);
    let mut acc: Vec<RemoveMarker> = Vec::new();
    let mut n: usize = 0;
    proof {
        lemma_tree_views_len(ranges@, ranges@.len());
    }
    while n < ranges.len()
        invariant
            n <= ranges.len(),
            forest == tree_views(ranges@),
            forest.len() == ranges.len(),
            acc@ == merge_forest(forest, n as nat),
        decreases ranges.len() - n,
    {
        let mut own = merge_tree(&ranges[n]);
        let base = acc.len();
        let ghost before = acc@;
        let ghost added = own@;
        proof {
            lemma_tree_views_index(ranges@, ranges@.len(), n as int);
            lemma_merge_tree_pairs(forest[n as int]);
        }
        acc.append(&mut own);
        proof {
            assert forall|k: int| base <= k < acc.len() implies ((#[trigger] acc[k]).1 matches Some(pair)
                ==> pair + base < acc.len()) by {
                assert(acc[k] == added[k - base]);
            }
            assert(acc@.subrange(0, base as int) =~= before);
            assert(acc@.subrange(base as int, acc@.len() as int) =~= added);
        }
        shift_pairs(&mut acc, base, base);
        n += 1;
    }
    acc
}

/// A sound run of trees stays sound between wider bounds.
pub proof fn lemma_forest_widen(
    source: Seq<u8>,
    forest: Seq<RangeTreeView>,
    n: nat,
    lo: int,
    hi: int,
    wide_lo: int,
    wide_hi: int,
)
    requires
        forest_fits(source, forest, n, lo, hi),
        wide_lo <= lo,
        hi <= wide_hi,
    ensures
        forest_fits(source, forest, n, wide_lo, wide_hi),
    decreases n,
{
    if n > 0 {
        lemma_forest_widen(source, forest, (n - 1) as nat, lo, forest[n - 1].range.0.start as int, wide_lo, forest[n
            - 1].range.0.start as int);
    }
}

/// Whether a run of trees is sound depends on no tree behind the run.
pub proof fn lemma_forest_prefix(
    source: Seq<u8>,
    a: Seq<RangeTreeView>,
    b: Seq<RangeTreeView>,
    n: nat,
    lo: int,
    hi: int,
)
    requires
        n <= a.len(),
        n <= b.len(),
        forall|i: int| 0 <= i < n ==> a[i] == b[i],
        forest_fits(source, a, n, lo, hi),
    ensures
        forest_fits(source, b, n, lo, hi),
    decreases n,
{
    if n > 0 {
        lemma_forest_prefix(source, a, b, (n - 1) as nat, lo, a[n - 1].range.0.start as int);
    }
}

/// Two sound runs of trees, the second behind the first, make a sound run.
pub proof fn lemma_forest_concat(
    source: Seq<u8>,
    a: Seq<RangeTreeView>,
    b: Seq<RangeTreeView>,
    m: nat,
    lo: int,
    mid: int,
    hi: int,
)
    requires
        forest_fits(source, a, a.len(), lo, mid),
        forest_fits(source, b, m, mid, hi),
        m <= b.len(),
    ensures
        forest_fits(source, a + b, a.len() + m, lo, hi),
    decreases m,
{
    let all = a + b;
    lemma_forest_bounds(source, a, a.len(), lo, mid);
    if m == 0 {
        lemma_forest_widen(source, a, a.len(), lo, mid, lo, hi);
        assert forall|i: int| 0 <= i < a.len() implies a[i] == all[i] by {}
        lemma_forest_prefix(source, a, all, a.len(), lo, hi);
    } else {
        let tree = b[m - 1];
        assert(all[a.len() + m - 1] == tree);
        lemma_forest_concat(source, a, b, (m - 1) as nat, lo, mid, tree.range.0.start as int);
        assert(tree_fits(source, tree));
        assert(tree_end(tree) <= hi);
        assert(lo <= tree.range.0.start);
    }
}

/// A sound run of trees lies between bounds that are in order.
pub proof fn lemma_forest_bounds(source: Seq<u8>, forest: Seq<RangeTreeView>, n: nat, lo: int, hi: int)
    requires
        forest_fits(source, forest, n, lo, hi),
    ensures
        lo <= hi,
{
    if n > 0 {
        let tree = forest[n - 1];
        assert(tree_fits(source, tree));
        assert(tree.range.0.start < tree.range.0.end <= tree_end(tree));
    }
}

} // verus!
