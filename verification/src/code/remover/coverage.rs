//! What the markers of a tree of directives are sure to take in.
use crate::code::remover::marker::builder::{range_fits, RemovableRange};
use crate::code::remover::merge::{
    absorb_back, absorb_front, forest_fits, joined, lemma_absorb_back_fits, lemma_absorb_front_fits,
    lemma_forest_concat, lemma_forest_widen, lemma_merge_forest_fits, markers_within, merge_forest, overlaps, rebased,
    shifted, spec_merge_tree, tree_end, tree_fits, RangeTreeView,
};
use crate::code::remover::{collect_part_with, collect_with, markers_with, RemoveMarker};
use crate::parser::node_tokens_fit;
use crate::parser::{lemma_part_span, lemma_tile_bounds};
use crate::parser::{occurs, occurs_in, part_fits, parts_tile, span_end, span_start, NodeView, PartView};
use std::ops::Range;
use vstd::prelude::*;

verus! {

/// True when `range_of` gives sound ranges on `source`: for every directive
/// whose tags are pieces of the text, a range that it gives is not empty,
/// spans the directive and cuts between characters.
pub open spec fn sound_ranges(
    source: Seq<u8>,
    range_of: spec_fn(NodeView) -> Option<(RemovableRange, bool)>,
) -> bool {
    forall|node: NodeView|
        node_tokens_fit(source, node) ==> (#[trigger] range_of(node) matches Some(found) ==> range_fits(
            source,
            node,
            found.0,
        ) && found.0.0.start < found.0.0.end)
}

/// True when the bytes from `from` up to `to` all lie in one of `markers`.
pub open spec fn span_in_markers(markers: Seq<RemoveMarker>, from: int, to: int) -> bool {
    exists|i: int| 0 <= i < markers.len() && (#[trigger] markers[i]).0.start <= from && to <= markers[i].0.end
}

/// True when each of the two tags of `node` lies whole in one of `markers`.
pub open spec fn tags_in_markers(markers: Seq<RemoveMarker>, node: NodeView) -> bool {
    &&& span_in_markers(markers, node.start_token.byte_start, node.start_token.byte_end)
    &&& span_in_markers(markers, node.end_token.byte_start, node.end_token.byte_end)
}

/// The markers of the first trees of a run depend on no tree behind them.
pub proof fn lemma_merge_forest_prefix(a: Seq<RangeTreeView>, b: Seq<RangeTreeView>, n: nat)
    requires
        n <= a.len(),
        n <= b.len(),
        forall|i: int| 0 <= i < n ==> a[i] == b[i],
    ensures
        merge_forest(a, n) == merge_forest(b, n),
    decreases n,
{
    if n > 0 {
        lemma_merge_forest_prefix(a, b, (n - 1) as nat);
    }
}

/// What lies in a marker of the last tree of a run, or in a marker of the
/// trees before it, lies in a marker of the run.
pub proof fn lemma_span_in_forest(forest: Seq<RangeTreeView>, n: nat, from: int, to: int)
    requires
        0 < n <= forest.len(),
        span_in_markers(merge_forest(forest, (n - 1) as nat), from, to) || span_in_markers(
            spec_merge_tree(forest[n - 1]),
            from,
            to,
        ),
    ensures
        span_in_markers(merge_forest(forest, n), from, to),
{
    let before = merge_forest(forest, (n - 1) as nat);
    let own = spec_merge_tree(forest[n - 1]);
    let out = merge_forest(forest, n);
    assert(out =~= before + shifted(own, before.len() as int));
    if span_in_markers(before, from, to) {
        let k = choose|k: int| 0 <= k < before.len() && (#[trigger] before[k]).0.start <= from && to <= before[k].0.end;
        assert(out[k] == before[k]);
    } else {
        let k = choose|k: int| 0 <= k < own.len() && (#[trigger] own[k]).0.start <= from && to <= own[k].0.end;
        assert(out[before.len() + k].0 == own[k].0);
    }
}

/// What lies in a marker of one of two runs of trees lies in a marker of the
/// two runs together.
pub proof fn lemma_span_in_concat(a: Seq<RangeTreeView>, b: Seq<RangeTreeView>, m: nat, from: int, to: int)
    requires
        m <= b.len(),
        span_in_markers(merge_forest(a, a.len()), from, to) || span_in_markers(merge_forest(b, m), from, to),
    ensures
        span_in_markers(merge_forest(a + b, a.len() + m), from, to),
    decreases m,
{
    let all = a + b;
    if m == 0 {
        lemma_merge_forest_prefix(a, all, a.len());
    } else {
        assert(all[a.len() + m - 1] == b[m - 1]);
        let before = merge_forest(b, (m - 1) as nat);
        let own = spec_merge_tree(b[m - 1]);
        let held = merge_forest(b, m);
        assert(held =~= before + shifted(own, before.len() as int));
        if span_in_markers(merge_forest(a, a.len()), from, to) {
            lemma_span_in_concat(a, b, (m - 1) as nat, from, to);
        } else {
            let k = choose|k: int| 0 <= k < held.len() && (#[trigger] held[k]).0.start <= from && to <= held[k].0.end;
            if k < before.len() {
                assert(before[k] == held[k]);
                lemma_span_in_concat(a, b, (m - 1) as nat, from, to);
            } else {
                assert(held[k].0 == own[k - before.len()].0);
            }
        }
        lemma_span_in_forest(all, a.len() + m, from, to);
    }
}

/// What `range_of` gives on parts that cut up a text are sound trees of
/// ranges, where `range_of` gives sound ranges.
pub proof fn lemma_collect_fits(
    source: Seq<u8>,
    range_of: spec_fn(NodeView) -> Option<(RemovableRange, bool)>,
    parts: Seq<PartView>,
    n: nat,
    lo: int,
    hi: int,
)
    requires
        sound_ranges(source, range_of),
        parts_tile(source, parts, n, lo, hi),
    ensures
        forest_fits(source, collect_with(range_of, parts, n).0, collect_with(range_of, parts, n).0.len(), lo, hi),
        forest_fits(source, collect_with(range_of, parts, n).1, collect_with(range_of, parts, n).1.len(), lo, hi),
    decreases parts, n, 1nat,
{
    if n > 0 {
        let part = parts[n - 1];
        let from = span_start(part);
        let (due, pending) = collect_with(range_of, parts, (n - 1) as nat);
        let (own_due, own_pending) = collect_part_with(range_of, part);
        lemma_collect_fits(source, range_of, parts, (n - 1) as nat, lo, from);
        lemma_collect_part_fits(source, range_of, part);
        lemma_forest_concat(source, due, own_due, own_due.len(), lo, from, hi);
        lemma_forest_concat(source, pending, own_pending, own_pending.len(), lo, from, hi);
    } else {
        lemma_tile_bounds(source, parts, n, lo, hi);
    }
}

/// What `range_of` gives on a piece of a text are sound trees of ranges
/// between the start of the piece and its end, where `range_of` gives sound
/// ranges.
pub proof fn lemma_collect_part_fits(
    source: Seq<u8>,
    range_of: spec_fn(NodeView) -> Option<(RemovableRange, bool)>,
    part: PartView,
)
    requires
        sound_ranges(source, range_of),
        part_fits(source, part),
    ensures
        forest_fits(
            source,
            collect_part_with(range_of, part).0,
            collect_part_with(range_of, part).0.len(),
            span_start(part),
            span_end(part),
        ),
        forest_fits(
            source,
            collect_part_with(range_of, part).1,
            collect_part_with(range_of, part).1.len(),
            span_start(part),
            span_end(part),
        ),
    decreases part, 0nat,
{
    lemma_part_span(source, part);
    let from = span_start(part);
    let to = span_end(part);
    match part {
        PartView::Text(_) => {},
        PartView::Element(node) => {
            let inner_lo = node.start_token.byte_end;
            let inner_hi = node.end_token.byte_start;
            let (due, pending) = collect_with(range_of, node.children, node.children.len());
            lemma_collect_fits(source, range_of, node.children, node.children.len(), inner_lo, inner_hi);
            match range_of(node) {
                Some((range, true)) => {
                    let tree = RangeTreeView { range, children: due };
                    lemma_forest_widen(source, due, due.len(), inner_lo, inner_hi, from + 1, to - 1);
                    assert(tree_fits(source, tree));
                    assert(forest_fits(source, seq![tree], 0, from, from));
                    assert(forest_fits(source, seq![tree], 1, from, to));
                    lemma_forest_widen(source, pending, pending.len(), inner_lo, inner_hi, from, to);
                },
                Some((range, false)) => {
                    let tree = RangeTreeView { range, children: pending };
                    lemma_forest_widen(source, pending, pending.len(), inner_lo, inner_hi, from + 1, to - 1);
                    assert(tree_fits(source, tree));
                    assert(forest_fits(source, seq![tree], 0, from, from));
                    assert(forest_fits(source, seq![tree], 1, from, to));
                    lemma_forest_widen(source, due, due.len(), inner_lo, inner_hi, from, to);
                },
                None => {
                    lemma_forest_widen(source, due, due.len(), inner_lo, inner_hi, from, to);
                    lemma_forest_widen(source, pending, pending.len(), inner_lo, inner_hi, from, to);
                },
            }
        },
    }
}

/// The markers of the directives that are due never overlap: on parts that
/// cut up a text, and with sound ranges, each marker lies in the text, cuts
/// it between characters, and ends no later than the next one starts.
pub proof fn lemma_markers_never_overlap(
    source: Seq<u8>,
    range_of: spec_fn(NodeView) -> Option<(RemovableRange, bool)>,
    parts: Seq<PartView>,
)
    requires
        sound_ranges(source, range_of),
        parts_tile(source, parts, parts.len(), 0, source.len() as int),
    ensures
        markers_within(source, markers_with(range_of, parts), 0, source.len() as int),
{
    let due = collect_with(range_of, parts, parts.len()).0;
    lemma_collect_fits(source, range_of, parts, parts.len(), 0, source.len() as int);
    lemma_merge_forest_fits(source, due, due.len(), 0, source.len() as int);
}

/// What lies in a marker of the trees inside a sound tree of ranges lies in a
/// marker of the tree.
pub proof fn lemma_span_survives(source: Seq<u8>, tree: RangeTreeView, from: int, to: int)
    requires
        tree_fits(source, tree),
        span_in_markers(merge_forest(tree.children, tree.children.len()), from, to),
    ensures
        span_in_markers(spec_merge_tree(tree), from, to),
{
    let first = tree.range.0;
    let lo = first.start + 1;
    let hi = tree_end(tree) - 1;
    let kids = merge_forest(tree.children, tree.children.len());
    lemma_merge_forest_fits(source, tree.children, tree.children.len(), lo, hi);
    lemma_absorb_front_fits(source, first, kids, 0, lo, hi);
    lemma_absorb_front_holds(source, first, kids, 0, lo, hi);
    let (primary, front) = absorb_front(first, kids, 0);
    let out = spec_merge_tree(tree);
    let k = choose|k: int| 0 <= k < kids.len() && (#[trigger] kids[k]).0.start <= from && to <= kids[k].0.end;
    assert(lo <= kids[k].0.start);
    assert(kids[k].0.end <= hi);
    assert(out[0].0 == primary);
    match tree.range.1 {
        None => {},
        Some(second) => {
            lemma_absorb_back_fits(source, second, kids, kids.len() as int, lo, hi);
            lemma_absorb_back_holds(source, second, kids, kids.len() as int, lo, hi);
            let (grown, back) = absorb_back(second, kids, kids.len() as int);
            let middle = if front < back {
                kids.subrange(front, back)
            } else {
                Seq::empty()
            };
            let last = middle.len() + 1;
            let moved = rebased(middle, front, back, last as int);
            assert(out.len() == middle.len() + 2);
            let paired = out[last as int].0;
            assert(paired.end == grown.end);
            assert(paired.start == if grown.start < primary.end {
                primary.end
            } else {
                grown.start
            });
            if k < front {
                assert(kids[k].0.end <= primary.end);
            } else if k >= back {
                assert(grown.start <= kids[k].0.start);
                assert(primary.end <= kids[k].0.start);
                assert(paired.start <= from && to <= paired.end);
            } else {
                assert(out[k - front + 1] == moved[k - front]);
                assert(out[k - front + 1].0 == kids[k].0);
            }
        },
    }
}

/// Each tag of a directive with a sound range lies whole in a marker of the
/// tree of that range: the opening tag in the first marker, the closing tag
/// in the last.
pub proof fn lemma_own_tags_held(source: Seq<u8>, node: NodeView, tree: RangeTreeView)
    requires
        node_tokens_fit(source, node),
        range_fits(source, node, tree.range),
        tree.range.0.start < tree.range.0.end,
        forest_fits(
            source,
            tree.children,
            tree.children.len(),
            node.start_token.byte_end,
            node.end_token.byte_start,
        ),
    ensures
        tags_in_markers(spec_merge_tree(tree), node),
{
    let first = tree.range.0;
    let lo = node.start_token.byte_end;
    let hi = node.end_token.byte_start;
    let kids = merge_forest(tree.children, tree.children.len());
    lemma_merge_forest_fits(source, tree.children, tree.children.len(), lo, hi);
    lemma_absorb_front_fits(source, first, kids, 0, lo, hi);
    let (primary, front) = absorb_front(first, kids, 0);
    let out = spec_merge_tree(tree);
    assert(out[0].0 == primary);
    match tree.range.1 {
        None => {},
        Some(second) => {
            lemma_absorb_back_fits(source, second, kids, kids.len() as int, lo, hi);
            lemma_absorb_back_holds(source, second, kids, kids.len() as int, lo, hi);
            let (grown, back) = absorb_back(second, kids, kids.len() as int);
            let middle = if front < back {
                kids.subrange(front, back)
            } else {
                Seq::empty()
            };
            let last = middle.len() + 1;
            assert(out.len() == middle.len() + 2);
            let paired = out[last as int].0;
            assert(paired.end == grown.end);
            assert(paired.start == if grown.start < primary.end {
                primary.end
            } else {
                grown.start
            });
            assert(paired.start <= node.end_token.byte_start && node.end_token.byte_end <= paired.end);
        },
    }
}

/// What lies in a marker of a tree lies in a marker of the run that holds
/// nothing but the tree.
pub proof fn lemma_span_in_single(tree: RangeTreeView, from: int, to: int)
    requires
        span_in_markers(spec_merge_tree(tree), from, to),
    ensures
        span_in_markers(merge_forest(seq![tree], 1), from, to),
{
    lemma_span_in_forest(seq![tree], 1, from, to);
}

/// The tags of a directive that is due lie whole in markers of the
/// directives that are due among parts that cut up a stretch of text.
pub proof fn lemma_due_tags_in_parts(
    source: Seq<u8>,
    range_of: spec_fn(NodeView) -> Option<(RemovableRange, bool)>,
    parts: Seq<PartView>,
    n: nat,
    lo: int,
    hi: int,
    node: NodeView,
)
    requires
        sound_ranges(source, range_of),
        parts_tile(source, parts, n, lo, hi),
        occurs(parts, n, node),
        range_of(node) matches Some(found) && found.1,
    ensures
        tags_in_markers(
            merge_forest(collect_with(range_of, parts, n).0, collect_with(range_of, parts, n).0.len()),
            node,
        ),
    decreases parts, n, 1nat,
{
    let part = parts[n - 1];
    let due = collect_with(range_of, parts, (n - 1) as nat).0;
    let own = collect_part_with(range_of, part).0;
    if occurs_in(part, node) {
        lemma_due_tags_in_part(source, range_of, part, node);
    } else {
        lemma_due_tags_in_parts(source, range_of, parts, (n - 1) as nat, lo, span_start(part), node);
    }
    lemma_span_in_concat(due, own, own.len(), node.start_token.byte_start, node.start_token.byte_end);
    lemma_span_in_concat(due, own, own.len(), node.end_token.byte_start, node.end_token.byte_end);
}

/// The tags of a directive that is due lie whole in markers of the
/// directives that are due in the part that holds the directive.
pub proof fn lemma_due_tags_in_part(
    source: Seq<u8>,
    range_of: spec_fn(NodeView) -> Option<(RemovableRange, bool)>,
    part: PartView,
    node: NodeView,
)
    requires
        sound_ranges(source, range_of),
        part_fits(source, part),
        occurs_in(part, node),
        range_of(node) matches Some(found) && found.1,
    ensures
        tags_in_markers(
            merge_forest(collect_part_with(range_of, part).0, collect_part_with(range_of, part).0.len()),
            node,
        ),
    decreases part, 0nat,
{
    lemma_part_span(source, part);
    if let PartView::Element(own) = part {
        let (due, pending) = collect_with(range_of, own.children, own.children.len());
        let inner_lo = own.start_token.byte_end;
        let inner_hi = own.end_token.byte_start;
        lemma_collect_fits(source, range_of, own.children, own.children.len(), inner_lo, inner_hi);
        if own == node {
            let found = range_of(node)->0;
            let range = found.0;
            let tree = RangeTreeView { range, children: due };
            assert(node_tokens_fit(source, node));
            lemma_own_tags_held(source, node, tree);
            lemma_span_in_single(tree, node.start_token.byte_start, node.start_token.byte_end);
            lemma_span_in_single(tree, node.end_token.byte_start, node.end_token.byte_end);
        } else {
            lemma_due_tags_in_parts(
                source,
                range_of,
                own.children,
                own.children.len(),
                inner_lo,
                inner_hi,
                node,
            );
            match range_of(own) {
                Some((range, true)) => {
                    let tree = RangeTreeView { range, children: due };
                    lemma_collect_part_fits(source, range_of, part);
                    assert(tree_fits(source, tree));
                    lemma_span_survives(source, tree, node.start_token.byte_start, node.start_token.byte_end);
                    lemma_span_survives(source, tree, node.end_token.byte_start, node.end_token.byte_end);
                    lemma_span_in_single(tree, node.start_token.byte_start, node.start_token.byte_end);
                    lemma_span_in_single(tree, node.end_token.byte_start, node.end_token.byte_end);
                },
                _ => {},
            }
        }
    }
}

/// True when each tag of every directive among the first `n` of `parts` that
/// is due by `range_of` lies whole in one of `markers`.
pub open spec fn due_tags_held(
    range_of: spec_fn(NodeView) -> Option<(RemovableRange, bool)>,
    parts: Seq<PartView>,
    n: nat,
    markers: Seq<RemoveMarker>,
) -> bool {
    forall|node: NodeView|
        #![trigger occurs(parts, n, node)]
        occurs(parts, n, node) && (range_of(node) matches Some(found) && found.1) ==> tags_in_markers(
            markers,
            node,
        )
}

/// True when each tag of every directive that is due by `range_of` and is
/// `part` or stands inside it lies whole in one of `markers`.
pub open spec fn due_tags_held_in(
    range_of: spec_fn(NodeView) -> Option<(RemovableRange, bool)>,
    part: PartView,
    markers: Seq<RemoveMarker>,
) -> bool {
    forall|node: NodeView|
        #![trigger occurs_in(part, node)]
        occurs_in(part, node) && (range_of(node) matches Some(found) && found.1) ==> tags_in_markers(
            markers,
            node,
        )
}

/// Where the markers of the parts before a part hold the tags that are due
/// among those, and the markers of the part hold the tags that are due in
/// it, the markers of all of them hold the tags that are due among all.
pub proof fn lemma_held_with_part(
    range_of: spec_fn(NodeView) -> Option<(RemovableRange, bool)>,
    parts: Seq<PartView>,
    n: nat,
    before: Seq<RangeTreeView>,
    own: Seq<RangeTreeView>,
)
    requires
        n < parts.len(),
        due_tags_held(range_of, parts, n, merge_forest(before, before.len())),
        due_tags_held_in(range_of, parts[n as int], merge_forest(own, own.len())),
    ensures
        due_tags_held(range_of, parts, n + 1, merge_forest(before + own, before.len() + own.len())),
{
    let out = merge_forest(before + own, before.len() + own.len());
    assert forall|node: NodeView|
        #![trigger occurs(parts, n + 1, node)]
        occurs(parts, n + 1, node) && (range_of(node) matches Some(found) && found.1) implies tags_in_markers(
        out,
        node,
    ) by {
        assert(occurs_in(parts[n as int], node) || occurs(parts, n, node));
        lemma_span_in_concat(before, own, own.len(), node.start_token.byte_start, node.start_token.byte_end);
        lemma_span_in_concat(before, own, own.len(), node.end_token.byte_start, node.end_token.byte_end);
    }
}

/// The markers of the tree of a directive with a sound range hold the tags
/// of the directive and of every directive inside it that is due, where the
/// markers of the trees inside hold the tags of the latter.
pub proof fn lemma_held_in_tree(
    source: Seq<u8>,
    range_of: spec_fn(NodeView) -> Option<(RemovableRange, bool)>,
    node: NodeView,
    tree: RangeTreeView,
)
    requires
        node_tokens_fit(source, node),
        range_fits(source, node, tree.range),
        tree.range.0.start < tree.range.0.end,
        tree_fits(source, tree),
        forest_fits(
            source,
            tree.children,
            tree.children.len(),
            node.start_token.byte_end,
            node.end_token.byte_start,
        ),
        due_tags_held(
            range_of,
            node.children,
            node.children.len(),
            merge_forest(tree.children, tree.children.len()),
        ),
    ensures
        due_tags_held_in(range_of, PartView::Element(node), merge_forest(seq![tree], 1)),
{
    let part = PartView::Element(node);
    assert forall|x: NodeView|
        #![trigger occurs_in(part, x)]
        occurs_in(part, x) && (range_of(x) matches Some(found) && found.1) implies tags_in_markers(
        merge_forest(seq![tree], 1),
        x,
    ) by {
        if x == node {
            lemma_own_tags_held(source, node, tree);
        } else {
            assert(occurs(node.children, node.children.len(), x));
            lemma_span_survives(source, tree, x.start_token.byte_start, x.start_token.byte_end);
            lemma_span_survives(source, tree, x.end_token.byte_start, x.end_token.byte_end);
        }
        lemma_span_in_single(tree, x.start_token.byte_start, x.start_token.byte_end);
        lemma_span_in_single(tree, x.end_token.byte_start, x.end_token.byte_end);
    }
}

/// The markers of what stands inside a directive that is not due hold the
/// tags that are due in the directive, where they hold those that are due
/// inside it.
pub proof fn lemma_held_inside(
    range_of: spec_fn(NodeView) -> Option<(RemovableRange, bool)>,
    node: NodeView,
    markers: Seq<RemoveMarker>,
)
    requires
        !(range_of(node) matches Some(found) && found.1),
        due_tags_held(range_of, node.children, node.children.len(), markers),
    ensures
        due_tags_held_in(range_of, PartView::Element(node), markers),
{
    let part = PartView::Element(node);
    assert forall|x: NodeView|
        #![trigger occurs_in(part, x)]
        occurs_in(part, x) && (range_of(x) matches Some(found) && found.1) implies tags_in_markers(
        markers,
        x,
    ) by {
        assert(occurs(node.children, node.children.len(), x));
    }
}

/// What growing a range from the front takes in lies in the grown range.
pub proof fn lemma_absorb_front_holds(
    source: Seq<u8>,
    marker: Range<usize>,
    kids: Seq<RemoveMarker>,
    i: int,
    lo: int,
    hi: int,
)
    requires
        markers_within(source, kids, lo, hi),
        0 <= i <= kids.len(),
        marker.start <= lo,
        marker.start <= marker.end,
    ensures
        ({
            let (grown, place) = absorb_front(marker, kids, i);
            &&& grown.start == marker.start
            &&& marker.end <= grown.end
            &&& forall|k: int| i <= k < place ==> (#[trigger] kids[k]).0.end <= grown.end
        }),
    decreases kids.len() - i,
{
    if i < kids.len() && overlaps(marker, kids[i].0) {
        lemma_absorb_front_holds(source, joined(marker, kids[i].0), kids, i + 1, lo, hi);
    }
}

/// What growing a range from the back takes in lies in the grown range.
pub proof fn lemma_absorb_back_holds(
    source: Seq<u8>,
    marker: Range<usize>,
    kids: Seq<RemoveMarker>,
    i: int,
    lo: int,
    hi: int,
)
    requires
        markers_within(source, kids, lo, hi),
        0 <= i <= kids.len(),
        hi < marker.end,
        marker.start <= marker.end,
    ensures
        ({
            let (grown, place) = absorb_back(marker, kids, i);
            &&& grown.end == marker.end
            &&& grown.start <= marker.start
            &&& forall|k: int| place <= k < i ==> grown.start <= (#[trigger] kids[k]).0.start
        }),
    decreases i,
{
    if 0 < i && overlaps(marker, kids[i - 1].0) {
        lemma_absorb_back_holds(source, joined(marker, kids[i - 1].0), kids, i - 1, lo, hi);
    }
}

/// No tag of a directive that is due is left: on parts that cut up a text,
/// and with sound ranges, the opening tag of a directive of the tree that is
/// due lies whole in one of the markers, and so does its closing tag.
pub proof fn lemma_due_directive_is_removed(
    source: Seq<u8>,
    range_of: spec_fn(NodeView) -> Option<(RemovableRange, bool)>,
    parts: Seq<PartView>,
    node: NodeView,
)
    requires
        sound_ranges(source, range_of),
        parts_tile(source, parts, parts.len(), 0, source.len() as int),
        occurs(parts, parts.len(), node),
        range_of(node) matches Some(found) && found.1,
    ensures
        tags_in_markers(markers_with(range_of, parts), node),
{
    lemma_due_tags_in_parts(source, range_of, parts, parts.len(), 0, source.len() as int, node);
}

} // verus!
