//! Walks the tree of directives and gives the byte ranges to delete.
use crate::code::remover::coverage::{
    due_tags_held, due_tags_held_in, lemma_held_in_tree, lemma_held_inside, lemma_held_with_part,
};
use crate::code::remover::marker::builder::{range_fits, RemovableRange};
use crate::code::remover::marker::factory::{create, spec_create, strategies_built_on, RemoveStrategies};
use crate::code::remover::merge::{
    forest_fits, lemma_forest_concat, lemma_forest_widen, lemma_merge_forest_fits, lemma_tree_views_concat,
    lemma_tree_views_len, lemma_tree_views_push, markers_within, merge_forest, merge_markers, spec_merge_markers,
    tree_fits,
    tree_views, RangeTreeView, RemovalRangeTree,
};
use crate::code::remover::position::{lemma_markers_cut, marker_ranges};
use crate::code::remover::removal_evaluator::RemovalEvaluator;
use crate::code::utils::text::{cut_out, cut_ranges, range_in_text, str_eq};
use crate::element_parser::{first_named, ElementView};
use crate::parser::node_tokens_fit;
use crate::parser::{
    lemma_part_span, lemma_tile_bounds, lemma_tile_prefix, part_fits, part_views, parts_tile, span_end, span_start,
    ContentPart, Element, NodeView, PartView,
};
use std::ops::Range;
use vstd::prelude::*;
use vstd::string::StringSliceAdditionalSpecFns;
use vstd::utf8::encode_utf8;

pub mod coverage;
pub mod marker;
pub mod merge;
pub mod position;
pub mod removal_evaluator;
pub use self::position::get_removed_pos;

verus! {

/// A range to delete, and for a range that goes with a second one the place
/// of that other range in the same list.
pub type RemoveMarker = (Range<usize>, Option<usize>);

/// The position of a cut in the text as it is after the deletions before it,
/// and for a cut that goes with a second one the place of that other cut.
pub type RemovedMarker = (usize, Option<usize>);

/// The evaluators by the name of the directive that each one judges. Of two
/// entries with one name the later one counts.
pub struct RemovalEvaluators {
    pub entries: Vec<(String, Box<dyn RemovalEvaluator>)>,
}

/// The place of the last of `entries` that is named `name`.
pub open spec fn find_last(entries: Seq<(String, Box<dyn RemovalEvaluator>)>, name: Seq<u8>) -> Option<int>
    decreases entries.len(),
{
    if entries.len() == 0 {
        None
    } else if encode_utf8(entries.last().0@) == name {
        Some(entries.len() - 1)
    } else {
        find_last(entries.drop_last(), name)
    }
}

impl RemovalEvaluators {
    /// Evaluators for no name at all.
    pub fn new() -> (made: Self)
        ensures
            made.entries@.len() == 0,
    {
        RemovalEvaluators { entries: Vec::new() }
    }

    /// Enters `evaluator` for the directives named `name`, in place of any
    /// evaluator entered for that name before.
    pub fn insert(&mut self, name: String, evaluator: Box<dyn RemovalEvaluator>)
        ensures
            final(self).entries@ == old(self).entries@.push((name, evaluator)),
    {
        self.entries.push((name, evaluator));
    }

    /// The place of the evaluator for the directives named `name`.
    pub fn position(&self, name: &str) -> (place: Option<usize>)
        ensures
            match place {
                Some(at) => find_last(self.entries@, name.spec_bytes()) == Some(at as int) && at
                    < self.entries@.len(),
                None => find_last(self.entries@, name.spec_bytes()) is None,
            },
    {
        let ghost all = self.entries@;
        let mut n = self.entries.len();
        assert(all.subrange(0, n as int) =~= all);
        while n > 0
            invariant
                n <= self.entries.len(),
                all == self.entries@,
                find_last(all, name.spec_bytes()) == find_last(all.subrange(0, n as int), name.spec_bytes()),
            decreases n,
        {
            let ghost head = all.subrange(0, n as int);
            assert(head.last() == all[n - 1]);
            if str_eq(self.entries[n - 1].0.as_str(), name) {
                return Some(n - 1);
            }
            assert(head.drop_last() =~= all.subrange(0, n - 1));
            n -= 1;
        }
        None
    }
}

/// True when an opening tag holds the attribute `skip`, which keeps its
/// directive whatever an evaluator would say.
pub open spec fn spec_is_skip(el: ElementView) -> bool {
    first_named(el.attrs, "skip".spec_bytes()) is Some
}

/// Whether an opening tag holds the attribute `skip`.
fn is_skip(el: &crate::element_parser::Element) -> (skip: bool)
    ensures
        skip == spec_is_skip(el@),
{
    el.attribute("skip").is_some()
}

/// The trees of ranges of one part, where `range_of` gives the range of a
/// directive with whether it is due: the trees that are due, and those that
/// are not yet due. A directive with a range that is due holds the due ranges
/// inside it; one with a range that is not yet due holds the ranges inside it
/// that are not yet due; the ranges of any other kind inside a directive pass
/// up to where the directive stands.
pub open spec fn collect_part_with(
    range_of: spec_fn(NodeView) -> Option<(RemovableRange, bool)>,
    part: PartView,
) -> (Seq<RangeTreeView>, Seq<RangeTreeView>)
    decreases part,
{
    match part {
        PartView::Text(_) => (Seq::empty(), Seq::empty()),
        PartView::Element(node) => {
            let (due, pending) = collect_with(range_of, node.children, node.children.len());
            match range_of(node) {
                Some((range, true)) => (seq![RangeTreeView { range, children: due }], pending),
                Some((range, false)) => (due, seq![RangeTreeView { range, children: pending }]),
                None => (due, pending),
            }
        },
    }
}

/// The trees of ranges of the first `n` of `parts`, where `range_of` gives
/// the range of a directive with whether it is due.
pub open spec fn collect_with(
    range_of: spec_fn(NodeView) -> Option<(RemovableRange, bool)>,
    parts: Seq<PartView>,
    n: nat,
) -> (Seq<RangeTreeView>, Seq<RangeTreeView>)
    decreases parts, n,
{
    if n == 0 || n > parts.len() {
        (Seq::empty(), Seq::empty())
    } else {
        let (due, pending) = collect_with(range_of, parts, (n - 1) as nat);
        let (own_due, own_pending) = collect_part_with(range_of, parts[n - 1]);
        (due + own_due, pending + own_pending)
    }
}

/// The markers of the directives of `parts` that are due, where `range_of`
/// gives the range of a directive with whether it is due.
pub open spec fn markers_with(
    range_of: spec_fn(NodeView) -> Option<(RemovableRange, bool)>,
    parts: Seq<PartView>,
) -> Seq<RemoveMarker> {
    spec_merge_markers(collect_with(range_of, parts, parts.len()).0)
}

/// The markers of the directives of `parts` that are due and of those that
/// are not yet due, where `range_of` gives the range of a directive with
/// whether it is due.
pub open spec fn markers_all_with(
    range_of: spec_fn(NodeView) -> Option<(RemovableRange, bool)>,
    parts: Seq<PartView>,
) -> Seq<(RemoveMarker, bool)> {
    let (due, pending) = collect_with(range_of, parts, parts.len());
    interleaved(spec_merge_markers(due), spec_merge_markers(pending), 0, 0)
}

/// Walks a tree of directives, asks for each directive whether it is to be
/// removed, and gives the ranges to delete.
pub struct Remover {
    pub removal_evaluators: RemovalEvaluators,
    pub remove_strategies: RemoveStrategies,
}

impl Remover {
    /// True when every way of removing that this remover knows was made for
    /// the text `source`.
    pub open spec fn built_on(&self, source: Seq<u8>) -> bool {
        strategies_built_on(self.remove_strategies@, source)
    }

    /// The range of a directive with whether it is due, where the directive
    /// has one: it is not marked `skip`, an evaluator is entered for its name,
    /// the directive is due or ranges that are not yet due are asked for too,
    /// and a way of removing applies and gives a range that is not empty.
    pub open spec fn spec_range_of(&self, node: NodeView, collect_pending_removals: bool) -> Option<
        (RemovableRange, bool),
    > {
        if spec_is_skip(node.start_element) {
            None
        } else {
            match find_last(self.removal_evaluators.entries@, node.start_element.name) {
                None => None,
                Some(at) => {
                    let due = self.removal_evaluators.entries@[at].1.removal(node.start_element);
                    if due || collect_pending_removals {
                        match spec_create(self.remove_strategies@, node) {
                            Some(range) => if range.0.start < range.0.end {
                                Some((range, due))
                            } else {
                                None
                            },
                            None => None,
                        }
                    } else {
                        None
                    }
                },
            }
        }
    }

    /// The trees of ranges of the first `n` of `parts`: those that are due,
    /// and those that are not yet due.
    pub open spec fn spec_collect(&self, parts: Seq<PartView>, n: nat, collect_pending_removals: bool) -> (
        Seq<RangeTreeView>,
        Seq<RangeTreeView>,
    ) {
        collect_with(|node: NodeView| self.spec_range_of(node, collect_pending_removals), parts, n)
    }

    /// True when each tag of every directive among the first `n` of `parts`
    /// that is due lies whole in one of `markers`.
    pub open spec fn spec_due_tags_held(
        &self,
        parts: Seq<PartView>,
        n: nat,
        collect_pending_removals: bool,
        markers: Seq<RemoveMarker>,
    ) -> bool {
        due_tags_held(|node: NodeView| self.spec_range_of(node, collect_pending_removals), parts, n, markers)
    }

    /// The markers of the directives of `parts` that are due.
    pub open spec fn spec_markers(&self, parts: Seq<PartView>) -> Seq<RemoveMarker> {
        markers_with(|node: NodeView| self.spec_range_of(node, false), parts)
    }

    /// The remover that asks `removal_evaluators` whether a directive is due
    /// and removes it by the first of `remove_strategies` that applies.
    pub fn new(removal_evaluators: RemovalEvaluators, remove_strategies: RemoveStrategies) -> (made: Self)
        ensures
            made.removal_evaluators == removal_evaluators,
            made.remove_strategies == remove_strategies,
    {
        Self { removal_evaluators, remove_strategies }
    }

    /// The range of a directive with whether it is due.
    fn range_of(&self, el: &Element, collect_pending_removals: bool, Ghost(source): Ghost<Seq<u8>>) -> (found:
        Option<(RemovableRange, bool)>)
        requires
            self.built_on(source),
            node_tokens_fit(source, el@),
        ensures
            found == self.spec_range_of(el@, collect_pending_removals),
            found matches Some(pair) ==> range_fits(source, el@, pair.0) && pair.0.0.start < pair.0.0.end,
    {
        if is_skip(&el.start_element) {
            return None;
        }
        let at = match self.removal_evaluators.position(el.start_element.name) {
            Some(at) => at,
            None => {
                return None;
            },
        };
        let due = self.removal_evaluators.entries[at].1.is_removal(&el.start_element);
        if !due && !collect_pending_removals {
            return None;
        }
        match create(el, &self.remove_strategies) {
            Some(range) => {
                if range.0.start < range.0.end {
                    Some((range, due))
                } else {
                    None
                }
            },
            None => None,
        }
    }

    /// The trees of ranges of `contents`: those that are due, and those that
    /// are not yet due.
    fn collect_removable_ranges(
        &self,
        contents: &[ContentPart],
        collect_pending_removals: bool,
        Ghost(source): Ghost<Seq<u8>>,
        Ghost(lo): Ghost<int>,
        Ghost(hi): Ghost<int>,
    ) -> (found: (Vec<RemovalRangeTree>, Vec<RemovalRangeTree>))
        requires
            self.built_on(source),
            parts_tile(source, part_views(contents@), contents@.len(), lo, hi),
        ensures
            (tree_views(found.0@), tree_views(found.1@)) == self.spec_collect(
                part_views(contents@),
                contents@.len(),
                collect_pending_removals,
            ),
            forest_fits(source, tree_views(found.0@), found.0@.len(), lo, hi),
            forest_fits(source, tree_views(found.1@), found.1@.len(), lo, hi),
            self.spec_due_tags_held(
                part_views(contents@),
                contents@.len(),
                collect_pending_removals,
                merge_forest(tree_views(found.0@), found.0@.len()),
            ),
        decreases contents@,
    {
        let ghost parts = part_views(contents@);
        let ghost count = contents@.len();
        let ghost range_of = |node: NodeView| self.spec_range_of(node, collect_pending_removals);
        let mut due: Vec<RemovalRangeTree> = Vec::new();
        let mut pending: Vec<RemovalRangeTree> = Vec::new();
        let mut n: usize = 0;
        proof {
            crate::parser::lemma_views_len(contents@, count);
            lemma_tile_prefix(source, parts, count, 0, lo, hi);
            lemma_tile_bounds(source, parts, 0, lo, if 0 < count {
                span_start(parts[0])
            } else {
                hi
            });
            assert(tree_views(due@) =~= Seq::<RangeTreeView>::empty());
            assert(tree_views(pending@) =~= Seq::<RangeTreeView>::empty());
        }
        while n < contents.len()
            invariant
                n <= contents.len(),
                count == contents@.len(),
                parts == part_views(contents@),
                parts.len() == count,
                self.built_on(source),
                parts_tile(source, parts, count, lo, hi),
                (tree_views(due@), tree_views(pending@)) == self.spec_collect(
                    parts,
                    n as nat,
                    collect_pending_removals,
                ),
                tree_views(due@).len() == due@.len(),
                tree_views(pending@).len() == pending@.len(),
                range_of == |node: NodeView| self.spec_range_of(node, collect_pending_removals),
                due_tags_held(range_of, parts, n as nat, merge_forest(tree_views(due@), due@.len())),
                forest_fits(
                    source,
                    tree_views(due@),
                    due@.len(),
                    lo,
                    if n < count {
                        span_start(parts[n as int])
                    } else {
                        hi
                    },
                ),
                forest_fits(
                    source,
                    tree_views(pending@),
                    pending@.len(),
                    lo,
                    if n < count {
                        span_start(parts[n as int])
                    } else {
                        hi
                    },
                ),
            decreases contents.len() - n,
        {
            let ghost part = parts[n as int];
            let ghost from = span_start(part);
            let ghost to = span_end(part);
            let ghost next = if n + 1 < count {
                span_start(parts[n + 1])
            } else {
                hi
            };
            proof {
                crate::parser::lemma_views_index(contents@, count, n as int);
                lemma_tile_prefix(source, parts, count, (n + 1) as nat, lo, hi);
                assert(parts_tile(source, parts, (n + 1) as nat, lo, next));
                assert(part_fits(source, part));
                lemma_part_span(source, part);
                assert(to == next);
                assert(parts_tile(source, parts, n as nat, lo, from));
                assert(self.spec_collect(parts, (n + 1) as nat, collect_pending_removals) == ({
                    let (a, b) = self.spec_collect(parts, n as nat, collect_pending_removals);
                    let (c, d) = collect_part_with(
                        |node: NodeView| self.spec_range_of(node, collect_pending_removals),
                        part,
                    );
                    (a + c, b + d)
                }));
            }
            let ghost due_before = tree_views(due@);
            let ghost pending_before = tree_views(pending@);
            match &contents[n] {
                ContentPart::Text(_) => {
                    proof {
                        assert(due_tags_held_in(range_of, part, Seq::<RemoveMarker>::empty()));
                        lemma_held_with_part(range_of, parts, n as nat, due_before, Seq::empty());
                        lemma_forest_widen(source, due_before, due@.len(), lo, from, lo, to);
                        lemma_forest_widen(source, pending_before, pending@.len(), lo, from, lo, to);
                        assert(due_before + Seq::<RangeTreeView>::empty() =~= due_before);
                        assert(pending_before + Seq::<RangeTreeView>::empty() =~= pending_before);
                    }
                },
                ContentPart::Element(el) => {
                    let ghost node = el@;
                    let ghost inner_lo = node.start_token.byte_end;
                    let ghost inner_hi = node.end_token.byte_start;
                    assert(part == PartView::Element(node));
                    assert(node.children == part_views(el.children@));
                    assert(parts_tile(source, node.children, node.children.len(), inner_lo, inner_hi));
                    proof {
                        crate::parser::lemma_views_len(el.children@, el.children@.len());
                    }
                    let range = self.range_of(el, collect_pending_removals, Ghost(source));
                    let (mut inner_due, mut inner_pending) = self.collect_removable_ranges(
                        el.children.as_slice(),
                        collect_pending_removals,
                        Ghost(source),
                        Ghost(inner_lo),
                        Ghost(inner_hi),
                    );
                    let ghost inner_due_views = tree_views(inner_due@);
                    let ghost inner_pending_views = tree_views(inner_pending@);
                    proof {
                        lemma_tree_views_len(inner_due@, inner_due@.len());
                        lemma_tree_views_len(inner_pending@, inner_pending@.len());
                    }
                    match range {
                        Some((range, true)) => {
                            let tree = RemovalRangeTree { range, children: inner_due };
                            proof {
                                lemma_forest_widen(
                                    source,
                                    inner_due_views,
                                    inner_due_views.len(),
                                    inner_lo,
                                    inner_hi,
                                    from + 1,
                                    to - 1,
                                );
                                assert(tree_fits(source, tree@));
                                assert(forest_fits(source, seq![tree@], 0, from, from));
                                assert(forest_fits(source, seq![tree@], 1, from, to));
                                lemma_forest_concat(source, due_before, seq![tree@], 1, lo, from, to);
                                lemma_tree_views_push(due@, tree);
                                assert(due_before.push(tree@) =~= due_before + seq![tree@]);
                                lemma_held_in_tree(source, range_of, node, tree@);
                                lemma_held_with_part(range_of, parts, n as nat, due_before, seq![tree@]);
                                lemma_forest_widen(
                                    source,
                                    inner_pending_views,
                                    inner_pending_views.len(),
                                    inner_lo,
                                    inner_hi,
                                    from,
                                    to,
                                );
                                lemma_forest_concat(
                                    source,
                                    pending_before,
                                    inner_pending_views,
                                    inner_pending_views.len(),
                                    lo,
                                    from,
                                    to,
                                );
                                lemma_tree_views_concat(pending@, inner_pending@);
                            }
                            due.push(tree);
                            pending.append(&mut inner_pending);
                        },
                        Some((range, false)) => {
                            let tree = RemovalRangeTree { range, children: inner_pending };
                            proof {
                                lemma_forest_widen(
                                    source,
                                    inner_pending_views,
                                    inner_pending_views.len(),
                                    inner_lo,
                                    inner_hi,
                                    from + 1,
                                    to - 1,
                                );
                                assert(tree_fits(source, tree@));
                                assert(forest_fits(source, seq![tree@], 0, from, from));
                                assert(forest_fits(source, seq![tree@], 1, from, to));
                                lemma_forest_concat(source, pending_before, seq![tree@], 1, lo, from, to);
                                lemma_tree_views_push(pending@, tree);
                                assert(pending_before.push(tree@) =~= pending_before + seq![tree@]);
                                lemma_forest_widen(
                                    source,
                                    inner_due_views,
                                    inner_due_views.len(),
                                    inner_lo,
                                    inner_hi,
                                    from,
                                    to,
                                );
                                lemma_forest_concat(
                                    source,
                                    due_before,
                                    inner_due_views,
                                    inner_due_views.len(),
                                    lo,
                                    from,
                                    to,
                                );
                                lemma_tree_views_concat(due@, inner_due@);
                                lemma_held_inside(
                                    range_of,
                                    node,
                                    merge_forest(inner_due_views, inner_due_views.len()),
                                );
                                lemma_held_with_part(range_of, parts, n as nat, due_before, inner_due_views);
                            }
                            pending.push(tree);
                            due.append(&mut inner_due);
                        },
                        None => {
                            proof {
                                lemma_forest_widen(
                                    source,
                                    inner_due_views,
                                    inner_due_views.len(),
                                    inner_lo,
                                    inner_hi,
                                    from,
                                    to,
                                );
                                lemma_forest_concat(
                                    source,
                                    due_before,
                                    inner_due_views,
                                    inner_due_views.len(),
                                    lo,
                                    from,
                                    to,
                                );
                                lemma_tree_views_concat(due@, inner_due@);
                                lemma_held_inside(
                                    range_of,
                                    node,
                                    merge_forest(inner_due_views, inner_due_views.len()),
                                );
                                lemma_held_with_part(range_of, parts, n as nat, due_before, inner_due_views);
                                lemma_forest_widen(
                                    source,
                                    inner_pending_views,
                                    inner_pending_views.len(),
                                    inner_lo,
                                    inner_hi,
                                    from,
                                    to,
                                );
                                lemma_forest_concat(
                                    source,
                                    pending_before,
                                    inner_pending_views,
                                    inner_pending_views.len(),
                                    lo,
                                    from,
                                    to,
                                );
                                lemma_tree_views_concat(pending@, inner_pending@);
                            }
                            due.append(&mut inner_due);
                            pending.append(&mut inner_pending);
                        },
                    }
                },
            }
            proof {
                lemma_tree_views_len(due@, due@.len());
                lemma_tree_views_len(pending@, pending@.len());
            }
            n += 1;
        }
        (due, pending)
    }

    /// The markers of the directives of `contents` that are due, in the order
    /// of the text `raw` that `contents` was parsed from. No marker overlaps
    /// another, and each cuts `raw` between characters. The opening tag of
    /// every directive that is due lies whole in one of the markers, and so
    /// does its closing tag.
    pub fn build_remove_marker(&self, contents: &[ContentPart], raw: &str) -> (markers: Vec<RemoveMarker>)
        requires
            self.built_on(raw.spec_bytes()),
            parts_tile(
                raw.spec_bytes(),
                part_views(contents@),
                contents@.len(),
                0,
                raw.spec_bytes().len() as int,
            ),
        ensures
            markers@ == self.spec_markers(part_views(contents@)),
            markers_within(raw.spec_bytes(), markers@, 0, raw.spec_bytes().len() as int),
            self.spec_due_tags_held(part_views(contents@), contents@.len(), false, markers@),
    {
        let ghost source = raw.spec_bytes();
        let (ranges, _) = self.collect_removable_ranges(
            contents,
            false,
            Ghost(source),
            Ghost(0),
            Ghost(source.len() as int),
        );
        proof {
            crate::parser::lemma_views_len(contents@, contents@.len());
            lemma_tree_views_len(ranges@, ranges@.len());
            lemma_merge_forest_fits(source, tree_views(ranges@), ranges@.len(), 0, source.len() as int);
        }
        merge_markers(&ranges)
    }

    /// The markers of the directives of `parts` that are due and of those
    /// that are not yet due, in the order in which they start, each with
    /// whether it is due. Where two start together the due one comes first. A
    /// marker that points at another counts among the markers of its own kind.
    pub open spec fn spec_markers_all(&self, parts: Seq<PartView>) -> Seq<(RemoveMarker, bool)> {
        markers_all_with(|node: NodeView| self.spec_range_of(node, true), parts)
    }

    /// The markers of the directives of `contents` that are due and of those
    /// that are not yet due, each with whether it is due, in the order in
    /// which they start in the text `raw` that `contents` was parsed from.
    /// Each cuts `raw` between characters.
    pub fn build_remove_marker_all(&self, contents: &[ContentPart], raw: &str) -> (markers: Vec<
        (RemoveMarker, bool),
    >)
        requires
            self.built_on(raw.spec_bytes()),
            parts_tile(
                raw.spec_bytes(),
                part_views(contents@),
                contents@.len(),
                0,
                raw.spec_bytes().len() as int,
            ),
        ensures
            markers@ == self.spec_markers_all(part_views(contents@)),
            forall|i: int| 0 <= i < markers@.len() ==> range_in_text(raw.spec_bytes(), (#[trigger] markers@[i]).0.0),
    {
        let ghost source = raw.spec_bytes();
        let (due_ranges, pending_ranges) = self.collect_removable_ranges(
            contents,
            true,
            Ghost(source),
            Ghost(0),
            Ghost(source.len() as int),
        );
        proof {
            crate::parser::lemma_views_len(contents@, contents@.len());
            lemma_tree_views_len(due_ranges@, due_ranges@.len());
            lemma_tree_views_len(pending_ranges@, pending_ranges@.len());
            lemma_merge_forest_fits(source, tree_views(due_ranges@), due_ranges@.len(), 0, source.len() as int);
            lemma_merge_forest_fits(
                source,
                tree_views(pending_ranges@),
                pending_ranges@.len(),
                0,
                source.len() as int,
            );
        }
        let due = merge_markers(&due_ranges);
        let pending = merge_markers(&pending_ranges);
        let mut all: Vec<(RemoveMarker, bool)> = Vec::new();
        let mut i: usize = 0;
        let mut j: usize = 0;
        while i < due.len() || j < pending.len()
            invariant
                i <= due.len(),
                j <= pending.len(),
                markers_within(source, due@, 0, source.len() as int),
                markers_within(source, pending@, 0, source.len() as int),
                all@ + interleaved(due@, pending@, i as int, j as int) == interleaved(due@, pending@, 0, 0),
                forall|k: int| 0 <= k < all@.len() ==> range_in_text(source, (#[trigger] all@[k]).0.0),
            decreases due.len() - i + pending.len() - j,
        {
            let ghost before = all@;
            let ghost rest = interleaved(due@, pending@, i as int, j as int);
            let take_due = if j >= pending.len() {
                true
            } else if i < due.len() {
                due[i].0.start <= pending[j].0.start
            } else {
                false
            };
            if take_due {
                let item = ((due[i].0.start..due[i].0.end, due[i].1), true);
                all.push(item);
                i += 1;
                proof {
                    let after = interleaved(due@, pending@, i as int, j as int);
                    assert(rest == seq![item] + after);
                    assert(before.push(item) + after =~= before + (seq![item] + after));
                }
            } else {
                let item = ((pending[j].0.start..pending[j].0.end, pending[j].1), false);
                all.push(item);
                j += 1;
                proof {
                    let after = interleaved(due@, pending@, i as int, j as int);
                    assert(rest == seq![item] + after);
                    assert(before.push(item) + after =~= before + (seq![item] + after));
                }
            }
        }
        proof {
            assert(all@ + Seq::<(RemoveMarker, bool)>::empty() =~= all@);
        }
        all
    }

    /// Removes from `raw` the directives of `content` that are due. Gives the
    /// text that is left and the markers of what was removed; each tag of a
    /// directive that is due lies whole in one of them.
    pub fn remove(&self, content: Vec<ContentPart>, raw: &str) -> (removed: (String, Vec<RemoveMarker>))
        requires
            self.built_on(raw.spec_bytes()),
            parts_tile(raw.spec_bytes(), part_views(content@), content@.len(), 0, raw.spec_bytes().len() as int),
        ensures
            removed.1@ == self.spec_markers(part_views(content@)),
            markers_within(raw.spec_bytes(), removed.1@, 0, raw.spec_bytes().len() as int),
            encode_utf8(removed.0@) == cut_out(raw.spec_bytes(), marker_ranges(removed.1@)),
            self.spec_due_tags_held(part_views(content@), content@.len(), false, removed.1@),
    {
        let markers = self.build_remove_marker(content.as_slice(), raw);
        let ranges = ranges_of(&markers);
        proof {
            lemma_markers_cut(raw.spec_bytes(), markers@);
        }
        let new_content = cut_ranges(raw, &ranges);
        (new_content, markers)
    }
}

/// The ranges of `markers`.
fn ranges_of(markers: &Vec<RemoveMarker>) -> (ranges: Vec<Range<usize>>)
    ensures
        ranges@ == marker_ranges(markers@),
{
    let mut ranges: Vec<Range<usize>> = Vec::new();
    let mut i: usize = 0;
    while i < markers.len()
        invariant
            i <= markers.len(),
            ranges@.len() == i,
            forall|k: int| 0 <= k < i ==> ranges@[k] == markers@[k].0,
        decreases markers.len() - i,
    {
        ranges.push(markers[i].0.start..markers[i].0.end);
        i += 1;
    }
    assert(ranges@ =~= marker_ranges(markers@));
    ranges
}

/// The markers of `due` from place `i` on and those of `pending` from place
/// `j` on in one list, each with whether it is due, in the order in which
/// they start; of two that start together the due one comes first.
pub open spec fn interleaved(due: Seq<RemoveMarker>, pending: Seq<RemoveMarker>, i: int, j: int) -> Seq<
    (RemoveMarker, bool),
>
    decreases due.len() - i + pending.len() - j,
{
    if i < 0 || j < 0 || i > due.len() || j > pending.len() || (i >= due.len() && j >= pending.len()) {
        Seq::empty()
    } else if j >= pending.len() || (i < due.len() && due[i].0.start <= pending[j].0.start) {
        seq![(due[i], true)] + interleaved(due, pending, i + 1, j)
    } else {
        seq![(pending[j], false)] + interleaved(due, pending, i, j + 1)
    }
}

} // verus!
