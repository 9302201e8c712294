//! The whole way from a text to the text without the directives that are due.
use crate::code::formatter::block_indent_remover::{spec_block_indent, BlockIndentRemover};
use crate::code::formatter::cuts_fit;
use crate::code::formatter::empty_line_remover::{spec_empty_line, EmptyLineRemover};
use crate::code::formatter::indent_remover::{spec_indent, IndentRemover};
use crate::code::formatter::next_line_break_remover::{spec_next_line_break, NextLineBreakRemover};
use crate::code::formatter::prev_line_break_remover::{spec_prev_line_break, PrevLineBreakRemover};
use crate::code::formatter::blank_lines::blank_lines;
use crate::code::formatter::{
    all_blank, deleted_with, format_with, greater, lemma_format_without_cuts, smaller, spec_format_block,
    structure_ranges, BlockFormatter, Formatter,
};
use crate::code::list::{
    build_list, build_pretty_string, markers_in_text, spec_list_item, spec_pretty_string, ListItem,
    };
use crate::code::remover::RemovedMarker;
use crate::code::remover::coverage::{lemma_due_directive_is_removed, sound_ranges, tags_in_markers};
use crate::code::remover::marker::availability::range_marker_availability::RangeMarkerAvailability;
use crate::code::remover::marker::availability::unwrap_block_marker_availability::UnwrapBlockMarkerAvailability;
use crate::code::remover::marker::builder::range_marker_builder::RangeMarkerBuilder;
use crate::code::remover::marker::builder::unwrap_block_marker_builder::{
    lemma_unwrap_fits, spec_unwrap, UnwrapBlockMarkerBuilder,
};
use crate::code::remover::marker::builder::{range_fits, RemovableRange};
use crate::code::remover::marker::factory::{spec_create, RemoveStrategies};
use crate::code::remover::merge::markers_within;
use crate::code::remover::position::{
    lemma_markers_cut, lemma_removed_pos_fit, lemma_within_ordered, marker_ranges, spec_get_removed_pos,
};
use crate::code::utils::places::{kept_places, lemma_kept_places, outside_all, spelled_at};
use crate::code::remover::removal_evaluator::marker_evaluator::{spec_is_named, MarkerEvaluator};
use crate::code::remover::removal_evaluator::time_limited_evaluator::{spec_is_due, Instant, TimeLimitedEvaluator};
use crate::code::remover::{
    find_last, get_removed_pos, markers_all_with, markers_with, spec_is_skip, RemovalEvaluators, RemoveMarker,
    Remover,
};
use crate::code::utils::line_map::{build_line_map, line_breaks};
use crate::code::utils::text::{cut_out, lemma_str_valid, ranges_fit};
use crate::element_parser::first_named;
use crate::parser::node_tokens_fit;
use crate::parser::occurs;
use crate::parser::{lemma_parsed_tiles, lemma_views_len, part_views, parts_tile, spec_parse_tokens, NodeView, PartView};
use crate::tokenizer::{spec_tokenize, token_views, tokenize};
use std::ops::Range;
use std::rc::Rc;
use vstd::prelude::*;
use vstd::string::StringExecFns;
use vstd::string::StringSliceAdditionalSpecFns;
use vstd::utf8::{encode_utf8, encode_utf8_valid_utf8, valid_utf8};

verus! {

/// What is removed: the directives that are past their date, and the
/// directives whose name is listed.
pub struct ChiritoriConfiguration {
    pub time_limited_configuration: TimeLimitedConfiguration,
    pub removal_marker_configuration: RemovalMarkerConfiguration,
}

/// The name of the directives that carry a date in `to`, the offset from UTC
/// in which the dates are written, and the instant that counts as now.
pub struct TimeLimitedConfiguration {
    pub tag_name: String,
    pub time_offset: String,
    pub current: Instant,
}

/// The name of the directives that carry a `name`, and the names to remove.
pub struct RemovalMarkerConfiguration {
    pub tag_name: String,
    pub targets: Vec<String>,
}

/// The range of a directive with whether it is due, under `config` and in the
/// text `content`. A directive marked `skip` has none, nor has one whose name
/// is neither of the two names of `config`; where the two names are one, the
/// directive is judged by its `name`. A directive that is due, or any judged
/// directive where ranges that are not yet due are asked for too, is
/// unwrapped if its opening tag says `unwrap-block` and removed whole if not;
/// an empty range counts as none.
pub open spec fn reference_range_of(
    config: ChiritoriConfiguration,
    content: Seq<u8>,
    node: NodeView,
    collect_pending_removals: bool,
) -> Option<(RemovableRange, bool)> {
    let el = node.start_element;
    let verdict = if encode_utf8(config.removal_marker_configuration.tag_name@) == el.name {
        Some(spec_is_named(config.removal_marker_configuration.targets@, el))
    } else if encode_utf8(config.time_limited_configuration.tag_name@) == el.name {
        Some(
            spec_is_due(
                config.time_limited_configuration.current,
                config.time_limited_configuration.time_offset@,
                el,
            ),
        )
    } else {
        None
    };
    match verdict {
        Some(due) => if !spec_is_skip(el) && (due || collect_pending_removals) {
            let range = if first_named(el.attrs, "unwrap-block".spec_bytes()) is Some {
                spec_unwrap(content, node)
            } else {
                (
                    Range { start: node.start_token.byte_start as usize, end: node.end_token.byte_end as usize },
                    None,
                )
            };
            if range.0.start < range.0.end {
                Some((range, due))
            } else {
                None
            }
        } else {
            None
        },
        None => None,
    }
}

/// What one more formatter adds to the range at a cut.
pub open spec fn widened(range: (int, int), given: (int, int), pos: int, prev_pos: int) -> (int, int) {
    (greater(smaller(given.0, range.0), prev_pos), greater(greater(given.1, range.1), pos))
}

/// The range to delete at the cut `pos`: what the blanks before the cut, an
/// empty line at the cut, a blank line before it and a blank line behind it
/// come to together.
pub open spec fn reference_point(content: Seq<u8>, pos: int, prev_pos: int) -> (int, int) {
    let indent = widened((pos, pos), spec_indent(content, pos, prev_pos), pos, prev_pos);
    let empty_line = widened(indent, spec_empty_line(content, pos, prev_pos), pos, prev_pos);
    let prev_line = widened(empty_line, spec_prev_line_break(content, pos, prev_pos), pos, prev_pos);
    widened(prev_line, spec_next_line_break(content, pos), pos, prev_pos)
}

/// The markers of the directives of `content` that are due under `config`.
pub open spec fn spec_clean_markers(
    content: Seq<u8>,
    delimiter_start: Seq<u8>,
    delimiter_end: Seq<u8>,
    config: ChiritoriConfiguration,
) -> Seq<RemoveMarker> {
    markers_with(
        |node: NodeView| reference_range_of(config, content, node, false),
        spec_parse_tokens(spec_tokenize(content, delimiter_start, delimiter_end)),
    )
}

/// True when no tag of a directive that is due is left: the opening tag of
/// each directive of `content` that is due under `config` lies whole in one of
/// the markers that are cut out, and so does its closing tag.
pub open spec fn due_tags_removed(
    content: Seq<u8>,
    delimiter_start: Seq<u8>,
    delimiter_end: Seq<u8>,
    config: ChiritoriConfiguration,
) -> bool {
    let parts = spec_parse_tokens(spec_tokenize(content, delimiter_start, delimiter_end));
    forall|node: NodeView| #[trigger]
        occurs(parts, parts.len(), node) && (reference_range_of(config, content, node, false) matches Some(
            found,
        ) && found.1) ==> tags_in_markers(spec_clean_markers(content, delimiter_start, delimiter_end, config), node)
}

/// The ranges that `config` gives on a text are sound: none is empty, each
/// spans its directive and cuts between characters.
pub proof fn lemma_reference_ranges_sound(config: ChiritoriConfiguration, content: Seq<u8>, pending: bool)
    requires
        valid_utf8(content),
        content.len() <= usize::MAX,
    ensures
        sound_ranges(content, |node: NodeView| reference_range_of(config, content, node, pending)),
{
    let range_of = |node: NodeView| reference_range_of(config, content, node, pending);
    assert forall|node: NodeView| node_tokens_fit(content, node) implies (#[trigger] range_of(node) matches Some(
        found,
    ) ==> range_fits(content, node, found.0) && found.0.0.start < found.0.0.end) by {
        lemma_unwrap_fits(content, node);
    }
}

/// The text `content` without the directives that are due under `config`,
/// tidied where they stood.
pub open spec fn spec_clean(
    content: Seq<u8>,
    delimiter_start: Seq<u8>,
    delimiter_end: Seq<u8>,
    config: ChiritoriConfiguration,
) -> Seq<u8> {
    let markers = spec_clean_markers(content, delimiter_start, delimiter_end, config);
    format_with(
        |text: Seq<u8>, pos: int, prev_pos: int| reference_point(text, pos, prev_pos),
        |text: Seq<u8>, start: int, end: int| spec_block_indent(text, start, end),
        cut_out(content, marker_ranges(markers)),
        spec_get_removed_pos(markers),
    )
}

/// What tidying deletes from `text` at the cuts `removed_pos`: what the four
/// rules for a cut and the rule for an unwrapped block give, joined where it
/// overlaps.
pub open spec fn spec_tidied_away(text: Seq<u8>, removed_pos: Seq<RemovedMarker>) -> Seq<Range<usize>> {
    deleted_with(
        |text: Seq<u8>, pos: int, prev_pos: int| reference_point(text, pos, prev_pos),
        |text: Seq<u8>, start: int, end: int| spec_block_indent(text, start, end),
        text,
        removed_pos,
    )
}

/// The text that is left of `content` when the directives that are due under
/// `config` are cut out, before it is tidied.
pub open spec fn spec_clean_removed(
    content: Seq<u8>,
    delimiter_start: Seq<u8>,
    delimiter_end: Seq<u8>,
    config: ChiritoriConfiguration,
) -> Seq<u8> {
    cut_out(content, marker_ranges(spec_clean_markers(content, delimiter_start, delimiter_end, config)))
}

/// What tidying deletes from the text that is left of `content` when the
/// directives that are due under `config` are cut out.
pub open spec fn spec_clean_tidied_away(
    content: Seq<u8>,
    delimiter_start: Seq<u8>,
    delimiter_end: Seq<u8>,
    config: ChiritoriConfiguration,
) -> Seq<Range<usize>> {
    spec_tidied_away(
        spec_clean_removed(content, delimiter_start, delimiter_end, config),
        spec_get_removed_pos(spec_clean_markers(content, delimiter_start, delimiter_end, config)),
    )
}

/// For each byte of the cleaned text the place at which it stood in
/// `content`.
pub open spec fn spec_clean_places(
    content: Seq<u8>,
    delimiter_start: Seq<u8>,
    delimiter_end: Seq<u8>,
    config: ChiritoriConfiguration,
) -> Seq<int> {
    let markers = spec_clean_markers(content, delimiter_start, delimiter_end, config);
    let removed = spec_clean_removed(content, delimiter_start, delimiter_end, config);
    let first = kept_places(content.len() as int, marker_ranges(markers));
    let second = kept_places(
        removed.len() as int,
        spec_clean_tidied_away(content, delimiter_start, delimiter_end, config),
    );
    Seq::new(second.len(), |q: int| first[second[q]])
}

/// True when place `p` lies in one of the two tags of `node`.
pub open spec fn in_tags(node: NodeView, p: int) -> bool {
    ||| node.start_token.byte_start <= p < node.start_token.byte_end
    ||| node.end_token.byte_start <= p < node.end_token.byte_end
}

/// True when place `p` lies in no tag of a directive of `content` that is due
/// under `config`.
pub open spec fn outside_due_tags(
    content: Seq<u8>,
    delimiter_start: Seq<u8>,
    delimiter_end: Seq<u8>,
    config: ChiritoriConfiguration,
    p: int,
) -> bool {
    let parts = spec_parse_tokens(spec_tokenize(content, delimiter_start, delimiter_end));
    forall|node: NodeView|
        #![trigger occurs(parts, parts.len(), node)]
        occurs(parts, parts.len(), node) && (reference_range_of(config, content, node, false) matches Some(
            found,
        ) && found.1) ==> !in_tags(node, p)
}

/// True when the cleaned text is spelled by bytes of `content` that keep
/// their order, none of which stood in a tag of a directive that is due under
/// `config`.
pub open spec fn no_due_tag_byte_left(
    content: Seq<u8>,
    delimiter_start: Seq<u8>,
    delimiter_end: Seq<u8>,
    config: ChiritoriConfiguration,
) -> bool {
    let places = spec_clean_places(content, delimiter_start, delimiter_end, config);
    &&& spelled_at(content, places, spec_clean(content, delimiter_start, delimiter_end, config))
    &&& forall|q: int|
        0 <= q < places.len() ==> outside_due_tags(
            content,
            delimiter_start,
            delimiter_end,
            config,
            #[trigger] places[q],
        )
}

/// Where the markers can be cut out of a text and hold the tags that are
/// due, and what tidying deletes can be cut out of what is left, no byte of
/// such a tag is left in the cleaned text.
proof fn lemma_no_due_tag_byte_left(
    content: Seq<u8>,
    delimiter_start: Seq<u8>,
    delimiter_end: Seq<u8>,
    config: ChiritoriConfiguration,
)
    requires
        markers_within(
            content,
            spec_clean_markers(content, delimiter_start, delimiter_end, config),
            0,
            content.len() as int,
        ),
        due_tags_removed(content, delimiter_start, delimiter_end, config),
        ranges_fit(
            spec_clean_removed(content, delimiter_start, delimiter_end, config),
            spec_clean_tidied_away(content, delimiter_start, delimiter_end, config),
        ),
    ensures
        no_due_tag_byte_left(content, delimiter_start, delimiter_end, config),
{
    let markers = spec_clean_markers(content, delimiter_start, delimiter_end, config);
    let ranges = marker_ranges(markers);
    let removed = spec_clean_removed(content, delimiter_start, delimiter_end, config);
    let tidied = spec_clean_tidied_away(content, delimiter_start, delimiter_end, config);
    let cleaned = spec_clean(content, delimiter_start, delimiter_end, config);
    let parts = spec_parse_tokens(spec_tokenize(content, delimiter_start, delimiter_end));
    lemma_markers_cut(content, markers);
    lemma_kept_places(content, ranges);
    lemma_kept_places(removed, tidied);
    let first = kept_places(content.len() as int, ranges);
    let second = kept_places(removed.len() as int, tidied);
    let places = spec_clean_places(content, delimiter_start, delimiter_end, config);
    assert(cleaned == cut_out(removed, tidied));
    assert forall|q: int| 0 <= q < places.len() implies 0 <= #[trigger] places[q] < content.len() && cleaned[q]
        == content[places[q]] && outside_due_tags(content, delimiter_start, delimiter_end, config, places[q]) by {
        let at = second[q];
        let p = first[at];
        assert(places[q] == p);
        assert(outside_all(ranges, p));
        assert forall|node: NodeView|
            #![trigger occurs(parts, parts.len(), node)]
            occurs(parts, parts.len(), node) && (reference_range_of(config, content, node, false) matches Some(
                found,
            ) && found.1) implies !in_tags(node, p) by {
            assert(tags_in_markers(markers, node));
            let i = choose|i: int|
                0 <= i < markers.len() && (#[trigger] markers[i]).0.start <= node.start_token.byte_start
                    && node.start_token.byte_end <= markers[i].0.end;
            assert(ranges[i] == markers[i].0);
            let j = choose|j: int|
                0 <= j < markers.len() && (#[trigger] markers[j]).0.start <= node.end_token.byte_start
                    && node.end_token.byte_end <= markers[j].0.end;
            assert(ranges[j] == markers[j].0);
        }
    }
    assert forall|q: int, r: int| 0 <= q < r < places.len() implies #[trigger] places[q] < #[trigger] places[r] by {
        assert(second[q] < second[r]);
        assert(first[second[q]] < first[second[r]]);
    }
}

/// True when a text with its delimiters can be cleaned: the three are texts,
/// neither delimiter is empty, and all are of a length that the machine can
/// count.
pub open spec fn can_clean(content: Seq<u8>, delimiter_start: Seq<u8>, delimiter_end: Seq<u8>) -> bool {
    &&& valid_utf8(content)
    &&& valid_utf8(delimiter_start)
    &&& valid_utf8(delimiter_end)
    &&& content.len() <= usize::MAX
    &&& 0 < delimiter_start.len() <= usize::MAX
    &&& 0 < delimiter_end.len() <= usize::MAX
}

/// The tree of directives of a text cuts up the text.
pub proof fn lemma_parts_tile(content: Seq<u8>, delimiter_start: Seq<u8>, delimiter_end: Seq<u8>)
    requires
        can_clean(content, delimiter_start, delimiter_end),
    ensures
        parts_tile(
            content,
            spec_parse_tokens(spec_tokenize(content, delimiter_start, delimiter_end)),
            spec_parse_tokens(spec_tokenize(content, delimiter_start, delimiter_end)).len(),
            0,
            content.len() as int,
        ),
{
    let tokens = spec_tokenize(content, delimiter_start, delimiter_end);
    crate::tokenizer::tiling::lemma_tokenize_tiles(content, delimiter_start, delimiter_end);
    crate::parser::lemma_parse_keeps_tokens(tokens);
    lemma_parsed_tiles(content, tokens, spec_parse_tokens(tokens));
}

/// The markers that are cut out of a text never overlap: each lies in the
/// text, cuts it between characters, and ends no later than the next one
/// starts.
pub proof fn lemma_clean_markers_never_overlap(
    content: Seq<u8>,
    delimiter_start: Seq<u8>,
    delimiter_end: Seq<u8>,
    config: ChiritoriConfiguration,
)
    requires
        can_clean(content, delimiter_start, delimiter_end),
    ensures
        markers_within(
            content,
            spec_clean_markers(content, delimiter_start, delimiter_end, config),
            0,
            content.len() as int,
        ),
{
    lemma_parts_tile(content, delimiter_start, delimiter_end);
    lemma_reference_ranges_sound(config, content, false);
    crate::code::remover::coverage::lemma_markers_never_overlap(
        content,
        |node: NodeView| reference_range_of(config, content, node, false),
        spec_parse_tokens(spec_tokenize(content, delimiter_start, delimiter_end)),
    );
}

/// No tag of a directive that is due is left in a text: the opening tag of
/// each directive that is due lies whole in one of the markers that are cut
/// out, and so does its closing tag.
pub proof fn lemma_clean_removes_due_tags(
    content: Seq<u8>,
    delimiter_start: Seq<u8>,
    delimiter_end: Seq<u8>,
    config: ChiritoriConfiguration,
)
    requires
        can_clean(content, delimiter_start, delimiter_end),
    ensures
        due_tags_removed(content, delimiter_start, delimiter_end, config),
{
    lemma_parts_tile(content, delimiter_start, delimiter_end);
    lemma_due_tags_removed(
        config,
        content,
        spec_parse_tokens(spec_tokenize(content, delimiter_start, delimiter_end)),
    );
}

/// The positions at which a text is tidied never fall from one cut to the
/// next, and each lies between characters of the text that is left.
pub proof fn lemma_clean_cuts_fit(
    content: Seq<u8>,
    delimiter_start: Seq<u8>,
    delimiter_end: Seq<u8>,
    config: ChiritoriConfiguration,
)
    requires
        can_clean(content, delimiter_start, delimiter_end),
    ensures
        cuts_fit(
            cut_out(content, marker_ranges(spec_clean_markers(content, delimiter_start, delimiter_end, config))),
            spec_get_removed_pos(spec_clean_markers(content, delimiter_start, delimiter_end, config)),
        ),
{
    lemma_clean_markers_never_overlap(content, delimiter_start, delimiter_end, config);
    lemma_removed_pos_fit(content, spec_clean_markers(content, delimiter_start, delimiter_end, config));
}

/// A text in which no directive is due is left as it is.
pub proof fn lemma_clean_keeps_clean_text(
    content: Seq<u8>,
    delimiter_start: Seq<u8>,
    delimiter_end: Seq<u8>,
    config: ChiritoriConfiguration,
)
    requires
        spec_clean_markers(content, delimiter_start, delimiter_end, config).len() == 0,
    ensures
        spec_clean(content, delimiter_start, delimiter_end, config) == content,
{
    let markers = spec_clean_markers(content, delimiter_start, delimiter_end, config);
    assert(marker_ranges(markers) =~= Seq::<Range<usize>>::empty());
    assert(cut_out(content, marker_ranges(markers)) =~= content);
    assert(spec_get_removed_pos(markers) =~= Seq::empty());
    lemma_format_without_cuts(
        |text: Seq<u8>, pos: int, prev_pos: int| reference_point(text, pos, prev_pos),
        |text: Seq<u8>, start: int, end: int| spec_block_indent(text, start, end),
        content,
    );
}

/// The remover for `config` and the text `content`.
fn build_remover(config: ChiritoriConfiguration, content: Rc<String>) -> (remover: Remover)
    ensures
        remover.built_on(encode_utf8((*content)@)),
        forall|node: NodeView, pending: bool| #[trigger]
            remover.spec_range_of(node, pending) == reference_range_of(
                config,
                encode_utf8((*content)@),
                node,
                pending,
            ),
{
    let ghost text = encode_utf8((*content)@);
    let removal_evaluators = RemovalEvaluators {
        entries: vec![
            (
                config.time_limited_configuration.tag_name,
                Box::new(
                    TimeLimitedEvaluator {
                        current_time: config.time_limited_configuration.current,
                        time_offset: config.time_limited_configuration.time_offset,
                    },
                ),
            ),
            (
                config.removal_marker_configuration.tag_name,
                Box::new(MarkerEvaluator { marker_removal_names: config.removal_marker_configuration.targets }),
            ),
        ],
    };
    let remove_strategies: RemoveStrategies = vec![
        (
            Box::new(UnwrapBlockMarkerAvailability::new("unwrap-block")),
            Box::new(UnwrapBlockMarkerBuilder { content }),
        ),
        (Box::new(RangeMarkerAvailability::default()), Box::new(RangeMarkerBuilder::default())),
    ];
    let remover = Remover::new(removal_evaluators, remove_strategies);
    proof {
        let entries = remover.removal_evaluators.entries@;
        let strategies = remover.remove_strategies@;
        assert(entries.len() == 2);
        assert(strategies.len() == 2);
        assert forall|node: NodeView, pending: bool| #[trigger]
            remover.spec_range_of(node, pending) == reference_range_of(config, text, node, pending) by {
            let name = node.start_element.name;
            assert(entries.drop_last().len() == 1);
            assert(entries.drop_last().last() == entries[0]);
            assert(entries.drop_last().drop_last().len() == 0);
            assert(find_last(entries, name) == if encode_utf8(entries[1].0@) == name {
                Some(1int)
            } else if encode_utf8(entries[0].0@) == name {
                Some(0int)
            } else {
                None
            }) by {
                reveal_with_fuel(find_last, 3);
            }
            assert(strategies.drop_first().len() == 1);
            assert(strategies.drop_first()[0] == strategies[1]);
            assert(spec_create(strategies, node) == Some(
                if strategies[0].0.available(node) {
                    strategies[0].1.built(node)
                } else {
                    strategies[1].1.built(node)
                },
            )) by {
                reveal_with_fuel(spec_create, 3);
            }
        }
    }
    remover
}

/// The formatters that tidy a cut, in the order in which they are asked.
fn build_formatters() -> (formatters: Vec<Box<dyn Formatter>>)
    ensures
        forall|text: Seq<u8>, pos: int, prev_pos: int| #[trigger]
            spec_format_block(formatters@, formatters@.len(), text, pos, prev_pos) == reference_point(
                text,
                pos,
                prev_pos,
            ),
{
    let formatters: Vec<Box<dyn Formatter>> = vec![
        Box::new(IndentRemover {  }),
        Box::new(EmptyLineRemover {  }),
        Box::new(PrevLineBreakRemover {  }),
        Box::new(NextLineBreakRemover {  }),
    ];
    proof {
        assert(formatters@.len() == 4);
        assert forall|text: Seq<u8>, pos: int, prev_pos: int| #[trigger]
            spec_format_block(formatters@, formatters@.len(), text, pos, prev_pos) == reference_point(
                text,
                pos,
                prev_pos,
            ) by {
            let r0 = spec_format_block(formatters@, 0, text, pos, prev_pos);
            assert(r0 == (pos, pos));
            let r1 = spec_format_block(formatters@, 1, text, pos, prev_pos);
            assert(r1 == widened(r0, spec_indent(text, pos, prev_pos), pos, prev_pos));
            let r2 = spec_format_block(formatters@, 2, text, pos, prev_pos);
            assert(r2 == widened(r1, spec_empty_line(text, pos, prev_pos), pos, prev_pos));
            let r3 = spec_format_block(formatters@, 3, text, pos, prev_pos);
            assert(r3 == widened(r2, spec_prev_line_break(text, pos, prev_pos), pos, prev_pos));
            let r4 = spec_format_block(formatters@, 4, text, pos, prev_pos);
            assert(r4 == widened(r3, spec_next_line_break(text, pos), pos, prev_pos));
        }
    }
    formatters
}

/// Cuts out of `content` the directives that are due under `config`. Gives
/// the text that is left and the markers of what was cut out.
fn remove_due(content: Rc<String>, delimiter_start: &str, delimiter_end: &str, config: ChiritoriConfiguration) -> (removed:
    (String, Vec<RemoveMarker>))
    requires
        delimiter_start.spec_bytes().len() > 0,
        delimiter_end.spec_bytes().len() > 0,
    ensures
        removed.1@ == spec_clean_markers(
            encode_utf8((*content)@),
            delimiter_start.spec_bytes(),
            delimiter_end.spec_bytes(),
            config,
        ),
        markers_within(encode_utf8((*content)@), removed.1@, 0, encode_utf8((*content)@).len() as int),
        encode_utf8(removed.0@) == cut_out(encode_utf8((*content)@), marker_ranges(removed.1@)),
        due_tags_removed(
            encode_utf8((*content)@),
            delimiter_start.spec_bytes(),
            delimiter_end.spec_bytes(),
            config,
        ),
{
    let text: &str = content.as_str();
    let ghost source = text.spec_bytes();
    let tokens = tokenize(text, delimiter_start, delimiter_end);

    let parsed = crate::parser::parse(&tokens);
    let ghost parts = part_views(parsed@);
    let len = text.as_bytes().len();
    proof {
        lemma_parsed_tiles(source, token_views(tokens@), parts);
        lemma_views_len(parsed@, parsed@.len());
        lemma_str_valid(text);
        lemma_due_tags_removed(config, source, parts);
    }
    let remover = build_remover(config, content.clone());
    let ghost by_remover = |node: NodeView| remover.spec_range_of(node, false);
    let ghost by_config = |node: NodeView| reference_range_of(config, source, node, false);
    assert(by_remover =~= by_config);
    remover.remove(parsed, text)
}

/// On parts that cut up a text, no tag of a directive that is due under
/// `config` is left.
proof fn lemma_due_tags_removed(config: ChiritoriConfiguration, source: Seq<u8>, parts: Seq<PartView>)
    requires
        valid_utf8(source),
        source.len() <= usize::MAX,
        parts_tile(source, parts, parts.len(), 0, source.len() as int),
    ensures
        forall|node: NodeView| #[trigger]
            occurs(parts, parts.len(), node) && (reference_range_of(config, source, node, false) matches Some(
                found,
            ) && found.1) ==> tags_in_markers(
                markers_with(|node: NodeView| reference_range_of(config, source, node, false), parts),
                node,
            ),
{
    lemma_reference_ranges_sound(config, source, false);
    let range_of = |node: NodeView| reference_range_of(config, source, node, false);
    assert forall|node: NodeView| #[trigger]
        occurs(parts, parts.len(), node) && (reference_range_of(config, source, node, false) matches Some(
            found,
        ) && found.1) implies tags_in_markers(markers_with(range_of, parts), node) by {
        lemma_due_directive_is_removed(source, range_of, parts, node);
    }
}

/// Tidies `removed` at the cuts `removed_pos`.
fn tidy(removed: &str, removed_pos: &[RemovedMarker]) -> (formatted: String)
    requires
        cuts_fit(removed.spec_bytes(), removed_pos@),
    ensures
        encode_utf8(formatted@) == format_with(
            |text: Seq<u8>, pos: int, prev_pos: int| reference_point(text, pos, prev_pos),
            |text: Seq<u8>, start: int, end: int| spec_block_indent(text, start, end),
            removed.spec_bytes(),
            removed_pos@,
        ),
        ranges_fit(removed.spec_bytes(), spec_tidied_away(removed.spec_bytes(), removed_pos@)),
        all_blank(removed.spec_bytes(), spec_tidied_away(removed.spec_bytes(), removed_pos@)),
        blank_lines(encode_utf8(formatted@)) <= blank_lines(removed.spec_bytes()),
{
    let formatter = build_formatters();
    let structure_formatters: Vec<Box<dyn BlockFormatter>> = vec![Box::new(BlockIndentRemover {  })];
    proof {
        let ghost point_given = |text: Seq<u8>, pos: int, prev_pos: int|
            spec_format_block(formatter@, formatter@.len(), text, pos, prev_pos);
        let ghost point_wanted = |text: Seq<u8>, pos: int, prev_pos: int| reference_point(text, pos, prev_pos);
        assert(point_given =~= point_wanted);
        let ghost block_given = |text: Seq<u8>, start: int, end: int|
            structure_ranges(structure_formatters@, structure_formatters@.len(), text, start, end);
        let ghost block_wanted = |text: Seq<u8>, start: int, end: int| spec_block_indent(text, start, end);
        assert forall|text: Seq<u8>, start: int, end: int| #[trigger]
            block_given(text, start, end) == block_wanted(text, start, end) by {
            reveal_with_fuel(structure_ranges, 2);
            assert(Seq::<Range<usize>>::empty() + spec_block_indent(text, start, end) =~= spec_block_indent(
                text,
                start,
                end,
            ));
        }
        assert(block_given =~= block_wanted);
    }
    crate::code::formatter::format(
        removed,
        removed_pos,
        formatter.as_slice(),
        structure_formatters.as_slice(),
    )
}

/// Removes from `content` the directives that are due under `config` and
/// tidies the text where they stood. Directives are tags between the two
/// `delimiters`, neither of which may be empty. What comes out is valid
/// UTF-8; the markers that are cut out never overlap; and no tag of a
/// directive that is due is left: the cleaned text is spelled by bytes of
/// `content` in their order, none of which stood in such a tag. Tidying takes
/// nothing but spaces, tabs and line breaks from what is left when the
/// markers are cut out, between characters, and adds no blank line.
pub fn clean(content: Rc<String>, delimiters: (String, String), config: ChiritoriConfiguration) -> (cleaned:
    String)
    requires
        delimiters.0@.len() > 0,
        delimiters.1@.len() > 0,
    ensures
        encode_utf8(cleaned@) == spec_clean(
            encode_utf8((*content)@),
            encode_utf8(delimiters.0@),
            encode_utf8(delimiters.1@),
            config,
        ),
        valid_utf8(
            spec_clean(encode_utf8((*content)@), encode_utf8(delimiters.0@), encode_utf8(delimiters.1@), config),
        ),
        markers_within(
            encode_utf8((*content)@),
            spec_clean_markers(
                encode_utf8((*content)@),
                encode_utf8(delimiters.0@),
                encode_utf8(delimiters.1@),
                config,
            ),
            0,
            encode_utf8((*content)@).len() as int,
        ),
        due_tags_removed(
            encode_utf8((*content)@),
            encode_utf8(delimiters.0@),
            encode_utf8(delimiters.1@),
            config,
        ),
        encode_utf8(cleaned@) == cut_out(
            spec_clean_removed(
                encode_utf8((*content)@),
                encode_utf8(delimiters.0@),
                encode_utf8(delimiters.1@),
                config,
            ),
            spec_clean_tidied_away(
                encode_utf8((*content)@),
                encode_utf8(delimiters.0@),
                encode_utf8(delimiters.1@),
                config,
            ),
        ),
        ranges_fit(
            spec_clean_removed(
                encode_utf8((*content)@),
                encode_utf8(delimiters.0@),
                encode_utf8(delimiters.1@),
                config,
            ),
            spec_clean_tidied_away(
                encode_utf8((*content)@),
                encode_utf8(delimiters.0@),
                encode_utf8(delimiters.1@),
                config,
            ),
        ),
        all_blank(
            spec_clean_removed(
                encode_utf8((*content)@),
                encode_utf8(delimiters.0@),
                encode_utf8(delimiters.1@),
                config,
            ),
            spec_clean_tidied_away(
                encode_utf8((*content)@),
                encode_utf8(delimiters.0@),
                encode_utf8(delimiters.1@),
                config,
            ),
        ),
        blank_lines(encode_utf8(cleaned@)) <= blank_lines(
            spec_clean_removed(
                encode_utf8((*content)@),
                encode_utf8(delimiters.0@),
                encode_utf8(delimiters.1@),
                config,
            ),
        ),
        no_due_tag_byte_left(
            encode_utf8((*content)@),
            encode_utf8(delimiters.0@),
            encode_utf8(delimiters.1@),
            config,
        ),
{
    let (delimiter_start, delimiter_end) = delimiters;
    let ghost source = encode_utf8((*content)@);
    proof {
        lemma_nonempty(delimiter_start@);
        lemma_nonempty(delimiter_end@);
        encode_utf8_valid_utf8((*content)@);
    }
    let (removed, markers) = remove_due(content, delimiter_start.as_str(), delimiter_end.as_str(), config);
    proof {
        lemma_within_ordered(source, markers@, 0, source.len() as int);
        lemma_removed_pos_fit(source, markers@);
    }
    let removed_pos = get_removed_pos(markers.as_slice());
    let cleaned = tidy(removed.as_str(), removed_pos.as_slice());
    proof {
        encode_utf8_valid_utf8(cleaned@);
        lemma_no_due_tag_byte_left(source, encode_utf8(delimiter_start@), encode_utf8(delimiter_end@), config);
    }
    cleaned
}

/// The form in which a report is wanted: as one text for reading, or as
/// items to be written as JSON.
pub enum ListFormat {
    PrettyString,
    JSON,
}

/// What can go wrong with a report.
#[derive(Debug, PartialEq)]
pub enum ListError {
    JSONSerializeError,
}

impl ListError {
    /// What went wrong, in words.
    pub fn message(&self) -> (text: String)
        ensures
            text@ == "Failed to serialize JSON."@,
    {
        String::from_str("Failed to serialize JSON.")
    }
}

/// A report in the form that was asked for: the text for reading, or the
/// items that are still to be written as JSON.
pub enum ListOutput {
    PrettyString(String),
    Items(Vec<ListItem>),
}

/// The markers of a report on what is removed now: the markers of the
/// directives of `content` that are due under `config`, each as one that is
/// removed now.
pub open spec fn spec_list_markers(
    content: Seq<u8>,
    delimiter_start: Seq<u8>,
    delimiter_end: Seq<u8>,
    config: ChiritoriConfiguration,
) -> Seq<(RemoveMarker, bool)> {
    let parts = spec_parse_tokens(spec_tokenize(content, delimiter_start, delimiter_end));
    let markers = markers_with(|node: NodeView| reference_range_of(config, content, node, false), parts);
    Seq::new(markers.len(), |i: int| (markers[i], true))
}

/// The markers of a report on every judged directive: the markers of the
/// directives of `content` that are due under `config` and of those that are
/// not yet due, each with whether it is due.
pub open spec fn spec_list_all_markers(
    content: Seq<u8>,
    delimiter_start: Seq<u8>,
    delimiter_end: Seq<u8>,
    config: ChiritoriConfiguration,
) -> Seq<(RemoveMarker, bool)> {
    let parts = spec_parse_tokens(spec_tokenize(content, delimiter_start, delimiter_end));
    markers_all_with(|node: NodeView| reference_range_of(config, content, node, true), parts)
}

/// True when `output` is the report on `markers` in the form `format`, with
/// the lines of `content` numbered.
pub open spec fn is_report(
    output: ListOutput,
    content: Seq<u8>,
    markers: Seq<(RemoveMarker, bool)>,
    format: ListFormat,
) -> bool {
    let line_map = Some(line_breaks(content, content.len() as int));
    match format {
        ListFormat::PrettyString => output matches ListOutput::PrettyString(text) && encode_utf8(text@)
            == spec_pretty_string(content, markers, line_map),
        ListFormat::JSON => output matches ListOutput::Items(items) && items@.len() == markers.len()
            && forall|i: int|
            0 <= i < markers.len() ==> (#[trigger] items@[i])@ == spec_list_item(content, markers[i], line_map),
    }
}

/// The report on `markers` in the form `format`.
fn report(content: &str, markers: &Vec<(RemoveMarker, bool)>, format: ListFormat) -> (output: ListOutput)
    requires
        markers_in_text(content.spec_bytes(), markers@),
        content.spec_bytes().len() < usize::MAX,
    ensures
        is_report(output, content.spec_bytes(), markers@, format),
{
    let line_map = build_line_map(content);
    match format {
        ListFormat::PrettyString => ListOutput::PrettyString(
            build_pretty_string(content, markers.as_slice(), Some(&line_map)),
        ),
        ListFormat::JSON => ListOutput::Items(build_list(content, markers.as_slice(), Some(&line_map))),
    }
}

/// Reports what `clean` would remove from `content` under `config`, without
/// removing it: as a text for reading, or as the items of the report. The
/// text must be shorter than the largest number of the machine, so that its
/// lines can be counted.
pub fn list(content: Rc<String>, delimiters: (String, String), config: ChiritoriConfiguration, format: ListFormat) -> (output:
    ListOutput)
    requires
        delimiters.0@.len() > 0,
        delimiters.1@.len() > 0,
        encode_utf8((*content)@).len() < usize::MAX,
    ensures
        is_report(
            output,
            encode_utf8((*content)@),
            spec_list_markers(
                encode_utf8((*content)@),
                encode_utf8(delimiters.0@),
                encode_utf8(delimiters.1@),
                config,
            ),
            format,
        ),
{
    let (delimiter_start, delimiter_end) = delimiters;
    let text: &str = content.as_str();
    let ghost source = text.spec_bytes();
    proof {
        lemma_nonempty(delimiter_start@);
        lemma_nonempty(delimiter_end@);
    }
    let tokens = tokenize(text, delimiter_start.as_str(), delimiter_end.as_str());

    let parsed = crate::parser::parse(&tokens);
    proof {
        lemma_parsed_tiles(source, token_views(tokens@), part_views(parsed@));
        lemma_views_len(parsed@, parsed@.len());
    }
    let remover = build_remover(config, content.clone());
    let ghost by_remover = |node: NodeView| remover.spec_range_of(node, false);
    let ghost by_config = |node: NodeView| reference_range_of(config, source, node, false);
    assert(by_remover =~= by_config);
    let found = remover.build_remove_marker(parsed.as_slice(), text);
    let mut markers: Vec<(RemoveMarker, bool)> = Vec::new();
    let mut n: usize = 0;
    while n < found.len()
        invariant
            n <= found.len(),
            markers@.len() == n,
            forall|i: int| 0 <= i < n ==> markers@[i] == (found@[i], true),
        decreases found.len() - n,
    {
        markers.push(((found[n].0.start..found[n].0.end, found[n].1), true));
        n += 1;
    }
    proof {
        assert(markers@ =~= Seq::new(found@.len(), |i: int| (found@[i], true)));
        assert forall|i: int| 0 <= i < markers@.len() implies crate::code::utils::text::range_in_text(
            source,
            (#[trigger] markers@[i]).0.0,
        ) by {
            assert(markers@[i].0 == found@[i]);
        }
    }
    report(text, &markers, format)
}

/// Reports every directive of `content` that `config` judges, whether it is
/// due or not yet, without removing any: as a text for reading, or as the
/// items of the report. The text must be shorter than the largest number of
/// the machine, so that its lines can be counted.
pub fn list_all(content: Rc<String>, delimiters: (String, String), config: ChiritoriConfiguration, format: ListFormat) -> (output:
    ListOutput)
    requires
        delimiters.0@.len() > 0,
        delimiters.1@.len() > 0,
        encode_utf8((*content)@).len() < usize::MAX,
    ensures
        is_report(
            output,
            encode_utf8((*content)@),
            spec_list_all_markers(
                encode_utf8((*content)@),
                encode_utf8(delimiters.0@),
                encode_utf8(delimiters.1@),
                config,
            ),
            format,
        ),
{
    let (delimiter_start, delimiter_end) = delimiters;
    let text: &str = content.as_str();
    let ghost source = text.spec_bytes();
    proof {
        lemma_nonempty(delimiter_start@);
        lemma_nonempty(delimiter_end@);
    }
    let tokens = tokenize(text, delimiter_start.as_str(), delimiter_end.as_str());

    let parsed = crate::parser::parse(&tokens);
    proof {
        lemma_parsed_tiles(source, token_views(tokens@), part_views(parsed@));
        lemma_views_len(parsed@, parsed@.len());
    }
    let remover = build_remover(config, content.clone());
    let ghost by_remover = |node: NodeView| remover.spec_range_of(node, true);
    let ghost by_config = |node: NodeView| reference_range_of(config, source, node, true);
    assert(by_remover =~= by_config);
    let markers = remover.build_remove_marker_all(parsed.as_slice(), text);
    report(text, &markers, format)
}

/// What a report comes to once its items have been written as JSON, if they
/// had to be: the text for reading as it is; the JSON of the items; or, where
/// the items could not be written, the error that says so.
pub open spec fn spec_list_result(output: ListOutput, json: Option<String>) -> Result<String, ListError> {
    match output {
        ListOutput::PrettyString(text) => Ok(text),
        ListOutput::Items(_) => match json {
            Some(text) => Ok(text),
            None => Err(ListError::JSONSerializeError),
        },
    }
}

/// Gives the text of a report: `output` itself where it is a text, `json`
/// where the items were written as JSON, and an error where they were to be
/// written and `json` is missing.
pub fn list_result(output: ListOutput, json: Option<String>) -> (result: Result<String, ListError>)
    ensures
        result == spec_list_result(output, json),
{
    match output {
        ListOutput::PrettyString(text) => Ok(text),
        ListOutput::Items(_) => match json {
            Some(text) => Ok(text),
            None => Err(ListError::JSONSerializeError),
        },
    }
}

/// A text with a character has a byte.
proof fn lemma_nonempty(chars: Seq<char>)
    requires
        chars.len() > 0,
    ensures
        encode_utf8(chars).len() > 0,
{
}

} // verus!
