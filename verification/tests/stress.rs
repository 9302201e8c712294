use chiritori::chiritori::{
    clean, list, list_all, ChiritoriConfiguration, ListFormat, ListOutput, RemovalMarkerConfiguration,
    TimeLimitedConfiguration,
};
use chiritori::code::remover::marker::availability::range_marker_availability::RangeMarkerAvailability;
use chiritori::code::remover::marker::availability::unwrap_block_marker_availability::UnwrapBlockMarkerAvailability;
use chiritori::code::remover::marker::builder::range_marker_builder::RangeMarkerBuilder;
use chiritori::code::remover::marker::builder::unwrap_block_marker_builder::UnwrapBlockMarkerBuilder;
use chiritori::code::remover::removal_evaluator::marker_evaluator::MarkerEvaluator;
use chiritori::code::remover::removal_evaluator::time_limited_evaluator::{Instant, TimeLimitedEvaluator};
use chiritori::code::formatter::block_indent_remover::BlockIndentRemover;
use chiritori::code::formatter::empty_line_remover::EmptyLineRemover;
use chiritori::code::formatter::indent_remover::IndentRemover;
use chiritori::code::formatter::next_line_break_remover::NextLineBreakRemover;
use chiritori::code::formatter::prev_line_break_remover::PrevLineBreakRemover;
use chiritori::code::formatter::{BlockFormatter, Formatter};
use chiritori::code::remover::{get_removed_pos, RemovalEvaluators, Remover};
use chiritori::parser::{parse, ContentPart};
use chiritori::tokenizer::{tokenize, TokenKind};
use std::rc::Rc;

const PIECES: [&str; 24] = [
    "<tl to='2000-01-01 00:00:00'>",
    "<tl to='2999-01-01 00:00:00'>",
    "<tl to='2000-01-01 00:00:00' unwrap-block>",
    "<tl unwrap-block to=\"2000-01-01 00:00:00\">",
    "<tl skip to='2000-01-01 00:00:00'>",
    "<tl to='soon'>",
    "</tl>",
    "<m name='a'>",
    "<m name='b' unwrap-block>",
    "</m>",
    "<x>",
    "</x>",
    "\n",
    "\n",
    "\n",
    " ",
    "  ",
    "\t",
    "x",
    "あ",
    "{",
    "}",
    "<",
    ">",
];

struct Dice(u64);

impl Dice {
    fn roll(&mut self, sides: usize) -> usize {
        self.0 = self.0.wrapping_mul(6364136223846793005).wrapping_add(1442695040888963407);
        ((self.0 >> 33) as usize) % sides
    }

    fn text(&mut self) -> String {
        let mut text = String::new();
        for _ in 0..self.roll(24) {
            text.push_str(PIECES[self.roll(PIECES.len())]);
        }
        text
    }
}

fn config() -> ChiritoriConfiguration {
    ChiritoriConfiguration {
        time_limited_configuration: TimeLimitedConfiguration {
            tag_name: String::from("tl"),
            current: Instant { secs: 1_654_041_600, nanos: 0 },
            time_offset: String::from("+00:00"),
        },
        removal_marker_configuration: RemovalMarkerConfiguration {
            tag_name: String::from("m"),
            targets: vec![String::from("a")],
        },
    }
}

fn remover(content: &str) -> Remover {
    let mut removal_evaluators = RemovalEvaluators::new();
    removal_evaluators.insert(
        String::from("tl"),
        Box::new(TimeLimitedEvaluator {
            current_time: Instant { secs: 1_654_041_600, nanos: 0 },
            time_offset: String::from("+00:00"),
        }),
    );
    removal_evaluators.insert(String::from("m"), Box::new(MarkerEvaluator { marker_removal_names: vec![String::from("a")] }));
    Remover::new(
        removal_evaluators,
        vec![
            (
                Box::new(UnwrapBlockMarkerAvailability::new("unwrap-block")),
                Box::new(UnwrapBlockMarkerBuilder { content: Rc::new(content.to_string()) }),
            ),
            (Box::new(RangeMarkerAvailability::default()), Box::new(RangeMarkerBuilder::default())),
        ],
    )
}

#[test]
fn tokens_tile_every_text() {
    let mut dice = Dice(1);
    for _ in 0..3000 {
        let text = dice.text();
        let tokens = tokenize(&text, "<", ">");
        let mut at = 0;
        let mut last_was_text = false;
        for token in tokens.iter() {
            assert_eq!(token.byte_start, at);
            assert!(token.byte_start < token.byte_end);
            assert_eq!(token.value, &text[token.byte_start..token.byte_end]);
            assert_eq!(token.start, text[..token.byte_start].chars().count());
            assert_eq!(token.end, text[..token.byte_end].chars().count());
            let is_text = token.kind == TokenKind::Text;
            assert!(!(is_text && last_was_text));
            if !is_text {
                assert!(token.value.starts_with('<') && token.value.ends_with('>') && token.value.len() > 2);
            }
            last_was_text = is_text;
            at = token.byte_end;
        }
        assert_eq!(at, text.len());
    }
}

#[test]
fn markers_fit_every_text() {
    let mut dice = Dice(2);
    for _ in 0..3000 {
        let text = dice.text();
        let tokens = tokenize(&text, "<", ">");
        let remover = remover(&text);
        let (removed, markers) = remover.remove(parse(&tokens), &text);
        let mut expected = String::new();
        let mut at = 0;
        for (i, marker) in markers.iter().enumerate() {
            assert!(at <= marker.0.start && marker.0.start < marker.0.end && marker.0.end <= text.len());
            expected.push_str(&text[at..marker.0.start]);
            at = marker.0.end;
            if let Some(pair) = marker.1 {
                assert!(pair < markers.len() && pair != i);
            }
        }
        expected.push_str(&text[at..]);
        assert_eq!(removed, expected);
        let positions = get_removed_pos(&markers);
        assert_eq!(positions.len(), markers.len());
        for (i, position) in positions.iter().enumerate() {
            assert!(removed.is_char_boundary(position.0));
            assert_eq!(position.1, markers[i].1);
            if i > 0 {
                assert!(positions[i - 1].0 <= position.0);
            }
        }
    }
}

#[test]
fn clean_takes_every_text() {
    let mut dice = Dice(3);
    for _ in 0..3000 {
        let text = dice.text();
        let cleaned = clean(Rc::new(text.clone()), (String::from("<"), String::from(">")), config());
        assert!(cleaned.len() <= text.len());
        let tokens = tokenize(&text, "<", ">");
        if remover(&text).build_remove_marker(&parse(&tokens), &text).is_empty() {
            assert_eq!(cleaned, text);
        }
    }
}

#[test]
fn list_takes_every_text() {
    let mut dice = Dice(4);
    for _ in 0..1500 {
        let text = dice.text();
        let delimiters = || (String::from("<"), String::from(">"));
        let due = match list(Rc::new(text.clone()), delimiters(), config(), ListFormat::JSON) {
            ListOutput::Items(items) => items.len(),
            ListOutput::PrettyString(_) => panic!("items were asked for"),
        };
        let all = match list_all(Rc::new(text.clone()), delimiters(), config(), ListFormat::JSON) {
            ListOutput::Items(items) => items.len(),
            ListOutput::PrettyString(_) => panic!("items were asked for"),
        };
        assert!(due <= all);
        match list_all(Rc::new(text.clone()), delimiters(), config(), ListFormat::PrettyString) {
            ListOutput::PrettyString(report) => assert!(report.ends_with('\n')),
            ListOutput::Items(_) => panic!("a text was asked for"),
        }
    }
}

fn blank_lines(text: &str) -> usize {
    text.split('\n').filter(|line| line.chars().all(|c| c == ' ' || c == '\t')).count()
}

fn only_blanks_went(before: &str, after: &str) -> bool {
    let mut left = after.chars().peekable();
    for c in before.chars() {
        if left.peek() == Some(&c) {
            left.next();
        } else if c != ' ' && c != '\t' && c != '\n' {
            return false;
        }
    }
    left.peek().is_none()
}

#[test]
fn tidying_takes_nothing_but_blanks_and_adds_no_blank_line() {
    let formatters: Vec<Box<dyn Formatter>> = vec![
        Box::new(IndentRemover {}),
        Box::new(EmptyLineRemover {}),
        Box::new(PrevLineBreakRemover {}),
        Box::new(NextLineBreakRemover {}),
    ];
    let structure_formatters: Vec<Box<dyn BlockFormatter>> = vec![Box::new(BlockIndentRemover {})];
    let mut dice = Dice(5);
    for _ in 0..3000 {
        let text = dice.text();
        let tokens = tokenize(&text, "<", ">");
        let (removed, markers) = remover(&text).remove(parse(&tokens), &text);
        let positions = get_removed_pos(&markers);
        let tidied = chiritori::code::formatter::format(&removed, &positions, &formatters, &structure_formatters);
        assert!(only_blanks_went(&removed, &tidied), "{:?} became {:?}", removed, tidied);
        assert!(blank_lines(&tidied) <= blank_lines(&removed), "{:?} became {:?}", removed, tidied);
        assert_eq!(tidied, clean(Rc::new(text.clone()), (String::from("<"), String::from(">")), config()));
    }
}

#[test]
fn a_rule_asked_inside_a_character_or_behind_the_text_deletes_nothing() {
    let formatters: Vec<Box<dyn Formatter>> = vec![
        Box::new(IndentRemover {}),
        Box::new(EmptyLineRemover {}),
        Box::new(PrevLineBreakRemover {}),
        Box::new(NextLineBreakRemover {}),
    ];
    let mut dice = Dice(6);
    for _ in 0..1000 {
        let text = dice.text();
        for pos in 0..text.len() + 3 {
            for formatter in formatters.iter() {
                let (start, end) = formatter.format(&text, pos, 0);
                if text.is_char_boundary(pos) {
                    assert!(start <= pos && pos <= end && end <= text.len());
                    assert!(text.is_char_boundary(start) && text.is_char_boundary(end));
                    assert!(text[start..end].chars().all(|c| c == ' ' || c == '\t' || c == '\n'));
                } else {
                    assert_eq!((start, end), (pos, pos));
                }
            }
        }
    }
}

// The tags of the directives that are due and removed as a whole range.
fn due_tags(parts: &[ContentPart], found: &mut Vec<(usize, usize)>) {
    for part in parts.iter() {
        if let ContentPart::Element(el) = part {
            let skip = el.start_element.attrs.iter().any(|attr| attr.name == "skip" || attr.name == "unwrap-block");
            let due = match el.start_element.name {
                "tl" => el.start_element.attrs.iter().any(|attr| {
                    attr.name == "to" && attr.value == Some("2000-01-01 00:00:00")
                }),
                "m" => el.start_element.attrs.iter().any(|attr| attr.name == "name" && attr.value == Some("a")),
                _ => false,
            };
            if due && !skip {
                found.push((el.start_token.byte_start, el.start_token.byte_end));
                found.push((el.end_token.byte_start, el.end_token.byte_end));
            }
            due_tags(&el.children, found);
        }
    }
}

#[test]
fn each_tag_of_a_due_directive_lies_whole_in_one_marker() {
    let mut dice = Dice(7);
    let mut seen = 0;
    for _ in 0..3000 {
        let text = dice.text();
        let tokens = tokenize(&text, "<", ">");
        let parts = parse(&tokens);
        let mut tags = Vec::new();
        due_tags(&parts, &mut tags);
        let markers = remover(&text).build_remove_marker(&parts, &text);
        for (start, end) in tags.iter() {
            let held = markers.iter().any(|marker| marker.0.start <= *start && *end <= marker.0.end);
            assert!(held, "{:?}: {}..{} in {:?}", text, start, end, markers);
            seen += 1;
        }
    }
    assert!(seen > 100);
}
