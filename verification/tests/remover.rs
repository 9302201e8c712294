use chiritori::code::remover::marker::availability::range_marker_availability::RangeMarkerAvailability;
use chiritori::code::remover::marker::availability::unwrap_block_marker_availability::UnwrapBlockMarkerAvailability;
use chiritori::code::remover::marker::availability::MarkerAvailability;
use chiritori::code::remover::marker::builder::range_marker_builder::RangeMarkerBuilder;
use chiritori::code::remover::marker::builder::unwrap_block_marker_builder::UnwrapBlockMarkerBuilder;
use chiritori::code::remover::marker::builder::MarkerBuilder;
use chiritori::code::remover::marker::factory::{create, RemoveStrategies};
use chiritori::code::remover::removal_evaluator::marker_evaluator::MarkerEvaluator;
use chiritori::code::remover::removal_evaluator::time_limited_evaluator::{is_expired, Instant, TimeLimitedEvaluator};
use chiritori::code::remover::removal_evaluator::RemovalEvaluator;
use chiritori::code::remover::{get_removed_pos, RemovalEvaluators, RemoveMarker, Remover};
use chiritori::element_parser::{Attribute, Element};
use chiritori::parser::{parse, ContentPart};
use chiritori::tokenizer::{tokenize, ElementToken, Token, TokenKind};
use std::rc::Rc;

fn instant(text: &str) -> Instant {
    let time = chrono::DateTime::parse_from_str(text, "%Y-%m-%d %H:%M:%S %z").unwrap();
    Instant { secs: time.timestamp(), nanos: time.timestamp_subsec_nanos() }
}

fn now() -> Instant {
    let time = chrono::Local::now();
    Instant { secs: time.timestamp(), nanos: time.timestamp_subsec_nanos() }
}

fn initialize_remove_strategy(content: Rc<String>) -> RemoveStrategies {
    vec![
        (
            Box::new(UnwrapBlockMarkerAvailability::new("unwrap-block")),
            Box::new(UnwrapBlockMarkerBuilder { content }),
        ),
        (Box::new(RangeMarkerAvailability::default()), Box::new(RangeMarkerBuilder::default())),
    ]
}

fn initialize_removal_evaluators() -> RemovalEvaluators {
    let mut removal_evaluators = RemovalEvaluators::new();
    removal_evaluators.insert(
        String::from("tl"),
        Box::new(TimeLimitedEvaluator { current_time: now(), time_offset: "+00:00".to_string() }),
    );

    removal_evaluators
}

fn markers_of(content: &str, delimiter_start: &str, delimiter_end: &str) -> Vec<RemoveMarker> {
    let tokens = tokenize(content, delimiter_start, delimiter_end);
    let contents = parse(&tokens);
    let content = Rc::new(content.to_string());
    let remover = Remover::new(initialize_removal_evaluators(), initialize_remove_strategy(Rc::clone(&content)));
    remover.build_remove_marker(&contents, &content)
}

#[test]
fn remover_test_remove_marker() {
    //      0         1         2         3        4
    //      012345678901234567890123456789012-5678901234
    assert_eq!(markers_of("foo<tl to='2000-01-01 00:00:00'>あ</tl>fuga", "<", ">"), vec![(3..40, None)]);
    assert_eq!(markers_of("foo<baz>a", "<", ">"), vec![]);
}

#[test]
fn remover_test_remove() {
        let content = Rc::new(
            "
<div>
    hoge
    <!-- tl to='2021-12-31 23:50:00' -->
    <h1>Campaign 1</h1>
    <!-- /tl -->
    foo
    bar
    baz
    <!-- tl to='2022-12-31 23:50:00' -->
    <h1>Campaign 2</h1>
    <!-- /tl -->
</div>
"
            .to_string(),
        );
        let remover = Remover::new(
            initialize_removal_evaluators(),
            initialize_remove_strategy(Rc::clone(&content)),
        );
        let (removed, markers) = remover.remove(
            parse(&tokenize(&content, "<!--", "-->")),
            &content,
        );
        assert_eq!(
            removed,
            "+<div>+    hoge+    +    foo+    bar+    baz+    +</div>+".replace('+', "\n")
        );
        assert_eq!(markers, vec![(20..97, None), (126..203, None)]);

        let content = Rc::new(
            "
hoge
<!-- tl to='2021-12-31 23:50:00' -->
<h1>Campaign 1</h1>
<!-- /tl -->
foo
<!-- tl to='2022-12-31 23:50:00' -->
<h1>Campaign 2</h1>
<!-- /tl -->
"
            .to_string(),
        );
        let remover = Remover::new(
            initialize_removal_evaluators(),
            initialize_remove_strategy(Rc::clone(&content)),
        );
        let (removed, markers) = remover.remove(
            parse(&tokenize(&content, "<!--", "-->")),
            &content,
        );
        assert_eq!(
            removed,
            "
hoge

foo

"
            .to_string()
        );
        assert_eq!(markers, vec![(6..75, None), (80..149, None),]);

        let content = Rc::new(
            "
<!-- tl skip to='2021-12-31 23:50:00' -->
<h1>Campaign 1</h1>
<!-- /tl -->
"
            .to_string(),
        );
        let remover = Remover::new(
            initialize_removal_evaluators(),
            initialize_remove_strategy(Rc::clone(&content)),
        );
        let (removed, _) = remover.remove(
            parse(&tokenize(&content, "<!--", "-->")),
            &content,
        );
        assert_eq!(removed, *content);

        let content = Rc::new(
            "
// --- start ---
/* tl to='2021-12-31 23:50:00' unwrap-block */
if (foo) {
    console.log('abc');
    console.log('def');
}
/* /tl */
// ---  end  ---
"
            .to_string(),
        );
        let remover = Remover::new(
            initialize_removal_evaluators(),
            initialize_remove_strategy(Rc::clone(&content)),
        );
        let (removed, markers) = remover.remove(
            parse(&tokenize(&content, "/*", "*/")),
            &content,
        );
        assert_eq!(
            removed,
            "
// --- start ---

    console.log('abc');
    console.log('def');

// ---  end  ---
"
            .to_string()
        );
        assert_eq!(markers, vec![(18..75, Some(1)), (124..135, Some(0))]);

        // byte_pos:           0        10        20        30        40        50        60        70        80        90       100       110       120       130       140
        //                     0123456789012345678901234567890123456789012345678901234567890123456789012345678901234567890123456789012345678901234567890123456789012345678901234567
        //                         <-------------------------------------> <------------------------------------------>           <-----> <------------------------------------->
        let content = Rc::new("foo+<tl to='2021-01-01 00:00:00'>+bar+</tl>+<tl to='2000-01-01 00:00:00' unwrap-block>+{+  s1+  s2+}+</tl>+<tl to='2021-01-01 00:00:00'>+bar+</tl>".replace("+", "\n"));
        let remover = Remover::new(
            initialize_removal_evaluators(),
            initialize_remove_strategy(Rc::clone(&content)),
        );
        let (removed, markers) = remover.remove(
            parse(&tokenize(&content, "<", ">")),
            &content,
        );
        assert_eq!(removed, "foo+++  s1+  s2++".to_string().replace("+", "\n"));
        assert_eq!(
            markers,
            vec![
                (4..43, None),
                (44..88, Some(2)),
                (99..106, Some(1)),
                (107..146, None),
            ]
        );

        // byte_pos:           0        10        20        30        40        50        60        70        80        90       100       110       120       130       140       150
        //                     0123456789012345678901234567890123456789012345678901234567890123456789012345678901234567890123456789012345678901234567890123456789012345678901234567890123
        //                         <-------------------------------------> <------------------------------------------>        <----------------------------------------->      <----->
        let content = Rc::new("foo+<tl to='2021-01-01 00:00:00'>+bar+</tl>+<tl to='2000-01-01 00:00:00' unwrap-block>+{+  s1+  <tl to='2021-01-01 00:00:00'>+  bar+  </tl>+  s2+}+</tl>".replace("+", "\n"));
        let remover = Remover::new(
            initialize_removal_evaluators(),
            initialize_remove_strategy(Rc::clone(&content)),
        );
        let (removed, markers) = remover.remove(
            parse(&tokenize(&content, "<", ">")),
            &content,
        );
        assert_eq!(
            removed,
            "foo+++  s1+  +  s2+".to_string().replace("+", "\n")
        );
        assert_eq!(
            markers,
            vec![
                (4..43, None),
                (44..88, Some(3)),
                (96..139, None),
                (145..152, Some(1)),
            ]
        );
    }

#[test]
fn remover_test_removed_pos() {
        // cursor_pos       :0 1 2 3 4 5 6 7 8 9 A B
        // chars            : Q W E R T Y U I O P @
        // remove_marker    :  <--->   <->   <->
        //                     |       |     |
        //                     |   +---+     |
        //                     |   |   +-----+
        //                     |   |   |
        // removed          : Q|R T|U I|P @
        // result_cursor_pos:  ^   ^   ^
        //                     1   3   5
        let markers = vec![(1..3, None), (5..6, None), (8..9, None)];
        assert_eq!(
            get_removed_pos(&markers),
            vec![(1, None), (3, None), (5, None)]
        );
    }

#[test]
fn get_removed_pos_keeps_the_pair_and_repeats_a_position_where_markers_touch() {
    let markers = vec![(0..8, Some(1)), (8..16, Some(0)), (20..21, None)];
    assert_eq!(get_removed_pos(&markers), vec![(0, Some(1)), (0, Some(0)), (4, None)]);
    assert_eq!(get_removed_pos(&[]), vec![]);
}

#[test]
fn markers_never_overlap() {
    let content = "a<tl to='2000-01-01 00:00:00' unwrap-block> <tl to='2000-01-01 00:00:00'>+{+  x+}  </tl>+</tl>b+<tl to='2000-01-01 00:00:00'>c</tl><tl to='2000-01-01 00:00:00'>d</tl>"
        .replace('+', "\n");
    let markers = markers_of(&content, "<", ">");
    assert!(!markers.is_empty());
    for pair in markers.windows(2) {
        assert!(pair[0].0.end <= pair[1].0.start);
    }
    for marker in markers.iter() {
        assert!(marker.0.start <= marker.0.end);
        assert!(content.is_char_boundary(marker.0.start));
        assert!(content.is_char_boundary(marker.0.end));
        if let Some(pair) = marker.1 {
            assert!(pair < markers.len());
        }
    }
    let positions = get_removed_pos(&markers);
    for pair in positions.windows(2) {
        assert!(pair[0].0 <= pair[1].0);
    }
}

#[test]
fn a_child_across_both_parts_of_its_parent_joins_them() {
    //             0         1         2         3         4         5
    //             0123456789012345678901234567890123456789012345678901234
    let content = "<r unwrap-block> <r>+{+ body+} </r>+</r>".replace('+', "\n");
    let mut removal_evaluators = RemovalEvaluators::new();
    removal_evaluators.insert(
        String::from("r"),
        Box::new(MarkerEvaluator { marker_removal_names: vec![] }),
    );
    let tokens = tokenize(&content, "<", ">");
    let contents = parse(&tokens);
    let shared = Rc::new(content.clone());
    let remover = Remover::new(removal_evaluators, initialize_remove_strategy(Rc::clone(&shared)));
    assert_eq!(remover.build_remove_marker(&contents, &content), vec![]);

    let mut removal_evaluators = RemovalEvaluators::new();
    removal_evaluators.insert(
        String::from("r"),
        Box::new(TimeLimitedEvaluator { current_time: now(), time_offset: "+00:00".to_string() }),
    );
    let content =
        "<r to='2000-01-01 00:00:00' unwrap-block> <r to='2000-01-01 00:00:00'>+{+ body+} </r>+</r>".replace('+', "\n");
    let tokens = tokenize(&content, "<", ">");
    let contents = parse(&tokens);
    let shared = Rc::new(content.clone());
    let remover = Remover::new(removal_evaluators, initialize_remove_strategy(Rc::clone(&shared)));
    let (removed, markers) = remover.remove(contents, &content);
    assert_eq!(markers.len(), 2);
    assert_eq!(markers[0].0.start, 0);
    assert_eq!(markers[0].0.end, markers[1].0.start);
    assert_eq!(markers[1].0.end, content.len());
    assert_eq!(markers[0].1, Some(1));
    assert_eq!(markers[1].1, Some(0));
    assert_eq!(removed, "");
}

#[test]
fn pairs_of_nested_unwrapped_blocks_point_at_each_other() {
    let content = "<r to='2000-01-01 00:00:00' unwrap-block>+{+<r to='2000-01-01 00:00:00' unwrap-block>+{+x+}+</r>+}+</r>"
        .replace('+', "\n");
    let mut removal_evaluators = RemovalEvaluators::new();
    removal_evaluators.insert(
        String::from("r"),
        Box::new(TimeLimitedEvaluator { current_time: now(), time_offset: "+00:00".to_string() }),
    );
    let tokens = tokenize(&content, "<", ">");
    let contents = parse(&tokens);
    let shared = Rc::new(content.clone());
    let remover = Remover::new(removal_evaluators, initialize_remove_strategy(Rc::clone(&shared)));
    let markers = remover.build_remove_marker(&contents, &content);
    assert_eq!(markers.len(), 4);
    assert_eq!(markers[0].1, Some(3));
    assert_eq!(markers[1].1, Some(2));
    assert_eq!(markers[2].1, Some(1));
    assert_eq!(markers[3].1, Some(0));
}

#[test]
fn build_remove_marker_all_tells_what_is_due_from_what_is_not() {
    let content = "a<tl to='2999-01-01 00:00:00'>b</tl>c<tl to='2000-01-01 00:00:00'>d</tl>e<x>f</x>";
    let tokens = tokenize(content, "<", ">");
    let contents = parse(&tokens);
    let shared = Rc::new(content.to_string());
    let remover = Remover::new(initialize_removal_evaluators(), initialize_remove_strategy(shared));
    assert_eq!(
        remover.build_remove_marker_all(&contents, content),
        vec![((1..36, None), false), ((37..72, None), true)]
    );
}

#[test]
fn a_later_evaluator_of_one_name_counts() {
    let mut removal_evaluators = RemovalEvaluators::new();
    removal_evaluators.insert(
        String::from("m"),
        Box::new(MarkerEvaluator { marker_removal_names: vec![String::from("a")] }),
    );
    removal_evaluators.insert(
        String::from("m"),
        Box::new(MarkerEvaluator { marker_removal_names: vec![String::from("b")] }),
    );
    assert_eq!(removal_evaluators.position("m"), Some(1));
    assert_eq!(removal_evaluators.position("n"), None);
    let content = "<m name='a'>1</m><m name='b'>2</m>";
    let tokens = tokenize(content, "<", ">");
    let contents = parse(&tokens);
    let remover = Remover::new(removal_evaluators, initialize_remove_strategy(Rc::new(content.to_string())));
    assert_eq!(remover.build_remove_marker(&contents, content), vec![(17..34, None)]);
}

fn find_remove<'a, 'b, 'c, 'd>(
    parts: Vec<ContentPart<'a, 'b, 'c, 'd>>,
) -> chiritori::parser::Element<'a, 'b, 'c, 'd> {
    parts
        .into_iter()
        .find_map(|c| match c {
            ContentPart::Element(el) => {
                if el.start_element.name == "remove" {
                    Some(el)
                } else {
                    None
                }
            }
            _ => None,
        })
        .unwrap()
}

#[test]
fn range_marker_builder_test_build() {
    //                              10        20        30
    //                     012345678901234567890123456789012345
    //                     |       ^-----------------------^
    let content = Rc::new("foo+bar+<remove>+a+b+c+</remove>+baz".replace('+', "\n"));

    let builder = RangeMarkerBuilder::default();

    let tokens = tokenize(&content, "<", ">");
    let parsed = find_remove(parse(&tokens));

    let built = builder.build(&parsed);
    assert_eq!(built, (8..32, None));
}

#[test]
fn unwrap_block_marker_builder_test_build() {
    //                              10        20        30
    //                     012345678901234567890123456789012345
    //                     |       ^---------^  ^----------^
    let content = Rc::new("foo+bar+<remove>+{+b+}+</remove>+baz".replace('+', "\n"));

    let builder = UnwrapBlockMarkerBuilder { content: Rc::clone(&content) };

    let tokens = tokenize(&content, "<", ">");
    let parsed = find_remove(parse(&tokens));

    assert_eq!(builder.build(&parsed), (8..18, Some(21..32)));
}

#[test]
fn unwrap_block_marker_builder_removes_nothing_from_a_block_on_one_line() {
    let content = Rc::new("foo+bar+<remove> {b} </remove>+baz+".replace('+', "\n"));
    let builder = UnwrapBlockMarkerBuilder { content: Rc::clone(&content) };
    let tokens = tokenize(&content, "<", ">");
    let parsed = find_remove(parse(&tokens));
    assert_eq!(builder.build(&parsed), (8..8, None));
}

#[test]
fn create_takes_the_first_strategy_that_applies() {
    let content = Rc::new("foo+bar+<remove unwrap-block>+{+b+}+</remove>+baz".replace('+', "\n"));
    let tokens = tokenize(&content, "<", ">");
    let parsed = find_remove(parse(&tokens));
    let strategies = initialize_remove_strategy(Rc::clone(&content));
    assert_eq!(create(&parsed, &strategies), Some((8..31, Some(34..45))));
    let none: RemoveStrategies = vec![];
    assert_eq!(create(&parsed, &none), None);
    assert!(UnwrapBlockMarkerAvailability::new("unwrap-block").is_available(&parsed));
    assert!(!UnwrapBlockMarkerAvailability::new("skip").is_available(&parsed));
    assert!(RangeMarkerAvailability::default().is_available(&parsed));
}

#[test]
fn marker_evaluator_test_remove_marker_outdated() {
    let feature1_el = Element { name: "marker", attrs: vec![Attribute { name: "name", value: Some("feature1") }] };
    let feature2_el = Element { name: "marker", attrs: vec![Attribute { name: "name", value: Some("feature2") }] };
    let evaluator = MarkerEvaluator { marker_removal_names: vec![String::from("feature1")] };
    assert!(evaluator.is_removal(&feature1_el));
    assert!(!evaluator.is_removal(&feature2_el));
}

#[test]
fn marker_evaluator_keeps_a_directive_without_a_name() {
    let evaluator = MarkerEvaluator { marker_removal_names: vec![String::from("feature1")] };
    assert!(!evaluator.is_removal(&Element { name: "marker", attrs: vec![] }));
    assert!(!evaluator.is_removal(&Element {
        name: "marker",
        attrs: vec![Attribute { name: "name", value: None }]
    }));
}

#[test]
fn time_limited_evaluator_test_remove_marker_outdated() {
    let start_el = Element {
        name: "time-limited",
        attrs: vec![Attribute { name: "to", value: Some("2021-12-31 23:00:00") }],
    };
    let evaluator = TimeLimitedEvaluator {
        current_time: instant("2022-01-01 00:00:00 +0000"),
        time_offset: "+0000".to_string(),
    };
    assert!(evaluator.is_removal(&start_el));
}

#[test]
fn test_remove_marker_in_term() {
    let start_el = Element {
        name: "time-limited",
        attrs: vec![Attribute { name: "to", value: Some("2023-12-31 23:59:59") }],
    };
    let evaluator = TimeLimitedEvaluator {
        current_time: instant("2022-01-01 00:00:00 +0000"),
        time_offset: "+0000".to_string(),
    };
    assert!(!evaluator.is_removal(&start_el));
}

#[test]
fn time_limited_evaluator_keeps_what_it_cannot_read() {
    let evaluator = TimeLimitedEvaluator {
        current_time: instant("2022-01-01 00:00:00 +0000"),
        time_offset: "+0000".to_string(),
    };
    assert!(!evaluator.is_removal(&Element { name: "tl", attrs: vec![] }));
    assert!(!evaluator.is_removal(&Element { name: "tl", attrs: vec![Attribute { name: "to", value: None }] }));
    assert!(!evaluator.is_removal(&Element {
        name: "tl",
        attrs: vec![Attribute { name: "to", value: Some("soon") }]
    }));
    assert_eq!(evaluator.read_expiry("soon"), None);
    assert_eq!(evaluator.read_expiry("1970-01-01 00:00:10"), Some((10, 0)));
}

#[test]
fn time_limited_evaluator_counts_the_offset() {
    let evaluator = TimeLimitedEvaluator {
        current_time: instant("2022-01-01 00:00:00 +0000"),
        time_offset: "+0900".to_string(),
    };
    let at = |value| Element { name: "tl", attrs: vec![Attribute { name: "to", value: Some(value) }] };
    assert!(evaluator.is_removal(&at("2022-01-01 09:00:00")));
    assert!(!evaluator.is_removal(&at("2022-01-01 09:00:01")));
}

#[test]
fn is_expired_at_the_instant_itself() {
    let now = Instant { secs: 100, nanos: 5 };
    assert!(is_expired(now, Some((100, 5))));
    assert!(is_expired(now, Some((99, 999))));
    assert!(!is_expired(now, Some((100, 6))));
    assert!(!is_expired(now, Some((101, 0))));
    assert!(!is_expired(now, None));
}

#[test]
fn test_removed_pos() {
    // cursor_pos       :0 1 2 3 4 5 6 7 8 9 A B
    // chars            : Q W E R T Y U I O P @
    // remove_marker    :  <--->   <->   <->
    // removed          : Q|R T|U I|P @
    // result_cursor_pos:  ^   ^   ^
    //                     1   3   5
    let markers: Vec<RemoveMarker> = vec![(1..3, None), (5..6, None), (8..9, None)];
    let positions: Vec<usize> = get_removed_pos(&markers).into_iter().map(|p| p.0).collect();
    assert_eq!(positions, vec![1, 3, 5]);
}

fn time_limited_remover(content: &str) -> Remover {
    let mut removal_evaluators = RemovalEvaluators::new();
    removal_evaluators.insert(
        String::from("time-limited"),
        Box::new(TimeLimitedEvaluator { current_time: now(), time_offset: "+00:00".to_string() }),
    );
    Remover::new(removal_evaluators, initialize_remove_strategy(Rc::new(content.to_string())))
}

#[test]
fn test_remove() {
    let content = "
<div>
    hoge
    <!-- time-limited to='2021-12-31 23:50:00' -->
    <h1>Campaign 1</h1>
    <!-- /time-limited -->
    foo
    bar
    baz
    <!-- time-limited to='2022-12-31 23:50:00' -->
    <h1>Campaign 2</h1>
    <!-- /time-limited -->
</div>
";
    assert_eq!(
        time_limited_remover(content).remove(parse(&tokenize(content, "<!--", "-->")), content),
        (
            "+<div>+    hoge+    +    foo+    bar+    baz+    +</div>+".replace('+', "\n"),
            vec![(20..117, None), (146..243, None)]
        )
    );

    let content = "
hoge
<!-- time-limited to='2021-12-31 23:50:00' -->
<h1>Campaign 1</h1>
<!-- /time-limited -->
foo
<!-- time-limited to='2022-12-31 23:50:00' -->
<h1>Campaign 2</h1>
<!-- /time-limited -->
";
    assert_eq!(
        time_limited_remover(content).remove(parse(&tokenize(content, "<!--", "-->")), content),
        (
            "
hoge

foo

"
            .to_string(),
            vec![(6..95, None), (100..189, None)]
        )
    );
}

#[test]
fn time_limited_remover_test_remove_marker() {
    let start_token = Token {
        kind: TokenKind::Element(ElementToken { delimiter_start: "<!--", delimiter_end: "-->" }),
        value: "<!-- time-limited to='2021-12-31 23:00:00' -->",
        start: 9,
        byte_start: 9,
        end: 43,
        byte_end: 44,
    };
    let start_el = Element {
        name: "time-limited",
        attrs: vec![Attribute { name: "to", value: Some("2021-12-31 23:00:00") }],
    };
    let end_token = Token {
        kind: TokenKind::Element(ElementToken { delimiter_start: "<!--", delimiter_end: "-->" }),
        value: "<!-- /time-limited -->",
        start: 45,
        byte_start: 45,
        end: 67,
        byte_end: 68,
    };

    let evaluator = TimeLimitedEvaluator {
        current_time: instant("2022-01-01 00:00:00 +0000"),
        time_offset: "+0000".to_string(),
    };
    assert!(evaluator.is_removal(&start_el));
    let element = chiritori::parser::Element {
        start_element: start_el,
        start_token: &start_token,
        end_token: &end_token,
        children: vec![],
    };
    assert_eq!(RangeMarkerBuilder::default().build(&element), (9..68, None));
}
