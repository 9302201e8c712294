use chiritori::chiritori::{
    list, list_all, list_result, ChiritoriConfiguration, ListError, ListFormat, ListOutput,
    RemovalMarkerConfiguration, TimeLimitedConfiguration,
};
use chiritori::code::list::{
    build_item, build_list, build_pretty_string, build_pretty_string_item, ItemStatus, ListItem,
};
use chiritori::code::remover::removal_evaluator::time_limited_evaluator::Instant;
use chiritori::code::utils::line_map::{build_line_map, find_line};

const MARKER_START: &str = "_start";
const MARKER_END: &str = "‾end";
const START_COLOR: &str = "\x1b[31m";
const START_COLOR_YELLOW: &str = "\x1b[33m";
const RESET_COLOR: &str = "\x1b[0m";
const HEAD_START: &str = "-------- [ ";
const HEAD_END: &str = "--------";
const REMOVAL_HEAD: &str = " ]  Ready  ";
const PENDING_REMOVAL_HEAD: &str = " ] Pending ";
const MARKER_START_WITH_COLOR: &str = "\x1b[32m_start\x1b[0m";
const MARKER_END_WITH_COLOR: &str = "\x1b[32m‾end\x1b[0m";

fn item(content: &str, start: usize, end: usize) -> String {
    build_pretty_string_item(&content.replace('+', "\n"), start, end, true, true, None)
}

#[test]
fn test_build_item() {
    //      0        10
    //      012345678901234567
    assert_eq!(
        item("aaa+bbbb+ccc+dddd", 4, 11),
        format!(
            "{}{}{}{}{}{}{}{}{}{}{}{}{}",
            MARKER_START_WITH_COLOR, "+", START_COLOR, "bbbb", RESET_COLOR, "+", START_COLOR, "cc", RESET_COLOR,
            "c", "+", " ", MARKER_END_WITH_COLOR
        )
        .replace('+', "\n")
    );
    assert_eq!(
        item("aaa+bbbb+ccc+dddd", 3, 11),
        format!(
            "{}{}{}{}{}{}{}{}{}{}{}{}{}{}{}{}{}{}{}",
            "   ", MARKER_START_WITH_COLOR, "+", "aaa", START_COLOR, "", RESET_COLOR, "+", START_COLOR, "bbbb",
            RESET_COLOR, "+", START_COLOR, "cc", RESET_COLOR, "c", "+", " ", MARKER_END_WITH_COLOR
        )
        .replace('+', "\n")
    );
    assert_eq!(
        item("aaa+bbbb+ccc+dddd", 2, 11),
        format!(
            "{}{}{}{}{}{}{}{}{}{}{}{}{}{}{}{}{}{}{}",
            "  ", MARKER_START_WITH_COLOR, "+", "aa", START_COLOR, "a", RESET_COLOR, "+", START_COLOR, "bbbb",
            RESET_COLOR, "+", START_COLOR, "cc", RESET_COLOR, "c", "+", " ", MARKER_END_WITH_COLOR
        )
        .replace('+', "\n")
    );
    assert_eq!(
        item("aaa+bbbb+ccc+dddd", 4, 12),
        format!(
            "{}{}{}{}{}{}{}{}{}{}{}{}",
            MARKER_START_WITH_COLOR, "+", START_COLOR, "bbbb", RESET_COLOR, "+", START_COLOR, "ccc", RESET_COLOR,
            "+", "  ", MARKER_END_WITH_COLOR
        )
        .replace('+', "\n")
    );
    assert_eq!(
        item("aaa+bbbb+ccc+dddd", 4, 13),
        format!(
            "{}{}{}{}{}{}{}{}{}{}{}{}",
            MARKER_START_WITH_COLOR, "+", START_COLOR, "bbbb", RESET_COLOR, "+", START_COLOR, "ccc", RESET_COLOR,
            "+", "   ", MARKER_END_WITH_COLOR
        )
        .replace('+', "\n")
    );
    assert_eq!(
        item("aaa+bbbb+ccc+dddd", 4, 16),
        format!(
            "{}{}{}{}{}{}{}{}{}{}{}{}{}{}{}{}{}",
            MARKER_START_WITH_COLOR, "+", START_COLOR, "bbbb", RESET_COLOR, "+", START_COLOR, "ccc", RESET_COLOR,
            "+", START_COLOR, "ddd", RESET_COLOR, "d", "+", "  ", MARKER_END_WITH_COLOR
        )
        .replace('+', "\n")
    );
    assert_eq!(
        item("abcd", 1, 2),
        format!(
            "{}{}{}{}{}{}{}{}{}{}{}",
            " ", MARKER_START_WITH_COLOR, "+", "a", START_COLOR, "b", RESET_COLOR, "cd", "+", " ",
            MARKER_END_WITH_COLOR
        )
        .replace('+', "\n")
    );
    assert_eq!(item("", 0, 0), "");
    assert_eq!(item("abc", 1, 1), "");
}

#[test]
fn test_build_item_with_line_number() {
    let content = "aaaaaaa
bbbbbbb
ccccccc
ddddddd
eeeeeee";
    let line_map = build_line_map(content);
    let line_range = (find_line(&line_map, 19), find_line(&line_map, 30));

    assert_eq!(
        build_pretty_string_item(content, 19, 30, true, true, Some(line_range)),
        format!(
            "{}{}{}{}{}{}{}{}{}{}{}{}{}{}{}{}{}",
            "            ", MARKER_START_WITH_COLOR, "+",
            "      3 |", "ccc", START_COLOR, "cccc", RESET_COLOR, "+",
            "      4 |", START_COLOR, "dddddd", RESET_COLOR, "d", "+",
            "              ", MARKER_END_WITH_COLOR
        ).replace('+', "\n")
    );
}

#[test]
fn test_build_item_without_coloring() {
    let content = "aaaaaaa
bbbbbbb
ccccccc
ddddddd
eeeeeee";

    assert_eq!(
        build_pretty_string_item(content, 19, 30, true, false, None),
        format!(
            "{}{}{}{}{}{}{}{}{}",
            "   ", MARKER_START , "+",
            "ccccccc", "+",
            "ddddddd", "+",
            "     ", MARKER_END
        ).replace('+', "\n")
    );
}

#[test]
fn test_build_item_pending_removal_range() {
    assert_eq!(
        build_pretty_string_item(&"aaa+bbbb+ccc+dddd".replace('+', "\n"), 4, 11, false, true, None),
        format!(
            "{}{}{}{}{}{}{}{}{}{}{}{}{}",
            MARKER_START_WITH_COLOR, "+", START_COLOR_YELLOW, "bbbb", RESET_COLOR, "+", START_COLOR_YELLOW, "cc",
            RESET_COLOR, "c", "+", " ", MARKER_END_WITH_COLOR
        )
        .replace('+', "\n")
    );
}

#[test]
fn build_item_puts_four_spaces_for_a_tab() {
    let content = "a\n\t\tbcd\ne";
    assert_eq!(
        build_pretty_string_item(content, 4, 6, true, false, None),
        format!("{}{}{}{}{}{}{}", "        ", MARKER_START, "\n", "        bcd", "\n", "         ", MARKER_END)
    );
}

#[test]
fn build_item_numbers_lines_of_many_digits() {
    let content = "ab\ncd";
    assert_eq!(
        build_pretty_string_item(content, 3, 5, true, false, Some((12345678, 12345678))),
        format!("{}{}{}{}{}{}{}", "         ", MARKER_START, "\n", "12345678 |cd", "\n", "          ", MARKER_END)
    );
    assert_eq!(
        build_pretty_string_item(content, 0, 5, true, false, Some((9, 10))),
        format!(
            "{}{}{}{}{}{}{}{}{}",
            "         ", MARKER_START, "\n", "      9 |ab", "\n", "     10 |cd", "\n", "          ", MARKER_END
        )
    );
}

#[test]
fn list_test_build_list() {
    //             0123456789012345678
    let content = "aaaa+bbbb+cccc+dddd".replace('+', "\n");
    let markers = [((1..2, None), true), ((7..14, None), false)];
    let line_map = build_line_map(&content);

    assert_eq!(
        build_list(&content, &markers, Some(&line_map)),
        vec![
            ListItem {
                line_range: Some((1, 1)),
                annotated_code_block: "          _start\n      1 |aaaa\n          ‾end"
                    .to_string(),
                current_status: ItemStatus::Ready
            },
            ListItem {
                line_range: Some((2, 3)),
                annotated_code_block:
                    "           _start\n      2 |bbbb\n      3 |cccc\n            ‾end"
                        .to_string(),
                current_status: ItemStatus::Pending
            },
        ]
    )
}

#[test]
fn test_build_pretty_string() {
    //             0123456789012345678
    let content = "aaaa+bbbb+cccc+dddd".replace('+', "\n");
    let markers = [((1..2, None), true), ((7..12, None), false)];

    let expected_item1 = build_pretty_string_item(&content, 1, 2, true, true, None);
    let expected_item2 = build_pretty_string_item(&content, 7, 12, false, true, None);

    assert_eq!(
        build_pretty_string(&content, &markers, None),
        format!(
            "\n{}1{}{}\n{}\n{}2{}{}\n{}\n",
            HEAD_START,
            REMOVAL_HEAD,
            HEAD_END,
            expected_item1,
            HEAD_START,
            PENDING_REMOVAL_HEAD,
            HEAD_END,
            expected_item2
        )
        .replace('+', "\n")
    )
}

#[test]
fn build_pretty_string_of_nothing_is_a_line_break() {
    assert_eq!(build_pretty_string("abc", &[], None), "\n");
    assert_eq!(build_list("abc", &[], None), vec![]);
}

fn config() -> ChiritoriConfiguration {
    ChiritoriConfiguration {
        time_limited_configuration: TimeLimitedConfiguration {
            tag_name: String::from("tl"),
            current: Instant { secs: 1_654_041_600, nanos: 0 },
            time_offset: String::from("+00:00"),
        },
        removal_marker_configuration: RemovalMarkerConfiguration {
            tag_name: String::from("marker"),
            targets: vec![String::from("feature1")],
        },
    }
}

fn delimiters() -> (String, String) {
    (String::from("<"), String::from(">"))
}

const LISTED: &str = "a\n<tl to='2999-01-01 00:00:00'>b</tl>\nc\n<marker name='feature1'>d</marker>\n";

#[test]
fn list_reports_what_is_due() {
    let output = list(String::from(LISTED).into(), delimiters(), config(), ListFormat::JSON);
    match output {
        ListOutput::Items(items) => {
            assert_eq!(
                items,
                vec![ListItem {
                    line_range: Some((4, 4)),
                    annotated_code_block: "         _start\n      4 |<marker name='feature1'>d</marker>\n                                          ‾end"
                        .to_string(),
                    current_status: ItemStatus::Ready
                }]
            );
        }
        ListOutput::PrettyString(_) => panic!("items were asked for"),
    }
    let output = list(String::from(LISTED).into(), delimiters(), config(), ListFormat::PrettyString);
    match output {
        ListOutput::PrettyString(text) => {
            let plain = text.replace("\x1b[0m", "").replace("\x1b[31m", "").replace("\x1b[32m", "");
            assert_eq!(
                plain,
                "\n-------- [ 1 ]  Ready  --------\n         _start\n      4 |<marker name='feature1'>d</marker>\n                                          ‾end\n"
            );
        }
        ListOutput::Items(_) => panic!("a text was asked for"),
    }
}

#[test]
fn list_all_reports_what_is_not_yet_due_too() {
    let output = list_all(String::from(LISTED).into(), delimiters(), config(), ListFormat::JSON);
    match output {
        ListOutput::Items(items) => {
            assert_eq!(items.len(), 2);
            assert_eq!(items[0].line_range, Some((2, 2)));
            assert_eq!(items[0].current_status, ItemStatus::Pending);
            assert_eq!(items[1].line_range, Some((4, 4)));
            assert_eq!(items[1].current_status, ItemStatus::Ready);
        }
        ListOutput::PrettyString(_) => panic!("items were asked for"),
    }
}

#[test]
fn list_result_tells_a_report_from_a_failure() {
    assert_eq!(list_result(ListOutput::PrettyString(String::from("t")), None), Ok(String::from("t")));
    assert_eq!(list_result(ListOutput::Items(vec![]), Some(String::from("[]"))), Ok(String::from("[]")));
    assert_eq!(list_result(ListOutput::Items(vec![]), None), Err(ListError::JSONSerializeError));
    assert_eq!(ListError::JSONSerializeError.message(), "Failed to serialize JSON.");
}

fn plain(content: &str, start: usize, end: usize) -> String {
    build_item(&content.replace('+', "\n"), start, end)
}

fn plain_expected(indent: &str, before: &str, inside: &str, after: &str, end_indent: &str) -> String {
    format!(
        "{}{}+{}{}{}{}{}+{}{}",
        indent, MARKER_START_WITH_COLOR, before, START_COLOR, inside, RESET_COLOR, after, end_indent,
        MARKER_END_WITH_COLOR
    )
    .replace('+', "\n")
}

#[test]
fn build_item_marks_a_range_in_one_colour() {
    //      0        10
    //      012345678901234567
    assert_eq!(plain("aaa+bbbb+ccc+dddd", 4, 11), plain_expected("", "", "bbbb+cc", "c", " "));
    assert_eq!(plain("aaa+bbbb+ccc+dddd", 3, 11), plain_expected("   ", "aaa", "+bbbb+cc", "c", " "));
    assert_eq!(plain("aaa+bbbb+ccc+dddd", 2, 11), plain_expected("  ", "aa", "a+bbbb+cc", "c", " "));
    assert_eq!(plain("aaa+bbbb+ccc+dddd", 4, 12), plain_expected("", "", "bbbb+ccc", "", "  "));
    assert_eq!(plain("aaa+bbbb+ccc+dddd", 4, 13), plain_expected("", "", "bbbb+ccc", "", "   "));
    assert_eq!(plain("aaa+bbbb+ccc+dddd", 4, 16), plain_expected("", "", "bbbb+ccc+ddd", "d", "  "));
    assert_eq!(plain("abcd", 1, 2), plain_expected(" ", "a", "b", "cd", " "));
    assert_eq!(plain("", 0, 0), "");
}
