use chiritori::code::formatter::block_indent_remover::BlockIndentRemover;
use chiritori::code::formatter::empty_line_remover::EmptyLineRemover;
use chiritori::code::formatter::indent_remover::IndentRemover;
use chiritori::code::formatter::next_line_break_remover::NextLineBreakRemover;
use chiritori::code::formatter::prev_line_break_remover::PrevLineBreakRemover;
use chiritori::code::formatter::{merge_overlapped_ranges, merge_ranges, BlockFormatter, Formatter};

#[test]
fn formatter_test_format() {
        let strategy: Vec<Box<dyn Formatter>> = vec![
            Box::new(IndentRemover {}),
            Box::new(EmptyLineRemover {}),
            Box::new(PrevLineBreakRemover {}),
            Box::new(NextLineBreakRemover {}),
        ];

        // source:        converted:
        //  1 |<div>         1 |<div>
        //  2 |....hoge      2 |....hoge
        //  3 |....X         3 |....foo
        //  4 |....foo       4 |....bar
        //  5 |....bar       5 |....baz
        //  6 |....baz       6 |
        //  7 |              7 |</div>
        //  8 |....X         8 |
        //  9 |</div>
        //
        //                       10        20       30        40        50
        //             01234567890123456789012345678901234567890123456789012345
        //                                ^                             ^
        let content = "<div>+    hoge+    +    foo+    bar+    baz++    +</div>".replace('+', "\n");
        let removed_pos = [(19, None), (49, None)];
        assert_eq!(
            chiritori::code::formatter::format(&content, &removed_pos, &strategy, &[]),
            //12345678901234567890123456789012345678901234567
            "<div>+    hoge+    foo+    bar+    baz++</div>".replace('+', "\n")
        );

        // source:        converted:
        //  1 |....hoge      1 |....hoge
        //  2 |....X         2 |....foo
        //  3 |....foo
        //
        //                       10        20
        //             0123456789012345678901
        //                          ^
        let content = "    hoge+    +    foo+".replace('+', "\n");
        let removed_pos = [(13, None)];
        assert_eq!(
            chiritori::code::formatter::format(&content, &removed_pos, &strategy, &[]),
            //12345678901234567890123456789012345678901234567
            "    hoge+    foo+".replace('+', "\n")
        );

        // source:        converted:
        //  1 |....hoge      1 |....hoge
        //  2 |              2 |
        //  3 |....X         3 |....foo
        //  4 |....foo
        //
        //                       10        20
        //             01234567890123456789012
        //                           ^
        let content = "    hoge++    +    foo+".replace('+', "\n");
        let removed_pos = [(14, None)];
        assert_eq!(
            chiritori::code::formatter::format(&content, &removed_pos, &strategy, &[]),
            //12345678901234567890123456789012345678901234567
            "    hoge++    foo+".replace('+', "\n")
        );

        // source:        converted:
        //  1 |....hoge      1 |....hoge
        //  2 |....X         2 |
        //  3 |              3 |....foo
        //  4 |....foo
        //
        //                       10        20
        //             01234567890123456789012
        //                           ^
        let content = "    hoge+    ++    foo+".replace('+', "\n");
        let removed_pos = [(14, None)];
        assert_eq!(
            chiritori::code::formatter::format(&content, &removed_pos, &strategy, &[]),
            //12345678901234567890123456789012345678901234567
            "    hoge++    foo+".replace('+', "\n")
        );

        // source:        converted:
        //  1 |....hoge      1 |....hoge
        //  2 |.             2 |
        //  3 |....X         3 |....foo
        //  4 |.
        //  5 |....foo
        //                       10        20
        //             01234567890123456789012
        //                            ^
        let content = "    hoge+ +    + +    foo+".replace('+', "\n");
        let removed_pos = [(15, None)];
        assert_eq!(
            chiritori::code::formatter::format(&content, &removed_pos, &strategy, &[]),
            //12345678901234567890123456789012345678901234567
            "    hoge++    foo+".replace('+', "\n")
        );

        // RemovePos 31 is unprossed because it conflicts with RemovePos 26
        //
        //                       10        20       30        40
        //             0123456789012345678901234567890123456789012
        //                                       ^    ^
        let content = "+<div>+    +    +    +    +    +</div>".replace('+', "\n");
        let removed_pos = [(26, None), (31, None)];
        assert_eq!(
            chiritori::code::formatter::format(
                &content,
                &removed_pos,
                &[Box::new(PrevLineBreakRemover {}) as Box<dyn Formatter>],
                &[]
            ),
            //123456789012345678901234567890123456789012345
            "+<div>+    +    ++    +</div>".replace('+', "\n")
        );

        //                       10        20
        //             012345678901234567890123
        //                          ^
        let content = "+<div>+hoge++++baz</div>".replace('+', "\n");
        let removed_pos = [(13, None)];
        assert_eq!(
            chiritori::code::formatter::format(
                &content,
                &removed_pos,
                &[
                    Box::new(IndentRemover {}) as Box<dyn Formatter>,
                    Box::new(PrevLineBreakRemover {}),
                ],
                &[]
            ),
            "+<div>+hoge+++baz</div>".replace('+', "\n")
        );
    }

#[test]
fn test_merge_ranges() {
        let mut ranges = vec![1..2, 5..6, 10..15];
        let new_ranges = vec![0..1, 3..4, 9..12];
        merge_ranges(&mut ranges, new_ranges);
        assert_eq!(ranges, vec![0..1, 1..2, 3..4, 5..6, 9..12, 10..15]);
    }

#[test]
fn test_merge_overlapped_ranges() {
        let mut ranges = vec![1..5, 2..6, 8..10, 9..12, 15..18, 20..24];
        merge_overlapped_ranges(&mut ranges);
        assert_eq!(ranges, vec![1..6, 8..12, 15..18, 20..24]);

        let mut ranges = vec![1..2, 3..6, 3..4, 9..10];
        merge_overlapped_ranges(&mut ranges);
        assert_eq!(ranges, vec![1..2, 3..6, 9..10]);

        let mut ranges: Vec<std::ops::Range<usize>> = vec![];
        merge_overlapped_ranges(&mut ranges);
        assert_eq!(ranges, vec![]);
    }

#[test]
fn merge_ranges_puts_nothing_into_an_empty_list() {
    let mut ranges: Vec<std::ops::Range<usize>> = vec![];
    merge_ranges(&mut ranges, vec![3..4]);
    assert_eq!(ranges, vec![]);
}

#[test]
fn merge_ranges_puts_a_range_before_all_others() {
    let mut ranges = vec![5..6, 8..9];
    merge_ranges(&mut ranges, vec![1..2, 3..4, 7..8]);
    assert_eq!(ranges, vec![1..2, 3..4, 5..6, 7..8, 8..9]);
}

#[test]
fn merge_overlapped_ranges_joins_ranges_that_touch() {
    let mut ranges = vec![1..2, 2..3, 4..5];
    merge_overlapped_ranges(&mut ranges);
    assert_eq!(ranges, vec![1..3, 4..5]);
}

#[test]
fn block_indent_remover_test_format() {
        let remover = BlockIndentRemover {};

        //   original       removed       formatted
        // +---------+    +---------+    +---------+
        // | foo+    |    | foo+    |    | foo+    |
        // | <rm>+   |    | +       |    | +       |
        // | if {+   |    | ..fuga+ |    | fuga+   |
        // | ..fuga+ | => | ..piyo+ | => | piyo+   |
        // | ..piyo+ |    | +       |    | +       |
        // | }+      |    | bar     |    | bar     |
        // | </rm>+  |    |         |    |         |
        // | bar     |    |         |    |         |
        // +---------+    +---------+    +---------+
        //
        //                      10        20
        //             012345678901234567890123456
        //             |   ^<>     <>     ^
        let content = "foo++  fuga+  piyo++bar".replace('+', "\n");
        assert_eq!(remover.format(&content, 4, 19), vec![5..7, 12..14]);

        //   original       removed       formatted
        // +----------+    +---------+    +---------+
        // | _foo+    |    | _foo+   |    | _foo+   |
        // | _<rm>+   |    | _+      |    | _+      |
        // | _if {+   |    | __fuga+ |    | _fuga+  |
        // | __fuga+  | => | __piyo+ | => | _piyo+  |
        // | __piyo+  |    | _+      |    | _+      |
        // | _}+      |    | _bar    |    | _bar    |
        // | _</rm>+  |    |         |    |         |
        // | _bar     |    |         |    |         |
        // +----------+    +---------+    +---------+
        //
        //                      10        20
        //             012345678901234567890123456
        //             |     ^ *      *      ^
        let content = "_foo+_+__fuga+__piyo+_+_bar"
            .replace('+', "\n")
            .replace('_', "\t");
        assert_eq!(remover.format(&content, 6, 22), vec![8..9, 15..16]);

        //   original       removed       formatted
        // +---------+    +---------+    +---------+
        // | foo+    |    | foo+    |    | foo+    |
        // | <rm>+   |    | +       |    | +       |
        // | if {+   |    | ..fuga+ |    | fuga+   |
        // | ..fuga+ | => | +       |    | +       |
        // | +       |    | ..piyo+ | => | piyo+   |
        // | ..piyo+ |    | +       |    | +       |
        // | }+      |    | bar     |    | bar     |
        // | </rm>+  |    |         |    |         |
        // | bar+    |    |         |    |         |
        // +---------+    +---------+    +---------+
        //
        //                      10        20
        //             012345678901234567890123456
        //             |   ^<>      <>     ^
        let content = "foo++  fuga++  piyo++bar".replace('+', "\n");
        assert_eq!(remover.format(&content, 4, 20), vec![5..7, 13..15]);

        // If the indentation of the marker is greater than the indentation of the block, it cannot be removed.
        //
        //   original       removed       formatted
        // +---------+    +---------+    +---------+
        // | foo+    |    | foo+    |    | foo+    |
        // | ...<rm>+|    | ...+    |    | ...+    |
        // | if {+   |    | ..fuga+ |    | ..fuga+ |
        // | ..fuga+ | => | +       |    | +       |
        // | +       |    | ..piyo+ | => | piyo+   |
        // | ..piyo+ |    | +       |    | +       |
        // | }+      |    | bar     |    | bar     |
        // | </rm>+  |    |         |    |         |
        // | bar+    |    |         |    |         |
        // +---------+    +---------+    +---------+
        //
        //                      10        20
        //             012345678901234567890123456
        //             |      ^               ^
        let content = "foo+   +  fuga++  piyo++bar".replace('+', "\n");
        assert_eq!(remover.format(&content, 7, 20), vec![]);

        //    original          removed          formatted
        // +------------+    +------------+    +------------+
        // | ...foo+    |    | ...foo+    |    | ...foo+    |
        // | ...<rm>+   |    | ...+       |    | ...+       |
        // | ...if {+   |    | .....fuga+ |    | ...fuga+   |
        // | .....fuga+ | => | ..+        | => | ..+        |
        // | ..+        | => | ...+       | => | ...+       |
        // | ...+       | => | ....+      | => | ...+       |
        // | ....+      | => | .....+     | => | ...+       |
        // | .....+     | => | .....piyo+ | => | ...piyo+   |
        // | .....piyo+ |    | ...+       |    | ...+       |
        // | ...}+      |    | ...bar     |    | ...bar     |
        // | ...</rm>+  |    |            |    |            |
        // | ...bar+    |    |            |    |            |
        // +------------+    +------------+    +------------+
        //
        //                      10        20        30        40        50
        //             012345678901234567890123456789012345678901234567890123456
        //             |      ...^...<>     .. ... ...< ...<>    <>     ...^
        let content = "   foo+   +     fuga+  +   +    +     +     piyo+   +bar".replace('+', "\n");
        assert_eq!(
            remover.format(&content, 10, 52),
            vec![14..16, 31..32, 36..38, 42..44]
        );
    }

#[test]
fn block_indent_remover_gives_nothing_for_cuts_out_of_order() {
    let remover = BlockIndentRemover {};
    let content = "foo++  fuga+  piyo++bar".replace('+', "\n");
    assert_eq!(remover.format(&content, 19, 4), vec![]);
    assert_eq!(remover.format(&content, 4, 4), vec![]);
}

#[test]
fn empty_line_remover_test_format() {
    let remover = EmptyLineRemover {};

        

        //                      10
        //             0123456789012345
        //             |        ^
        let content = "    hoge++  foo".replace('+', "\n");
        assert_eq!(remover.format(&content, 9, 0), (9, 10));

        //                      10
        //             0123456789012345
        //             |         ^
        let content = "    hoge+++  foo".replace('+', "\n");
        assert_eq!(remover.format(&content, 10, 0), (10, 10));

        //                      10
        //             0123456789012345
        //             |        ^
        let content = "    hoge+++  foo".replace('+', "\n");
        assert_eq!(remover.format(&content, 9, 0), (9, 9));

        //                      10
        //             01234567890123456
        //             |         ^
        let content = "    hoge++ +  foo".replace('+', "\n");
        assert_eq!(remover.format(&content, 10, 0), (10, 10));
    
        

        //                      10
        //             0123456789012345
        //             |        ^
        let content = "    hoge++  foo".replace('+', "\n");
        assert_eq!(remover.format(&content, 9, 0), (9, 10));

        //                      10
        //             0123456789012345
        //       (remove marker)^|
        //             |         ^
        let content = "    hoge+++  foo".replace('+', "\n");
        assert_eq!(remover.format(&content, 10, 9), (10, 11));

        //                      10
        //             0123456789012345
        //             |         ^
        let content = "    hoge+++  foo".replace('+', "\n");
        assert_eq!(remover.format(&content, 10, 0), (10, 10));

        //                      10
        //             0123456789012345
        //             |        ^
        let content = "    hoge+++  foo".replace('+', "\n");
        assert_eq!(remover.format(&content, 9, 0), (9, 9));

        //                      10
        //             01234567890123456
        //             |         ^
        let content = "    hoge++ +  foo".replace('+', "\n");
        assert_eq!(remover.format(&content, 10, 0), (10, 10));
    }

#[test]
fn indent_remover_test_format() {
    let remover = IndentRemover {};

        

        // if next char is '\n', remove indent
        //
        //                      10        20        30
        //             0123456789012345678901234567890123
        //             |               ^   ^
        let content = "+<div>+    hoge+    +    foo</div>".replace('+', "\n");
        assert_eq!(remover.format(&content, 20, 0), (16, 20));

        // if next char is '\n', and previous char is not space, do nothing
        //
        //                      10        20        30
        //             0123456789012345678901234567890123
        //             |            ^
        let content = "+<div>+hoge++++baz</div>".replace('+', "\n");
        assert_eq!(remover.format(&content, 13, 0), (13, 13));

        // if next char is not '\n', do nothing
        //
        //                      10
        //             012345678901
        //             |      ^
        let content = "hoge+  a+baz".replace('+', "\n");
        assert_eq!(remover.format(&content, 7, 0), (7, 7));

        // if next char is not '\n', do nothing
        //
        //                      10
        //             012345678901
        //             | ^
        let content = "  +baz".replace('+', "\n");
        assert_eq!(remover.format(&content, 2, 0), (2, 2));

        // if char boundary is invalid, do nothing
        //
        //                      10       20        30
        //             0123456789.2345678901234567890123
        //             |         ^
        let content = "+<div>+  あ  +    +    foo</div>".replace('+', "\n");
        assert_eq!(remover.format(&content, 10, 0), (10, 10));

        let content = "".to_string();
        assert_eq!(remover.format(&content, 0, 0), (0, 0));

        let content = "\n".to_string();
        assert_eq!(remover.format(&content, 0, 0), (0, 0));
    
        

        // if next char is '\n', remove indent
        //
        //                      10        20        30
        //             0123456789012345678901234567890123
        //             |               ^   ^
        let content = "+<div>+    hoge+    +    foo</div>".replace('+', "\n");
        assert_eq!(remover.format(&content, 20, 0), (16, 20));

        //                      10        20        30
        //             0123456789012345678901234567890123
        //             |  (remove marker)^ ^
        let content = "+<div>+    hoge+    +    foo</div>".replace('+', "\n");
        assert_eq!(remover.format(&content, 20, 18), (20, 20));

        // if next char is '\n', and previous char is not space, do nothing
        //
        //                      10        20        30
        //             0123456789012345678901234567890123
        //             |            ^
        let content = "+<div>+hoge++++baz</div>".replace('+', "\n");
        assert_eq!(remover.format(&content, 13, 0), (13, 13));

        // if next char is not '\n', do nothing
        //
        //                      10
        //             012345678901
        //             |      ^
        let content = "hoge+  a+baz".replace('+', "\n");
        assert_eq!(remover.format(&content, 7, 0), (7, 7));

        // if next char is not '\n', do nothing
        //
        //                      10
        //             012345678901
        //             | ^
        let content = "  +baz".replace('+', "\n");
        assert_eq!(remover.format(&content, 2, 0), (2, 2));

        // if char boundary is invalid, do nothing
        //
        //                      10       20        30
        //             0123456789.2345678901234567890123
        //             |         ^
        let content = "+<div>+  „ÅÇ  +    +    foo</div>".replace('+', "\n");
        assert_eq!(remover.format(&content, 10, 0), (10, 10));

        let content = "".to_string();
        assert_eq!(remover.format(&content, 0, 0), (0, 0));

        let content = "\n".to_string();
        assert_eq!(remover.format(&content, 0, 0), (0, 0));
    }

#[test]
fn indent_remover_takes_tabs_too() {
    let remover = IndentRemover {};
    let content = "foo+_ _+bar".replace('+', "\n").replace('_', "\t");
    assert_eq!(remover.format(&content, 7, 0), (4, 7));
}

#[test]
fn next_line_break_remover_test_format() {
    let remover = NextLineBreakRemover {};

        

        //                      10        20
        //             012345678901234567890123456
        //             |            ^  ^
        let content = "    hoge+    +  +    foo</div>".replace('+', "\n");
        assert_eq!(remover.format(&content, 13, 0), (13, 16));

        //                      10        20
        //             012345678901234567890123456
        //             |            ^
        let content = "    hoge+      +    +    foo</div>".replace('+', "\n");
        assert_eq!(remover.format(&content, 13, 0), (13, 20));

        //                      10        20
        //             012345678901234567890123456
        //             |            ^
        let content = "    hoge+    +    foo</div>".replace('+', "\n");
        assert_eq!(remover.format(&content, 13, 0), (13, 13));

        //                      10
        //             01234567890123456
        //             |            ^
        let content = "    hoge+    +  ".replace('+', "\n");
        assert_eq!(remover.format(&content, 13, 0), (13, 13));

        //                      10        20
        //             012345678901234567890123456
        //             |            ^
        let content = "    hoge+    ++++    foo</div>".replace('+', "\n");
        assert_eq!(remover.format(&content, 13, 0), (13, 14));

        //                      10
        //             01234567890123
        //             |  ^
        let content = "aaaabaz</div>".replace('+', "\n");
        assert_eq!(remover.format(&content, 3, 0), (3, 3));

        //                     10
        //             012345.890123
        //             |     ^
        let content = "aaa+ あ</div>".replace('+', "\n");
        assert_eq!(remover.format(&content, 7, 0), (7, 7));

        let content = "".to_string();
        assert_eq!(remover.format(&content, 0, 0), (0, 0));

        let content = "\n".to_string();
        assert_eq!(remover.format(&content, 0, 0), (0, 0));
    
        

        //                      10        20
        //             012345678901234567890123456
        //             |            ^  ^
        let content = "    hoge+    +  +    foo</div>".replace('+', "\n");
        assert_eq!(remover.format(&content, 13, 0), (13, 16));

        //                      10        20
        //             012345678901234567890123456
        //             |            ^
        let content = "    hoge+      +    +    foo</div>".replace('+', "\n");
        assert_eq!(remover.format(&content, 13, 0), (13, 20));

        //                      10        20
        //             012345678901234567890123456
        //             |            ^
        let content = "    hoge+    +    foo</div>".replace('+', "\n");
        assert_eq!(remover.format(&content, 13, 0), (13, 13));

        //                      10
        //             01234567890123456
        //             |            ^
        let content = "    hoge+    +  ".replace('+', "\n");
        assert_eq!(remover.format(&content, 13, 0), (13, 13));

        //                      10        20
        //             012345678901234567890123456
        //             |            ^
        let content = "    hoge+    ++++    foo</div>".replace('+', "\n");
        assert_eq!(remover.format(&content, 13, 0), (13, 14));

        //                      10
        //             01234567890123
        //             |  ^
        let content = "aaaabaz</div>".replace('+', "\n");
        assert_eq!(remover.format(&content, 3, 0), (3, 3));

        //                     10
        //             012345.890123
        //             |     ^
        let content = "aaa+ „ÅÇ</div>".replace('+', "\n");
        assert_eq!(remover.format(&content, 7, 0), (7, 7));

        let content = "".to_string();
        assert_eq!(remover.format(&content, 0, 0), (0, 0));

        let content = "\n".to_string();
        assert_eq!(remover.format(&content, 0, 0), (0, 0));
    }

#[test]
fn prev_line_break_remover_test_format() {
        let remover = PrevLineBreakRemover {};

        //                      10        20
        //             012345678901234567890123456
        //             |             ^
        let content = "    hoge++    +    foo</div>".replace('+', "\n");
        assert_eq!(remover.format(&content, 14, 0), (9, 14));

        //                      10        20
        //             012345678901234567890123456
        //             |            ^
        let content = "    hoge+    +    foo</div>".replace('+', "\n");
        assert_eq!(remover.format(&content, 13, 0), (13, 13));

        //                      10        20
        //             012345678901234567890123456
        //             |            ^
        let content = "    hoge+  x +    foo</div>".replace('+', "\n");
        let remover = PrevLineBreakRemover {};
        assert_eq!(remover.format(&content, 13, 0), (13, 13));

        //                      10        20
        //             0123456789012345678901234567
        //             |             ^
        let content = "    hoge +    +    foo</div>".replace('+', "\n");
        assert_eq!(remover.format(&content, 14, 0), (14, 14));

        //                      10        20
        //             0123456789012345678901234567
        //             |            ^
        let content = "    hoge +    +    foo</div>".replace('+', "\n");
        assert_eq!(remover.format(&content, 13, 0), (13, 13));

        //                      10
        //             012345678901234567
        //             |      ^
        let content = "+hoge++++baz</div>".replace('+', "\n");
        assert_eq!(remover.format(&content, 7, 0), (6, 7));

        //                      10
        //             01234567890123
        //             |  ^
        let content = "+++++baz</div>".replace('+', "\n");
        assert_eq!(remover.format(&content, 3, 0), (2, 3));

        //                      10
        //             01234567890123
        //             |  ^
        let content = "aaaabaz</div>".replace('+', "\n");
        assert_eq!(remover.format(&content, 3, 0), (3, 3));

        //                     10
        //             012345.890123
        //             |     ^
        let content = "aaa+ „ÅÇ</div>".replace('+', "\n");
        assert_eq!(remover.format(&content, 7, 0), (7, 7));

        let content = "\n".to_string();
        assert_eq!(remover.format(&content, 0, 0), (0, 0));
    }

#[test]
fn format_collapses_two_blank_lines_into_one() {
    let strategy: Vec<Box<dyn Formatter>> = vec![
        Box::new(IndentRemover {}),
        Box::new(EmptyLineRemover {}),
        Box::new(PrevLineBreakRemover {}),
        Box::new(NextLineBreakRemover {}),
    ];
    // a blank line, the line that a directive has left empty, a blank line
    let content = "a++++b".replace('+', "\n");
    assert_eq!(
        chiritori::code::formatter::format(&content, &[(3, None)], &strategy, &[]),
        "a++b".replace('+', "\n")
    );
    // the same with blanks on the lines
    let content = "a+ +  + +b".replace('+', "\n");
    assert_eq!(
        chiritori::code::formatter::format(&content, &[(6, None)], &strategy, &[]),
        "a++b".replace('+', "\n")
    );
    // a line left empty between two lines of text goes without a trace
    let content = "a++b".replace('+', "\n");
    assert_eq!(
        chiritori::code::formatter::format(&content, &[(2, None)], &strategy, &[]),
        "a+b".replace('+', "\n")
    );
}

#[test]
fn format_without_cuts_changes_nothing() {
    let strategy: Vec<Box<dyn Formatter>> = vec![Box::new(IndentRemover {}), Box::new(EmptyLineRemover {})];
    let blocks: Vec<Box<dyn BlockFormatter>> = vec![Box::new(BlockIndentRemover {})];
    let content = "  a+  +  ++b あ+".replace('+', "\n");
    assert_eq!(chiritori::code::formatter::format(&content, &[], &strategy, &blocks), content);
}

#[test]
fn format_unwraps_a_block() {
    let strategy: Vec<Box<dyn Formatter>> = vec![
        Box::new(IndentRemover {}),
        Box::new(EmptyLineRemover {}),
        Box::new(PrevLineBreakRemover {}),
        Box::new(NextLineBreakRemover {}),
    ];
    let blocks: Vec<Box<dyn BlockFormatter>> = vec![Box::new(BlockIndentRemover {})];
    let content = "foo++  fuga+  piyo++bar".replace('+', "\n");
    assert_eq!(
        chiritori::code::formatter::format(&content, &[(4, Some(1)), (19, Some(0))], &strategy, &blocks),
        "foo+fuga+piyo+bar".replace('+', "\n")
    );
}

#[test]
fn the_line_break_rules_delete_nothing_inside_a_character() {
    let content = "a\n\nあ\n\nb";
    assert_eq!(NextLineBreakRemover {}.format(content, 4, 0), (4, 4));
    assert_eq!(NextLineBreakRemover {}.format(content, 5, 0), (5, 5));
    assert_eq!(NextLineBreakRemover {}.format(content, 6, 0), (6, 7));
    assert_eq!(PrevLineBreakRemover {}.format(content, 4, 0), (4, 4));
    assert_eq!(PrevLineBreakRemover {}.format(content, 3, 0), (2, 3));
    assert_eq!(NextLineBreakRemover {}.format(content, 40, 0), (40, 40));
    assert_eq!(PrevLineBreakRemover {}.format(content, 40, 0), (40, 40));
    assert_eq!(IndentRemover {}.format(content, 40, 0), (40, 40));
    assert_eq!(EmptyLineRemover {}.format(content, 40, 0), (40, 40));
}
