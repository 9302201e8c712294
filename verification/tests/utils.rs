use chiritori::code::utils::blank_counter::{count, count_tabspace};
use chiritori::code::utils::char_pos_finder::find_next_char_pos;
use chiritori::code::utils::line_break_pos_finder::{find_next_line_break_pos, find_prev_line_break_pos};
use chiritori::code::utils::line_map::{build_line_map, find_line};
use chiritori::code::utils::text::{cut_ranges, slice, str_eq};

#[test]
fn line_break_pos_finder_test_find_next_line_break_pos() {
        //             012345678901234567890123456789
        //                          ^
        let content = "    hoge+    +  +    foo</div>".replace('+', "\n");
        assert_eq!(
            find_next_line_break_pos(&content, content.as_bytes(), 13, true),
            Some(13)
        );

        //             012345678901234567890123456789
        //                         ^^
        let content = "    hoge+    +  +    foo</div>".replace('+', "\n");
        assert_eq!(
            find_next_line_break_pos(&content, content.as_bytes(), 12, true),
            Some(13)
        );

        //             012345678901234567890123456789
        //                            ^^
        let content = "    hoge+    +  +    foo</div>".replace('+', "\n");
        assert_eq!(
            find_next_line_break_pos(&content, content.as_bytes(), 15, true),
            Some(16)
        );

        //             01234567890123.6789012345678901
        //                              ^
        let content = "    hoge+    あ  +    foo</div>".replace('+', "\n");
        assert_eq!(
            find_next_line_break_pos(&content, content.as_bytes(), 14, true),
            Some(18)
        );

        //             012345678901234567890123456789
        //                                    ^
        let content = "    hoge+    +  +    foo</div>".replace('+', "\n");
        assert_eq!(
            find_next_line_break_pos(&content, content.as_bytes(), 23, true),
            None
        );
    }

#[test]
fn test_find_prev_line_break_pos() {
        //             012345678901234567890123456789
        //                     ^    ^
        let content = "    hoge+    +  +    foo</div>".replace('+', "\n");
        assert_eq!(
            find_prev_line_break_pos(&content, content.as_bytes(), 13, true),
            Some(8)
        );

        //             012345678901234567890123456789
        //                          ^^
        let content = "    hoge+    +  +    foo</div>".replace('+', "\n");
        assert_eq!(
            find_prev_line_break_pos(&content, content.as_bytes(), 14, true),
            Some(13)
        );

        //             012345678901234567890123456789
        //                             ^ ^
        let content = "    hoge+    +  +    foo</div>".replace('+', "\n");
        assert_eq!(
            find_prev_line_break_pos(&content, content.as_bytes(), 18, true),
            Some(16)
        );

        //             0123456789012345678.0123456789
        //                             ^
        let content = "    hoge+    +  + あ   foo</div>".replace('+', "\n");
        assert_eq!(
            find_prev_line_break_pos(&content, content.as_bytes(), 19, true),
            None
        );

        //             012345678901234567890123456789
        //                                    ^
        let content = "    hoge+    +  +    foo</div>".replace('+', "\n");
        assert_eq!(
            find_prev_line_break_pos(&content, content.as_bytes(), 23, true),
            None
        );
    }

#[test]
fn find_next_line_break_pos_passes_tabs() {
    let content = "    hoge+ _ _+  +    foo</div>".replace('+', "\n").replace('_', "\t");
    assert_eq!(find_next_line_break_pos(&content, content.as_bytes(), 9, true), Some(13));
}

#[test]
fn find_next_line_break_pos_finds_nothing_from_the_first_byte() {
    let content = "\n\n";
    assert_eq!(find_next_line_break_pos(content, content.as_bytes(), 0, true), None);
    assert_eq!(find_next_line_break_pos(content, content.as_bytes(), 1, true), Some(1));
}

#[test]
fn find_prev_line_break_pos_goes_past_text_when_told() {
    let content = "    hoge+    +  +    foo</div>".replace('+', "\n");
    assert_eq!(find_prev_line_break_pos(&content, content.as_bytes(), 23, false), Some(16));
    assert_eq!(find_prev_line_break_pos(&content, content.as_bytes(), 23, true), None);
    let content = "    hoge             foo</div>";
    assert_eq!(find_prev_line_break_pos(content, content.as_bytes(), 23, true), None);
    assert_eq!(find_prev_line_break_pos(content, content.as_bytes(), 23, false), None);
}

#[test]
fn find_prev_line_break_pos_finds_a_line_break_at_the_first_byte() {
    let content = "\n  x";
    assert_eq!(find_prev_line_break_pos(content, content.as_bytes(), 3, true), Some(0));
    assert_eq!(find_prev_line_break_pos(content, content.as_bytes(), 1, true), Some(0));
    assert_eq!(find_prev_line_break_pos(content, content.as_bytes(), 0, true), None);
    assert_eq!(find_prev_line_break_pos(content, content.as_bytes(), 9, true), None);
}

#[test]
fn char_pos_finder_test_find_next_line_break_pos() {
        //             012345678901234567890123456789
        //             |      ^  ^   
        let content = "   hoge   fuga   piyo".replace('+', "\n");
        assert_eq!(
            find_next_char_pos(&content, content.as_bytes(), 7),
            Some(10)
        );
    }

#[test]
fn find_next_char_pos_stops_at_the_end() {
    let content = "ab   ";
    assert_eq!(find_next_char_pos(content, content.as_bytes(), 2), None);
    assert_eq!(find_next_char_pos(content, content.as_bytes(), 0), None);
    assert_eq!(find_next_char_pos(content, content.as_bytes(), 1), Some(1));
    let content = "a \t\nb";
    assert_eq!(find_next_char_pos(content, content.as_bytes(), 1), Some(3));
}

#[test]
fn test_count() {
    assert_eq!(count(" a b "), 3)
}

#[test]
fn test_count_tabspace() {
    assert_eq!(count_tabspace("\ta \t b\t"), 3)
}

const CONTENT: &str = "abc+def+efg+hijkl+mnopq";

#[test]
fn test_build_line_map() {
    assert_eq!(build_line_map(&CONTENT.replace('+', "\n")), vec![3, 7, 11, 17]);
}

#[test]
fn test_find_line() {
    let mapped = build_line_map(&CONTENT.replace('+', "\n"));
    assert_eq!(find_line(&mapped, 1), 1);
    assert_eq!(find_line(&mapped, 9), 3);
    assert_eq!(find_line(&mapped, 20), 5);
    assert_eq!(find_line(&mapped, 3), 2);
    assert_eq!(find_line(&[], 7), 1);
}

#[test]
fn slice_gives_the_bytes_between() {
    assert_eq!(slice("aあb", 1, 4), "あ");
    assert_eq!(slice("aあb", 0, 0), "");
    assert_eq!(slice("aあb", 4, 5), "b");
}

#[test]
fn str_eq_compares_texts() {
    assert!(str_eq("skip", "skip"));
    assert!(!str_eq("skip", "skipp"));
    assert!(!str_eq("skip", "skit"));
    assert!(str_eq("", ""));
}

#[test]
fn cut_ranges_leaves_the_ranges_out() {
    assert_eq!(cut_ranges("QWERTYUIOP@", &vec![1..3, 5..6, 8..9]), "QRTUIP@");
    assert_eq!(cut_ranges("abc", &vec![]), "abc");
    assert_eq!(cut_ranges("aあb", &vec![1..4]), "ab");
    assert_eq!(cut_ranges("abc", &vec![0..0, 0..3]), "");
}
