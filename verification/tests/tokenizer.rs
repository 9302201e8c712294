use chiritori::tokenizer::{tokenize, ElementToken, Token, TokenKind};

#[test]
fn test_tokenize() {
        let default_element = ElementToken {
            delimiter_start: "[",
            delimiter_end: "]",
        };
        assert_eq!(
            tokenize("r", "[", "]"),
            vec![Token {
                value: "r",
                kind: TokenKind::Text,
                start: 0,
                byte_start: 0,
                end: 1,
                byte_end: 1
            }]
        );
        assert_eq!(
            tokenize("[r]", "[", "]"),
            vec![Token {
                value: "[r]",
                kind: TokenKind::Element(default_element.clone()),
                start: 0,
                byte_start: 0,
                end: 3,
                byte_end: 3
            }]
        );
        assert_eq!(
            tokenize("[r]", "[", "]"),
            vec![Token {
                value: "[r]",
                kind: TokenKind::Element(default_element.clone()),
                start: 0,
                byte_start: 0,
                end: 3,
                byte_end: 3
            }]
        );
        assert_eq!(
            tokenize("aaa[r]g", "[", "]"),
            vec![
                Token {
                    value: "aaa",
                    kind: TokenKind::Text,
                    start: 0,
                    byte_start: 0,
                    end: 3,
                    byte_end: 3
                },
                Token {
                    value: "[r]",
                    kind: TokenKind::Element(default_element.clone()),
                    start: 3,
                    byte_start: 3,
                    end: 6,
                    byte_end: 6
                },
                Token {
                    value: "g",
                    kind: TokenKind::Text,
                    start: 6,
                    byte_start: 6,
                    end: 7,
                    byte_end: 7
                }
            ]
        );
        assert_eq!(
            tokenize("[r]g", "[", "]"),
            vec![
                Token {
                    value: "[r]",
                    kind: TokenKind::Element(default_element.clone()),
                    start: 0,
                    byte_start: 0,
                    end: 3,
                    byte_end: 3
                },
                Token {
                    value: "g",
                    kind: TokenKind::Text,
                    start: 3,
                    byte_start: 3,
                    end: 4,
                    byte_end: 4
                }
            ]
        );
        assert_eq!(
            tokenize("[r]g[r]", "[", "]"),
            vec![
                Token {
                    value: "[r]",
                    kind: TokenKind::Element(default_element.clone()),
                    start: 0,
                    byte_start: 0,
                    end: 3,
                    byte_end: 3
                },
                Token {
                    value: "g",
                    kind: TokenKind::Text,
                    start: 3,
                    byte_start: 3,
                    end: 4,
                    byte_end: 4
                },
                Token {
                    value: "[r]",
                    kind: TokenKind::Element(default_element.clone()),
                    start: 4,
                    byte_start: 4,
                    end: 7,
                    byte_end: 7
                }
            ]
        );
        assert_eq!(
            tokenize("[r][r]", "[", "]"),
            vec![
                Token {
                    value: "[r]",
                    kind: TokenKind::Element(default_element.clone()),
                    start: 0,
                    byte_start: 0,
                    end: 3,
                    byte_end: 3
                },
                Token {
                    value: "[r]",
                    kind: TokenKind::Element(default_element.clone()),
                    start: 3,
                    byte_start: 3,
                    end: 6,
                    byte_end: 6
                }
            ]
        );
        assert_eq!(
            tokenize("[r]こんにちは[r]b", "[", "]"),
            vec![
                Token {
                    value: "[r]",
                    kind: TokenKind::Element(default_element.clone()),
                    start: 0,
                    byte_start: 0,
                    end: 3,
                    byte_end: 3
                },
                Token {
                    value: "こんにちは",
                    kind: TokenKind::Text,
                    start: 3,
                    byte_start: 3,
                    end: 8,
                    byte_end: 18
                },
                Token {
                    value: "[r]",
                    kind: TokenKind::Element(default_element.clone()),
                    start: 8,
                    byte_start: 18,
                    end: 11,
                    byte_end: 21
                },
                Token {
                    value: "b",
                    kind: TokenKind::Text,
                    start: 11,
                    byte_start: 21,
                    end: 12,
                    byte_end: 22
                }
            ]
        );
        assert_eq!(
            tokenize("r[g", "[", "]"),
            vec![Token {
                value: "r[g",
                kind: TokenKind::Text,
                start: 0,
                byte_start: 0,
                end: 3,
                byte_end: 3
            }]
        );
        assert_eq!(
            tokenize(&"<!--r-->gb", "<!--", "-->"),
            vec![
                Token {
                    value: "<!--r-->",
                    kind: TokenKind::Element(ElementToken {
                        delimiter_start: "<!--",
                        delimiter_end: "-->"
                    }),
                    start: 0,
                    byte_start: 0,
                    end: 8,
                    byte_end: 8
                },
                Token {
                    value: "gb",
                    kind: TokenKind::Text,
                    start: 8,
                    byte_start: 8,
                    end: 10,
                    byte_end: 10
                }
            ]
        );
        assert_eq!(
            tokenize("foo<div><!--r-->gb", "<!--", "-->"),
            vec![
                Token {
                    value: "foo<div>",
                    kind: TokenKind::Text,
                    start: 0,
                    byte_start: 0,
                    end: 8,
                    byte_end: 8
                },
                Token {
                    value: "<!--r-->",
                    kind: TokenKind::Element(ElementToken {
                        delimiter_start: "<!--",
                        delimiter_end: "-->"
                    }),
                    start: 8,
                    byte_start: 8,
                    end: 16,
                    byte_end: 16
                },
                Token {
                    value: "gb",
                    kind: TokenKind::Text,
                    start: 16,
                    byte_start: 16,
                    end: 18,
                    byte_end: 18
                }
            ]
        );
    }

#[test]
fn tokenize_empty_input_gives_no_token() {
    assert_eq!(tokenize("", "<", ">"), vec![]);
}

#[test]
fn tokenize_counts_bytes_of_a_last_character_of_several_bytes() {
    assert_eq!(
        tokenize("[r]あ", "[", "]"),
        vec![
            Token {
                value: "[r]",
                kind: TokenKind::Element(ElementToken { delimiter_start: "[", delimiter_end: "]" }),
                start: 0,
                byte_start: 0,
                end: 3,
                byte_end: 3
            },
            Token { value: "あ", kind: TokenKind::Text, start: 3, byte_start: 3, end: 4, byte_end: 6 },
        ]
    );
}

#[test]
fn tokenize_delimiter_at_the_end_without_its_close_is_text() {
    assert_eq!(
        tokenize("ab<!--", "<!--", "-->"),
        vec![Token { value: "ab<!--", kind: TokenKind::Text, start: 0, byte_start: 0, end: 6, byte_end: 6 }]
    );
}

#[test]
fn tokenize_tiles_the_text() {
    let source = "x<a>é<b y='1'>z</b>w</a>\n<c";
    let tokens = tokenize(source, "<", ">");
    let mut at = 0;
    for token in tokens.iter() {
        assert_eq!(token.byte_start, at);
        assert!(token.byte_start < token.byte_end);
        assert_eq!(token.value, &source[token.byte_start..token.byte_end]);
        at = token.byte_end;
    }
    assert_eq!(at, source.len());
}

#[test]
fn tokenize_counts_characters_and_joins_text() {
    let source = "é<<a>ö<b>ü-<";
    let tokens = tokenize(source, "<", ">");
    for token in tokens.iter() {
        assert_eq!(token.start, source[..token.byte_start].chars().count());
        assert_eq!(token.end, source[..token.byte_end].chars().count());
    }
    for pair in tokens.windows(2) {
        assert!(!(pair[0].kind == TokenKind::Text && pair[1].kind == TokenKind::Text));
    }
    let values: Vec<&str> = tokens.iter().map(|t| t.value).collect();
    assert_eq!(values, vec!["é", "<<a>", "ö", "<b>", "ü-<"]);
}

#[test]
fn tokenize_matches_delimiters_of_several_bytes() {
    let tokens = tokenize("a「b」c「d", "「", "」");
    let values: Vec<&str> = tokens.iter().map(|t| t.value).collect();
    assert_eq!(values, vec!["a", "「b」", "c「d"]);
    assert_eq!(tokens[1].kind, TokenKind::Element(ElementToken { delimiter_start: "「", delimiter_end: "」" }));
    assert_eq!((tokens[1].start, tokens[1].end, tokens[1].byte_start, tokens[1].byte_end), (1, 4, 1, 8));
}

#[test]
fn tokenize_takes_the_byte_behind_the_opening_delimiter_unseen() {
    // the closing delimiter right behind the opening one does not close
    let tokens = tokenize("<>a>", "<", ">");
    let values: Vec<&str> = tokens.iter().map(|t| t.value).collect();
    assert_eq!(values, vec!["<>a>"]);
    assert_eq!(tokens[0].kind, TokenKind::Element(ElementToken { delimiter_start: "<", delimiter_end: ">" }));
    let tokens = tokenize("<>", "<", ">");
    assert_eq!(tokens.len(), 1);
    assert_eq!(tokens[0].kind, TokenKind::Text);
}
