use chiritori::element_parser::{parse, parse_target, Attribute, Element};
use chiritori::tokenizer::{tokenize, ElementToken, Token, TokenKind};

#[test]
fn element_parser_test_parse() {
        let token = Token {
            kind: TokenKind::Element(ElementToken {
                delimiter_start: "<!--",
                delimiter_end: "-->",
            }),
            value: "<!-- hello-world -->",
            start: 0,
            byte_start: 0,
            end: 17,
            byte_end: 18,
        };

        assert_eq!(
            parse(&token),
            Some(Element {
                name: "hello-world",
                attrs: vec![],
            })
        );

        let token = Token {
            kind: TokenKind::Element(ElementToken {
                delimiter_start: "<!--",
                delimiter_end: "-->",
            }),
            value: "<!-- hello-world from=\"2022-01-01 00:00:00\" to='123' -->",
            start: 0,
            byte_start: 0,
            end: 47,
            byte_end: 48,
        };

        assert_eq!(
            parse(&token),
            Some(Element {
                name: "hello-world",
                attrs: vec![
                    Attribute {
                        name: "from",
                        value: Some("2022-01-01 00:00:00")
                    },
                    Attribute {
                        name: "to",
                        value: Some("123")
                    }
                ],
            })
        );

        let tokens = tokenize(r#"<foo bar>"#, "<", ">");
        assert_eq!(
            parse(&tokens[0]),
            Some(Element {
                name: "foo",
                attrs: vec![
                    Attribute {
                        name: "bar",
                        value: None
                    }
                ],
            })
        );

        let tokens = tokenize("<foo", "<", ">");
        assert_eq!(parse(&tokens[0]), None);

        let tokens = tokenize("foo", "<", ">");
        assert_eq!(parse(&tokens[0]), None);

        let tokens = tokenize("<foo=><bar<><bar>", "<", ">");
        assert_eq!(
            parse(&tokens[0]),
            Some(Element {
                name: "foo",
                attrs: vec![]
            })
        );
        assert_eq!(
            parse(&tokens[1]),
            Some(Element {
                name: "bar<",
                attrs: vec![]
            })
        );
        assert_eq!(
            parse(&tokens[2]),
            Some(Element {
                name: "bar",
                attrs: vec![]
            })
        );

        let tokens = tokenize("<foo bar='baz>", "<", ">");
        assert_eq!(
            parse(&tokens[0]),
            Some(Element {
                name: "foo",
                attrs: vec![Attribute {
                    name: "bar",
                    value: None
                }],
            })
        );

        let tokens = tokenize("<foo bar=123>", "<", ">");
        assert_eq!(
            parse(&tokens[0]),
            Some(Element {
                name: "foo",
                attrs: vec![Attribute {
                    name: "bar",
                    value: Some("123")
                }],
            })
        );

        let tokens = tokenize("<foo bar=123 baz='456'>", "<", ">");
        assert_eq!(
            parse(&tokens[0]),
            Some(Element {
                name: "foo",
                attrs: vec![
                    Attribute {
                        name: "bar",
                        value: Some("123")
                    },
                    Attribute {
                        name: "baz",
                        value: Some("456")
                    }
                ],
            })
        );
    }

#[test]
fn parse_gives_nothing_where_a_name_is_due_and_a_quote_stands() {
    let tokens = tokenize("<'foo'>", "<", ">");
    assert_eq!(parse(&tokens[0]), None);
    let tokens = tokenize("<foo a='1'\"bar\">", "<", ">");
    assert_eq!(parse(&tokens[0]), None);
    let tokens = tokenize("<foo \"bar\">", "<", ">");
    assert_eq!(
        parse(&tokens[0]),
        Some(Element { name: "foo", attrs: vec![Attribute { name: "\"bar\"", value: None }] })
    );
    let tokens = tokenize("<foo bar='1' =>", "<", ">");
    assert_eq!(parse(&tokens[0]), None);
}

#[test]
fn parse_gives_nothing_for_a_tag_without_a_name() {
    let tokens = tokenize("< >", "<", ">");
    assert_eq!(tokens.len(), 1);
    assert_eq!(parse(&tokens[0]), None);
}

#[test]
fn parse_target_keeps_blanks_inside_quotes() {
    assert_eq!(
        parse_target(" tl to=\"2000-01-01 00:00:00\"  skip "),
        Some(Element {
            name: "tl",
            attrs: vec![
                Attribute { name: "to", value: Some("2000-01-01 00:00:00") },
                Attribute { name: "skip", value: None }
            ],
        })
    );
}

#[test]
fn attribute_finds_the_first_of_a_name() {
    let el = parse_target("a b='1' c b='2'").unwrap();
    assert_eq!(el.attribute("b"), Some(Attribute { name: "b", value: Some("1") }));
    assert_eq!(el.attribute("c"), Some(Attribute { name: "c", value: None }));
    assert_eq!(el.attribute("d"), None);
}

#[test]
fn parse_reads_names_and_values_of_several_bytes() {
    let tokens = tokenize("「指令 名前='値 です' 旗」", "「", "」");
    assert_eq!(
        parse(&tokens[0]),
        Some(Element {
            name: "指令",
            attrs: vec![
                Attribute { name: "名前", value: Some("値 です") },
                Attribute { name: "旗", value: None }
            ],
        })
    );
}

#[test]
fn parse_takes_off_every_copy_of_a_delimiter() {
    let token = Token {
        kind: TokenKind::Element(ElementToken { delimiter_start: "<", delimiter_end: ">" }),
        value: "<<<a b>>",
        start: 0,
        byte_start: 0,
        end: 8,
        byte_end: 8,
    };
    assert_eq!(parse(&token), Some(Element { name: "a", attrs: vec![Attribute { name: "b", value: None }] }));
}

#[test]
fn parse_ends_a_bare_value_at_a_space_or_with_the_tag() {
    assert_eq!(
        parse_target("a b=1 c=two  d = x=y e=\"f g\" h=i'j"),
        Some(Element {
            name: "a",
            attrs: vec![
                Attribute { name: "b", value: Some("1") },
                Attribute { name: "c", value: Some("two") },
                Attribute { name: "d", value: Some("x=y") },
                Attribute { name: "e", value: Some("f g") },
                Attribute { name: "h", value: Some("i'j") }
            ],
        })
    );
    assert_eq!(
        parse_target("a b=値"),
        Some(Element { name: "a", attrs: vec![Attribute { name: "b", value: Some("値") }] })
    );
    assert_eq!(parse_target("a b="), Some(Element { name: "a", attrs: vec![Attribute { name: "b", value: None }] }));
}

#[test]
fn a_date_without_quotes_is_read_up_to_the_space() {
    let el = parse_target("tl to=2000-01-01 00:00:00").unwrap();
    assert_eq!(el.attribute("to"), Some(Attribute { name: "to", value: Some("2000-01-01") }));
    assert_eq!(el.attribute("00:00:00"), Some(Attribute { name: "00:00:00", value: None }));
}
