use markdown_rs::ast::{
    AlignType, Blockquote, Break, Code, Definition, Delete, Document, Emphasis, FootnoteDefinition,
    FootnoteReference, Heading, Image, ImageReference, InlineCode, Link, LinkReference, List,
    ListItem, Node, Paragraph, ReferenceType, Strong, Table, TableCell, TableRow, Text,
    ThematicBreak,
};
use markdown_rs::lexer::Lexer;
use markdown_rs::parser::Parser;

fn parse(md: &str) -> Vec<Node> {
    let mut parser = Parser::new(Lexer::new(md));
    parser.parse().unwrap().children
}

fn text(value: &str) -> Node {
    Node::Text(Text {
        value: value.to_string(),
    })
}

fn paragraph(children: Vec<Node>) -> Node {
    Node::Paragraph(Paragraph { children })
}

#[test]
fn parser_test_heading() {
    let md = "# heading";

    let mut parser: Parser = md.into();

    parser.parse().unwrap();
}

#[test]
fn heading_with_text() {
    let mut parser = Parser::new(Lexer::new("# Heading\n"));
    assert_eq!(
        parser.parse(),
        Ok(Document {
            children: vec![Node::Heading(Heading {
                depth: 1,
                children: vec![text("Heading")]
            })]
        })
    );
}

#[test]
fn heading_depths() {
    let sources = ["#", "##", "###", "####", "#####", "######"];
    for (i, md) in sources.iter().enumerate() {
        assert_eq!(
            parse(md),
            vec![Node::Heading(Heading {
                depth: i + 1,
                children: vec![]
            })]
        );
    }
    assert_eq!(Heading::new(1).depth, 1);
    assert_eq!(
        Heading::new(6),
        Heading {
            depth: 6,
            children: vec![]
        }
    );
    // Seven pounds are no heading, nor are pounds with text right behind.
    assert_eq!(parse("#######"), vec![paragraph(vec![text("#######")])]);
    assert_eq!(parse("#a"), vec![paragraph(vec![text("#a")])]);
}

#[test]
fn thematic_breaks() {
    assert_eq!(
        parse("\n__________\n----------\n***"),
        vec![
            Node::ThematicBreak(ThematicBreak {}),
            Node::ThematicBreak(ThematicBreak {}),
            Node::ThematicBreak(ThematicBreak {}),
        ]
    );
    assert_eq!(parse("--"), vec![paragraph(vec![text("--")])]);
    assert_eq!(parse("*** a"), vec![paragraph(vec![text("*** a")])]);
}

#[test]
fn reference_before_its_definition() {
    assert_eq!(
        parse("[text][id]\n\n[id]: /url \"title\""),
        vec![
            paragraph(vec![Node::LinkReference(LinkReference {
                children: vec![text("text")],
                identifier: "id".to_string(),
                label: Some("id".to_string()),
                reference_type: ReferenceType::Full,
            })]),
            Node::Definition(Definition {
                identifier: "id".to_string(),
                label: Some("id".to_string()),
                url: "/url".to_string(),
                title: Some("title".to_string()),
            }),
        ]
    );
}

#[test]
fn list_of_one_item() {
    assert_eq!(
        parse("* hello"),
        vec![Node::List(List {
            children: vec![Node::ListItem(ListItem {
                children: vec![paragraph(vec![text("hello")])]
            })]
        })]
    );
}

#[test]
fn shortcut_reference_needs_a_definition() {
    assert_eq!(parse("[Foo]"), vec![paragraph(vec![text("[Foo]")])]);
    assert_eq!(
        parse("[Foo  Bar]\n\n[foo bar]: <x>"),
        vec![
            paragraph(vec![Node::LinkReference(LinkReference {
                children: vec![text("Foo  Bar")],
                identifier: "foo bar".to_string(),
                label: Some("Foo  Bar".to_string()),
                reference_type: ReferenceType::Shortcut,
            })]),
            Node::Definition(Definition {
                identifier: "foo bar".to_string(),
                label: Some("foo bar".to_string()),
                url: "<x>".to_string(),
                title: None,
            }),
        ]
    );
}

#[test]
fn collapsed_and_unresolved_references() {
    assert_eq!(
        parse("[A][] and [b][Nowhere]"),
        vec![paragraph(vec![
            Node::LinkReference(LinkReference {
                children: vec![text("A")],
                identifier: "a".to_string(),
                label: Some("A".to_string()),
                reference_type: ReferenceType::Collapsed,
            }),
            text(" and "),
            Node::LinkReference(LinkReference {
                children: vec![text("b")],
                identifier: "nowhere".to_string(),
                label: Some("Nowhere".to_string()),
                reference_type: ReferenceType::Full,
            }),
        ])]
    );
}

#[test]
fn links_and_images() {
    assert_eq!(
        parse("[a *b*](/u \"t\") ![alt](i.png) ![x][y] [^n]"),
        vec![paragraph(vec![
            Node::Link(Link {
                children: vec![
                    text("a "),
                    Node::Emphasis(Emphasis {
                        children: vec![text("b")]
                    })
                ],
                url: "/u".to_string(),
                title: Some("t".to_string()),
            }),
            text(" "),
            Node::Image(Image {
                url: "i.png".to_string(),
                title: None,
                alt: Some("alt".to_string()),
            }),
            text(" "),
            Node::ImageReference(ImageReference {
                identifier: "y".to_string(),
                label: Some("y".to_string()),
                reference_type: ReferenceType::Full,
                alt: Some("x".to_string()),
            }),
            text(" "),
            Node::FootnoteReference(FootnoteReference {
                identifier: "n".to_string(),
                label: Some("n".to_string()),
            }),
        ])]
    );
    assert_eq!(parse("[a](b"), vec![paragraph(vec![text("[a](b")])]);
    assert_eq!(parse("a ] b ["), vec![paragraph(vec![text("a ] b [")])]);
}

#[test]
fn emphasis_strong_and_code() {
    assert_eq!(
        parse("*a* __b__ `c*d` **e *f* g** *h"),
        vec![paragraph(vec![
            Node::Emphasis(Emphasis {
                children: vec![text("a")]
            }),
            text(" "),
            Node::Strong(Strong {
                children: vec![text("b")]
            }),
            text(" "),
            Node::InlineCode(InlineCode {
                value: "c*d".to_string()
            }),
            text(" "),
            Node::Strong(Strong {
                children: vec![
                    text("e "),
                    Node::Emphasis(Emphasis {
                        children: vec![text("f")]
                    }),
                    text(" g"),
                ]
            }),
            text(" *h"),
        ])]
    );
}

#[test]
fn escapes_are_decoded_in_text() {
    assert_eq!(parse("a\\*b\\c"), vec![paragraph(vec![text("a*b\\c")])]);
    assert_eq!(parse("\\*a*"), vec![paragraph(vec![text("*a*")])]);
    assert_eq!(
        parse("\\\\ \\# \\a \\"),
        vec![paragraph(vec![text("\\ # \\a \\")])]
    );
    assert_eq!(parse("\\[a](b)"), vec![paragraph(vec![text("[a](b)")])]);
    assert_eq!(parse("\\**a**"), vec![paragraph(vec![text("**a**")])]);
    assert_eq!(
        parse("\\*a* *b*"),
        vec![paragraph(vec![
            text("*a* "),
            Node::Emphasis(Emphasis {
                children: vec![text("b")]
            }),
        ])]
    );
    // Between two delimiters there is something.
    assert_eq!(parse("a * * b"), vec![paragraph(vec![text("a * * b")])]);
    assert_eq!(parse("~~ ~~"), vec![paragraph(vec![text("~~ ~~")])]);
}

#[test]
fn escaped_pipe_stays_in_its_cell() {
    assert_eq!(
        parse("| a \\| b | c |\n|---|---|"),
        vec![Node::Table(Table {
            children: vec![Node::TableRow(TableRow {
                children: vec![
                    Node::TableCell(TableCell {
                        children: vec![text("a | b")]
                    }),
                    Node::TableCell(TableCell {
                        children: vec![text("c")]
                    }),
                ]
            })],
            align: vec![AlignType::Unaligned, AlignType::Unaligned],
        })]
    );
    assert_eq!(
        parse("a \\| b\n---|---"),
        vec![paragraph(vec![text("a | b ---|---")])]
    );
}

#[test]
fn line_breaks_in_a_paragraph() {
    assert_eq!(
        parse("a\nb  \nc\\\nd \n  e\t\t\ng \t  \nh\n\nf"),
        vec![
            paragraph(vec![
                text("a b"),
                Node::Break(Break {}),
                text("c"),
                Node::Break(Break {}),
                text("d e g"),
                Node::Break(Break {}),
                text("h"),
            ]),
            paragraph(vec![text("f")]),
        ]
    );
}

#[test]
fn fenced_code() {
    assert_eq!(
        parse("```rust no_run\nfn main() {}\n\n# x\n````\nafter"),
        vec![
            Node::Code(Code {
                value: "fn main() {}\n\n# x".to_string(),
                lang: Some("rust".to_string()),
                meta: Some("no_run".to_string()),
            }),
            paragraph(vec![text("after")]),
        ]
    );
    assert_eq!(
        parse("```\r\na\r\n```"),
        vec![Node::Code(Code {
            value: "a".to_string(),
            lang: None,
            meta: None
        })]
    );
    assert_eq!(
        parse("```\n```"),
        vec![Node::Code(Code {
            value: "".to_string(),
            lang: None,
            meta: None
        })]
    );
    assert_eq!(
        parse("```\nopen"),
        vec![Node::Code(Code {
            value: "open".to_string(),
            lang: None,
            meta: None
        })]
    );
}

#[test]
fn block_quote_with_lazy_continuation() {
    assert_eq!(
        parse("> a\nb\n> # c\nd\n\n>e"),
        vec![
            Node::Blockquote(Blockquote {
                children: vec![
                    paragraph(vec![text("a b")]),
                    Node::Heading(Heading {
                        depth: 1,
                        children: vec![text("c")]
                    }),
                ]
            }),
            paragraph(vec![text("d")]),
            Node::Blockquote(Blockquote {
                children: vec![paragraph(vec![text("e")])]
            }),
        ]
    );
    assert_eq!(
        parse("> > a"),
        vec![Node::Blockquote(Blockquote {
            children: vec![Node::Blockquote(Blockquote {
                children: vec![paragraph(vec![text("a")])]
            })]
        })]
    );
}

#[test]
fn lists_nest_and_end() {
    let item = |children: Vec<Node>| Node::ListItem(ListItem { children });
    let list = |children: Vec<Node>| Node::List(List { children });
    assert_eq!(
        parse("- a\n  - b\n\n  c\n- d\n+ e\n1. f\n2) g"),
        vec![
            list(vec![
                item(vec![
                    paragraph(vec![text("a")]),
                    list(vec![item(vec![paragraph(vec![text("b")])])]),
                    paragraph(vec![text("c")]),
                ]),
                item(vec![paragraph(vec![text("d")])]),
            ]),
            list(vec![item(vec![paragraph(vec![text("e")])])]),
            list(vec![item(vec![paragraph(vec![text("f")])])]),
            list(vec![item(vec![paragraph(vec![text("g")])])]),
        ]
    );
    assert_eq!(
        parse("- a\n\n- b\nc"),
        vec![list(vec![
            item(vec![paragraph(vec![text("a")])]),
            item(vec![paragraph(vec![text("b c")])]),
        ])]
    );
}

#[test]
fn empty_and_blank_sources() {
    assert_eq!(parse(""), vec![]);
    assert_eq!(parse("\n \n\t\n"), vec![]);
}

#[test]
fn parser_reads_on_from_where_its_lexer_stands() {
    let mut lexer = Lexer::new("# a\nb");
    lexer.next_token();
    lexer.next_token();
    lexer.next_token();
    lexer.next_token();
    let mut parser = Parser::new(lexer);
    assert_eq!(
        parser.parse(),
        Ok(Document {
            children: vec![paragraph(vec![text("b")])]
        })
    );
    assert_eq!(parser.parse(), Ok(Document { children: vec![] }));
}

#[test]
fn table_with_alignments() {
    let cell = |children: Vec<Node>| Node::TableCell(TableCell { children });
    let row = |children: Vec<Node>| Node::TableRow(TableRow { children });
    assert_eq!(
        parse("| a | *b* | c\n|:--|:-:|--:|---\n| 1 | 2\nx | y | z | w | v\n\nend"),
        vec![
            Node::Table(Table {
                children: vec![
                    row(vec![
                        cell(vec![text("a")]),
                        cell(vec![Node::Emphasis(Emphasis {
                            children: vec![text("b")]
                        })]),
                        cell(vec![text("c")]),
                        cell(vec![]),
                    ]),
                    row(vec![
                        cell(vec![text("1")]),
                        cell(vec![text("2")]),
                        cell(vec![]),
                        cell(vec![])
                    ]),
                    row(vec![
                        cell(vec![text("x")]),
                        cell(vec![text("y")]),
                        cell(vec![text("z")]),
                        cell(vec![text("w")]),
                    ]),
                ],
                align: vec![
                    AlignType::Left,
                    AlignType::Center,
                    AlignType::Right,
                    AlignType::Unaligned,
                ],
            }),
            paragraph(vec![text("end")]),
        ]
    );
}

#[test]
fn line_with_a_pipe_is_text_without_a_delimiter_row() {
    assert_eq!(
        parse("a | b\nc | d"),
        vec![paragraph(vec![text("a | b c | d")])]
    );
    assert_eq!(parse("a | b"), vec![paragraph(vec![text("a | b")])]);
}

#[test]
fn deleted_text() {
    assert_eq!(
        parse("~~gone~~ ~~a *b* c~~ ~~open ~"),
        vec![paragraph(vec![
            Node::Delete(Delete {
                children: vec![text("gone")]
            }),
            text(" "),
            Node::Delete(Delete {
                children: vec![
                    text("a "),
                    Node::Emphasis(Emphasis {
                        children: vec![text("b")]
                    }),
                    text(" c"),
                ]
            }),
            text(" ~~open ~"),
        ])]
    );
}

#[test]
fn footnote_definition_with_indented_lines() {
    assert_eq!(
        parse("[^Note 1]: first\n    second\n\n    > third\nafter[^note   1]"),
        vec![
            Node::FootnoteDefinition(FootnoteDefinition {
                children: vec![
                    paragraph(vec![text("first second")]),
                    Node::Blockquote(Blockquote {
                        children: vec![paragraph(vec![text("third")])]
                    }),
                ],
                identifier: "note 1".to_string(),
                label: Some("Note 1".to_string()),
            }),
            paragraph(vec![
                text("after"),
                Node::FootnoteReference(FootnoteReference {
                    identifier: "note 1".to_string(),
                    label: Some("note   1".to_string()),
                }),
            ]),
        ]
    );
}

#[test]
fn definitions_are_found_inside_containers() {
    assert_eq!(
        parse("[a]\n\n> [A]: /x"),
        vec![
            paragraph(vec![Node::LinkReference(LinkReference {
                children: vec![text("a")],
                identifier: "a".to_string(),
                label: Some("a".to_string()),
                reference_type: ReferenceType::Shortcut,
            })]),
            Node::Blockquote(Blockquote {
                children: vec![Node::Definition(Definition {
                    identifier: "a".to_string(),
                    label: Some("A".to_string()),
                    url: "/x".to_string(),
                    title: None,
                })]
            }),
        ]
    );
}

#[test]
fn text_beyond_ascii_is_kept() {
    assert_eq!(
        parse("# Ærø *ß* `→`\n\n- é\n  ü"),
        vec![
            Node::Heading(Heading {
                depth: 1,
                children: vec![
                    text("Ærø "),
                    Node::Emphasis(Emphasis {
                        children: vec![text("ß")]
                    }),
                    text(" "),
                    Node::InlineCode(InlineCode {
                        value: "→".to_string()
                    }),
                ]
            }),
            Node::List(List {
                children: vec![Node::ListItem(ListItem {
                    children: vec![paragraph(vec![text("é ü")])]
                })]
            }),
        ]
    );
}

#[test]
fn blocks_are_handed_out_one_by_one() {
    let mut parser = Parser::new(Lexer::new("\n# a\n\nb\nc\n\n[d]\n"));
    let known = vec!["d".to_string()];
    assert_eq!(
        parser.parse_flow_content(&known),
        Some(Node::Heading(Heading {
            depth: 1,
            children: vec![text("a")]
        }))
    );
    assert_eq!(
        parser.parse_flow_content(&known),
        Some(paragraph(vec![text("b c")]))
    );
    assert_eq!(
        parser.parse_flow_content(&known),
        Some(paragraph(vec![Node::LinkReference(LinkReference {
            children: vec![text("d")],
            identifier: "d".to_string(),
            label: Some("d".to_string()),
            reference_type: ReferenceType::Shortcut,
        })]))
    );
    assert_eq!(parser.parse_flow_content(&known), None);
    assert_eq!(parser.parse_flow_content(&known), None);

    let mut parser = Parser::new(Lexer::new("[d]"));
    assert_eq!(
        parser.parse_document(&vec![]),
        Ok(Document {
            children: vec![paragraph(vec![text("[d]")])]
        })
    );
}
