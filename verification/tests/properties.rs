use markdown_rs::ast::{Content, Node};
use markdown_rs::lexer::{Lexer, Token};
use markdown_rs::parser::Parser;

const SOURCES: [&str; 12] = [
    "",
    "# Heading\n",
    "\n__________\n----------\n***",
    "[text][id]\n\n[id]: /url \"title\"",
    "* hello",
    "a *b **c** d* e\nf  \ng\\\nh `i` [j](k) ![l](m) [n][] [^o] ~~p~~",
    "> quote\nlazy\n> - item\n>   more\n\n1. one\n2. two\n\n   still two\n",
    "| a | b |\n|---|:-:|\n| *c* | d | e |\n| f |\n\ntext | text",
    "```lang meta\ncode\n```\n[^note]: footnote\n    # inside\n",
    "#é ü* \\* \\\\ ::: -- - + ++ _x_ __y__ ___",
    "[x]: y\n[X]\n[z] [x][bad",
    "- a\n\n  b\n+ c\n\t\n> d\r\n> e\r\n\r\nf\rg",
];

fn parse(md: &str) -> Node {
    Node::Document(Parser::new(Lexer::new(md)).parse().unwrap())
}

fn children(node: &Node) -> &[Node] {
    match node.child_nodes() {
        Some(children) => children,
        None => &[],
    }
}

fn check_content_model(node: &Node) {
    if let Node::Heading(heading) = node {
        assert!(1 <= heading.depth && heading.depth <= 6);
    }
    for child in children(node) {
        assert!(node.accepts(child), "{:?} holds {:?}", node, child);
        assert_eq!(child.content(), node.child_content());
        check_content_model(child);
    }
}

fn check_coalesced(node: &Node) {
    let children = children(node);
    for pair in children.windows(2) {
        assert!(!(matches!(pair[0], Node::Text(_)) && matches!(pair[1], Node::Text(_))));
    }
    for child in children {
        if let Node::Text(text) = child {
            assert!(!text.value.is_empty());
        }
        check_coalesced(child);
    }
}

#[test]
fn parsed_trees_keep_the_content_model() {
    for md in SOURCES {
        let tree = parse(md);
        check_content_model(&tree);
        match &tree {
            Node::Document(document) => {
                for child in &document.children {
                    assert_eq!(child.content(), Some(Content::Flow));
                }
            }
            _ => unreachable!(),
        }
    }
}

#[test]
fn parsed_trees_have_no_text_next_to_a_text() {
    for md in SOURCES {
        check_coalesced(&parse(md));
    }
}

#[test]
fn tokens_cover_the_source_without_gaps() {
    for md in SOURCES {
        let mut lexer = Lexer::new(md);
        let mut at = 0;
        loop {
            let token = lexer.next_token();
            let range = token.to_range();
            assert_eq!(range.start, at);
            assert_eq!(lexer.offset(), range.end);
            if let Token::Eof(_) = token {
                assert_eq!(range, md.len()..md.len());
                break;
            }
            assert!(range.start < range.end);
            assert_eq!(lexer.token_as_str(token), &md[range.start..range.end]);
            at = range.end;
        }
    }
}

#[test]
fn text_of_a_plain_token_is_its_span_of_the_source() {
    for md in ["Heading", "a\\*b", "x:y", "é\\[ü\\]"] {
        let mut lexer = Lexer::new(md);
        let token = lexer.next_token();
        assert_eq!(token, Token::PlainText(0..md.len()));
        let slice = lexer.token_as_str(token);
        assert_eq!(slice, md);
        let expected = match md {
            "a\\*b" => "a*b".to_string(),
            "é\\[ü\\]" => "é[ü]".to_string(),
            _ => slice.to_string(),
        };
        match parse(md) {
            Node::Document(document) => match &document.children[..] {
                [Node::Paragraph(paragraph)] => match &paragraph.children[..] {
                    [Node::Text(text)] => assert_eq!(text.value, expected),
                    other => panic!("{:?}", other),
                },
                other => panic!("{:?}", other),
            },
            _ => unreachable!(),
        }
    }
}

#[test]
fn parsing_twice_gives_the_same_tree() {
    for md in SOURCES {
        assert_eq!(parse(md), parse(md));
        let mut parser: Parser = md.into();
        assert_eq!(Node::Document(parser.parse().unwrap()), parse(md));
    }
}
