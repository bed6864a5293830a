use markdown_rs::ast::{
    AstError, Blockquote, Break, Content, Document, Emphasis, Heading, List, ListItem, Node,
    Paragraph, Parent, Strong, Table, TableCell, TableRow, Text, ThematicBreak, Visitor,
};

fn text(value: &str) -> Text {
    Text {
        value: value.to_string(),
    }
}

#[test]
fn typed_children_are_added_in_order() {
    let mut heading = Heading::new(2);
    assert_eq!(heading.add_child(text("a")), Ok(()));
    assert_eq!(heading.add_child(Emphasis { children: vec![] }), Ok(()));
    assert_eq!(heading.add_child(Break {}), Ok(()));
    assert_eq!(
        heading,
        Heading {
            depth: 2,
            children: vec![
                Node::Text(text("a")),
                Node::Emphasis(Emphasis { children: vec![] }),
                Node::Break(Break {}),
            ]
        }
    );
    let seen: Vec<&Node> = Parent::<Text>::iter(&heading).iter().collect();
    assert_eq!(seen.len(), 3);
    assert_eq!(seen[0], &Node::Text(text("a")));
    assert_eq!(seen[2], &Node::Break(Break {}));
}

#[test]
fn children_are_removed_by_index() {
    let mut list = List { children: vec![] };
    assert_eq!(list.add_child(ListItem { children: vec![] }), Ok(()));
    assert_eq!(
        list.add_child(ListItem {
            children: vec![Node::ThematicBreak(ThematicBreak {})]
        }),
        Ok(())
    );
    let removed = Parent::<ListItem>::remove_at(&mut list, 0);
    assert_eq!(removed, Node::ListItem(ListItem { children: vec![] }));
    assert_eq!(
        list.children,
        vec![Node::ListItem(ListItem {
            children: vec![Node::ThematicBreak(ThematicBreak {})]
        })]
    );
}

#[test]
fn a_child_of_the_wrong_kind_is_refused() {
    let mut heading = Heading::new(1);
    assert_eq!(
        heading.add_child_node(Node::ThematicBreak(ThematicBreak {})),
        Err(AstError::ContentMismatch)
    );
    assert_eq!(heading, Heading::new(1));
    assert_eq!(heading.add_child_node(Node::Text(text("a"))), Ok(()));
    assert_eq!(heading.children, vec![Node::Text(text("a"))]);

    let mut document = Node::Document(Document::default());
    assert_eq!(
        document.add_child_node(Node::Text(text("a"))),
        Err(AstError::ContentMismatch)
    );
    assert_eq!(document, Node::Document(Document { children: vec![] }));
    assert_eq!(
        document.add_child_node(Node::Paragraph(Paragraph { children: vec![] })),
        Ok(())
    );
    assert_eq!(
        document,
        Node::Document(Document {
            children: vec![Node::Paragraph(Paragraph::default())]
        })
    );

    // A literal takes no child at all.
    let mut literal = Node::Text(text("a"));
    assert_eq!(
        literal.add_child_node(Node::Text(text("b"))),
        Err(AstError::ContentMismatch)
    );
    assert_eq!(literal, Node::Text(text("a")));
}

#[test]
fn every_parent_takes_its_own_kind_of_children() {
    let row = Node::TableRow(TableRow { children: vec![] });
    let cell = Node::TableCell(TableCell { children: vec![] });
    let item = Node::ListItem(ListItem { children: vec![] });
    let quote = Node::Blockquote(Blockquote { children: vec![] });
    let table = Node::Table(Table {
        children: vec![],
        align: vec![],
    });
    assert!(table.accepts(&row));
    assert!(!table.accepts(&cell));
    assert!(row.accepts(&cell));
    assert!(!row.accepts(&row));
    assert!(cell.accepts(&Node::Text(text("a"))));
    assert!(!cell.accepts(&quote));
    assert!(quote.accepts(&table));
    assert!(quote.accepts(&quote));
    assert!(!quote.accepts(&item));
    assert!(item.accepts(&quote));
    assert_eq!(item.content(), Some(Content::List));
    assert_eq!(item.child_content(), Some(Content::Flow));
    assert_eq!(row.content(), Some(Content::Table));
    assert_eq!(row.child_content(), Some(Content::Row));
    assert_eq!(Node::Document(Document::default()).content(), None);
    assert_eq!(Node::Text(text("a")).child_content(), None);
    assert_eq!(Node::Text(text("a")).content(), Some(Content::Phrasing));
}

struct Counter {
    headings: usize,
    texts: Vec<String>,
}

impl Visitor for Counter {
    fn visit_heading(&mut self, node: &Heading) {
        self.headings += node.depth;
    }

    fn visit_text(&mut self, node: &Text) {
        self.texts.push(node.value.clone());
    }
}

#[test]
fn accept_calls_the_method_for_the_kind_of_the_node() {
    let mut counter = Counter {
        headings: 0,
        texts: vec![],
    };
    Node::Heading(Heading::new(3)).accept(&mut counter);
    Node::Text(text("a")).accept(&mut counter);
    Node::Strong(Strong {
        children: vec![Node::Text(text("b"))],
    })
    .accept(&mut counter);
    Node::Heading(Heading::new(2)).accept(&mut counter);
    assert_eq!(counter.headings, 5);
    assert_eq!(counter.texts, vec!["a".to_string()]);
}

#[test]
fn a_copy_is_the_same_tree() {
    let tree = Node::Blockquote(Blockquote {
        children: vec![
            Node::Heading(Heading {
                depth: 4,
                children: vec![Node::Text(text("a"))],
            }),
            Node::Table(Table {
                children: vec![Node::TableRow(TableRow {
                    children: vec![Node::TableCell(TableCell { children: vec![] })],
                })],
                align: vec![markdown_rs::ast::AlignType::Center],
            }),
        ],
    });
    assert_eq!(tree.clone(), tree);
    assert_eq!(Heading::new(5).clone(), Heading::new(5));
}

#[test]
fn errors_say_what_went_wrong() {
    assert_eq!(
        AstError::ContentMismatch.message(),
        "the parent does not take children of this kind"
    );
    assert_eq!(
        markdown_rs::parser::ParserError::from(AstError::ContentMismatch).message(),
        "mdast error the parent does not take children of this kind"
    );
    assert_eq!(
        markdown_rs::parser::ParserError::from(AstError::ContentMismatch),
        markdown_rs::parser::ParserError::AstError(AstError::ContentMismatch)
    );
}
