use vstd::prelude::*;

verus! {

/// What can go wrong when a tree is built.
#[derive(Clone, Copy, Debug, PartialEq, Eq, Structural)]
pub enum AstError {
    /// The parent does not take children of the kind it was given.
    ContentMismatch,
}

impl AstError {
    /// What went wrong, in words.
    pub open spec fn description(self) -> Seq<char> {
        match self {
            AstError::ContentMismatch => "the parent does not take children of this kind"@,
        }
    }

    /// What went wrong, in words.
    pub fn message(&self) -> (text: String)
        ensures
            text@ == self.description(),
    {
        match self {
            AstError::ContentMismatch => {
                "the parent does not take children of this kind".to_owned()
            },
        }
    }
}

/// The result of an operation on the tree.
pub type AstResult<T> = Result<T, AstError>;

/// How a reference was written in the source.
#[derive(Clone, Copy, Debug, PartialEq, Eq, Structural)]
pub enum ReferenceType {
    /// `[text]`
    Shortcut,
    /// `[text][]`
    Collapsed,
    /// `[text][id]`
    Full,
}

/// How the cells of a table column are aligned.
#[derive(Clone, Copy, Debug, PartialEq, Eq, Structural)]
pub enum AlignType {
    Left,
    Right,
    Center,
    /// The column states no alignment.
    Unaligned,
}

/// The roles that a node can play as a child.
#[derive(Clone, Copy, Debug, PartialEq, Eq, Structural)]
pub enum Content {
    /// The sections of a document.
    Flow,
    /// The items of a list.
    List,
    /// The text of a document, and its markup.
    Phrasing,
    /// The rows of a table.
    Table,
    /// The cells of a row.
    Row,
}

/// The characters of an optional text.
pub open spec fn text_of(text: Option<String>) -> Option<Seq<char>> {
    match text {
        Some(text) => Some(text@),
        None => None,
    }
}

/// What a node is and holds, apart from its children.
pub enum NodeData {
    Document,
    Paragraph,
    Heading { depth: nat },
    ThematicBreak,
    Blockquote,
    List,
    ListItem,
    Code { value: Seq<char>, lang: Option<Seq<char>>, meta: Option<Seq<char>> },
    Definition {
        identifier: Seq<char>,
        label: Option<Seq<char>>,
        url: Seq<char>,
        title: Option<Seq<char>>,
    },
    Text { value: Seq<char> },
    Emphasis,
    Strong,
    InlineCode { value: Seq<char> },
    Break,
    Link { url: Seq<char>, title: Option<Seq<char>> },
    LinkReference {
        identifier: Seq<char>,
        label: Option<Seq<char>>,
        reference_type: ReferenceType,
    },
    Image { url: Seq<char>, title: Option<Seq<char>>, alt: Option<Seq<char>> },
    ImageReference {
        identifier: Seq<char>,
        label: Option<Seq<char>>,
        reference_type: ReferenceType,
        alt: Option<Seq<char>>,
    },
    Delete,
    FootnoteDefinition { identifier: Seq<char>, label: Option<Seq<char>> },
    FootnoteReference { identifier: Seq<char>, label: Option<Seq<char>> },
    Table { align: Seq<AlignType> },
    TableRow,
    TableCell,
}

impl NodeData {
    /// The role that the node plays as a child, if it can be one.
    pub open spec fn content(self) -> Option<Content> {
        match self {
            NodeData::Document => None,
            NodeData::Paragraph => Some(Content::Flow),
            NodeData::Heading { .. } => Some(Content::Flow),
            NodeData::ThematicBreak => Some(Content::Flow),
            NodeData::Blockquote => Some(Content::Flow),
            NodeData::List => Some(Content::Flow),
            NodeData::ListItem => Some(Content::List),
            NodeData::Code { .. } => Some(Content::Flow),
            NodeData::Definition { .. } => Some(Content::Flow),
            NodeData::Text { .. } => Some(Content::Phrasing),
            NodeData::Emphasis => Some(Content::Phrasing),
            NodeData::Strong => Some(Content::Phrasing),
            NodeData::InlineCode { .. } => Some(Content::Phrasing),
            NodeData::Break => Some(Content::Phrasing),
            NodeData::Link { .. } => Some(Content::Phrasing),
            NodeData::LinkReference { .. } => Some(Content::Phrasing),
            NodeData::Image { .. } => Some(Content::Phrasing),
            NodeData::ImageReference { .. } => Some(Content::Phrasing),
            NodeData::Delete => Some(Content::Phrasing),
            NodeData::FootnoteDefinition { .. } => Some(Content::Flow),
            NodeData::FootnoteReference { .. } => Some(Content::Phrasing),
            NodeData::Table { .. } => Some(Content::Flow),
            NodeData::TableRow => Some(Content::Table),
            NodeData::TableCell => Some(Content::Row),
        }
    }

    /// The role that the children of the node must play; `None` for a
    /// node that has no children.
    pub open spec fn child_content(self) -> Option<Content> {
        match self {
            NodeData::Document => Some(Content::Flow),
            NodeData::Paragraph => Some(Content::Phrasing),
            NodeData::Heading { .. } => Some(Content::Phrasing),
            NodeData::ThematicBreak => None,
            NodeData::Blockquote => Some(Content::Flow),
            NodeData::List => Some(Content::List),
            NodeData::ListItem => Some(Content::Flow),
            NodeData::Code { .. } => None,
            NodeData::Definition { .. } => None,
            NodeData::Text { .. } => None,
            NodeData::Emphasis => Some(Content::Phrasing),
            NodeData::Strong => Some(Content::Phrasing),
            NodeData::InlineCode { .. } => None,
            NodeData::Break => None,
            NodeData::Link { .. } => Some(Content::Phrasing),
            NodeData::LinkReference { .. } => Some(Content::Phrasing),
            NodeData::Image { .. } => None,
            NodeData::ImageReference { .. } => None,
            NodeData::Delete => Some(Content::Phrasing),
            NodeData::FootnoteDefinition { .. } => Some(Content::Flow),
            NodeData::FootnoteReference { .. } => None,
            NodeData::Table { .. } => Some(Content::Table),
            NodeData::TableRow => Some(Content::Row),
            NodeData::TableCell => Some(Content::Phrasing),
        }
    }
}

/// A tree as a mathematical value: what the root is, and the trees of its
/// children in order.
pub struct Tree {
    pub data: NodeData,
    pub children: Seq<Tree>,
}

impl Tree {
    /// A tree without children.
    pub open spec fn leaf(data: NodeData) -> Tree {
        Tree { data, children: Seq::empty() }
    }

    /// Whether `child` may stand under a node of this kind.
    pub open spec fn accepts(self, child: Tree) -> bool {
        self.data.child_content() is Some && child.data.content() == self.data.child_content()
    }

    /// The content model: every node holds only children of the kind it
    /// takes, a literal holds none, and a heading has a depth from 1 to 6.
    pub open spec fn well_formed(self) -> bool
        decreases self,
    {
        &&& self.data matches NodeData::Heading { depth } ==> 1 <= depth <= 6
        &&& self.data.child_content() is None ==> self.children.len() == 0
        &&& forall|i: int|
            0 <= i < self.children.len() ==> self.accepts(#[trigger] self.children[i])
                && self.children[i].well_formed()
    }

    /// Whether the tree is a text.
    pub open spec fn is_text(self) -> bool {
        self.data is Text
    }

    /// Whether no text in the tree stands next to another text.
    pub open spec fn coalesced(self) -> bool
        decreases self,
    {
        &&& no_adjacent_texts(self.children)
        &&& forall|i: int|
            0 <= i < self.children.len() ==> (#[trigger] self.children[i]).coalesced()
    }
}

/// Whether every tree of `trees` plays the role `content`, is well formed
/// and has no text next to another text.
pub open spec fn content_run(trees: Seq<Tree>, content: Content) -> bool {
    forall|i: int|
        0 <= i < trees.len() ==> (#[trigger] trees[i]).data.content() == Some(content)
            && trees[i].well_formed() && trees[i].coalesced()
}

/// Whether `trees` can be the children of a node that holds phrasing
/// content, with no text next to another text.
pub open spec fn phrasing_run(trees: Seq<Tree>) -> bool {
    content_run(trees, Content::Phrasing) && no_adjacent_texts(trees)
}

/// A node over a run of children of the kind it takes is well formed, and
/// has no text next to another text if its children have none.
pub proof fn lemma_parent_of(data: NodeData, children: Seq<Tree>, content: Content)
    requires
        content_run(children, content),
        data.child_content() == Some(content),
        data matches NodeData::Heading { depth } ==> 1 <= depth <= 6,
        content == Content::Phrasing ==> no_adjacent_texts(children),
    ensures
        (Tree { data, children }).well_formed(),
        (Tree { data, children }).coalesced(),
{
    let tree = Tree { data, children };
    assert forall|i: int| 0 <= i < children.len() implies tree.accepts(#[trigger] children[i])
        && children[i].well_formed() by {}
    if content != Content::Phrasing {
        assert forall|i: int| 0 <= i < children.len() - 1 implies !((
        #[trigger] children[i]).is_text() && children[i + 1].is_text()) by {
            assert(children[i].data.content() == Some(content));
        }
    }
}

/// Whether no two neighbours in `trees` are both texts.
pub open spec fn no_adjacent_texts(trees: Seq<Tree>) -> bool {
    forall|i: int|
        0 <= i < trees.len() - 1 ==> !((#[trigger] trees[i]).is_text() && trees[i + 1].is_text())
}

/// The root of a tree: the whole document.
#[derive(Debug, PartialEq, Eq)]
pub struct Document {
    /// The children, in order.
    pub children: Vec<Node>,
}

/// A unit of discourse: a run of text and its markup.
#[derive(Debug, PartialEq, Eq)]
pub struct Paragraph {
    /// The children, in order.
    pub children: Vec<Node>,
}

/// The heading of a section.
#[derive(Debug, PartialEq, Eq)]
pub struct Heading {
    /// The children, in order.
    pub children: Vec<Node>,
    /// The rank: 1 is the highest, 6 the lowest.
    pub depth: usize,
}

/// A break between sections, such as a change of scene.
#[derive(Debug, PartialEq, Eq)]
pub struct ThematicBreak {
}

/// A section quoted from somewhere else.
#[derive(Debug, PartialEq, Eq)]
pub struct Blockquote {
    /// The children, in order.
    pub children: Vec<Node>,
}

/// A list of items.
#[derive(Debug, PartialEq, Eq)]
pub struct List {
    /// The children, in order.
    pub children: Vec<Node>,
}

/// One item of a list.
#[derive(Debug, PartialEq, Eq)]
pub struct ListItem {
    /// The children, in order.
    pub children: Vec<Node>,
}

/// A block of preformatted text.
#[derive(Debug, PartialEq, Eq)]
pub struct Code {
    /// The text of the block.
    pub value: String,
    /// The language of the code.
    pub lang: Option<String>,
    /// What the fence says behind the language.
    pub meta: Option<String>,
}

/// A resource that references point to.
#[derive(Debug, PartialEq, Eq)]
pub struct Definition {
    /// The normalized label, by which references find the definition.
    pub identifier: String,
    /// The label as the source has it.
    pub label: Option<String>,
    /// The address of the resource.
    pub url: String,
    /// Advisory text for the resource.
    pub title: Option<String>,
}

/// Everything that is just text.
#[derive(Debug, PartialEq, Eq)]
pub struct Text {
    /// The text.
    pub value: String,
}

/// Stress emphasis of its contents.
#[derive(Debug, PartialEq, Eq)]
pub struct Emphasis {
    /// The children, in order.
    pub children: Vec<Node>,
}

/// Strong importance of its contents.
#[derive(Debug, PartialEq, Eq)]
pub struct Strong {
    /// The children, in order.
    pub children: Vec<Node>,
}

/// A fragment of computer code within a line.
#[derive(Debug, PartialEq, Eq)]
pub struct InlineCode {
    /// The text of the fragment.
    pub value: String,
}

/// A line break that the author asked for.
#[derive(Debug, PartialEq, Eq)]
pub struct Break {
}

/// A hyperlink.
#[derive(Debug, PartialEq, Eq)]
pub struct Link {
    /// The children, in order.
    pub children: Vec<Node>,
    /// The address of the resource.
    pub url: String,
    /// Advisory text for the resource.
    pub title: Option<String>,
}

/// A hyperlink through a definition.
#[derive(Debug, PartialEq, Eq)]
pub struct LinkReference {
    /// The children, in order.
    pub children: Vec<Node>,
    /// The normalized label of the definition.
    pub identifier: String,
    /// The label as the source has it.
    pub label: Option<String>,
    /// How the reference was written.
    pub reference_type: ReferenceType,
}

/// An image.
#[derive(Debug, PartialEq, Eq)]
pub struct Image {
    /// The address of the image.
    pub url: String,
    /// Advisory text for the image.
    pub title: Option<String>,
    /// Text that stands for the image where it cannot be shown.
    pub alt: Option<String>,
}

/// An image through a definition.
#[derive(Debug, PartialEq, Eq)]
pub struct ImageReference {
    /// The normalized label of the definition.
    pub identifier: String,
    /// The label as the source has it.
    pub label: Option<String>,
    /// How the reference was written.
    pub reference_type: ReferenceType,
    /// Text that stands for the image where it cannot be shown.
    pub alt: Option<String>,
}

/// Contents that are no longer accurate or relevant.
#[derive(Debug, PartialEq, Eq)]
pub struct Delete {
    /// The children, in order.
    pub children: Vec<Node>,
}

/// The content of a footnote.
#[derive(Debug, PartialEq, Eq)]
pub struct FootnoteDefinition {
    /// The children, in order.
    pub children: Vec<Node>,
    /// The normalized label, by which references find the footnote.
    pub identifier: String,
    /// The label as the source has it.
    pub label: Option<String>,
}

/// A marker that points to a footnote.
#[derive(Debug, PartialEq, Eq)]
pub struct FootnoteReference {
    /// The normalized label of the footnote.
    pub identifier: String,
    /// The label as the source has it.
    pub label: Option<String>,
}

/// Two-dimensional data.
#[derive(Debug, PartialEq, Eq)]
pub struct Table {
    /// The children, in order.
    pub children: Vec<Node>,
    /// How the cells of each column are aligned.
    pub align: Vec<AlignType>,
}

/// A row of cells in a table.
#[derive(Debug, PartialEq, Eq)]
pub struct TableRow {
    /// The children, in order.
    pub children: Vec<Node>,
}

/// A cell of a table row.
#[derive(Debug, PartialEq, Eq)]
pub struct TableCell {
    /// The children, in order.
    pub children: Vec<Node>,
}

/// A node of the tree, of any kind.
#[derive(Debug, PartialEq, Eq)]
pub enum Node {
    Document(Document),
    Paragraph(Paragraph),
    Heading(Heading),
    ThematicBreak(ThematicBreak),
    Blockquote(Blockquote),
    List(List),
    ListItem(ListItem),
    Code(Code),
    Definition(Definition),
    Text(Text),
    Emphasis(Emphasis),
    Strong(Strong),
    InlineCode(InlineCode),
    Break(Break),
    Link(Link),
    LinkReference(LinkReference),
    Image(Image),
    ImageReference(ImageReference),
    Delete(Delete),
    FootnoteDefinition(FootnoteDefinition),
    FootnoteReference(FootnoteReference),
    Table(Table),
    TableRow(TableRow),
    TableCell(TableCell),
}

/// The trees of `nodes`, in order.
pub open spec fn trees(nodes: Seq<Node>) -> Seq<Tree>
    decreases nodes,
{
    Seq::new(
        nodes.len(),
        |i: int|
            if 0 <= i < nodes.len() {
                nodes[i].tree()
            } else {
                Tree::leaf(NodeData::Break)
            },
    )
}

impl Node {
    /// The node as a mathematical value.
    pub open spec fn tree(self) -> Tree
        decreases self,
    {
        match self {
            Node::Document(x) => Tree { data: NodeData::Document, children: trees(x.children@) },
            Node::Paragraph(x) => Tree { data: NodeData::Paragraph, children: trees(x.children@) },
            Node::Heading(x) => Tree {
                data: NodeData::Heading { depth: x.depth as nat },
                children: trees(x.children@),
            },
            Node::ThematicBreak(x) => Tree {
                data: NodeData::ThematicBreak,
                children: Seq::empty(),
            },
            Node::Blockquote(x) => Tree {
                data: NodeData::Blockquote,
                children: trees(x.children@),
            },
            Node::List(x) => Tree { data: NodeData::List, children: trees(x.children@) },
            Node::ListItem(x) => Tree { data: NodeData::ListItem, children: trees(x.children@) },
            Node::Code(x) => Tree {
                data: NodeData::Code {
                    value: x.value@,
                    lang: text_of(x.lang),
                    meta: text_of(x.meta),
                },
                children: Seq::empty(),
            },
            Node::Definition(x) => Tree {
                data: NodeData::Definition {
                    identifier: x.identifier@,
                    label: text_of(x.label),
                    url: x.url@,
                    title: text_of(x.title),
                },
                children: Seq::empty(),
            },
            Node::Text(x) => Tree {
                data: NodeData::Text { value: x.value@ },
                children: Seq::empty(),
            },
            Node::Emphasis(x) => Tree { data: NodeData::Emphasis, children: trees(x.children@) },
            Node::Strong(x) => Tree { data: NodeData::Strong, children: trees(x.children@) },
            Node::InlineCode(x) => Tree {
                data: NodeData::InlineCode { value: x.value@ },
                children: Seq::empty(),
            },
            Node::Break(x) => Tree { data: NodeData::Break, children: Seq::empty() },
            Node::Link(x) => Tree {
                data: NodeData::Link { url: x.url@, title: text_of(x.title) },
                children: trees(x.children@),
            },
            Node::LinkReference(x) => Tree {
                data: NodeData::LinkReference {
                    identifier: x.identifier@,
                    label: text_of(x.label),
                    reference_type: x.reference_type,
                },
                children: trees(x.children@),
            },
            Node::Image(x) => Tree {
                data: NodeData::Image { url: x.url@, title: text_of(x.title), alt: text_of(x.alt) },
                children: Seq::empty(),
            },
            Node::ImageReference(x) => Tree {
                data: NodeData::ImageReference {
                    identifier: x.identifier@,
                    label: text_of(x.label),
                    reference_type: x.reference_type,
                    alt: text_of(x.alt),
                },
                children: Seq::empty(),
            },
            Node::Delete(x) => Tree { data: NodeData::Delete, children: trees(x.children@) },
            Node::FootnoteDefinition(x) => Tree {
                data: NodeData::FootnoteDefinition {
                    identifier: x.identifier@,
                    label: text_of(x.label),
                },
                children: trees(x.children@),
            },
            Node::FootnoteReference(x) => Tree {
                data: NodeData::FootnoteReference {
                    identifier: x.identifier@,
                    label: text_of(x.label),
                },
                children: Seq::empty(),
            },
            Node::Table(x) => Tree {
                data: NodeData::Table { align: x.align@ },
                children: trees(x.children@),
            },
            Node::TableRow(x) => Tree { data: NodeData::TableRow, children: trees(x.children@) },
            Node::TableCell(x) => Tree { data: NodeData::TableCell, children: trees(x.children@) },
        }
    }

    /// The children of the node; none for a literal.
    pub open spec fn nodes(self) -> Seq<Node> {
        match self {
            Node::Document(x) => x.children@,
            Node::Paragraph(x) => x.children@,
            Node::Heading(x) => x.children@,
            Node::ThematicBreak(x) => Seq::empty(),
            Node::Blockquote(x) => x.children@,
            Node::List(x) => x.children@,
            Node::ListItem(x) => x.children@,
            Node::Code(x) => Seq::empty(),
            Node::Definition(x) => Seq::empty(),
            Node::Text(x) => Seq::empty(),
            Node::Emphasis(x) => x.children@,
            Node::Strong(x) => x.children@,
            Node::InlineCode(x) => Seq::empty(),
            Node::Break(x) => Seq::empty(),
            Node::Link(x) => x.children@,
            Node::LinkReference(x) => x.children@,
            Node::Image(x) => Seq::empty(),
            Node::ImageReference(x) => Seq::empty(),
            Node::Delete(x) => x.children@,
            Node::FootnoteDefinition(x) => x.children@,
            Node::FootnoteReference(x) => Seq::empty(),
            Node::Table(x) => x.children@,
            Node::TableRow(x) => x.children@,
            Node::TableCell(x) => x.children@,
        }
    }
}

impl View for Node {
    type V = Tree;

    open spec fn view(&self) -> Tree {
        self.tree()
    }
}

/// The trees of a longer sequence are the trees of the shorter one and the
/// tree of the node that was added.
pub proof fn lemma_trees_push(nodes: Seq<Node>, node: Node)
    ensures
        trees(nodes.push(node)) == trees(nodes).push(node@),
{
    assert(trees(nodes.push(node)) =~= trees(nodes).push(node@));
}

/// The trees of a sequence without one of its nodes.
pub proof fn lemma_trees_remove(nodes: Seq<Node>, index: int)
    requires
        0 <= index < nodes.len(),
    ensures
        trees(nodes.remove(index)) == trees(nodes).remove(index),
{
    assert(trees(nodes.remove(index)) =~= trees(nodes).remove(index));
}

/// The content model is kept when a well-formed child of the right kind is
/// added to a well-formed parent.
pub proof fn lemma_push_well_formed(parent: Tree, child: Tree)
    requires
        parent.well_formed(),
        parent.accepts(child),
        child.well_formed(),
    ensures
        (Tree { data: parent.data, children: parent.children.push(child) }).well_formed(),
{
    let after = Tree { data: parent.data, children: parent.children.push(child) };
    assert forall|i: int| 0 <= i < after.children.len() implies after.accepts(
        #[trigger] after.children[i],
    ) && after.children[i].well_formed() by {
        if i < parent.children.len() {
            assert(parent.accepts(parent.children[i]));
        }
    }
}

/// The content model is kept when a child is taken out of a well-formed
/// parent, and the child that was taken out is well formed.
pub proof fn lemma_remove_well_formed(parent: Tree, index: int)
    requires
        parent.well_formed(),
        0 <= index < parent.children.len(),
    ensures
        (Tree { data: parent.data, children: parent.children.remove(index) }).well_formed(),
        parent.children[index].well_formed(),
{
    let after = Tree { data: parent.data, children: parent.children.remove(index) };
    assert(parent.accepts(parent.children[index]));
    assert forall|i: int| 0 <= i < after.children.len() implies after.accepts(
        #[trigger] after.children[i],
    ) && after.children[i].well_formed() by {
        if i < index {
            assert(parent.accepts(parent.children[i]));
        } else {
            assert(parent.accepts(parent.children[i + 1]));
        }
    }
}

/// A typed node as a member of the union of all nodes.
pub trait NodeContent: Sized {
    /// The node that holds `self`.
    spec fn as_node(self) -> Node;

    /// The node that holds `self`.
    fn into_node(self) -> (node: Node)
        ensures
            node == self.as_node(),
    ;
}

/// The sections of a document.
pub trait FlowContent: NodeContent {
    /// A node of this type plays the role of flow content.
    proof fn lemma_content(self)
        ensures
            self.as_node()@.data.content() == Some(Content::Flow),
    ;
}

/// The items of a list.
pub trait ListContent: NodeContent {
    /// A node of this type plays the role of list content.
    proof fn lemma_content(self)
        ensures
            self.as_node()@.data.content() == Some(Content::List),
    ;
}

/// The text of a document, and its markup.
pub trait PhrasingContent: NodeContent {
    /// A node of this type plays the role of phrasing content.
    proof fn lemma_content(self)
        ensures
            self.as_node()@.data.content() == Some(Content::Phrasing),
    ;
}

/// The rows of a table.
pub trait TableContent: NodeContent {
    /// A node of this type plays the role of table content.
    proof fn lemma_content(self)
        ensures
            self.as_node()@.data.content() == Some(Content::Table),
    ;
}

/// The cells of a row.
pub trait RowContent: NodeContent {
    /// A node of this type plays the role of row content.
    proof fn lemma_content(self)
        ensures
            self.as_node()@.data.content() == Some(Content::Row),
    ;
}

/// A node that has children of type `Child`.
pub trait Parent<Child>: NodeContent {
    /// The node that holds `child`.
    spec fn child_node(child: Child) -> Node;

    /// Adds `node` behind the children that are there.
    fn add_child(&mut self, node: Child) -> (result: AstResult<()>)
        ensures
            result is Ok,
            old(self).as_node()@.accepts(Self::child_node(node)@),
            final(self).as_node().nodes() == old(self).as_node().nodes().push(
                Self::child_node(node),
            ),
            final(self).as_node()@ == (Tree {
                data: old(self).as_node()@.data,
                children: old(self).as_node()@.children.push(Self::child_node(node)@),
            }),
    ;

    /// Takes the child at `index` out and returns it.
    fn remove_at(&mut self, index: usize) -> (node: Node)
        requires
            index < old(self).as_node().nodes().len(),
        ensures
            node == old(self).as_node().nodes()[index as int],
            final(self).as_node().nodes() == old(self).as_node().nodes().remove(index as int),
            final(self).as_node()@ == (Tree {
                data: old(self).as_node()@.data,
                children: old(self).as_node()@.children.remove(index as int),
            }),
    ;

    /// The children, in order.
    fn iter(&self) -> (nodes: &[Node])
        ensures
            nodes@ == self.as_node().nodes(),
    ;
}

impl NodeContent for Document {
    open spec fn as_node(self) -> Node {
        Node::Document(self)
    }

    fn into_node(self) -> (node: Node) {
        Node::Document(self)
    }
}

impl<Child: FlowContent> Parent<Child> for Document {
    open spec fn child_node(child: Child) -> Node {
        child.as_node()
    }

    fn add_child(&mut self, node: Child) -> (result: AstResult<()>) {
        proof {
            node.lemma_content();
            lemma_trees_push(self.children@, node.as_node());
        }
        self.children.push(node.into_node());
        Ok(())
    }

    fn remove_at(&mut self, index: usize) -> (node: Node) {
        proof {
            lemma_trees_remove(self.children@, index as int);
        }
        self.children.remove(index)
    }

    fn iter(&self) -> (nodes: &[Node]) {
        self.children.as_slice()
    }
}

impl NodeContent for Paragraph {
    open spec fn as_node(self) -> Node {
        Node::Paragraph(self)
    }

    fn into_node(self) -> (node: Node) {
        Node::Paragraph(self)
    }
}

impl FlowContent for Paragraph {
    proof fn lemma_content(self) {
    }
}

impl<Child: PhrasingContent> Parent<Child> for Paragraph {
    open spec fn child_node(child: Child) -> Node {
        child.as_node()
    }

    fn add_child(&mut self, node: Child) -> (result: AstResult<()>) {
        proof {
            node.lemma_content();
            lemma_trees_push(self.children@, node.as_node());
        }
        self.children.push(node.into_node());
        Ok(())
    }

    fn remove_at(&mut self, index: usize) -> (node: Node) {
        proof {
            lemma_trees_remove(self.children@, index as int);
        }
        self.children.remove(index)
    }

    fn iter(&self) -> (nodes: &[Node]) {
        self.children.as_slice()
    }
}

impl NodeContent for Heading {
    open spec fn as_node(self) -> Node {
        Node::Heading(self)
    }

    fn into_node(self) -> (node: Node) {
        Node::Heading(self)
    }
}

impl FlowContent for Heading {
    proof fn lemma_content(self) {
    }
}

impl<Child: PhrasingContent> Parent<Child> for Heading {
    open spec fn child_node(child: Child) -> Node {
        child.as_node()
    }

    fn add_child(&mut self, node: Child) -> (result: AstResult<()>) {
        proof {
            node.lemma_content();
            lemma_trees_push(self.children@, node.as_node());
        }
        self.children.push(node.into_node());
        Ok(())
    }

    fn remove_at(&mut self, index: usize) -> (node: Node) {
        proof {
            lemma_trees_remove(self.children@, index as int);
        }
        self.children.remove(index)
    }

    fn iter(&self) -> (nodes: &[Node]) {
        self.children.as_slice()
    }
}

impl NodeContent for ThematicBreak {
    open spec fn as_node(self) -> Node {
        Node::ThematicBreak(self)
    }

    fn into_node(self) -> (node: Node) {
        Node::ThematicBreak(self)
    }
}

impl FlowContent for ThematicBreak {
    proof fn lemma_content(self) {
    }
}

impl NodeContent for Blockquote {
    open spec fn as_node(self) -> Node {
        Node::Blockquote(self)
    }

    fn into_node(self) -> (node: Node) {
        Node::Blockquote(self)
    }
}

impl FlowContent for Blockquote {
    proof fn lemma_content(self) {
    }
}

impl<Child: FlowContent> Parent<Child> for Blockquote {
    open spec fn child_node(child: Child) -> Node {
        child.as_node()
    }

    fn add_child(&mut self, node: Child) -> (result: AstResult<()>) {
        proof {
            node.lemma_content();
            lemma_trees_push(self.children@, node.as_node());
        }
        self.children.push(node.into_node());
        Ok(())
    }

    fn remove_at(&mut self, index: usize) -> (node: Node) {
        proof {
            lemma_trees_remove(self.children@, index as int);
        }
        self.children.remove(index)
    }

    fn iter(&self) -> (nodes: &[Node]) {
        self.children.as_slice()
    }
}

impl NodeContent for List {
    open spec fn as_node(self) -> Node {
        Node::List(self)
    }

    fn into_node(self) -> (node: Node) {
        Node::List(self)
    }
}

impl FlowContent for List {
    proof fn lemma_content(self) {
    }
}

impl<Child: ListContent> Parent<Child> for List {
    open spec fn child_node(child: Child) -> Node {
        child.as_node()
    }

    fn add_child(&mut self, node: Child) -> (result: AstResult<()>) {
        proof {
            node.lemma_content();
            lemma_trees_push(self.children@, node.as_node());
        }
        self.children.push(node.into_node());
        Ok(())
    }

    fn remove_at(&mut self, index: usize) -> (node: Node) {
        proof {
            lemma_trees_remove(self.children@, index as int);
        }
        self.children.remove(index)
    }

    fn iter(&self) -> (nodes: &[Node]) {
        self.children.as_slice()
    }
}

impl NodeContent for ListItem {
    open spec fn as_node(self) -> Node {
        Node::ListItem(self)
    }

    fn into_node(self) -> (node: Node) {
        Node::ListItem(self)
    }
}

impl ListContent for ListItem {
    proof fn lemma_content(self) {
    }
}

impl<Child: FlowContent> Parent<Child> for ListItem {
    open spec fn child_node(child: Child) -> Node {
        child.as_node()
    }

    fn add_child(&mut self, node: Child) -> (result: AstResult<()>) {
        proof {
            node.lemma_content();
            lemma_trees_push(self.children@, node.as_node());
        }
        self.children.push(node.into_node());
        Ok(())
    }

    fn remove_at(&mut self, index: usize) -> (node: Node) {
        proof {
            lemma_trees_remove(self.children@, index as int);
        }
        self.children.remove(index)
    }

    fn iter(&self) -> (nodes: &[Node]) {
        self.children.as_slice()
    }
}

impl NodeContent for Code {
    open spec fn as_node(self) -> Node {
        Node::Code(self)
    }

    fn into_node(self) -> (node: Node) {
        Node::Code(self)
    }
}

impl FlowContent for Code {
    proof fn lemma_content(self) {
    }
}

impl NodeContent for Definition {
    open spec fn as_node(self) -> Node {
        Node::Definition(self)
    }

    fn into_node(self) -> (node: Node) {
        Node::Definition(self)
    }
}

impl FlowContent for Definition {
    proof fn lemma_content(self) {
    }
}

impl NodeContent for Text {
    open spec fn as_node(self) -> Node {
        Node::Text(self)
    }

    fn into_node(self) -> (node: Node) {
        Node::Text(self)
    }
}

impl PhrasingContent for Text {
    proof fn lemma_content(self) {
    }
}

impl NodeContent for Emphasis {
    open spec fn as_node(self) -> Node {
        Node::Emphasis(self)
    }

    fn into_node(self) -> (node: Node) {
        Node::Emphasis(self)
    }
}

impl PhrasingContent for Emphasis {
    proof fn lemma_content(self) {
    }
}

impl<Child: PhrasingContent> Parent<Child> for Emphasis {
    open spec fn child_node(child: Child) -> Node {
        child.as_node()
    }

    fn add_child(&mut self, node: Child) -> (result: AstResult<()>) {
        proof {
            node.lemma_content();
            lemma_trees_push(self.children@, node.as_node());
        }
        self.children.push(node.into_node());
        Ok(())
    }

    fn remove_at(&mut self, index: usize) -> (node: Node) {
        proof {
            lemma_trees_remove(self.children@, index as int);
        }
        self.children.remove(index)
    }

    fn iter(&self) -> (nodes: &[Node]) {
        self.children.as_slice()
    }
}

impl NodeContent for Strong {
    open spec fn as_node(self) -> Node {
        Node::Strong(self)
    }

    fn into_node(self) -> (node: Node) {
        Node::Strong(self)
    }
}

impl PhrasingContent for Strong {
    proof fn lemma_content(self) {
    }
}

impl<Child: PhrasingContent> Parent<Child> for Strong {
    open spec fn child_node(child: Child) -> Node {
        child.as_node()
    }

    fn add_child(&mut self, node: Child) -> (result: AstResult<()>) {
        proof {
            node.lemma_content();
            lemma_trees_push(self.children@, node.as_node());
        }
        self.children.push(node.into_node());
        Ok(())
    }

    fn remove_at(&mut self, index: usize) -> (node: Node) {
        proof {
            lemma_trees_remove(self.children@, index as int);
        }
        self.children.remove(index)
    }

    fn iter(&self) -> (nodes: &[Node]) {
        self.children.as_slice()
    }
}

impl NodeContent for InlineCode {
    open spec fn as_node(self) -> Node {
        Node::InlineCode(self)
    }

    fn into_node(self) -> (node: Node) {
        Node::InlineCode(self)
    }
}

impl PhrasingContent for InlineCode {
    proof fn lemma_content(self) {
    }
}

impl NodeContent for Break {
    open spec fn as_node(self) -> Node {
        Node::Break(self)
    }

    fn into_node(self) -> (node: Node) {
        Node::Break(self)
    }
}

impl PhrasingContent for Break {
    proof fn lemma_content(self) {
    }
}

impl NodeContent for Link {
    open spec fn as_node(self) -> Node {
        Node::Link(self)
    }

    fn into_node(self) -> (node: Node) {
        Node::Link(self)
    }
}

impl PhrasingContent for Link {
    proof fn lemma_content(self) {
    }
}

impl<Child: PhrasingContent> Parent<Child> for Link {
    open spec fn child_node(child: Child) -> Node {
        child.as_node()
    }

    fn add_child(&mut self, node: Child) -> (result: AstResult<()>) {
        proof {
            node.lemma_content();
            lemma_trees_push(self.children@, node.as_node());
        }
        self.children.push(node.into_node());
        Ok(())
    }

    fn remove_at(&mut self, index: usize) -> (node: Node) {
        proof {
            lemma_trees_remove(self.children@, index as int);
        }
        self.children.remove(index)
    }

    fn iter(&self) -> (nodes: &[Node]) {
        self.children.as_slice()
    }
}

impl NodeContent for LinkReference {
    open spec fn as_node(self) -> Node {
        Node::LinkReference(self)
    }

    fn into_node(self) -> (node: Node) {
        Node::LinkReference(self)
    }
}

impl PhrasingContent for LinkReference {
    proof fn lemma_content(self) {
    }
}

impl<Child: PhrasingContent> Parent<Child> for LinkReference {
    open spec fn child_node(child: Child) -> Node {
        child.as_node()
    }

    fn add_child(&mut self, node: Child) -> (result: AstResult<()>) {
        proof {
            node.lemma_content();
            lemma_trees_push(self.children@, node.as_node());
        }
        self.children.push(node.into_node());
        Ok(())
    }

    fn remove_at(&mut self, index: usize) -> (node: Node) {
        proof {
            lemma_trees_remove(self.children@, index as int);
        }
        self.children.remove(index)
    }

    fn iter(&self) -> (nodes: &[Node]) {
        self.children.as_slice()
    }
}

impl NodeContent for Image {
    open spec fn as_node(self) -> Node {
        Node::Image(self)
    }

    fn into_node(self) -> (node: Node) {
        Node::Image(self)
    }
}

impl PhrasingContent for Image {
    proof fn lemma_content(self) {
    }
}

impl NodeContent for ImageReference {
    open spec fn as_node(self) -> Node {
        Node::ImageReference(self)
    }

    fn into_node(self) -> (node: Node) {
        Node::ImageReference(self)
    }
}

impl PhrasingContent for ImageReference {
    proof fn lemma_content(self) {
    }
}

impl NodeContent for Delete {
    open spec fn as_node(self) -> Node {
        Node::Delete(self)
    }

    fn into_node(self) -> (node: Node) {
        Node::Delete(self)
    }
}

impl PhrasingContent for Delete {
    proof fn lemma_content(self) {
    }
}

impl<Child: PhrasingContent> Parent<Child> for Delete {
    open spec fn child_node(child: Child) -> Node {
        child.as_node()
    }

    fn add_child(&mut self, node: Child) -> (result: AstResult<()>) {
        proof {
            node.lemma_content();
            lemma_trees_push(self.children@, node.as_node());
        }
        self.children.push(node.into_node());
        Ok(())
    }

    fn remove_at(&mut self, index: usize) -> (node: Node) {
        proof {
            lemma_trees_remove(self.children@, index as int);
        }
        self.children.remove(index)
    }

    fn iter(&self) -> (nodes: &[Node]) {
        self.children.as_slice()
    }
}

impl NodeContent for FootnoteDefinition {
    open spec fn as_node(self) -> Node {
        Node::FootnoteDefinition(self)
    }

    fn into_node(self) -> (node: Node) {
        Node::FootnoteDefinition(self)
    }
}

impl FlowContent for FootnoteDefinition {
    proof fn lemma_content(self) {
    }
}

impl<Child: FlowContent> Parent<Child> for FootnoteDefinition {
    open spec fn child_node(child: Child) -> Node {
        child.as_node()
    }

    fn add_child(&mut self, node: Child) -> (result: AstResult<()>) {
        proof {
            node.lemma_content();
            lemma_trees_push(self.children@, node.as_node());
        }
        self.children.push(node.into_node());
        Ok(())
    }

    fn remove_at(&mut self, index: usize) -> (node: Node) {
        proof {
            lemma_trees_remove(self.children@, index as int);
        }
        self.children.remove(index)
    }

    fn iter(&self) -> (nodes: &[Node]) {
        self.children.as_slice()
    }
}

impl NodeContent for FootnoteReference {
    open spec fn as_node(self) -> Node {
        Node::FootnoteReference(self)
    }

    fn into_node(self) -> (node: Node) {
        Node::FootnoteReference(self)
    }
}

impl PhrasingContent for FootnoteReference {
    proof fn lemma_content(self) {
    }
}

impl NodeContent for Table {
    open spec fn as_node(self) -> Node {
        Node::Table(self)
    }

    fn into_node(self) -> (node: Node) {
        Node::Table(self)
    }
}

impl FlowContent for Table {
    proof fn lemma_content(self) {
    }
}

impl<Child: TableContent> Parent<Child> for Table {
    open spec fn child_node(child: Child) -> Node {
        child.as_node()
    }

    fn add_child(&mut self, node: Child) -> (result: AstResult<()>) {
        proof {
            node.lemma_content();
            lemma_trees_push(self.children@, node.as_node());
        }
        self.children.push(node.into_node());
        Ok(())
    }

    fn remove_at(&mut self, index: usize) -> (node: Node) {
        proof {
            lemma_trees_remove(self.children@, index as int);
        }
        self.children.remove(index)
    }

    fn iter(&self) -> (nodes: &[Node]) {
        self.children.as_slice()
    }
}

impl NodeContent for TableRow {
    open spec fn as_node(self) -> Node {
        Node::TableRow(self)
    }

    fn into_node(self) -> (node: Node) {
        Node::TableRow(self)
    }
}

impl TableContent for TableRow {
    proof fn lemma_content(self) {
    }
}

impl<Child: RowContent> Parent<Child> for TableRow {
    open spec fn child_node(child: Child) -> Node {
        child.as_node()
    }

    fn add_child(&mut self, node: Child) -> (result: AstResult<()>) {
        proof {
            node.lemma_content();
            lemma_trees_push(self.children@, node.as_node());
        }
        self.children.push(node.into_node());
        Ok(())
    }

    fn remove_at(&mut self, index: usize) -> (node: Node) {
        proof {
            lemma_trees_remove(self.children@, index as int);
        }
        self.children.remove(index)
    }

    fn iter(&self) -> (nodes: &[Node]) {
        self.children.as_slice()
    }
}

impl NodeContent for TableCell {
    open spec fn as_node(self) -> Node {
        Node::TableCell(self)
    }

    fn into_node(self) -> (node: Node) {
        Node::TableCell(self)
    }
}

impl RowContent for TableCell {
    proof fn lemma_content(self) {
    }
}

impl<Child: PhrasingContent> Parent<Child> for TableCell {
    open spec fn child_node(child: Child) -> Node {
        child.as_node()
    }

    fn add_child(&mut self, node: Child) -> (result: AstResult<()>) {
        proof {
            node.lemma_content();
            lemma_trees_push(self.children@, node.as_node());
        }
        self.children.push(node.into_node());
        Ok(())
    }

    fn remove_at(&mut self, index: usize) -> (node: Node) {
        proof {
            lemma_trees_remove(self.children@, index as int);
        }
        self.children.remove(index)
    }

    fn iter(&self) -> (nodes: &[Node]) {
        self.children.as_slice()
    }
}

impl Heading {
    /// A heading of the given depth, without children.
    pub fn new(depth: usize) -> (heading: Self)
        requires
            1 <= depth <= 6,
        ensures
            heading.depth == depth,
            heading.children@.len() == 0,
            heading.as_node()@ == Tree::leaf(NodeData::Heading { depth: depth as nat }),
            heading.as_node()@.well_formed(),
    {
        let heading = Heading { children: Vec::new(), depth };
        assert(heading.as_node()@.children =~= Seq::empty());
        heading
    }
}

impl Default for Document {
    fn default() -> (document: Self)
        ensures
            document.children@.len() == 0,
            document.as_node()@ == Tree::leaf(NodeData::Document),
    {
        let document = Document { children: Vec::new() };
        assert(document.as_node()@.children =~= Seq::empty());
        document
    }
}

impl Default for Paragraph {
    fn default() -> (paragraph: Self)
        ensures
            paragraph.children@.len() == 0,
            paragraph.as_node()@ == Tree::leaf(NodeData::Paragraph),
    {
        let paragraph = Paragraph { children: Vec::new() };
        assert(paragraph.as_node()@.children =~= Seq::empty());
        paragraph
    }
}

/// What visits a tree: one method for each kind of node, each of which does
/// nothing unless the visitor says otherwise.
pub trait Visitor: Sized {
    /// What a visit of `node` may make of the visitor `before`: anything,
    /// unless the visitor says otherwise.
    open spec fn visited(before: Self, node: Node, after: Self) -> bool {
        true
    }

    fn visit_document(&mut self, node: &Document)
        ensures
            *final(self) == *old(self)
                || Self::visited(*old(self), Node::Document(*node), *final(self)),
    {
    }

    fn visit_paragraph(&mut self, node: &Paragraph)
        ensures
            *final(self) == *old(self)
                || Self::visited(*old(self), Node::Paragraph(*node), *final(self)),
    {
    }

    fn visit_heading(&mut self, node: &Heading)
        ensures
            *final(self) == *old(self)
                || Self::visited(*old(self), Node::Heading(*node), *final(self)),
    {
    }

    fn visit_thematic_break(&mut self, node: &ThematicBreak)
        ensures
            *final(self) == *old(self)
                || Self::visited(*old(self), Node::ThematicBreak(*node), *final(self)),
    {
    }

    fn visit_blockquote(&mut self, node: &Blockquote)
        ensures
            *final(self) == *old(self)
                || Self::visited(*old(self), Node::Blockquote(*node), *final(self)),
    {
    }

    fn visit_list(&mut self, node: &List)
        ensures
            *final(self) == *old(self)
                || Self::visited(*old(self), Node::List(*node), *final(self)),
    {
    }

    fn visit_list_item(&mut self, node: &ListItem)
        ensures
            *final(self) == *old(self)
                || Self::visited(*old(self), Node::ListItem(*node), *final(self)),
    {
    }

    fn visit_code(&mut self, node: &Code)
        ensures
            *final(self) == *old(self)
                || Self::visited(*old(self), Node::Code(*node), *final(self)),
    {
    }

    fn visit_definition(&mut self, node: &Definition)
        ensures
            *final(self) == *old(self)
                || Self::visited(*old(self), Node::Definition(*node), *final(self)),
    {
    }

    fn visit_text(&mut self, node: &Text)
        ensures
            *final(self) == *old(self)
                || Self::visited(*old(self), Node::Text(*node), *final(self)),
    {
    }

    fn visit_emphasis(&mut self, node: &Emphasis)
        ensures
            *final(self) == *old(self)
                || Self::visited(*old(self), Node::Emphasis(*node), *final(self)),
    {
    }

    fn visit_strong(&mut self, node: &Strong)
        ensures
            *final(self) == *old(self)
                || Self::visited(*old(self), Node::Strong(*node), *final(self)),
    {
    }

    fn visit_inline_code(&mut self, node: &InlineCode)
        ensures
            *final(self) == *old(self)
                || Self::visited(*old(self), Node::InlineCode(*node), *final(self)),
    {
    }

    fn visit_break(&mut self, node: &Break)
        ensures
            *final(self) == *old(self)
                || Self::visited(*old(self), Node::Break(*node), *final(self)),
    {
    }

    fn visit_link(&mut self, node: &Link)
        ensures
            *final(self) == *old(self)
                || Self::visited(*old(self), Node::Link(*node), *final(self)),
    {
    }

    fn visit_link_reference(&mut self, node: &LinkReference)
        ensures
            *final(self) == *old(self)
                || Self::visited(*old(self), Node::LinkReference(*node), *final(self)),
    {
    }

    fn visit_image(&mut self, node: &Image)
        ensures
            *final(self) == *old(self)
                || Self::visited(*old(self), Node::Image(*node), *final(self)),
    {
    }

    fn visit_image_reference(&mut self, node: &ImageReference)
        ensures
            *final(self) == *old(self)
                || Self::visited(*old(self), Node::ImageReference(*node), *final(self)),
    {
    }

    fn visit_delete(&mut self, node: &Delete)
        ensures
            *final(self) == *old(self)
                || Self::visited(*old(self), Node::Delete(*node), *final(self)),
    {
    }

    fn visit_footnote_definition(&mut self, node: &FootnoteDefinition)
        ensures
            *final(self) == *old(self)
                || Self::visited(*old(self), Node::FootnoteDefinition(*node), *final(self)),
    {
    }

    fn visit_footnote_reference(&mut self, node: &FootnoteReference)
        ensures
            *final(self) == *old(self)
                || Self::visited(*old(self), Node::FootnoteReference(*node), *final(self)),
    {
    }

    fn visit_table(&mut self, node: &Table)
        ensures
            *final(self) == *old(self)
                || Self::visited(*old(self), Node::Table(*node), *final(self)),
    {
    }

    fn visit_table_row(&mut self, node: &TableRow)
        ensures
            *final(self) == *old(self)
                || Self::visited(*old(self), Node::TableRow(*node), *final(self)),
    {
    }

    fn visit_table_cell(&mut self, node: &TableCell)
        ensures
            *final(self) == *old(self)
                || Self::visited(*old(self), Node::TableCell(*node), *final(self)),
    {
    }

}

impl Node {
    /// Hands the node to the method of `visitor` that is there for its kind,
    /// and to no other: what becomes of the visitor is what that method
    /// makes of it. The method is called as a value, so that the contract
    /// can speak of the method's own.
    pub fn accept<V: Visitor>(&self, visitor: &mut V)
        ensures
            exists|borrowed: &mut V|
                *borrowed == *old(visitor) && *final(borrowed) == *final(visitor) && match *self {
                    Node::Document(x) => call_ensures(V::visit_document, (borrowed, &x), ()),
                    Node::Paragraph(x) => call_ensures(V::visit_paragraph, (borrowed, &x), ()),
                    Node::Heading(x) => call_ensures(V::visit_heading, (borrowed, &x), ()),
                    Node::ThematicBreak(x) => call_ensures(
                        V::visit_thematic_break,
                        (borrowed, &x),
                        (),
                    ),
                    Node::Blockquote(x) => call_ensures(V::visit_blockquote, (borrowed, &x), ()),
                    Node::List(x) => call_ensures(V::visit_list, (borrowed, &x), ()),
                    Node::ListItem(x) => call_ensures(V::visit_list_item, (borrowed, &x), ()),
                    Node::Code(x) => call_ensures(V::visit_code, (borrowed, &x), ()),
                    Node::Definition(x) => call_ensures(V::visit_definition, (borrowed, &x), ()),
                    Node::Text(x) => call_ensures(V::visit_text, (borrowed, &x), ()),
                    Node::Emphasis(x) => call_ensures(V::visit_emphasis, (borrowed, &x), ()),
                    Node::Strong(x) => call_ensures(V::visit_strong, (borrowed, &x), ()),
                    Node::InlineCode(x) => call_ensures(V::visit_inline_code, (borrowed, &x), ()),
                    Node::Break(x) => call_ensures(V::visit_break, (borrowed, &x), ()),
                    Node::Link(x) => call_ensures(V::visit_link, (borrowed, &x), ()),
                    Node::LinkReference(x) => call_ensures(
                        V::visit_link_reference,
                        (borrowed, &x),
                        (),
                    ),
                    Node::Image(x) => call_ensures(V::visit_image, (borrowed, &x), ()),
                    Node::ImageReference(x) => call_ensures(
                        V::visit_image_reference,
                        (borrowed, &x),
                        (),
                    ),
                    Node::Delete(x) => call_ensures(V::visit_delete, (borrowed, &x), ()),
                    Node::FootnoteDefinition(x) => call_ensures(
                        V::visit_footnote_definition,
                        (borrowed, &x),
                        (),
                    ),
                    Node::FootnoteReference(x) => call_ensures(
                        V::visit_footnote_reference,
                        (borrowed, &x),
                        (),
                    ),
                    Node::Table(x) => call_ensures(V::visit_table, (borrowed, &x), ()),
                    Node::TableRow(x) => call_ensures(V::visit_table_row, (borrowed, &x), ()),
                    Node::TableCell(x) => call_ensures(V::visit_table_cell, (borrowed, &x), ()),
                },
            *final(visitor) == *old(visitor) || V::visited(*old(visitor), *self, *final(visitor)),
    {
        match self {
            Node::Document(x) => {
                let visit = V::visit_document;
                visit(visitor, x)
            },
            Node::Paragraph(x) => {
                let visit = V::visit_paragraph;
                visit(visitor, x)
            },
            Node::Heading(x) => {
                let visit = V::visit_heading;
                visit(visitor, x)
            },
            Node::ThematicBreak(x) => {
                let visit = V::visit_thematic_break;
                visit(visitor, x)
            },
            Node::Blockquote(x) => {
                let visit = V::visit_blockquote;
                visit(visitor, x)
            },
            Node::List(x) => {
                let visit = V::visit_list;
                visit(visitor, x)
            },
            Node::ListItem(x) => {
                let visit = V::visit_list_item;
                visit(visitor, x)
            },
            Node::Code(x) => {
                let visit = V::visit_code;
                visit(visitor, x)
            },
            Node::Definition(x) => {
                let visit = V::visit_definition;
                visit(visitor, x)
            },
            Node::Text(x) => {
                let visit = V::visit_text;
                visit(visitor, x)
            },
            Node::Emphasis(x) => {
                let visit = V::visit_emphasis;
                visit(visitor, x)
            },
            Node::Strong(x) => {
                let visit = V::visit_strong;
                visit(visitor, x)
            },
            Node::InlineCode(x) => {
                let visit = V::visit_inline_code;
                visit(visitor, x)
            },
            Node::Break(x) => {
                let visit = V::visit_break;
                visit(visitor, x)
            },
            Node::Link(x) => {
                let visit = V::visit_link;
                visit(visitor, x)
            },
            Node::LinkReference(x) => {
                let visit = V::visit_link_reference;
                visit(visitor, x)
            },
            Node::Image(x) => {
                let visit = V::visit_image;
                visit(visitor, x)
            },
            Node::ImageReference(x) => {
                let visit = V::visit_image_reference;
                visit(visitor, x)
            },
            Node::Delete(x) => {
                let visit = V::visit_delete;
                visit(visitor, x)
            },
            Node::FootnoteDefinition(x) => {
                let visit = V::visit_footnote_definition;
                visit(visitor, x)
            },
            Node::FootnoteReference(x) => {
                let visit = V::visit_footnote_reference;
                visit(visitor, x)
            },
            Node::Table(x) => {
                let visit = V::visit_table;
                visit(visitor, x)
            },
            Node::TableRow(x) => {
                let visit = V::visit_table_row;
                visit(visitor, x)
            },
            Node::TableCell(x) => {
                let visit = V::visit_table_cell;
                visit(visitor, x)
            },
        }
    }

    /// The role that the node plays as a child, if it can be one.
    pub fn content(&self) -> (content: Option<Content>)
        ensures
            content == self@.data.content(),
    {
        match self {
            Node::Document(_) => None,
            Node::Paragraph(_) => Some(Content::Flow),
            Node::Heading(_) => Some(Content::Flow),
            Node::ThematicBreak(_) => Some(Content::Flow),
            Node::Blockquote(_) => Some(Content::Flow),
            Node::List(_) => Some(Content::Flow),
            Node::ListItem(_) => Some(Content::List),
            Node::Code(_) => Some(Content::Flow),
            Node::Definition(_) => Some(Content::Flow),
            Node::Text(_) => Some(Content::Phrasing),
            Node::Emphasis(_) => Some(Content::Phrasing),
            Node::Strong(_) => Some(Content::Phrasing),
            Node::InlineCode(_) => Some(Content::Phrasing),
            Node::Break(_) => Some(Content::Phrasing),
            Node::Link(_) => Some(Content::Phrasing),
            Node::LinkReference(_) => Some(Content::Phrasing),
            Node::Image(_) => Some(Content::Phrasing),
            Node::ImageReference(_) => Some(Content::Phrasing),
            Node::Delete(_) => Some(Content::Phrasing),
            Node::FootnoteDefinition(_) => Some(Content::Flow),
            Node::FootnoteReference(_) => Some(Content::Phrasing),
            Node::Table(_) => Some(Content::Flow),
            Node::TableRow(_) => Some(Content::Table),
            Node::TableCell(_) => Some(Content::Row),
        }
    }

    /// The role that the children of the node must play; `None` for a
    /// node that has no children.
    pub fn child_content(&self) -> (content: Option<Content>)
        ensures
            content == self@.data.child_content(),
    {
        match self {
            Node::Document(_) => Some(Content::Flow),
            Node::Paragraph(_) => Some(Content::Phrasing),
            Node::Heading(_) => Some(Content::Phrasing),
            Node::ThematicBreak(_) => None,
            Node::Blockquote(_) => Some(Content::Flow),
            Node::List(_) => Some(Content::List),
            Node::ListItem(_) => Some(Content::Flow),
            Node::Code(_) => None,
            Node::Definition(_) => None,
            Node::Text(_) => None,
            Node::Emphasis(_) => Some(Content::Phrasing),
            Node::Strong(_) => Some(Content::Phrasing),
            Node::InlineCode(_) => None,
            Node::Break(_) => None,
            Node::Link(_) => Some(Content::Phrasing),
            Node::LinkReference(_) => Some(Content::Phrasing),
            Node::Image(_) => None,
            Node::ImageReference(_) => None,
            Node::Delete(_) => Some(Content::Phrasing),
            Node::FootnoteDefinition(_) => Some(Content::Flow),
            Node::FootnoteReference(_) => None,
            Node::Table(_) => Some(Content::Table),
            Node::TableRow(_) => Some(Content::Row),
            Node::TableCell(_) => Some(Content::Phrasing),
        }
    }

    /// Whether `child` may stand under this node.
    pub fn accepts(&self, child: &Node) -> (accepted: bool)
        ensures
            accepted == self@.accepts(child@),
    {
        match (self.child_content(), child.content()) {
            (Some(wanted), Some(given)) => wanted == given,
            _ => false,
        }
    }

    /// Adds `child` behind the children that are there, if the node takes
    /// children of that kind.
    pub fn add_child_node(&mut self, child: Node) -> (result: AstResult<()>)
        ensures
            old(self)@.accepts(child@) ==> {
                &&& result is Ok
                &&& final(self).nodes() == old(self).nodes().push(child)
                &&& final(self)@ == (Tree {
                    data: old(self)@.data,
                    children: old(self)@.children.push(child@),
                })
            },
            !old(self)@.accepts(child@) ==> {
                &&& result == Err::<(), AstError>(AstError::ContentMismatch)
                &&& *final(self) == *old(self)
            },
    {
        if !self.accepts(&child) {
            return Err(AstError::ContentMismatch);
        }
        proof {
            lemma_trees_push(self.nodes(), child);
        }
        match self {
            Node::Document(x) => x.children.push(child),
            Node::Paragraph(x) => x.children.push(child),
            Node::Heading(x) => x.children.push(child),
            Node::Blockquote(x) => x.children.push(child),
            Node::List(x) => x.children.push(child),
            Node::ListItem(x) => x.children.push(child),
            Node::Emphasis(x) => x.children.push(child),
            Node::Strong(x) => x.children.push(child),
            Node::Link(x) => x.children.push(child),
            Node::LinkReference(x) => x.children.push(child),
            Node::Delete(x) => x.children.push(child),
            Node::FootnoteDefinition(x) => x.children.push(child),
            Node::Table(x) => x.children.push(child),
            Node::TableRow(x) => x.children.push(child),
            Node::TableCell(x) => x.children.push(child),
            _ => {},
        }
        Ok(())
    }
}

impl Node {
    /// The children of the node, unless it is a literal.
    pub fn child_nodes(&self) -> (children: Option<&Vec<Node>>)
        ensures
            match children {
                Some(children) => children@ == self.nodes() && self@.children == trees(children@),
                None => self.nodes().len() == 0 && self@.children.len() == 0,
            },
    {
        match self {
            Node::Document(x) => Some(&x.children),
            Node::Paragraph(x) => Some(&x.children),
            Node::Heading(x) => Some(&x.children),
            Node::ThematicBreak(x) => None,
            Node::Blockquote(x) => Some(&x.children),
            Node::List(x) => Some(&x.children),
            Node::ListItem(x) => Some(&x.children),
            Node::Code(x) => None,
            Node::Definition(x) => None,
            Node::Text(x) => None,
            Node::Emphasis(x) => Some(&x.children),
            Node::Strong(x) => Some(&x.children),
            Node::InlineCode(x) => None,
            Node::Break(x) => None,
            Node::Link(x) => Some(&x.children),
            Node::LinkReference(x) => Some(&x.children),
            Node::Image(x) => None,
            Node::ImageReference(x) => None,
            Node::Delete(x) => Some(&x.children),
            Node::FootnoteDefinition(x) => Some(&x.children),
            Node::FootnoteReference(x) => None,
            Node::Table(x) => Some(&x.children),
            Node::TableRow(x) => Some(&x.children),
            Node::TableCell(x) => Some(&x.children),
        }
    }
}

impl Document {
    /// Adds `node` behind the children that are there, if it is flow
    /// content.
    pub fn add_child_node(&mut self, node: Node) -> (result: AstResult<()>)
        ensures
            node@.data.content() == Some(Content::Flow) ==> {
                &&& result is Ok
                &&& final(self).children@ == old(self).children@.push(node)
                &&& final(self).as_node()@ == (Tree {
                    data: old(self).as_node()@.data,
                    children: old(self).as_node()@.children.push(node@),
                })
            },
            node@.data.content() != Some(Content::Flow) ==> {
                &&& result == Err::<(), AstError>(AstError::ContentMismatch)
                &&& *final(self) == *old(self)
            },
    {
        match node.content() {
            Some(Content::Flow) => {
                proof {
                    lemma_trees_push(self.children@, node);
                }
                self.children.push(node);
                Ok(())
            },
            _ => Err(AstError::ContentMismatch),
        }
    }
}

impl Paragraph {
    /// Adds `node` behind the children that are there, if it is phrasing
    /// content.
    pub fn add_child_node(&mut self, node: Node) -> (result: AstResult<()>)
        ensures
            node@.data.content() == Some(Content::Phrasing) ==> {
                &&& result is Ok
                &&& final(self).children@ == old(self).children@.push(node)
                &&& final(self).as_node()@ == (Tree {
                    data: old(self).as_node()@.data,
                    children: old(self).as_node()@.children.push(node@),
                })
            },
            node@.data.content() != Some(Content::Phrasing) ==> {
                &&& result == Err::<(), AstError>(AstError::ContentMismatch)
                &&& *final(self) == *old(self)
            },
    {
        match node.content() {
            Some(Content::Phrasing) => {
                proof {
                    lemma_trees_push(self.children@, node);
                }
                self.children.push(node);
                Ok(())
            },
            _ => Err(AstError::ContentMismatch),
        }
    }
}

impl Heading {
    /// Adds `node` behind the children that are there, if it is phrasing
    /// content.
    pub fn add_child_node(&mut self, node: Node) -> (result: AstResult<()>)
        ensures
            node@.data.content() == Some(Content::Phrasing) ==> {
                &&& result is Ok
                &&& final(self).children@ == old(self).children@.push(node)
                &&& final(self).as_node()@ == (Tree {
                    data: old(self).as_node()@.data,
                    children: old(self).as_node()@.children.push(node@),
                })
            },
            node@.data.content() != Some(Content::Phrasing) ==> {
                &&& result == Err::<(), AstError>(AstError::ContentMismatch)
                &&& *final(self) == *old(self)
            },
    {
        match node.content() {
            Some(Content::Phrasing) => {
                proof {
                    lemma_trees_push(self.children@, node);
                }
                self.children.push(node);
                Ok(())
            },
            _ => Err(AstError::ContentMismatch),
        }
    }
}

impl Blockquote {
    /// Adds `node` behind the children that are there, if it is flow
    /// content.
    pub fn add_child_node(&mut self, node: Node) -> (result: AstResult<()>)
        ensures
            node@.data.content() == Some(Content::Flow) ==> {
                &&& result is Ok
                &&& final(self).children@ == old(self).children@.push(node)
                &&& final(self).as_node()@ == (Tree {
                    data: old(self).as_node()@.data,
                    children: old(self).as_node()@.children.push(node@),
                })
            },
            node@.data.content() != Some(Content::Flow) ==> {
                &&& result == Err::<(), AstError>(AstError::ContentMismatch)
                &&& *final(self) == *old(self)
            },
    {
        match node.content() {
            Some(Content::Flow) => {
                proof {
                    lemma_trees_push(self.children@, node);
                }
                self.children.push(node);
                Ok(())
            },
            _ => Err(AstError::ContentMismatch),
        }
    }
}

impl List {
    /// Adds `node` behind the children that are there, if it is list
    /// content.
    pub fn add_child_node(&mut self, node: Node) -> (result: AstResult<()>)
        ensures
            node@.data.content() == Some(Content::List) ==> {
                &&& result is Ok
                &&& final(self).children@ == old(self).children@.push(node)
                &&& final(self).as_node()@ == (Tree {
                    data: old(self).as_node()@.data,
                    children: old(self).as_node()@.children.push(node@),
                })
            },
            node@.data.content() != Some(Content::List) ==> {
                &&& result == Err::<(), AstError>(AstError::ContentMismatch)
                &&& *final(self) == *old(self)
            },
    {
        match node.content() {
            Some(Content::List) => {
                proof {
                    lemma_trees_push(self.children@, node);
                }
                self.children.push(node);
                Ok(())
            },
            _ => Err(AstError::ContentMismatch),
        }
    }
}

impl ListItem {
    /// Adds `node` behind the children that are there, if it is flow
    /// content.
    pub fn add_child_node(&mut self, node: Node) -> (result: AstResult<()>)
        ensures
            node@.data.content() == Some(Content::Flow) ==> {
                &&& result is Ok
                &&& final(self).children@ == old(self).children@.push(node)
                &&& final(self).as_node()@ == (Tree {
                    data: old(self).as_node()@.data,
                    children: old(self).as_node()@.children.push(node@),
                })
            },
            node@.data.content() != Some(Content::Flow) ==> {
                &&& result == Err::<(), AstError>(AstError::ContentMismatch)
                &&& *final(self) == *old(self)
            },
    {
        match node.content() {
            Some(Content::Flow) => {
                proof {
                    lemma_trees_push(self.children@, node);
                }
                self.children.push(node);
                Ok(())
            },
            _ => Err(AstError::ContentMismatch),
        }
    }
}

impl Emphasis {
    /// Adds `node` behind the children that are there, if it is phrasing
    /// content.
    pub fn add_child_node(&mut self, node: Node) -> (result: AstResult<()>)
        ensures
            node@.data.content() == Some(Content::Phrasing) ==> {
                &&& result is Ok
                &&& final(self).children@ == old(self).children@.push(node)
                &&& final(self).as_node()@ == (Tree {
                    data: old(self).as_node()@.data,
                    children: old(self).as_node()@.children.push(node@),
                })
            },
            node@.data.content() != Some(Content::Phrasing) ==> {
                &&& result == Err::<(), AstError>(AstError::ContentMismatch)
                &&& *final(self) == *old(self)
            },
    {
        match node.content() {
            Some(Content::Phrasing) => {
                proof {
                    lemma_trees_push(self.children@, node);
                }
                self.children.push(node);
                Ok(())
            },
            _ => Err(AstError::ContentMismatch),
        }
    }
}

impl Strong {
    /// Adds `node` behind the children that are there, if it is phrasing
    /// content.
    pub fn add_child_node(&mut self, node: Node) -> (result: AstResult<()>)
        ensures
            node@.data.content() == Some(Content::Phrasing) ==> {
                &&& result is Ok
                &&& final(self).children@ == old(self).children@.push(node)
                &&& final(self).as_node()@ == (Tree {
                    data: old(self).as_node()@.data,
                    children: old(self).as_node()@.children.push(node@),
                })
            },
            node@.data.content() != Some(Content::Phrasing) ==> {
                &&& result == Err::<(), AstError>(AstError::ContentMismatch)
                &&& *final(self) == *old(self)
            },
    {
        match node.content() {
            Some(Content::Phrasing) => {
                proof {
                    lemma_trees_push(self.children@, node);
                }
                self.children.push(node);
                Ok(())
            },
            _ => Err(AstError::ContentMismatch),
        }
    }
}

impl Link {
    /// Adds `node` behind the children that are there, if it is phrasing
    /// content.
    pub fn add_child_node(&mut self, node: Node) -> (result: AstResult<()>)
        ensures
            node@.data.content() == Some(Content::Phrasing) ==> {
                &&& result is Ok
                &&& final(self).children@ == old(self).children@.push(node)
                &&& final(self).as_node()@ == (Tree {
                    data: old(self).as_node()@.data,
                    children: old(self).as_node()@.children.push(node@),
                })
            },
            node@.data.content() != Some(Content::Phrasing) ==> {
                &&& result == Err::<(), AstError>(AstError::ContentMismatch)
                &&& *final(self) == *old(self)
            },
    {
        match node.content() {
            Some(Content::Phrasing) => {
                proof {
                    lemma_trees_push(self.children@, node);
                }
                self.children.push(node);
                Ok(())
            },
            _ => Err(AstError::ContentMismatch),
        }
    }
}

impl LinkReference {
    /// Adds `node` behind the children that are there, if it is phrasing
    /// content.
    pub fn add_child_node(&mut self, node: Node) -> (result: AstResult<()>)
        ensures
            node@.data.content() == Some(Content::Phrasing) ==> {
                &&& result is Ok
                &&& final(self).children@ == old(self).children@.push(node)
                &&& final(self).as_node()@ == (Tree {
                    data: old(self).as_node()@.data,
                    children: old(self).as_node()@.children.push(node@),
                })
            },
            node@.data.content() != Some(Content::Phrasing) ==> {
                &&& result == Err::<(), AstError>(AstError::ContentMismatch)
                &&& *final(self) == *old(self)
            },
    {
        match node.content() {
            Some(Content::Phrasing) => {
                proof {
                    lemma_trees_push(self.children@, node);
                }
                self.children.push(node);
                Ok(())
            },
            _ => Err(AstError::ContentMismatch),
        }
    }
}

impl Delete {
    /// Adds `node` behind the children that are there, if it is phrasing
    /// content.
    pub fn add_child_node(&mut self, node: Node) -> (result: AstResult<()>)
        ensures
            node@.data.content() == Some(Content::Phrasing) ==> {
                &&& result is Ok
                &&& final(self).children@ == old(self).children@.push(node)
                &&& final(self).as_node()@ == (Tree {
                    data: old(self).as_node()@.data,
                    children: old(self).as_node()@.children.push(node@),
                })
            },
            node@.data.content() != Some(Content::Phrasing) ==> {
                &&& result == Err::<(), AstError>(AstError::ContentMismatch)
                &&& *final(self) == *old(self)
            },
    {
        match node.content() {
            Some(Content::Phrasing) => {
                proof {
                    lemma_trees_push(self.children@, node);
                }
                self.children.push(node);
                Ok(())
            },
            _ => Err(AstError::ContentMismatch),
        }
    }
}

impl FootnoteDefinition {
    /// Adds `node` behind the children that are there, if it is flow
    /// content.
    pub fn add_child_node(&mut self, node: Node) -> (result: AstResult<()>)
        ensures
            node@.data.content() == Some(Content::Flow) ==> {
                &&& result is Ok
                &&& final(self).children@ == old(self).children@.push(node)
                &&& final(self).as_node()@ == (Tree {
                    data: old(self).as_node()@.data,
                    children: old(self).as_node()@.children.push(node@),
                })
            },
            node@.data.content() != Some(Content::Flow) ==> {
                &&& result == Err::<(), AstError>(AstError::ContentMismatch)
                &&& *final(self) == *old(self)
            },
    {
        match node.content() {
            Some(Content::Flow) => {
                proof {
                    lemma_trees_push(self.children@, node);
                }
                self.children.push(node);
                Ok(())
            },
            _ => Err(AstError::ContentMismatch),
        }
    }
}

impl Table {
    /// Adds `node` behind the children that are there, if it is table
    /// content.
    pub fn add_child_node(&mut self, node: Node) -> (result: AstResult<()>)
        ensures
            node@.data.content() == Some(Content::Table) ==> {
                &&& result is Ok
                &&& final(self).children@ == old(self).children@.push(node)
                &&& final(self).as_node()@ == (Tree {
                    data: old(self).as_node()@.data,
                    children: old(self).as_node()@.children.push(node@),
                })
            },
            node@.data.content() != Some(Content::Table) ==> {
                &&& result == Err::<(), AstError>(AstError::ContentMismatch)
                &&& *final(self) == *old(self)
            },
    {
        match node.content() {
            Some(Content::Table) => {
                proof {
                    lemma_trees_push(self.children@, node);
                }
                self.children.push(node);
                Ok(())
            },
            _ => Err(AstError::ContentMismatch),
        }
    }
}

impl TableRow {
    /// Adds `node` behind the children that are there, if it is row
    /// content.
    pub fn add_child_node(&mut self, node: Node) -> (result: AstResult<()>)
        ensures
            node@.data.content() == Some(Content::Row) ==> {
                &&& result is Ok
                &&& final(self).children@ == old(self).children@.push(node)
                &&& final(self).as_node()@ == (Tree {
                    data: old(self).as_node()@.data,
                    children: old(self).as_node()@.children.push(node@),
                })
            },
            node@.data.content() != Some(Content::Row) ==> {
                &&& result == Err::<(), AstError>(AstError::ContentMismatch)
                &&& *final(self) == *old(self)
            },
    {
        match node.content() {
            Some(Content::Row) => {
                proof {
                    lemma_trees_push(self.children@, node);
                }
                self.children.push(node);
                Ok(())
            },
            _ => Err(AstError::ContentMismatch),
        }
    }
}

impl TableCell {
    /// Adds `node` behind the children that are there, if it is phrasing
    /// content.
    pub fn add_child_node(&mut self, node: Node) -> (result: AstResult<()>)
        ensures
            node@.data.content() == Some(Content::Phrasing) ==> {
                &&& result is Ok
                &&& final(self).children@ == old(self).children@.push(node)
                &&& final(self).as_node()@ == (Tree {
                    data: old(self).as_node()@.data,
                    children: old(self).as_node()@.children.push(node@),
                })
            },
            node@.data.content() != Some(Content::Phrasing) ==> {
                &&& result == Err::<(), AstError>(AstError::ContentMismatch)
                &&& *final(self) == *old(self)
            },
    {
        match node.content() {
            Some(Content::Phrasing) => {
                proof {
                    lemma_trees_push(self.children@, node);
                }
                self.children.push(node);
                Ok(())
            },
            _ => Err(AstError::ContentMismatch),
        }
    }
}

/// A copy of an optional text.
pub fn clone_text(text: &Option<String>) -> (copy: Option<String>)
    ensures
        copy == *text,
{
    match text {
        Some(text) => Some(text.clone()),
        None => None,
    }
}

/// A copy of the alignments of a table.
pub fn clone_alignments(align: &Vec<AlignType>) -> (copy: Vec<AlignType>)
    ensures
        copy@ == align@,
{
    let mut copy: Vec<AlignType> = Vec::new();
    let mut i: usize = 0;
    while i < align.len()
        invariant
            i <= align.len(),
            copy@ == align@.subrange(0, i as int),
        decreases align.len() - i,
    {
        copy.push(align[i]);
        assert(copy@ =~= align@.subrange(0, i + 1));
        i = i + 1;
    }
    assert(align@.subrange(0, align.len() as int) =~= align@);
    copy
}

/// A copy of `nodes`: the same trees, in the same order.
pub fn clone_nodes(nodes: &Vec<Node>) -> (copy: Vec<Node>)
    ensures
        trees(copy@) == trees(nodes@),
    decreases nodes,
{
    let mut copy: Vec<Node> = Vec::new();
    let mut i: usize = 0;
    assert(trees(copy@) =~= trees(nodes@).subrange(0, 0));
    while i < nodes.len()
        invariant
            i <= nodes.len(),
            trees(copy@) == trees(nodes@).subrange(0, i as int),
        decreases nodes.len() - i,
    {
        let node = nodes[i].duplicate();
        proof {
            lemma_trees_push(copy@, node);
        }
        copy.push(node);
        assert(trees(copy@) =~= trees(nodes@).subrange(0, i + 1));
        i = i + 1;
    }
    assert(trees(nodes@).subrange(0, nodes.len() as int) =~= trees(nodes@));
    copy
}

impl Node {
    /// A copy of the node: the same tree.
    pub fn duplicate(&self) -> (copy: Node)
        ensures
            copy@ == self@,
        decreases self,
    {
        match self {
            Node::Document(x) => Node::Document(Document { children: clone_nodes(&x.children) }),
            Node::Paragraph(x) => Node::Paragraph(Paragraph { children: clone_nodes(&x.children) }),
            Node::Heading(x) => Node::Heading(
                Heading { children: clone_nodes(&x.children), depth: x.depth },
            ),
            Node::ThematicBreak(_) => Node::ThematicBreak(ThematicBreak {  }),
            Node::Blockquote(x) => Node::Blockquote(
                Blockquote { children: clone_nodes(&x.children) },
            ),
            Node::List(x) => Node::List(List { children: clone_nodes(&x.children) }),
            Node::ListItem(x) => Node::ListItem(ListItem { children: clone_nodes(&x.children) }),
            Node::Code(x) => Node::Code(
                Code {
                    value: x.value.clone(),
                    lang: clone_text(&x.lang),
                    meta: clone_text(&x.meta),
                },
            ),
            Node::Definition(x) => Node::Definition(
                Definition {
                    identifier: x.identifier.clone(),
                    label: clone_text(&x.label),
                    url: x.url.clone(),
                    title: clone_text(&x.title),
                },
            ),
            Node::Text(x) => Node::Text(Text { value: x.value.clone() }),
            Node::Emphasis(x) => Node::Emphasis(Emphasis { children: clone_nodes(&x.children) }),
            Node::Strong(x) => Node::Strong(Strong { children: clone_nodes(&x.children) }),
            Node::InlineCode(x) => Node::InlineCode(InlineCode { value: x.value.clone() }),
            Node::Break(_) => Node::Break(Break {  }),
            Node::Link(x) => Node::Link(
                Link {
                    children: clone_nodes(&x.children),
                    url: x.url.clone(),
                    title: clone_text(&x.title),
                },
            ),
            Node::LinkReference(x) => Node::LinkReference(
                LinkReference {
                    children: clone_nodes(&x.children),
                    identifier: x.identifier.clone(),
                    label: clone_text(&x.label),
                    reference_type: x.reference_type,
                },
            ),
            Node::Image(x) => Node::Image(
                Image { url: x.url.clone(), title: clone_text(&x.title), alt: clone_text(&x.alt) },
            ),
            Node::ImageReference(x) => Node::ImageReference(
                ImageReference {
                    identifier: x.identifier.clone(),
                    label: clone_text(&x.label),
                    reference_type: x.reference_type,
                    alt: clone_text(&x.alt),
                },
            ),
            Node::Delete(x) => Node::Delete(Delete { children: clone_nodes(&x.children) }),
            Node::FootnoteDefinition(x) => Node::FootnoteDefinition(
                FootnoteDefinition {
                    children: clone_nodes(&x.children),
                    identifier: x.identifier.clone(),
                    label: clone_text(&x.label),
                },
            ),
            Node::FootnoteReference(x) => Node::FootnoteReference(
                FootnoteReference { identifier: x.identifier.clone(), label: clone_text(&x.label) },
            ),
            Node::Table(x) => Node::Table(
                Table { children: clone_nodes(&x.children), align: clone_alignments(&x.align) },
            ),
            Node::TableRow(x) => Node::TableRow(TableRow { children: clone_nodes(&x.children) }),
            Node::TableCell(x) => Node::TableCell(TableCell { children: clone_nodes(&x.children) }),
        }
    }
}

impl Clone for Node {
    fn clone(&self) -> (copy: Self)
        ensures
            copy@ == self@,
    {
        self.duplicate()
    }
}

impl Clone for Document {
    fn clone(&self) -> (copy: Self)
        ensures
            copy.as_node()@ == self.as_node()@,
    {
        Document { children: clone_nodes(&self.children) }
    }
}

impl Clone for Paragraph {
    fn clone(&self) -> (copy: Self)
        ensures
            copy.as_node()@ == self.as_node()@,
    {
        Paragraph { children: clone_nodes(&self.children) }
    }
}

impl Clone for Heading {
    fn clone(&self) -> (copy: Self)
        ensures
            copy.as_node()@ == self.as_node()@,
    {
        Heading { children: clone_nodes(&self.children), depth: self.depth }
    }
}

impl Clone for ThematicBreak {
    fn clone(&self) -> (copy: Self)
        ensures
            copy.as_node()@ == self.as_node()@,
    {
        ThematicBreak {  }
    }
}

impl Clone for Blockquote {
    fn clone(&self) -> (copy: Self)
        ensures
            copy.as_node()@ == self.as_node()@,
    {
        Blockquote { children: clone_nodes(&self.children) }
    }
}

impl Clone for List {
    fn clone(&self) -> (copy: Self)
        ensures
            copy.as_node()@ == self.as_node()@,
    {
        List { children: clone_nodes(&self.children) }
    }
}

impl Clone for ListItem {
    fn clone(&self) -> (copy: Self)
        ensures
            copy.as_node()@ == self.as_node()@,
    {
        ListItem { children: clone_nodes(&self.children) }
    }
}

impl Clone for Code {
    fn clone(&self) -> (copy: Self)
        ensures
            copy.as_node()@ == self.as_node()@,
    {
        Code {
            value: self.value.clone(),
            lang: clone_text(&self.lang),
            meta: clone_text(&self.meta),
        }
    }
}

impl Clone for Definition {
    fn clone(&self) -> (copy: Self)
        ensures
            copy.as_node()@ == self.as_node()@,
    {
        Definition {
            identifier: self.identifier.clone(),
            label: clone_text(&self.label),
            url: self.url.clone(),
            title: clone_text(&self.title),
        }
    }
}

impl Clone for Text {
    fn clone(&self) -> (copy: Self)
        ensures
            copy.as_node()@ == self.as_node()@,
    {
        Text { value: self.value.clone() }
    }
}

impl Clone for Emphasis {
    fn clone(&self) -> (copy: Self)
        ensures
            copy.as_node()@ == self.as_node()@,
    {
        Emphasis { children: clone_nodes(&self.children) }
    }
}

impl Clone for Strong {
    fn clone(&self) -> (copy: Self)
        ensures
            copy.as_node()@ == self.as_node()@,
    {
        Strong { children: clone_nodes(&self.children) }
    }
}

impl Clone for InlineCode {
    fn clone(&self) -> (copy: Self)
        ensures
            copy.as_node()@ == self.as_node()@,
    {
        InlineCode { value: self.value.clone() }
    }
}

impl Clone for Break {
    fn clone(&self) -> (copy: Self)
        ensures
            copy.as_node()@ == self.as_node()@,
    {
        Break {  }
    }
}

impl Clone for Link {
    fn clone(&self) -> (copy: Self)
        ensures
            copy.as_node()@ == self.as_node()@,
    {
        Link {
            children: clone_nodes(&self.children),
            url: self.url.clone(),
            title: clone_text(&self.title),
        }
    }
}

impl Clone for LinkReference {
    fn clone(&self) -> (copy: Self)
        ensures
            copy.as_node()@ == self.as_node()@,
    {
        LinkReference {
            children: clone_nodes(&self.children),
            identifier: self.identifier.clone(),
            label: clone_text(&self.label),
            reference_type: self.reference_type,
        }
    }
}

impl Clone for Image {
    fn clone(&self) -> (copy: Self)
        ensures
            copy.as_node()@ == self.as_node()@,
    {
        Image { url: self.url.clone(), title: clone_text(&self.title), alt: clone_text(&self.alt) }
    }
}

impl Clone for ImageReference {
    fn clone(&self) -> (copy: Self)
        ensures
            copy.as_node()@ == self.as_node()@,
    {
        ImageReference {
            identifier: self.identifier.clone(),
            label: clone_text(&self.label),
            reference_type: self.reference_type,
            alt: clone_text(&self.alt),
        }
    }
}

impl Clone for Delete {
    fn clone(&self) -> (copy: Self)
        ensures
            copy.as_node()@ == self.as_node()@,
    {
        Delete { children: clone_nodes(&self.children) }
    }
}

impl Clone for FootnoteDefinition {
    fn clone(&self) -> (copy: Self)
        ensures
            copy.as_node()@ == self.as_node()@,
    {
        FootnoteDefinition {
            children: clone_nodes(&self.children),
            identifier: self.identifier.clone(),
            label: clone_text(&self.label),
        }
    }
}

impl Clone for FootnoteReference {
    fn clone(&self) -> (copy: Self)
        ensures
            copy.as_node()@ == self.as_node()@,
    {
        FootnoteReference { identifier: self.identifier.clone(), label: clone_text(&self.label) }
    }
}

impl Clone for Table {
    fn clone(&self) -> (copy: Self)
        ensures
            copy.as_node()@ == self.as_node()@,
    {
        Table { children: clone_nodes(&self.children), align: clone_alignments(&self.align) }
    }
}

impl Clone for TableRow {
    fn clone(&self) -> (copy: Self)
        ensures
            copy.as_node()@ == self.as_node()@,
    {
        TableRow { children: clone_nodes(&self.children) }
    }
}

impl Clone for TableCell {
    fn clone(&self) -> (copy: Self)
        ensures
            copy.as_node()@ == self.as_node()@,
    {
        TableCell { children: clone_nodes(&self.children) }
    }
}

} // verus!
