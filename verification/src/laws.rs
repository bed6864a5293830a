use vstd::prelude::*;

use crate::ascii::{is_line_break, is_whitespace, LEFT_BRACKET, QUOTE, RIGHT_BRACKET, RIGHT_PAREN};
use crate::ast::{
    content_run, lemma_parent_of, phrasing_run, Content, NodeData, ReferenceType, Tree,
};
use crate::block::{
    block_at, blocks, blocks_from, closes_fence, definition_at, definitions_in, document,
    fence_close, fence_length, following_line, footnote_at, footnote_label_end, footnote_lines,
    heading_at, heading_depth, interrupts, is_break_line, is_quote_line, item_lines,
    item_marker_end, lemma_container_lines, lemma_following_line, lemma_footnote_label_end,
    lemma_item_marker_end, lemma_quote_body, list_at, list_items, marker, marker_style,
    paragraph_at, paragraph_end, quote_body, skip_blank_lines, FOOTNOTE_INDENT,
};
use crate::inline::{
    address_end, advance, blank_end, delimiter_of, destination_at, emphasis_at, find_bracket,
    find_byte, find_run, find_tildes, flushed, inline_scan, inlines, is_phrase, is_tildes,
    key_char_at, lemma_find_byte, link_at, link_children, link_from, link_tail, phrase_at,
    plain_at, reference, resource, token_end, Delimiter, LinkTail, Phrase,
};
use crate::lexer::{lemma_run_end, token_at, CharClass, Token};
use crate::line::{lemma_line_end, line_end, next_line};
use crate::parser::is_flow;
use crate::table::{
    cell_end, empty_cell, row_at, row_cells, row_start, table_at, table_columns, table_rows,
};

verus! {

/// Nodes with a text behind them, where the last node is no text, are
/// phrasing content with no text next to another text.
pub proof fn lemma_flushed(trees: Seq<Tree>, text: Seq<char>)
    requires
        phrasing_run(trees),
        trees.len() > 0 ==> !trees.last().is_text(),
    ensures
        phrasing_run(flushed(trees, text)),
{
    let after = flushed(trees, text);
    if text.len() > 0 {
        let node = Tree::leaf(NodeData::Text { value: text });
        assert(node.well_formed());
        assert(node.coalesced());
        assert forall|i: int| 0 <= i < after.len() implies (#[trigger] after[i]).data.content()
            == Some(Content::Phrasing) && after[i].well_formed() && after[i].coalesced() by {
            if i < trees.len() {
                assert(after[i] == trees[i]);
            }
        }
        assert forall|i: int| 0 <= i < after.len() - 1 implies !((#[trigger] after[i]).is_text()
            && after[i + 1].is_text()) by {
            if i + 1 < trees.len() {
                assert(after[i] == trees[i]);
                assert(after[i + 1] == trees[i + 1]);
            } else {
                assert(after[i] == trees.last());
            }
        }
    }
}

/// A node that is no text, behind phrasing content with no text next to
/// another text, keeps it so.
pub proof fn lemma_pushed(trees: Seq<Tree>, tree: Tree)
    requires
        phrasing_run(trees),
        is_phrase(tree),
    ensures
        phrasing_run(trees.push(tree)),
        !trees.push(tree).last().is_text(),
{
    let after = trees.push(tree);
    assert forall|i: int| 0 <= i < after.len() implies (#[trigger] after[i]).data.content()
        == Some(Content::Phrasing) && after[i].well_formed() && after[i].coalesced() by {
        if i < trees.len() {
            assert(after[i] == trees[i]);
        }
    }
    assert forall|i: int| 0 <= i < after.len() - 1 implies !((#[trigger] after[i]).is_text()
        && after[i + 1].is_text()) by {
        if i + 1 < trees.len() {
            assert(after[i] == trees[i]);
            assert(after[i + 1] == trees[i + 1]);
        }
    }
}

/// The phrasing content of a span is phrasing content, well formed, with
/// no text next to another text.
pub proof fn lemma_inlines(bytes: Seq<u8>, start: int, end: int, definitions: Seq<Seq<char>>)
    ensures
        phrasing_run(inlines(bytes, start, end, definitions)),
    decreases end - start, 5int,
{
    if !(start < 0 || start > end) {
        lemma_inline_scan(bytes, start, end, definitions, Seq::empty(), Seq::empty());
    }
}

/// The scan of a span keeps what it has found phrasing content with no
/// text next to another text.
pub proof fn lemma_inline_scan(
    bytes: Seq<u8>,
    pos: int,
    end: int,
    definitions: Seq<Seq<char>>,
    trees: Seq<Tree>,
    text: Seq<char>,
)
    requires
        phrasing_run(trees),
        trees.len() > 0 ==> !trees.last().is_text(),
    ensures
        phrasing_run(inline_scan(bytes, pos, end, definitions, trees, text)),
    decreases end - pos, 4int,
{
    if pos < 0 || pos >= end {
        lemma_flushed(trees, text);
    } else {
        let phrase = phrase_at(bytes, pos, end, definitions);
        let next = advance(pos, phrase.next(), end);
        lemma_phrase_at(bytes, pos, end, definitions);
        match phrase {
            Phrase::Node { tree, .. } => {
                lemma_flushed(trees, text);
                lemma_pushed(flushed(trees, text), tree);
                lemma_inline_scan(
                    bytes,
                    next,
                    end,
                    definitions,
                    flushed(trees, text).push(tree),
                    Seq::empty(),
                );
            },
            Phrase::Text { text: more, .. } => {
                lemma_inline_scan(bytes, next, end, definitions, trees, text + more);
            },
            Phrase::Skip { .. } => {
                lemma_inline_scan(bytes, next, end, definitions, trees, text);
            },
        }
    }
}

/// Whether the node that a step of the scan finds, if it finds one, is
/// phrasing content other than a text.
pub open spec fn is_phrasing(phrase: Phrase) -> bool {
    phrase matches Phrase::Node { tree, .. } ==> is_phrase(tree)
}

/// A node over phrasing content is itself phrasing content, if its kind is.
pub proof fn lemma_phrase_over(data: NodeData, children: Seq<Tree>)
    requires
        phrasing_run(children),
        data.child_content() == Some(Content::Phrasing),
        data.content() == Some(Content::Phrasing),
    ensures
        is_phrase(Tree { data, children }),
{
    lemma_parent_of(data, children, Content::Phrasing);
}

/// Every node that a step of the scan finds is phrasing content other
/// than a text.
pub proof fn lemma_phrase_at(bytes: Seq<u8>, pos: int, end: int, definitions: Seq<Seq<char>>)
    ensures
        is_phrasing(phrase_at(bytes, pos, end, definitions)),
    decreases end - pos, 3int,
{
    let token = token_at(bytes, pos);
    let stop = token_end(bytes, pos, end);
    if !(pos < 0 || pos >= end) {
        match token {
            Token::Backticks(_) => {},
            Token::Asterisks(_) => {
                lemma_emphasis_at(bytes, pos, stop, end, Delimiter::Asterisks, definitions);
            },
            Token::Underscores(_) => {
                lemma_emphasis_at(bytes, pos, stop, end, Delimiter::Underscores, definitions);
            },
            Token::KeyChar(_) => {
                lemma_key_char_at(bytes, pos, stop, end, definitions);
            },
            Token::WhiteSpaces(_) => {},
            Token::LineBreaks(_) => {},
            Token::PlainText(_) => {
                lemma_plain_at(bytes, pos, stop, end, definitions);
            },
            _ => {},
        }
    }
}

/// What a run of `*` or `_` opens is phrasing content.
pub proof fn lemma_emphasis_at(
    bytes: Seq<u8>,
    pos: int,
    stop: int,
    end: int,
    delimiter: Delimiter,
    definitions: Seq<Seq<char>>,
)
    ensures
        is_phrasing(emphasis_at(bytes, pos, stop, end, delimiter, definitions)),
    decreases end - pos, 1int,
{
    match find_run(bytes, stop, end, delimiter, stop - pos) {
        Some(close) => {
            if pos < stop <= close <= end {
                lemma_inlines(bytes, stop, close, definitions);
                let children = inlines(bytes, stop, close, definitions);
                lemma_phrase_over(NodeData::Emphasis, children);
                lemma_phrase_over(NodeData::Strong, children);
            }
        },
        None => {},
    }
}

/// What a plain token is, if it is not text, is phrasing content.
pub proof fn lemma_plain_at(
    bytes: Seq<u8>,
    pos: int,
    stop: int,
    end: int,
    definitions: Seq<Seq<char>>,
)
    ensures
        is_phrasing(plain_at(bytes, pos, stop, end, definitions)),
    decreases end - pos, 1int,
{
    match find_tildes(bytes, pos, end, pos + 2) {
        Some(close) => {
            if is_tildes(bytes, pos) && pos + 2 < close && close + 2 <= end {
                lemma_inlines(bytes, pos + 2, close, definitions);
                lemma_phrase_over(NodeData::Delete, inlines(bytes, pos + 2, close, definitions));
            }
        },
        None => {},
    }
}

/// What a reserved byte is, if it is not text, is phrasing content.
pub proof fn lemma_key_char_at(
    bytes: Seq<u8>,
    pos: int,
    stop: int,
    end: int,
    definitions: Seq<Seq<char>>,
)
    ensures
        is_phrasing(key_char_at(bytes, pos, stop, end, definitions)),
    decreases end - pos, 2int,
{
    lemma_link_at(bytes, pos, pos, end, definitions);
    lemma_link_at(bytes, pos, pos + 1, end, definitions);
}

/// A link or an image is phrasing content.
pub proof fn lemma_link_at(
    bytes: Seq<u8>,
    pos: int,
    open: int,
    end: int,
    definitions: Seq<Seq<char>>,
)
    ensures
        is_phrasing(link_at(bytes, pos, open, end, definitions)),
    decreases end - pos, 1int,
{
    match find_bracket(bytes, open + 1, end, 0) {
        Some(close) => {
            lemma_link_from(bytes, pos, open, close, end, definitions);
        },
        None => {},
    }
}

/// A link or an image is phrasing content.
pub proof fn lemma_link_from(
    bytes: Seq<u8>,
    pos: int,
    open: int,
    close: int,
    end: int,
    definitions: Seq<Seq<char>>,
)
    ensures
        is_phrasing(link_from(bytes, pos, open, close, end, definitions)),
    decreases end - pos, 0int,
{
    let image = open != pos;
    if pos <= open < close < end {
        let children = link_children(bytes, open, close, image, definitions);
        if !image {
            lemma_inlines(bytes, open + 1, close, definitions);
        }
        assert(phrasing_run(children));
        match link_tail(bytes, close + 1, end) {
            LinkTail::Resource { destination } => {
                let tree = resource(bytes, open, close, destination, image, children);
                if !image {
                    lemma_phrase_over(tree.data, children);
                }
            },
            LinkTail::Full { label_start, label_end, .. } => {
                lemma_reference(
                    bytes,
                    open,
                    close,
                    label_start as int,
                    label_end as int,
                    image,
                    children,
                );
            },
            LinkTail::Collapsed { .. } => {
                lemma_reference(bytes, open, close, open + 1, close, image, children);
            },
            LinkTail::Missing => {
                lemma_reference(bytes, open, close, open + 1, close, image, children);
            },
        }
    }
}

/// A reference is phrasing content, however it was written.
pub proof fn lemma_reference(
    bytes: Seq<u8>,
    open: int,
    close: int,
    label_start: int,
    label_end: int,
    image: bool,
    children: Seq<Tree>,
)
    requires
        phrasing_run(children),
    ensures
        forall|reference_type: ReferenceType|
            is_phrase(
                #[trigger] reference(
                    bytes,
                    open,
                    close,
                    label_start,
                    label_end,
                    reference_type,
                    image,
                    children,
                ),
            ),
{
    assert forall|reference_type: ReferenceType|
        is_phrase(
            #[trigger] reference(
                bytes,
                open,
                close,
                label_start,
                label_end,
                reference_type,
                image,
                children,
            ),
        ) by {
        let tree = reference(
            bytes,
            open,
            close,
            label_start,
            label_end,
            reference_type,
            image,
            children,
        );
        if !image {
            lemma_phrase_over(tree.data, children);
        }
    }
}

/// A tree of the right kind, well formed and with no text next to another
/// text, keeps a run of such trees one when it is added to it.
pub proof fn lemma_run_push(trees: Seq<Tree>, tree: Tree, content: Content)
    requires
        content_run(trees, content),
        tree.data.content() == Some(content),
        tree.well_formed(),
        tree.coalesced(),
    ensures
        content_run(trees.push(tree), content),
{
    let after = trees.push(tree);
    assert forall|i: int| 0 <= i < after.len() implies (#[trigger] after[i]).data.content()
        == Some(content) && after[i].well_formed() && after[i].coalesced() by {
        if i < trees.len() {
            assert(after[i] == trees[i]);
        }
    }
}

/// The cells of a row are cells, well formed, with no text next to
/// another text.
pub proof fn lemma_row_cells(
    bytes: Seq<u8>,
    pos: int,
    stop: int,
    definitions: Seq<Seq<char>>,
    count: int,
    cells: Seq<Tree>,
)
    requires
        content_run(cells, Content::Row),
    ensures
        content_run(row_cells(bytes, pos, stop, definitions, count, cells), Content::Row),
    decreases count - cells.len(),
{
    if cells.len() < count {
        if pos < 0 || pos >= stop {
            lemma_parent_of(NodeData::TableCell, Seq::empty(), Content::Phrasing);
            lemma_run_push(cells, empty_cell(), Content::Row);
            lemma_row_cells(bytes, pos, stop, definitions, count, cells.push(empty_cell()));
        } else {
            let end = cell_end(bytes, pos, stop);
            let children = inlines(bytes, blank_end(bytes, pos, end), end, definitions);
            let cell = Tree { data: NodeData::TableCell, children };
            lemma_inlines(bytes, blank_end(bytes, pos, end), end, definitions);
            lemma_parent_of(NodeData::TableCell, children, Content::Phrasing);
            lemma_run_push(cells, cell, Content::Row);
            lemma_row_cells(
                bytes,
                if end < stop {
                    end + 1
                } else {
                    stop
                },
                stop,
                definitions,
                count,
                cells.push(cell),
            );
        }
    }
}

/// The rows of a table are rows, well formed, with no text next to
/// another text.
pub proof fn lemma_table_rows(
    bytes: Seq<u8>,
    pos: int,
    definitions: Seq<Seq<char>>,
    count: int,
    rows: Seq<Tree>,
)
    requires
        content_run(rows, Content::Table),
    ensures
        content_run(table_rows(bytes, pos, definitions, count, rows).0, Content::Table),
    decreases bytes.len() - pos,
{
    if !(pos < 0 || pos >= bytes.len() || interrupts(bytes, pos)) {
        lemma_row_at(bytes, pos, definitions, count);
        lemma_run_push(rows, row_at(bytes, pos, definitions, count), Content::Table);
        lemma_table_rows(
            bytes,
            following_line(bytes, pos),
            definitions,
            count,
            rows.push(row_at(bytes, pos, definitions, count)),
        );
    }
}

/// A row is table content, well formed, with no text next to another
/// text.
pub proof fn lemma_row_at(bytes: Seq<u8>, pos: int, definitions: Seq<Seq<char>>, count: int)
    ensures
        row_at(bytes, pos, definitions, count).data.content() == Some(Content::Table),
        row_at(bytes, pos, definitions, count).well_formed(),
        row_at(bytes, pos, definitions, count).coalesced(),
{
    lemma_row_cells(
        bytes,
        row_start(bytes, pos),
        line_end(bytes, pos),
        definitions,
        count,
        Seq::empty(),
    );
    lemma_parent_of(
        NodeData::TableRow,
        row_at(bytes, pos, definitions, count).children,
        Content::Row,
    );
}

/// A table is a block.
pub proof fn lemma_table_at(bytes: Seq<u8>, pos: int, definitions: Seq<Seq<char>>)
    ensures
        is_flow(table_at(bytes, pos, definitions).tree),
{
    let columns = table_columns(bytes, pos)->0;
    let count = columns.len() as int;
    let body = following_line(bytes, following_line(bytes, pos));
    let header = row_at(bytes, pos, definitions, count);
    lemma_row_at(bytes, pos, definitions, count);
    lemma_run_push(Seq::empty(), header, Content::Table);
    assert(Seq::<Tree>::empty().push(header) =~= seq![header]);
    lemma_table_rows(bytes, body, definitions, count, seq![header]);
    lemma_parent_of(
        NodeData::Table { align: columns },
        table_at(bytes, pos, definitions).tree.children,
        Content::Table,
    );
}

/// The blocks of a source are blocks.
pub proof fn lemma_blocks(bytes: Seq<u8>, definitions: Seq<Seq<char>>)
    ensures
        content_run(blocks(bytes, definitions), Content::Flow),
    decreases bytes.len(), bytes.len() + 1, 0int,
{
    lemma_blocks_from(bytes, 0, definitions, Seq::empty());
}

/// The blocks from an offset on, behind blocks, are blocks.
pub proof fn lemma_blocks_from(
    bytes: Seq<u8>,
    pos: int,
    definitions: Seq<Seq<char>>,
    trees: Seq<Tree>,
)
    requires
        content_run(trees, Content::Flow),
    ensures
        content_run(blocks_from(bytes, pos, definitions, trees), Content::Flow),
    decreases bytes.len(), bytes.len() - pos, 3int,
{
    let start = skip_blank_lines(bytes, pos);
    if !(pos < 0 || start < pos || start >= bytes.len()) {
        let block = block_at(bytes, start, definitions);
        lemma_block_at(bytes, start, definitions);
        lemma_run_push(trees, block.tree, Content::Flow);
        lemma_blocks_from(
            bytes,
            advance(start, block.next, bytes.len() as int),
            definitions,
            trees.push(block.tree),
        );
    }
}

/// The items of a list are list content, well formed, with no text next
/// to another text.
pub proof fn lemma_list_items(
    bytes: Seq<u8>,
    pos: int,
    style: u8,
    definitions: Seq<Seq<char>>,
    trees: Seq<Tree>,
)
    requires
        content_run(trees, Content::List),
    ensures
        content_run(list_items(bytes, pos, style, definitions, trees).0, Content::List),
    decreases bytes.len(), bytes.len() - pos, 0int,
{
    if !(pos < 0 || pos >= bytes.len() || item_marker_end(bytes, pos) is None) {
        let lines = item_lines(bytes, pos);
        lemma_item_marker_end(bytes, pos);
        lemma_container_lines(
            bytes,
            pos,
            item_marker_end(bytes, pos)->0 + 1,
            item_marker_end(bytes, pos)->0 + 1 - pos,
        );
        lemma_blocks(lines.inner, definitions);
        let item = Tree { data: NodeData::ListItem, children: blocks(lines.inner, definitions) };
        lemma_parent_of(NodeData::ListItem, item.children, Content::Flow);
        lemma_run_push(trees, item, Content::List);
        let end = advance(pos, lines.end, bytes.len() as int);
        let resume = skip_blank_lines(bytes, end);
        if pos < resume < bytes.len() && item_marker_end(bytes, resume) is Some && marker_style(
            bytes,
            resume,
        ) == style {
            lemma_list_items(bytes, resume, style, definitions, trees.push(item));
        }
    }
}

/// Every block is flow content, well formed, with no text next to another
/// text.
pub proof fn lemma_block_at(bytes: Seq<u8>, pos: int, definitions: Seq<Seq<char>>)
    ensures
        is_flow(block_at(bytes, pos, definitions).tree),
    decreases bytes.len(), bytes.len() - pos, 2int,
{
    if pos < 0 || pos >= bytes.len() {
    } else if is_quote_line(bytes, pos) {
        let body = quote_body(bytes, pos, false);
        lemma_quote_body(bytes, pos, false);
        lemma_blocks(body.inner, definitions);
        lemma_parent_of(NodeData::Blockquote, blocks(body.inner, definitions), Content::Flow);
    } else if fence_length(bytes, pos) is Some {
    } else if heading_depth(bytes, pos) is Some {
        let tree = heading_at(bytes, pos, definitions).tree;
        let stop = line_end(bytes, pos);
        lemma_inlines(
            bytes,
            blank_end(bytes, marker(bytes, pos) + heading_depth(bytes, pos)->0, stop),
            stop,
            definitions,
        );
        lemma_parent_of(tree.data, tree.children, Content::Phrasing);
    } else if is_break_line(bytes, pos) {
    } else if item_marker_end(bytes, pos) is Some {
        lemma_list_items(bytes, pos, marker_style(bytes, pos), definitions, Seq::empty());
        lemma_parent_of(
            NodeData::List,
            list_at(bytes, pos, definitions).tree.children,
            Content::List,
        );
    } else if definition_at(bytes, pos) is Some {
    } else if footnote_label_end(bytes, pos) is Some {
        let body = footnote_lines(bytes, pos);
        let tree = footnote_at(bytes, pos, definitions).tree;
        lemma_footnote_label_end(bytes, pos);
        lemma_container_lines(
            bytes,
            pos,
            blank_end(bytes, footnote_label_end(bytes, pos)->0 + 2, line_end(bytes, pos)),
            FOOTNOTE_INDENT as int,
        );
        lemma_blocks(body.inner, definitions);
        lemma_parent_of(tree.data, blocks(body.inner, definitions), Content::Flow);
    } else if table_columns(bytes, pos) is Some {
        lemma_table_at(bytes, pos, definitions);
    } else {
        let tree = paragraph_at(bytes, pos, definitions).tree;
        lemma_inlines(
            bytes,
            marker(bytes, pos),
            paragraph_end(bytes, pos),
            definitions,
        );
        lemma_parent_of(tree.data, tree.children, Content::Phrasing);
    }
}

/// Every document keeps the content model: each node holds only children
/// of the kind that it takes, a list only items, a table only rows, a row
/// only cells; a heading has a depth from one to six; and no text stands
/// next to another text.
pub proof fn lemma_document(bytes: Seq<u8>, pos: int)
    ensures
        document(bytes, pos).well_formed(),
        document(bytes, pos).coalesced(),
{
    let first = blocks_from(bytes, pos, Seq::empty(), Seq::empty());
    let definitions = definitions_in(first, first.len());
    lemma_blocks_from(bytes, pos, definitions, Seq::empty());
    lemma_parent_of(NodeData::Document, document(bytes, pos).children, Content::Flow);
}

/// Whether `next` lies behind `pos` and inside the span that ends at
/// `end`.
pub open spec fn is_progress(pos: int, next: int, end: int) -> bool {
    pos < next <= end
}

/// A run that was found lies in the span that was searched, and ends in
/// it.
pub proof fn lemma_find_run(bytes: Seq<u8>, pos: int, end: int, delimiter: Delimiter, length: int)
    requires
        find_run(bytes, pos, end, delimiter, length) is Some,
    ensures
        pos <= find_run(bytes, pos, end, delimiter, length)->0,
        find_run(bytes, pos, end, delimiter, length)->0 + length <= end,
    decreases end - pos,
{
    if !(pos < 0 || pos >= end) && !(delimiter_of(token_at(bytes, pos)) == Some(
        delimiter,
    ) && token_end(bytes, pos, end) - pos == length) {
        lemma_find_run(bytes, token_end(bytes, pos, end), end, delimiter, length);
    }
}

/// Tildes that were found lie behind the content that they end, inside
/// the span that was searched.
pub proof fn lemma_find_tildes(bytes: Seq<u8>, pos: int, end: int, from: int)
    requires
        find_tildes(bytes, pos, end, from) is Some,
    ensures
        from < find_tildes(bytes, pos, end, from)->0,
        find_tildes(bytes, pos, end, from)->0 + 2 <= end,
    decreases end - pos,
{
    let stop = token_end(bytes, pos, end);
    if !(pos < 0 || pos >= end) && !(token_at(bytes, pos) is PlainText && from < stop - 2
        && is_tildes(bytes, stop - 2)) {
        lemma_find_tildes(bytes, stop, end, from);
    }
}

/// A closing bracket that was found lies in the span that was searched.
pub proof fn lemma_find_bracket(bytes: Seq<u8>, pos: int, end: int, depth: nat)
    requires
        find_bracket(bytes, pos, end, depth) is Some,
    ensures
        pos <= find_bracket(bytes, pos, end, depth)->0 < end,
    decreases end - pos,
{
    if !(pos < 0 || pos >= end) {
        if token_at(bytes, pos) is KeyChar && bytes[pos] == RIGHT_BRACKET {
            if depth != 0 {
                lemma_find_bracket(bytes, pos + 1, end, (depth - 1) as nat);
            }
        } else if token_at(bytes, pos) is KeyChar && bytes[pos] == LEFT_BRACKET {
            lemma_find_bracket(bytes, pos + 1, end, depth + 1);
        } else {
            lemma_find_bracket(bytes, token_end(bytes, pos, end), end, depth);
        }
    }
}

/// An address ends behind its start, inside the span.
pub proof fn lemma_address_end(bytes: Seq<u8>, pos: int, end: int, stop: u8)
    requires
        0 <= pos <= end,
    ensures
        pos <= address_end(bytes, pos, end, stop) <= end,
    decreases end - pos,
{
    if !(pos >= end || pos >= bytes.len()) && !(is_whitespace(bytes[pos])
        || is_line_break(bytes[pos]) || bytes[pos] == stop) {
        lemma_address_end(bytes, pos + 1, end, stop);
    }
}

/// Spaces and tabs end behind their start, inside the span.
pub proof fn lemma_blank_end(bytes: Seq<u8>, pos: int, end: int)
    requires
        0 <= pos <= end,
        pos <= bytes.len(),
    ensures
        pos <= blank_end(bytes, pos, end) <= end,
{
    lemma_run_end(bytes, pos, CharClass::WhiteSpace);
}

/// A destination ends behind its start, inside the span.
pub proof fn lemma_destination_at(bytes: Seq<u8>, pos: int, end: int, stop: u8)
    requires
        0 <= pos <= end <= bytes.len() <= usize::MAX,
        destination_at(bytes, pos, end, stop) is Some,
    ensures
        pos <= destination_at(bytes, pos, end, stop)->0.next <= end,
{
    let url_start = blank_end(bytes, pos, end);
    lemma_blank_end(bytes, pos, end);
    let url_end = address_end(bytes, url_start, end, stop);
    lemma_address_end(bytes, url_start, end, stop);
    let gap_end = blank_end(bytes, url_end, end);
    lemma_blank_end(bytes, url_end, end);
    if gap_end > url_end && gap_end < end && bytes[gap_end] == QUOTE {
        lemma_find_byte(bytes, gap_end + 1, end, QUOTE);
        let quote = find_byte(bytes, gap_end + 1, end, QUOTE)->0;
        lemma_blank_end(bytes, quote + 1, end);
    }
}

/// A link or an image ends behind its start, inside the span; so does the
/// text that a bracket is if it opens neither.
pub proof fn lemma_link_progress(
    bytes: Seq<u8>,
    pos: int,
    open: int,
    end: int,
    definitions: Seq<Seq<char>>,
)
    requires
        0 <= pos <= open < end <= bytes.len() <= usize::MAX,
    ensures
        is_progress(pos, link_at(bytes, pos, open, end, definitions).next(), end),
{
    match find_bracket(bytes, open + 1, end, 0) {
        Some(close) => {
            lemma_find_bracket(bytes, open + 1, end, 0);
            let image = open != pos;
            match link_tail(bytes, close + 1, end) {
                LinkTail::Resource { .. } => {
                    lemma_destination_at(bytes, close + 2, end, RIGHT_PAREN);
                },
                LinkTail::Full { .. } => {
                    lemma_find_byte(
                        bytes,
                        close + 2,
                        end,
                        RIGHT_BRACKET,
                    );
                },
                LinkTail::Collapsed { .. } => {
                    lemma_find_byte(
                        bytes,
                        close + 2,
                        end,
                        RIGHT_BRACKET,
                    );
                },
                LinkTail::Missing => {},
            }
        },
        None => {},
    }
}

/// Every step of the scan ends behind where it started, inside the span:
/// the scan goes on where the step ended.
pub proof fn lemma_scan_progress(
    bytes: Seq<u8>,
    pos: int,
    end: int,
    definitions: Seq<Seq<char>>,
)
    requires
        0 <= pos < end <= bytes.len() <= usize::MAX,
    ensures
        is_progress(pos, phrase_at(bytes, pos, end, definitions).next(), end),
        advance(pos, phrase_at(bytes, pos, end, definitions).next(), end) == phrase_at(
            bytes,
            pos,
            end,
            definitions,
        ).next(),
{
    let token = token_at(bytes, pos);
    let stop = token_end(bytes, pos, end);
    lemma_blank_end(bytes, stop, end);
    if stop < end {
        lemma_blank_end(bytes, token_end(bytes, stop, end), end);
    }
    match token {
        Token::Backticks(_) => {
            if find_run(bytes, stop, end, Delimiter::Backticks, stop - pos) is Some {
                lemma_find_run(bytes, stop, end, Delimiter::Backticks, stop - pos);
            }
        },
        Token::Asterisks(_) => {
            if find_run(bytes, stop, end, Delimiter::Asterisks, stop - pos) is Some {
                lemma_find_run(bytes, stop, end, Delimiter::Asterisks, stop - pos);
            }
        },
        Token::Underscores(_) => {
            if find_run(bytes, stop, end, Delimiter::Underscores, stop - pos) is Some {
                lemma_find_run(bytes, stop, end, Delimiter::Underscores, stop - pos);
            }
        },
        Token::KeyChar(_) => {
            lemma_link_progress(bytes, pos, pos, end, definitions);
            if pos + 1 < end {
                lemma_link_progress(bytes, pos, pos + 1, end, definitions);
            }
        },
        Token::PlainText(_) => {
            if find_tildes(bytes, pos, end, pos + 2) is Some {
                lemma_find_tildes(bytes, pos, end, pos + 2);
            }
        },
        _ => {},
    }
}

/// The line that closes a fence lies behind the lines before it, inside
/// the source.
pub proof fn lemma_fence_close(bytes: Seq<u8>, pos: int, length: int)
    requires
        0 <= pos <= bytes.len(),
    ensures
        pos <= fence_close(bytes, pos, length) <= bytes.len(),
    decreases bytes.len() - pos,
{
    if !(pos >= bytes.len() || closes_fence(bytes, pos, length)) {
        lemma_following_line(bytes, pos);
        lemma_fence_close(bytes, following_line(bytes, pos), length);
    }
}

/// A paragraph ends at or behind the end of its first line, inside the
/// source.
pub proof fn lemma_paragraph_end(bytes: Seq<u8>, pos: int)
    requires
        0 <= pos <= bytes.len(),
    ensures
        pos <= paragraph_end(bytes, pos) <= bytes.len(),
    decreases bytes.len() - pos,
{
    let next = following_line(bytes, pos);
    lemma_line_end(bytes, pos);
    if !(pos >= bytes.len() || next >= bytes.len() || interrupts(bytes, next)) {
        lemma_following_line(bytes, pos);
        lemma_paragraph_end(bytes, next);
    }
}

/// A list ends behind its first item, inside the source.
pub proof fn lemma_list_end(
    bytes: Seq<u8>,
    pos: int,
    style: u8,
    definitions: Seq<Seq<char>>,
    trees: Seq<Tree>,
)
    requires
        0 <= pos < bytes.len(),
        item_marker_end(bytes, pos) is Some,
    ensures
        is_progress(
            pos,
            list_items(bytes, pos, style, definitions, trees).1,
            bytes.len() as int,
        ),
    decreases bytes.len() - pos,
{
    let lines = item_lines(bytes, pos);
    let item = Tree { data: NodeData::ListItem, children: blocks(lines.inner, definitions) };
    let end = advance(pos, lines.end, bytes.len() as int);
    let resume = skip_blank_lines(bytes, end);
    if pos < resume < bytes.len() && item_marker_end(bytes, resume) is Some && marker_style(
        bytes,
        resume,
    ) == style {
        lemma_list_end(bytes, resume, style, definitions, trees.push(item));
    }
}

/// A table ends at or behind its first row of the body, inside the source.
pub proof fn lemma_table_end(
    bytes: Seq<u8>,
    pos: int,
    definitions: Seq<Seq<char>>,
    count: int,
    rows: Seq<Tree>,
)
    requires
        0 <= pos <= bytes.len(),
    ensures
        pos <= table_rows(bytes, pos, definitions, count, rows).1 <= bytes.len(),
    decreases bytes.len() - pos,
{
    if !(pos >= bytes.len() || interrupts(bytes, pos)) {
        lemma_following_line(bytes, pos);
        lemma_table_end(
            bytes,
            following_line(bytes, pos),
            definitions,
            count,
            rows.push(row_at(bytes, pos, definitions, count)),
        );
    }
}

/// Every block ends behind where it started, inside the source: the next
/// block is looked for where the block ended.
pub proof fn lemma_block_progress(bytes: Seq<u8>, pos: int, definitions: Seq<Seq<char>>)
    requires
        0 <= pos < bytes.len() <= usize::MAX,
    ensures
        is_progress(pos, block_at(bytes, pos, definitions).next, bytes.len() as int),
        advance(pos, block_at(bytes, pos, definitions).next, bytes.len() as int) == block_at(
            bytes,
            pos,
            definitions,
        ).next,
{
    lemma_following_line(bytes, pos);
    if is_quote_line(bytes, pos) {
        lemma_quote_body(bytes, pos, false);
    } else if fence_length(bytes, pos) is Some {
        let first = next_line(bytes, pos);
        let close = fence_close(bytes, first, fence_length(bytes, pos)->0);
        lemma_fence_close(bytes, first, fence_length(bytes, pos)->0);
        if close < bytes.len() {
            lemma_following_line(bytes, close);
        }
    } else if heading_depth(bytes, pos) is Some {
    } else if is_break_line(bytes, pos) {
    } else if item_marker_end(bytes, pos) is Some {
        lemma_list_end(bytes, pos, marker_style(bytes, pos), definitions, Seq::empty());
    } else if definition_at(bytes, pos) is Some {
    } else if footnote_label_end(bytes, pos) is Some {
        lemma_footnote_label_end(bytes, pos);
        lemma_container_lines(
            bytes,
            pos,
            blank_end(bytes, footnote_label_end(bytes, pos)->0 + 2, line_end(bytes, pos)),
            FOOTNOTE_INDENT as int,
        );
    } else if table_columns(bytes, pos) is Some {
        let columns = table_columns(bytes, pos)->0;
        let count = columns.len() as int;
        let second = following_line(bytes, pos);
        lemma_following_line(bytes, second);
        lemma_table_end(
            bytes,
            following_line(bytes, second),
            definitions,
            count,
            seq![row_at(bytes, pos, definitions, count)],
        );
    } else {
        lemma_paragraph_end(bytes, pos);
        lemma_line_end(bytes, pos);
    }
}

} // verus!
