use vstd::prelude::*;

use crate::ascii::{
    is_digit, is_line_break, is_whitespace, ASTERISK, CARET, CARRIAGE_RETURN, COLON, DASH, DOT,
    GREATER_THAN, LEFT_BRACKET, LINE_FEED, PLUS, RIGHT_BRACKET, RIGHT_PAREN, SPACE,
};
use crate::ast::{NodeData, Tree};
use crate::chars::normalized;
use crate::inline::{
    address_end, advance, blank_end, destination_at, find_byte, inlines, lemma_find_byte, title_of,
};
use crate::lexer::{lemma_run_end, token_at, CharClass};
use crate::line::{
    after_break, indent_end, is_blank, lemma_indent_end, lemma_line_end, lemma_line_end_step,
    lemma_line_end_within, lemma_next_line, line_end, next_line,
};
use crate::table::{table_at, table_columns};
use crate::text::span_text;

verus! {

/// Where the line that starts at `pos` has its first byte that is no space
/// or tab.
pub open spec fn marker(bytes: Seq<u8>, pos: int) -> int {
    indent_end(bytes, pos)
}

/// Whether the line opens or continues a block quote: its first byte is a
/// `>`, which the lexer hands out as a reserved byte.
pub open spec fn is_quote_line(bytes: Seq<u8>, pos: int) -> bool {
    let at = marker(bytes, pos);
    0 <= at < bytes.len() && bytes[at] == GREATER_THAN
}

/// Where the quoted text of a quote line starts: behind the `>` and at
/// most one space or tab.
pub open spec fn quote_content(bytes: Seq<u8>, pos: int) -> int {
    let at = marker(bytes, pos);
    if at + 1 < bytes.len() && is_whitespace(bytes[at + 1]) {
        at + 2
    } else {
        at + 1
    }
}

/// The number of backticks that the line starts with, if they are a fence:
/// three or more.
pub open spec fn fence_length(bytes: Seq<u8>, pos: int) -> Option<int> {
    let at = marker(bytes, pos);
    let token = token_at(bytes, at);
    if token is Backticks && token.end() - at >= 3 {
        Some(token.end() - at)
    } else {
        None
    }
}

/// The depth of the heading that the line is, if it is one: one to six
/// `#`, and behind them whitespace or the end of the line.
pub open spec fn heading_depth(bytes: Seq<u8>, pos: int) -> Option<int> {
    let at = marker(bytes, pos);
    let token = token_at(bytes, at);
    let stop = token.end();
    if token is Pounds && 1 <= stop - at <= 6 && (stop >= bytes.len() || is_whitespace(
        bytes[stop],
    ) || is_line_break(bytes[stop])) {
        Some(stop - at)
    } else {
        None
    }
}

/// Whether the line is a thematic break: a run of three or more `-`, `*`
/// or `_`, and nothing else.
pub open spec fn is_break_line(bytes: Seq<u8>, pos: int) -> bool {
    let at = marker(bytes, pos);
    let token = token_at(bytes, at);
    (token is Dashes || token is Asterisks || token is Underscores) && token.end() - at >= 3
        && is_blank(bytes, token.end())
}

/// Where the digits that start at `pos` end.
pub open spec fn digits_end(bytes: Seq<u8>, pos: int) -> int
    decreases bytes.len() - pos,
{
    if 0 <= pos < bytes.len() && is_digit(bytes[pos]) {
        digits_end(bytes, pos + 1)
    } else {
        pos
    }
}

/// Where the marker of a list item ends, if the line starts with one: a
/// single `-`, `+` or `*`, or up to nine digits and a `.` or `)`, and
/// whitespace behind it.
pub open spec fn item_marker_end(bytes: Seq<u8>, pos: int) -> Option<int> {
    let at = marker(bytes, pos);
    let number = digits_end(bytes, at);
    if at < 0 || at + 1 >= bytes.len() {
        None
    } else if (bytes[at] == DASH || bytes[at] == PLUS || bytes[at] == ASTERISK) && is_whitespace(
        bytes[at + 1],
    ) {
        Some(at + 1)
    } else if at < number <= at + 9 && number + 1 < bytes.len() && (bytes[number] == DOT
        || bytes[number] == RIGHT_PAREN) && is_whitespace(bytes[number + 1]) {
        Some(number + 1)
    } else {
        None
    }
}

/// The byte by which the items of one list are told from those of
/// another: the bullet, or what follows the number.
pub open spec fn marker_style(bytes: Seq<u8>, pos: int) -> u8 {
    match item_marker_end(bytes, pos) {
        Some(stop) => bytes[stop - 1],
        None => 0,
    }
}

/// Whether the line cannot continue a paragraph: it is blank, or starts a
/// block quote, a fenced code block, a heading, a thematic break or a list
/// item.
#[verifier::opaque]
pub open spec fn interrupts(bytes: Seq<u8>, pos: int) -> bool {
    is_blank(bytes, pos) || is_quote_line(bytes, pos) || fence_length(bytes, pos) is Some
        || heading_depth(bytes, pos) is Some || is_break_line(bytes, pos) || item_marker_end(
        bytes,
        pos,
    ) is Some
}

/// The start of the line behind the one at `pos`, at least one byte on.
pub open spec fn following_line(bytes: Seq<u8>, pos: int) -> int {
    advance(pos, next_line(bytes, pos), bytes.len() as int)
}

/// The start of the first line from `pos` on that is not blank, or the end
/// of the source.
pub open spec fn skip_blank_lines(bytes: Seq<u8>, pos: int) -> int
    decreases bytes.len() - pos,
{
    if 0 <= pos < bytes.len() && is_blank(bytes, pos) {
        skip_blank_lines(bytes, following_line(bytes, pos))
    } else {
        pos
    }
}

/// Where the paragraph that starts with the line at `pos` ends: at the end
/// of its last line, which is the last one before a line that cannot
/// continue it.
pub open spec fn paragraph_end(bytes: Seq<u8>, pos: int) -> int
    decreases bytes.len() - pos,
{
    let next = following_line(bytes, pos);
    if pos < 0 || pos >= bytes.len() || next >= bytes.len() || interrupts(bytes, next) {
        line_end(bytes, pos)
    } else {
        paragraph_end(bytes, next)
    }
}

/// Whether the line closes a fence of `length` backticks: it holds at
/// least as many, and nothing else.
pub open spec fn closes_fence(bytes: Seq<u8>, pos: int, length: int) -> bool {
    let at = marker(bytes, pos);
    let token = token_at(bytes, at);
    token is Backticks && token.end() - at >= length && is_blank(bytes, token.end())
}

/// The start of the first line from `pos` on that closes a fence of
/// `length` backticks, or the end of the source.
pub open spec fn fence_close(bytes: Seq<u8>, pos: int, length: int) -> int
    decreases bytes.len() - pos,
{
    if pos < 0 || pos >= bytes.len() || closes_fence(bytes, pos, length) {
        pos
    } else {
        fence_close(bytes, following_line(bytes, pos), length)
    }
}

/// The offset in front of the line break that ends at `pos`, or `pos` if
/// none ends there.
pub open spec fn before_break(bytes: Seq<u8>, pos: int) -> int {
    if 0 < pos <= bytes.len() && bytes[pos - 1] == LINE_FEED {
        if 1 < pos && bytes[pos - 2] == CARRIAGE_RETURN {
            pos - 2
        } else {
            pos - 1
        }
    } else if 0 < pos <= bytes.len() && bytes[pos - 1] == CARRIAGE_RETURN {
        pos - 1
    } else {
        pos
    }
}

/// A block, and where the source goes on behind it.
pub struct Block {
    pub tree: Tree,
    pub next: int,
}

/// The characters of a span, unless the span is empty.
pub open spec fn optional_text(bytes: Seq<u8>, start: int, end: int) -> Option<Seq<char>> {
    if start < end {
        Some(span_text(bytes, start, end))
    } else {
        None
    }
}

/// The fenced code block that starts with the line at `pos`: the language
/// is the first word behind the fence, the rest of that line is kept as
/// meta, and the text is all the lines up to the closing fence, without
/// the last line break.
pub open spec fn code_at(bytes: Seq<u8>, pos: int) -> Block {
    let length = fence_length(bytes, pos)->0;
    let stop = line_end(bytes, pos);
    let lang_start = blank_end(bytes, marker(bytes, pos) + length, stop);
    let lang_end = address_end(bytes, lang_start, stop, SPACE);
    let meta_start = blank_end(bytes, lang_end, stop);
    let first = next_line(bytes, pos);
    let close = fence_close(bytes, first, length);
    let last = before_break(bytes, close);
    Block {
        tree: Tree::leaf(
            NodeData::Code {
                value: if first <= last {
                    span_text(bytes, first, last)
                } else {
                    Seq::empty()
                },
                lang: optional_text(bytes, lang_start, lang_end),
                meta: optional_text(bytes, meta_start, stop),
            },
        ),
        next: if close < bytes.len() {
            next_line(bytes, close)
        } else {
            close
        },
    }
}

/// The definition that the line at `pos` is, if it is one: a label in
/// brackets, a colon, an address, and a title in double quotes if there is
/// one.
pub open spec fn definition_at(bytes: Seq<u8>, pos: int) -> Option<Block> {
    let at = marker(bytes, pos);
    let stop = line_end(bytes, pos);
    if 0 <= at && at + 1 < stop && bytes[at] == LEFT_BRACKET && bytes[at + 1] != CARET {
        match find_byte(bytes, at + 1, stop, RIGHT_BRACKET) {
            Some(close) => if at + 1 < close && close + 1 < stop && bytes[close + 1] == COLON {
                match destination_at(bytes, close + 2, stop, LINE_FEED) {
                    Some(destination) => if destination.url_start < destination.url_end
                        && destination.next == stop {
                        Some(
                            Block {
                                tree: Tree::leaf(
                                    NodeData::Definition {
                                        identifier: normalized(span_text(bytes, at + 1, close)),
                                        label: Some(span_text(bytes, at + 1, close)),
                                        url: span_text(
                                            bytes,
                                            destination.url_start as int,
                                            destination.url_end as int,
                                        ),
                                        title: title_of(bytes, destination),
                                    },
                                ),
                                next: next_line(bytes, pos),
                            },
                        )
                    } else {
                        None
                    },
                    None => None,
                }
            } else {
                None
            },
            None => None,
        }
    } else {
        None
    }
}

/// The lines of a container without what marks them as its lines, and
/// where the container ends.
pub struct Body {
    pub inner: Seq<u8>,
    pub end: int,
}

/// The quoted lines from `pos` on. A line that starts with `>` belongs to
/// the quote; so does a line without it, if the line before was the text
/// of a paragraph (`lazy`) and this line can continue one.
pub open spec fn quote_body(bytes: Seq<u8>, pos: int, lazy: bool) -> Body
    decreases bytes.len() - pos,
{
    let next = following_line(bytes, pos);
    if pos < 0 || pos >= bytes.len() {
        Body { inner: Seq::empty(), end: pos }
    } else if is_quote_line(bytes, pos) {
        let start = quote_content(bytes, pos);
        let rest = quote_body(bytes, next, !interrupts(bytes, start));
        Body { inner: bytes.subrange(start, next) + rest.inner, end: rest.end }
    } else if lazy && !interrupts(bytes, pos) {
        let rest = quote_body(bytes, next, true);
        Body { inner: bytes.subrange(pos, next) + rest.inner, end: rest.end }
    } else {
        Body { inner: Seq::empty(), end: pos }
    }
}

/// The lines of a list item from `pos` on, behind its first line. A line
/// indented by `width` or more belongs to the item, without that
/// indentation; so do blank lines that such a line follows, and a line
/// that continues the paragraph of the line before it.
pub open spec fn item_body(bytes: Seq<u8>, pos: int, width: int, lazy: bool) -> Body
    decreases bytes.len() - pos,
{
    let next = following_line(bytes, pos);
    if pos < 0 || pos >= bytes.len() {
        Body { inner: Seq::empty(), end: pos }
    } else if is_blank(bytes, pos) {
        let resume = skip_blank_lines(bytes, pos);
        if pos < resume < bytes.len() && marker(bytes, resume) - resume >= width {
            let rest = item_body(bytes, resume, width, false);
            Body { inner: bytes.subrange(pos, resume) + rest.inner, end: rest.end }
        } else {
            Body { inner: Seq::empty(), end: pos }
        }
    } else if marker(bytes, pos) - pos >= width {
        let rest = item_body(bytes, next, width, !interrupts(bytes, pos + width));
        Body { inner: bytes.subrange(pos + width, next) + rest.inner, end: rest.end }
    } else if lazy && !interrupts(bytes, pos) {
        let rest = item_body(bytes, next, width, true);
        Body { inner: bytes.subrange(pos, next) + rest.inner, end: rest.end }
    } else {
        Body { inner: Seq::empty(), end: pos }
    }
}

/// The lines of the container whose first line starts at `pos` and has
/// its content from `start` on, where the lines behind it are indented by
/// `width`.
pub open spec fn container_lines(bytes: Seq<u8>, pos: int, start: int, width: int) -> Body {
    let next = following_line(bytes, pos);
    let rest = item_body(bytes, next, width, !interrupts(bytes, start));
    Body { inner: bytes.subrange(start, next) + rest.inner, end: rest.end }
}

/// The lines of the list item whose first line starts at `pos`, without
/// the marker and the indentation that belongs to it.
pub open spec fn item_lines(bytes: Seq<u8>, pos: int) -> Body {
    let start = item_marker_end(bytes, pos)->0 + 1;
    container_lines(bytes, pos, start, start - pos)
}

/// The offset of the bracket that closes the label of the footnote
/// definition that the line at `pos` starts, if it starts one: `[^`, a
/// label, `]` and a colon.
pub open spec fn footnote_label_end(bytes: Seq<u8>, pos: int) -> Option<int> {
    let at = marker(bytes, pos);
    let stop = line_end(bytes, pos);
    if 0 <= at && at + 2 < stop && bytes[at] == LEFT_BRACKET && bytes[at + 1] == CARET {
        match find_byte(bytes, at + 2, stop, RIGHT_BRACKET) {
            Some(close) => if at + 2 < close && close + 1 < stop && bytes[close + 1] == COLON {
                Some(close)
            } else {
                None
            },
            None => None,
        }
    } else {
        None
    }
}

/// By how many spaces the lines of a footnote definition behind the first
/// are indented.
pub const FOOTNOTE_INDENT: usize = 4;

/// The lines of the footnote definition that starts with the line at
/// `pos`, without its label and the indentation of its lines.
pub open spec fn footnote_lines(bytes: Seq<u8>, pos: int) -> Body {
    let close = footnote_label_end(bytes, pos)->0;
    container_lines(
        bytes,
        pos,
        blank_end(bytes, close + 2, line_end(bytes, pos)),
        FOOTNOTE_INDENT as int,
    )
}

/// The line behind a line of the source starts behind that line, and
/// inside the source.
pub proof fn lemma_following_line(bytes: Seq<u8>, pos: int)
    requires
        0 <= pos < bytes.len(),
    ensures
        following_line(bytes, pos) == next_line(bytes, pos),
        pos < following_line(bytes, pos) <= bytes.len(),
        line_end(bytes, pos) <= following_line(bytes, pos),
        marker(bytes, pos) <= line_end(bytes, pos),
        pos <= marker(bytes, pos),
{
    lemma_next_line(bytes, pos);
    lemma_indent_end(bytes, pos);
}

/// The first line that is not blank lies behind the blank lines, inside
/// the source.
pub proof fn lemma_skip_blank_lines(bytes: Seq<u8>, pos: int)
    requires
        0 <= pos <= bytes.len(),
    ensures
        pos <= skip_blank_lines(bytes, pos) <= bytes.len(),
    decreases bytes.len() - pos,
{
    if pos < bytes.len() && is_blank(bytes, pos) {
        lemma_following_line(bytes, pos);
        lemma_skip_blank_lines(bytes, following_line(bytes, pos));
    }
}

/// The quoted text of a quote line starts behind the start of the line,
/// inside the line.
pub proof fn lemma_quote_content(bytes: Seq<u8>, pos: int)
    requires
        0 <= pos < bytes.len(),
        is_quote_line(bytes, pos),
    ensures
        pos < quote_content(bytes, pos) <= line_end(bytes, pos),
{
    let at = marker(bytes, pos);
    lemma_following_line(bytes, pos);
    lemma_line_end_step(bytes, pos, at);
    if at + 1 < bytes.len() && is_whitespace(bytes[at + 1]) {
        lemma_line_end_step(bytes, pos, at + 1);
    }
}

/// The quoted lines lie inside the source, and hold no more bytes than
/// the lines of the quote: fewer if the first of them starts with `>`.
pub proof fn lemma_quote_body(bytes: Seq<u8>, pos: int, lazy: bool)
    requires
        0 <= pos <= bytes.len(),
    ensures
        pos <= quote_body(bytes, pos, lazy).end <= bytes.len(),
        quote_body(bytes, pos, lazy).inner.len() <= quote_body(bytes, pos, lazy).end - pos,
        is_quote_line(bytes, pos) ==> quote_body(bytes, pos, lazy).inner.len() < quote_body(
            bytes,
            pos,
            lazy,
        ).end - pos,
    decreases bytes.len() - pos,
{
    if pos < bytes.len() {
        let next = following_line(bytes, pos);
        lemma_following_line(bytes, pos);
        if is_quote_line(bytes, pos) {
            lemma_quote_content(bytes, pos);
            lemma_quote_body(bytes, next, !interrupts(bytes, quote_content(bytes, pos)));
        } else if lazy && !interrupts(bytes, pos) {
            lemma_quote_body(bytes, next, true);
        }
    }
}

/// The lines of a container behind its first line lie inside the source,
/// and hold no more bytes than they do in the source.
pub proof fn lemma_item_body(bytes: Seq<u8>, pos: int, width: int, lazy: bool)
    requires
        0 <= pos <= bytes.len(),
        0 <= width,
    ensures
        pos <= item_body(bytes, pos, width, lazy).end <= bytes.len(),
        item_body(bytes, pos, width, lazy).inner.len() <= item_body(bytes, pos, width, lazy).end
            - pos,
    decreases bytes.len() - pos,
{
    if pos < bytes.len() {
        let next = following_line(bytes, pos);
        lemma_following_line(bytes, pos);
        if is_blank(bytes, pos) {
            let resume = skip_blank_lines(bytes, pos);
            lemma_skip_blank_lines(bytes, pos);
            if pos < resume < bytes.len() && marker(bytes, resume) - resume >= width {
                lemma_item_body(bytes, resume, width, false);
            }
        } else if marker(bytes, pos) - pos >= width {
            lemma_item_body(bytes, next, width, !interrupts(bytes, pos + width));
        } else if lazy && !interrupts(bytes, pos) {
            lemma_item_body(bytes, next, width, true);
        }
    }
}

/// The lines of a container lie inside the source, and hold fewer bytes
/// than the source.
pub proof fn lemma_container_lines(bytes: Seq<u8>, pos: int, start: int, width: int)
    requires
        0 <= pos < start <= line_end(bytes, pos),
        pos < bytes.len(),
        0 <= width,
    ensures
        pos < container_lines(bytes, pos, start, width).end <= bytes.len(),
        container_lines(bytes, pos, start, width).inner.len() < bytes.len(),
{
    lemma_following_line(bytes, pos);
    lemma_item_body(bytes, following_line(bytes, pos), width, !interrupts(bytes, start));
}

/// The marker of a list item ends behind the start of its line, in front
/// of a space or tab of that line.
pub proof fn lemma_item_marker_end(bytes: Seq<u8>, pos: int)
    requires
        0 <= pos < bytes.len(),
        item_marker_end(bytes, pos) is Some,
    ensures
        pos < item_marker_end(bytes, pos)->0 < line_end(bytes, pos),
{
    let at = marker(bytes, pos);
    let stop = item_marker_end(bytes, pos)->0;
    lemma_following_line(bytes, pos);
    lemma_digits_end(bytes, at);
    lemma_line_end_within(bytes, pos, at);
    lemma_line_end_step(bytes, pos, stop - 1);
    lemma_line_end_step(bytes, pos, stop);
}

/// The digits of a number end inside the line.
pub proof fn lemma_digits_end(bytes: Seq<u8>, pos: int)
    requires
        0 <= pos <= bytes.len(),
    ensures
        pos <= digits_end(bytes, pos) <= line_end(bytes, pos),
    decreases bytes.len() - pos,
{
    lemma_line_end(bytes, pos);
    if pos < bytes.len() && is_digit(bytes[pos]) {
        lemma_digits_end(bytes, pos + 1);
    }
}

/// The label of a footnote definition ends behind the start of its line,
/// and the colon behind it lies inside the line.
pub proof fn lemma_footnote_label_end(bytes: Seq<u8>, pos: int)
    requires
        0 <= pos < bytes.len(),
        footnote_label_end(bytes, pos) is Some,
    ensures
        pos < footnote_label_end(bytes, pos)->0,
        footnote_label_end(bytes, pos)->0 + 2 <= line_end(bytes, pos),
        pos < blank_end(
            bytes,
            footnote_label_end(bytes, pos)->0 + 2,
            line_end(bytes, pos),
        ) <= line_end(bytes, pos),
{
    let close = footnote_label_end(bytes, pos)->0;
    lemma_following_line(bytes, pos);
    lemma_find_byte(bytes, marker(bytes, pos) + 2, line_end(bytes, pos), RIGHT_BRACKET);
    lemma_run_end(bytes, close + 2, CharClass::WhiteSpace);
}

/// The blocks of a source.
pub open spec fn blocks(bytes: Seq<u8>, definitions: Seq<Seq<char>>) -> Seq<Tree>
    decreases bytes.len(), bytes.len() + 1, 0int,
{
    blocks_from(bytes, 0, definitions, Seq::empty())
}

/// The blocks from `pos` on, behind the blocks `trees` found so far.
pub open spec fn blocks_from(
    bytes: Seq<u8>,
    pos: int,
    definitions: Seq<Seq<char>>,
    trees: Seq<Tree>,
) -> Seq<Tree>
    decreases bytes.len(), bytes.len() - pos, 3int,
{
    let start = skip_blank_lines(bytes, pos);
    if pos < 0 || start < pos || start >= bytes.len() {
        trees
    } else {
        let block = block_at(bytes, start, definitions);
        blocks_from(
            bytes,
            advance(start, block.next, bytes.len() as int),
            definitions,
            trees.push(block.tree),
        )
    }
}

/// The items of a list from the item at `pos` on, behind the items `trees`
/// found so far: an item belongs to the list of the item before it if its
/// marker is of the same style `style`, blank lines between them or not.
pub open spec fn list_items(
    bytes: Seq<u8>,
    pos: int,
    style: u8,
    definitions: Seq<Seq<char>>,
    trees: Seq<Tree>,
) -> (Seq<Tree>, int)
    decreases bytes.len(), bytes.len() - pos, 0int,
{
    if pos < 0 || pos >= bytes.len() || item_marker_end(bytes, pos) is None {
        (trees, pos)
    } else {
        let lines = item_lines(bytes, pos);
        proof {
            lemma_item_marker_end(bytes, pos);
            lemma_container_lines(
                bytes,
                pos,
                item_marker_end(bytes, pos)->0 + 1,
                item_marker_end(bytes, pos)->0 + 1 - pos,
            );
        }
        let item = Tree { data: NodeData::ListItem, children: blocks(lines.inner, definitions) };
        let end = advance(pos, lines.end, bytes.len() as int);
        let resume = skip_blank_lines(bytes, end);
        if pos < resume < bytes.len() && item_marker_end(bytes, resume) is Some && marker_style(
            bytes,
            resume,
        ) == style {
            list_items(bytes, resume, style, definitions, trees.push(item))
        } else {
            (trees.push(item), end)
        }
    }
}

/// The block quote that starts with the line at `pos`: the blocks of its
/// quoted lines.
pub open spec fn quote_at(bytes: Seq<u8>, pos: int, definitions: Seq<Seq<char>>) -> Block
    decreases bytes.len(), bytes.len() - pos, 1int,
{
    let body = quote_body(bytes, pos, false);
    if 0 <= pos < bytes.len() && is_quote_line(bytes, pos) {
        proof {
            lemma_quote_body(bytes, pos, false);
        }
        Block {
            tree: Tree { data: NodeData::Blockquote, children: blocks(body.inner, definitions) },
            next: body.end,
        }
    } else {
        Block { tree: Tree::leaf(NodeData::Blockquote), next: pos }
    }
}

/// The heading that the line at `pos` is: its depth is the number of `#`,
/// its content what follows them on the line.
pub open spec fn heading_at(bytes: Seq<u8>, pos: int, definitions: Seq<Seq<char>>) -> Block {
    let depth = heading_depth(bytes, pos)->0;
    let stop = line_end(bytes, pos);
    Block {
        tree: Tree {
            data: NodeData::Heading { depth: depth as nat },
            children: inlines(
                bytes,
                blank_end(bytes, marker(bytes, pos) + depth, stop),
                stop,
                definitions,
            ),
        },
        next: next_line(bytes, pos),
    }
}

/// The list that starts with the item at `pos`.
pub open spec fn list_at(bytes: Seq<u8>, pos: int, definitions: Seq<Seq<char>>) -> Block
    decreases bytes.len(), bytes.len() - pos, 1int,
{
    let items = list_items(bytes, pos, marker_style(bytes, pos), definitions, Seq::empty());
    Block { tree: Tree { data: NodeData::List, children: items.0 }, next: items.1 }
}

/// The label of the footnote definition that starts with the line at
/// `pos`.
pub open spec fn footnote_label(bytes: Seq<u8>, pos: int) -> Seq<char> {
    span_text(bytes, marker(bytes, pos) + 2, footnote_label_end(bytes, pos)->0)
}

/// The footnote definition that starts with the line at `pos`: the blocks
/// of its lines.
pub open spec fn footnote_at(bytes: Seq<u8>, pos: int, definitions: Seq<Seq<char>>) -> Block
    decreases bytes.len(), bytes.len() - pos, 1int,
{
    let body = footnote_lines(bytes, pos);
    let data = NodeData::FootnoteDefinition {
        identifier: normalized(footnote_label(bytes, pos)),
        label: Some(footnote_label(bytes, pos)),
    };
    if 0 <= pos < bytes.len() && footnote_label_end(bytes, pos) is Some {
        proof {
            lemma_footnote_label_end(bytes, pos);
            lemma_container_lines(
                bytes,
                pos,
                blank_end(bytes, footnote_label_end(bytes, pos)->0 + 2, line_end(bytes, pos)),
                FOOTNOTE_INDENT as int,
            );
        }
        Block { tree: Tree { data, children: blocks(body.inner, definitions) }, next: body.end }
    } else {
        Block { tree: Tree::leaf(data), next: pos }
    }
}

/// The paragraph that starts with the line at `pos`: the phrasing content
/// of its lines.
pub open spec fn paragraph_at(bytes: Seq<u8>, pos: int, definitions: Seq<Seq<char>>) -> Block {
    let end = paragraph_end(bytes, pos);
    Block {
        tree: Tree {
            data: NodeData::Paragraph,
            children: inlines(bytes, marker(bytes, pos), end, definitions),
        },
        next: after_break(bytes, end),
    }
}

/// The block that starts with the line at `pos`, which is not blank: the
/// first of block quote, fenced code, heading, thematic break, list,
/// definition, footnote definition and table that the line can start, and a
/// paragraph if it can start none of them.
pub open spec fn block_at(bytes: Seq<u8>, pos: int, definitions: Seq<Seq<char>>) -> Block
    decreases bytes.len(), bytes.len() - pos, 2int,
{
    if pos < 0 || pos >= bytes.len() {
        Block { tree: Tree::leaf(NodeData::Paragraph), next: pos }
    } else if is_quote_line(bytes, pos) {
        quote_at(bytes, pos, definitions)
    } else if fence_length(bytes, pos) is Some {
        code_at(bytes, pos)
    } else if heading_depth(bytes, pos) is Some {
        heading_at(bytes, pos, definitions)
    } else if is_break_line(bytes, pos) {
        Block { tree: Tree::leaf(NodeData::ThematicBreak), next: next_line(bytes, pos) }
    } else if item_marker_end(bytes, pos) is Some {
        list_at(bytes, pos, definitions)
    } else if definition_at(bytes, pos) is Some {
        definition_at(bytes, pos)->0
    } else if footnote_label_end(bytes, pos) is Some {
        footnote_at(bytes, pos, definitions)
    } else if table_columns(bytes, pos) is Some {
        table_at(bytes, pos, definitions)
    } else {
        paragraph_at(bytes, pos, definitions)
    }
}

/// A line that is a heading gives a heading of the depth that its run of
/// `#` has, which is one to six.
pub proof fn lemma_heading_line(bytes: Seq<u8>, pos: int, definitions: Seq<Seq<char>>)
    requires
        0 <= pos < bytes.len(),
        heading_depth(bytes, pos) is Some,
    ensures
        1 <= heading_depth(bytes, pos)->0 <= 6,
        block_at(bytes, pos, definitions).tree.data == (NodeData::Heading {
            depth: heading_depth(bytes, pos)->0 as nat,
        }),
{
    let at = marker(bytes, pos);
    assert(token_at(bytes, at) is Pounds);
    assert(!is_quote_line(bytes, pos)) by {
        if 0 <= at < bytes.len() && bytes[at] == GREATER_THAN {
            assert(token_at(bytes, at) is KeyChar);
        }
    }
    assert(fence_length(bytes, pos) is None);
}

/// The identifiers of the definitions in the first `count` of `trees`, at
/// any depth.
pub open spec fn definitions_in(trees: Seq<Tree>, count: nat) -> Seq<Seq<char>>
    decreases trees, count,
{
    if count == 0 || count > trees.len() {
        Seq::empty()
    } else {
        let tree = trees[count - 1];
        definitions_in(trees, (count - 1) as nat) + (match tree.data {
            NodeData::Definition { identifier, .. } => seq![identifier],
            _ => Seq::empty(),
        }) + definitions_in(tree.children, tree.children.len())
    }
}

/// The document that a source holds from `pos` on: its blocks, where a
/// reference without a label of its own is one only if the document
/// defines its text as an identifier somewhere, before or behind it.
pub open spec fn document(bytes: Seq<u8>, pos: int) -> Tree {
    let first = blocks_from(bytes, pos, Seq::empty(), Seq::empty());
    let definitions = definitions_in(first, first.len());
    Tree { data: NodeData::Document, children: blocks_from(bytes, pos, definitions, Seq::empty()) }
}

} // verus!
