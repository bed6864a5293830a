use vstd::prelude::*;
use vstd::string::StringSliceAdditionalSpecFns;
use vstd::utf8::{encode_utf8_valid_utf8, valid_utf8};

use crate::ascii::{
    is_line_break, is_reserved, is_whitespace, line_break, reserved, whitespace, BACKSLASH, BANG,
    CARET, LEFT_BRACKET, LEFT_PAREN, QUOTE, RIGHT_BRACKET, RIGHT_PAREN, SPACE, TILDE,
};
use crate::ast::{
    lemma_trees_push, phrasing_run, text_of, trees, Break, Content, Delete, Emphasis,
    FootnoteReference, Image, ImageReference, InlineCode, Link, LinkReference, Node, NodeData,
    ReferenceType, Strong, Text, Tree,
};
use crate::chars::{normalize, normalized, push_char, push_unescaped, unescaped};
use crate::lexer::{run_end, token_at, CharClass, Lexer, Token};
use crate::line::{byte_at, length, skip_whitespace};
use crate::text::{append_span, is_cut, lemma_cut_at_ascii, slice, span_text};

verus! {

/// The runs that open and close a piece of phrasing content.
#[derive(Clone, Copy, Debug, PartialEq, Eq, Structural)]
pub enum Delimiter {
    /// Inline code.
    Backticks,
    /// Emphasis or strong importance, written with `*`.
    Asterisks,
    /// Emphasis or strong importance, written with `_`.
    Underscores,
}

/// The delimiter that a token is a run of, if it is one.
pub open spec fn delimiter_of(token: Token) -> Option<Delimiter> {
    match token {
        Token::Backticks(_) => Some(Delimiter::Backticks),
        Token::Asterisks(_) => Some(Delimiter::Asterisks),
        Token::Underscores(_) => Some(Delimiter::Underscores),
        _ => None,
    }
}

/// Where the token at `pos` ends within the span that ends at `end`: the
/// token is cut off at the end of the span.
pub open spec fn token_end(bytes: Seq<u8>, pos: int, end: int) -> int {
    let stop = token_at(bytes, pos).end();
    if stop <= pos {
        pos + 1
    } else if stop > end {
        end
    } else {
        stop
    }
}

/// Where the spaces and tabs at `pos` end within the span that ends at
/// `end`.
pub open spec fn blank_end(bytes: Seq<u8>, pos: int, end: int) -> int {
    let stop = run_end(bytes, pos, CharClass::WhiteSpace);
    if stop > end {
        end
    } else {
        stop
    }
}

/// The start of the first run of `delimiter` of length `length` among the
/// tokens from `pos` up to `end`.
pub open spec fn find_run(
    bytes: Seq<u8>,
    pos: int,
    end: int,
    delimiter: Delimiter,
    length: int,
) -> Option<int>
    decreases end - pos,
{
    if pos < 0 || pos >= end {
        None
    } else if delimiter_of(token_at(bytes, pos)) == Some(delimiter) && token_end(bytes, pos, end)
        - pos == length {
        Some(pos)
    } else {
        find_run(bytes, token_end(bytes, pos, end), end, delimiter, length)
    }
}

/// The offset of the `]` that closes the bracket opened before `pos`, where
/// `depth` brackets have been opened since: brackets are counted token by
/// token, so that one inside plain text, behind a backslash, does not count.
pub open spec fn find_bracket(bytes: Seq<u8>, pos: int, end: int, depth: nat) -> Option<int>
    decreases end - pos,
{
    if pos < 0 || pos >= end {
        None
    } else if token_at(bytes, pos) is KeyChar && bytes[pos] == RIGHT_BRACKET {
        if depth == 0 {
            Some(pos)
        } else {
            find_bracket(bytes, pos + 1, end, (depth - 1) as nat)
        }
    } else if token_at(bytes, pos) is KeyChar && bytes[pos] == LEFT_BRACKET {
        find_bracket(bytes, pos + 1, end, depth + 1)
    } else {
        find_bracket(bytes, token_end(bytes, pos, end), end, depth)
    }
}

/// The offset of the first byte `wanted` from `pos` up to `end`.
pub open spec fn find_byte(bytes: Seq<u8>, pos: int, end: int, wanted: u8) -> Option<int>
    decreases end - pos,
{
    if pos < 0 || pos >= end || pos >= bytes.len() {
        None
    } else if bytes[pos] == wanted {
        Some(pos)
    } else {
        find_byte(bytes, pos + 1, end, wanted)
    }
}

/// A byte that was found lies in the span that was searched.
pub proof fn lemma_find_byte(bytes: Seq<u8>, pos: int, end: int, wanted: u8)
    requires
        find_byte(bytes, pos, end, wanted) is Some,
    ensures
        pos <= find_byte(bytes, pos, end, wanted)->0 < end,
        find_byte(bytes, pos, end, wanted)->0 < bytes.len(),
        bytes[find_byte(bytes, pos, end, wanted)->0] == wanted,
    decreases end - pos,
{
    if !(pos < 0 || pos >= end || pos >= bytes.len()) && bytes[pos] != wanted {
        lemma_find_byte(bytes, pos + 1, end, wanted);
    }
}

/// Where the address that starts at `pos` ends: before the first space,
/// tab, line break or byte `stop`, or at `end`.
pub open spec fn address_end(bytes: Seq<u8>, pos: int, end: int, stop: u8) -> int
    decreases end - pos,
{
    if pos < 0 || pos >= end || pos >= bytes.len() {
        pos
    } else if is_whitespace(bytes[pos]) || is_line_break(bytes[pos]) || bytes[pos] == stop {
        pos
    } else {
        address_end(bytes, pos + 1, end, stop)
    }
}

/// Where a link points to, as spans of the source.
pub struct Destination {
    /// Where the address starts.
    pub url_start: usize,
    /// Where the address ends.
    pub url_end: usize,
    /// The span of the title between its quotes, if there is a title.
    pub title: Option<(usize, usize)>,
    /// Where the source goes on behind the destination.
    pub next: usize,
}

/// The destination written from `pos` on, up to the byte `stop` that closes
/// it: an address, and behind whitespace a title in double quotes if there
/// is one. `next` is the offset of the closing byte.
pub open spec fn destination_at(bytes: Seq<u8>, pos: int, end: int, stop: u8) -> Option<
    Destination,
> {
    let url_start = blank_end(bytes, pos, end);
    let url_end = address_end(bytes, url_start, end, stop);
    let gap_end = blank_end(bytes, url_end, end);
    if gap_end > url_end && gap_end < end && bytes[gap_end] == QUOTE {
        match find_byte(bytes, gap_end + 1, end, QUOTE) {
            Some(quote) => Some(
                Destination {
                    url_start: url_start as usize,
                    url_end: url_end as usize,
                    title: Some(((gap_end + 1) as usize, quote as usize)),
                    next: blank_end(bytes, quote + 1, end) as usize,
                },
            ),
            None => None,
        }
    } else {
        Some(
            Destination {
                url_start: url_start as usize,
                url_end: url_end as usize,
                title: None,
                next: gap_end as usize,
            },
        )
    }
}

/// What stands behind the closing bracket of a link text.
pub enum LinkTail {
    /// `(address "title")`
    Resource { destination: Destination },
    /// `[label]`, with the span of the label.
    Full { label_start: usize, label_end: usize, next: usize },
    /// `[]`
    Collapsed { next: usize },
    /// Nothing that belongs to the link.
    Missing,
}

/// What stands at `pos`, behind the closing bracket of a link text.
pub open spec fn link_tail(bytes: Seq<u8>, pos: int, end: int) -> LinkTail {
    if 0 <= pos < end && bytes[pos] == LEFT_PAREN {
        match destination_at(bytes, pos + 1, end, RIGHT_PAREN) {
            Some(destination) => if destination.next < end && bytes[destination.next as int]
                == RIGHT_PAREN {
                LinkTail::Resource {
                    destination: Destination {
                        next: (destination.next + 1) as usize,
                        ..destination
                    },
                }
            } else {
                LinkTail::Missing
            },
            None => LinkTail::Missing,
        }
    } else if 0 <= pos < end && bytes[pos] == LEFT_BRACKET {
        match find_byte(bytes, pos + 1, end, RIGHT_BRACKET) {
            Some(close) => if close == pos + 1 {
                LinkTail::Collapsed { next: (close + 1) as usize }
            } else {
                LinkTail::Full {
                    label_start: (pos + 1) as usize,
                    label_end: close as usize,
                    next: (close + 1) as usize,
                }
            },
            None => LinkTail::Missing,
        }
    } else {
        LinkTail::Missing
    }
}

/// The title of a destination, if it has one.
pub open spec fn title_of(bytes: Seq<u8>, destination: Destination) -> Option<Seq<char>> {
    match destination.title {
        Some((start, end)) => Some(span_text(bytes, start as int, end as int)),
        None => None,
    }
}

/// What one step of the scan finds.
pub enum Phrase {
    /// A node that is no text, and where the scan goes on.
    Node { tree: Tree, next: int },
    /// Characters that belong to the text around them.
    Text { text: Seq<char>, next: int },
    /// Nothing.
    Skip { next: int },
}

impl Phrase {
    /// Where the scan goes on.
    pub open spec fn next(self) -> int {
        match self {
            Phrase::Node { next, .. } => next,
            Phrase::Text { next, .. } => next,
            Phrase::Skip { next } => next,
        }
    }
}

/// `trees` with a text node for `text` behind them, if there is any text.
pub open spec fn flushed(trees: Seq<Tree>, text: Seq<char>) -> Seq<Tree> {
    if text.len() == 0 {
        trees
    } else {
        trees.push(Tree::leaf(NodeData::Text { value: text }))
    }
}

/// Where the scan goes on behind the step from `pos` that ends at `next`:
/// at least one byte further, and inside the span.
pub open spec fn advance(pos: int, next: int, end: int) -> int {
    if next <= pos {
        pos + 1
    } else if next > end {
        end
    } else {
        next
    }
}

/// The token at `pos` as literal text.
pub open spec fn literal(bytes: Seq<u8>, pos: int, end: int) -> Phrase {
    Phrase::Text {
        text: span_text(bytes, pos, token_end(bytes, pos, end)),
        next: token_end(bytes, pos, end),
    }
}

/// Whether two tildes stand at `pos`.
pub open spec fn is_tildes(bytes: Seq<u8>, pos: int) -> bool {
    0 <= pos && pos + 1 < bytes.len() && bytes[pos] == TILDE && bytes[pos + 1] == TILDE
}

/// The offset of the first two tildes that end a plain token among the
/// tokens from `pos` up to `end`, behind at least one byte of content that
/// starts at `from`.
pub open spec fn find_tildes(bytes: Seq<u8>, pos: int, end: int, from: int) -> Option<int>
    decreases end - pos,
{
    let stop = token_end(bytes, pos, end);
    if pos < 0 || pos >= end {
        None
    } else if token_at(bytes, pos) is PlainText && from < stop - 2 && is_tildes(bytes, stop - 2) {
        Some(stop - 2)
    } else {
        find_tildes(bytes, stop, end, from)
    }
}

/// Whether the bytes from `pos` to `stop` end with a backslash that no
/// backslash before it makes a literal one.
pub open spec fn ends_in_backslash(bytes: Seq<u8>, pos: int, stop: int) -> bool
    decreases stop - pos,
{
    if pos < 0 || pos >= stop || stop > bytes.len() {
        false
    } else if bytes[pos] == BACKSLASH {
        if pos + 1 == stop {
            true
        } else if is_reserved(bytes[pos + 1]) {
            ends_in_backslash(bytes, pos + 2, stop)
        } else {
            ends_in_backslash(bytes, pos + 1, stop)
        }
    } else {
        ends_in_backslash(bytes, pos + 1, stop)
    }
}

/// Where the text of the plain token from `pos` to `stop` ends: before
/// its last byte if that is a backslash in front of a line break, which
/// asks for a break, and at `stop` otherwise.
pub open spec fn plain_stop(bytes: Seq<u8>, pos: int, stop: int, end: int) -> int {
    if pos + 1 < stop < end && is_line_break(bytes[stop]) && ends_in_backslash(bytes, pos, stop) {
        stop - 1
    } else {
        stop
    }
}

/// The plain token from `pos` to `stop` as text, without the backslashes
/// that stand before a reserved character.
pub open spec fn plain_text(bytes: Seq<u8>, pos: int, stop: int, end: int) -> Phrase {
    Phrase::Text {
        text: unescaped(span_text(bytes, pos, plain_stop(bytes, pos, stop, end))),
        next: plain_stop(bytes, pos, stop, end),
    }
}

/// Where the next line of text starts behind the line break at `pos`:
/// behind the break and the indentation that follows it.
pub open spec fn break_end(bytes: Seq<u8>, pos: int, end: int) -> int {
    blank_end(bytes, token_end(bytes, pos, end), end)
}

/// The reference that the bracket from `open` to `close` makes with the
/// label from `label_start` to `label_end`.
pub open spec fn reference(
    bytes: Seq<u8>,
    open: int,
    close: int,
    label_start: int,
    label_end: int,
    reference_type: ReferenceType,
    image: bool,
    children: Seq<Tree>,
) -> Tree {
    let label = span_text(bytes, label_start, label_end);
    if image {
        Tree::leaf(
            NodeData::ImageReference {
                identifier: normalized(label),
                label: Some(label),
                reference_type,
                alt: Some(span_text(bytes, open + 1, close)),
            },
        )
    } else {
        Tree {
            data: NodeData::LinkReference {
                identifier: normalized(label),
                label: Some(label),
                reference_type,
            },
            children,
        }
    }
}

/// The phrasing content of the span from `start` to `end`, where
/// `definitions` holds the identifiers that the document defines.
pub open spec fn inlines(bytes: Seq<u8>, start: int, end: int, definitions: Seq<Seq<char>>) -> Seq<
    Tree,
>
    decreases end - start, 5int,
{
    if start < 0 || start > end {
        Seq::empty()
    } else {
        inline_scan(bytes, start, end, definitions, Seq::empty(), Seq::empty())
    }
}

/// The phrasing content of a span, scanned from `pos` on: `trees` are the
/// nodes found so far, `text` the characters found since the last of them.
pub open spec fn inline_scan(
    bytes: Seq<u8>,
    pos: int,
    end: int,
    definitions: Seq<Seq<char>>,
    trees: Seq<Tree>,
    text: Seq<char>,
) -> Seq<Tree>
    decreases end - pos, 4int,
{
    if pos < 0 || pos >= end {
        flushed(trees, text)
    } else {
        let phrase = phrase_at(bytes, pos, end, definitions);
        let next = advance(pos, phrase.next(), end);
        match phrase {
            Phrase::Node { tree, .. } => inline_scan(
                bytes,
                next,
                end,
                definitions,
                flushed(trees, text).push(tree),
                Seq::empty(),
            ),
            Phrase::Text { text: more, .. } => inline_scan(
                bytes,
                next,
                end,
                definitions,
                trees,
                text + more,
            ),
            Phrase::Skip { .. } => inline_scan(bytes, next, end, definitions, trees, text),
        }
    }
}

/// The link or image that the bracket from `open` to `close` makes with
/// the destination behind it.
pub open spec fn resource(
    bytes: Seq<u8>,
    open: int,
    close: int,
    destination: Destination,
    image: bool,
    children: Seq<Tree>,
) -> Tree {
    let url = span_text(bytes, destination.url_start as int, destination.url_end as int);
    if image {
        Tree::leaf(
            NodeData::Image {
                url,
                title: title_of(bytes, destination),
                alt: Some(span_text(bytes, open + 1, close)),
            },
        )
    } else {
        Tree { data: NodeData::Link { url, title: title_of(bytes, destination) }, children }
    }
}

/// The footnote reference that the bracket from `open` to `close` holds.
pub open spec fn footnote_reference(bytes: Seq<u8>, open: int, close: int) -> Tree {
    Tree::leaf(
        NodeData::FootnoteReference {
            identifier: normalized(span_text(bytes, open + 2, close)),
            label: Some(span_text(bytes, open + 2, close)),
        },
    )
}

/// What the bracket from `open` to `close` holds, if it is not a footnote
/// reference: nothing for an image, whose text is kept as it stands.
pub open spec fn link_children(
    bytes: Seq<u8>,
    open: int,
    close: int,
    image: bool,
    definitions: Seq<Seq<char>>,
) -> Seq<Tree>
    decreases close - open, 0int,
{
    if image || open < 0 || open >= close {
        Seq::empty()
    } else {
        inlines(bytes, open + 1, close, definitions)
    }
}

/// The link or image whose bracket opens at `open` and closes at `close`,
/// seen from `pos`: the bracket itself for a link, the `!` before it for an
/// image. A bracket that makes neither is literal text.
pub open spec fn link_from(
    bytes: Seq<u8>,
    pos: int,
    open: int,
    close: int,
    end: int,
    definitions: Seq<Seq<char>>,
) -> Phrase
    recommends
        pos <= open < close < end <= bytes.len(),
    decreases end - pos, 0int,
{
    let image = open != pos;
    if !(pos <= open < close < end) {
        literal(bytes, pos, end)
    } else if !image && open + 2 < close && bytes[open + 1] == CARET {
        Phrase::Node { tree: footnote_reference(bytes, open, close), next: close + 1 }
    } else {
        let children = link_children(bytes, open, close, image, definitions);
        match link_tail(bytes, close + 1, end) {
            LinkTail::Resource { destination } => Phrase::Node {
                tree: resource(bytes, open, close, destination, image, children),
                next: destination.next as int,
            },
            LinkTail::Full { label_start, label_end, next } => Phrase::Node {
                tree: reference(
                    bytes,
                    open,
                    close,
                    label_start as int,
                    label_end as int,
                    ReferenceType::Full,
                    image,
                    children,
                ),
                next: next as int,
            },
            LinkTail::Collapsed { next } => Phrase::Node {
                tree: reference(
                    bytes,
                    open,
                    close,
                    open + 1,
                    close,
                    ReferenceType::Collapsed,
                    image,
                    children,
                ),
                next: next as int,
            },
            LinkTail::Missing => if definitions.contains(
                normalized(span_text(bytes, open + 1, close)),
            ) {
                Phrase::Node {
                    tree: reference(
                        bytes,
                        open,
                        close,
                        open + 1,
                        close,
                        ReferenceType::Shortcut,
                        image,
                        children,
                    ),
                    next: close + 1,
                }
            } else {
                literal(bytes, pos, end)
            },
        }
    }
}

/// The link or image whose bracket opens at `open`, seen from `pos`.
pub open spec fn link_at(
    bytes: Seq<u8>,
    pos: int,
    open: int,
    end: int,
    definitions: Seq<Seq<char>>,
) -> Phrase
    recommends
        end <= bytes.len(),
    decreases end - pos, 1int,
{
    match find_bracket(bytes, open + 1, end, 0) {
        Some(close) => link_from(bytes, pos, open, close, end, definitions),
        None => literal(bytes, pos, end),
    }
}

/// The inline code that the run of backticks from `pos` to `stop` opens,
/// up to the next run of as many backticks; without such a run the
/// backticks are literal text.
pub open spec fn code_span_at(bytes: Seq<u8>, pos: int, stop: int, end: int) -> Phrase {
    match find_run(bytes, stop, end, Delimiter::Backticks, stop - pos) {
        Some(close) => Phrase::Node {
            tree: Tree::leaf(NodeData::InlineCode { value: span_text(bytes, stop, close) }),
            next: close + (stop - pos),
        },
        None => literal(bytes, pos, end),
    }
}

/// The emphasis that the run of `delimiter` from `pos` to `stop` opens, up
/// to the next run of the same kind and length: emphasis for a run of one,
/// strong importance for a longer one. Without such a run, or with nothing
/// between the two runs, the delimiter is literal text.
pub open spec fn emphasis_at(
    bytes: Seq<u8>,
    pos: int,
    stop: int,
    end: int,
    delimiter: Delimiter,
    definitions: Seq<Seq<char>>,
) -> Phrase
    decreases end - pos, 1int,
{
    match find_run(bytes, stop, end, delimiter, stop - pos) {
        Some(close) => if pos < stop <= close <= end && inlines(
            bytes,
            stop,
            close,
            definitions,
        ).len() > 0 {
            Phrase::Node {
                tree: Tree {
                    data: if stop - pos == 1 {
                        NodeData::Emphasis
                    } else {
                        NodeData::Strong
                    },
                    children: inlines(bytes, stop, close, definitions),
                },
                next: close + (stop - pos),
            }
        } else {
            literal(bytes, pos, end)
        },
        None => literal(bytes, pos, end),
    }
}

/// What the plain token from `pos` to `stop` is: deleted text, if the
/// token starts with two tildes, a plain token behind them ends with two,
/// and there is something between them; text otherwise.
pub open spec fn plain_at(
    bytes: Seq<u8>,
    pos: int,
    stop: int,
    end: int,
    definitions: Seq<Seq<char>>,
) -> Phrase
    decreases end - pos, 1int,
{
    match find_tildes(bytes, pos, end, pos + 2) {
        Some(close) => if is_tildes(bytes, pos) && pos + 2 < close && close + 2 <= end && inlines(
            bytes,
            pos + 2,
            close,
            definitions,
        ).len() > 0 {
            Phrase::Node {
                tree: Tree {
                    data: NodeData::Delete,
                    children: inlines(bytes, pos + 2, close, definitions),
                },
                next: close + 2,
            }
        } else {
            plain_text(bytes, pos, stop, end)
        },
        None => plain_text(bytes, pos, stop, end),
    }
}

/// What the reserved byte at `pos` is: the start of a link or an image; a
/// break if it is a backslash before a line break; the reserved byte behind
/// it as literal text, if it is a backslash before one; or literal text.
pub open spec fn key_char_at(
    bytes: Seq<u8>,
    pos: int,
    stop: int,
    end: int,
    definitions: Seq<Seq<char>>,
) -> Phrase
    recommends
        0 <= pos < stop <= end <= bytes.len(),
    decreases end - pos, 2int,
{
    if bytes[pos] == LEFT_BRACKET {
        link_at(bytes, pos, pos, end, definitions)
    } else if bytes[pos] == BANG && pos + 1 < end && bytes[pos + 1] == LEFT_BRACKET {
        link_at(bytes, pos, pos + 1, end, definitions)
    } else if bytes[pos] == BACKSLASH && stop < end && is_line_break(bytes[stop]) {
        Phrase::Node { tree: Tree::leaf(NodeData::Break), next: break_end(bytes, stop, end) }
    } else if bytes[pos] == BACKSLASH && stop < end && is_reserved(bytes[stop]) {
        Phrase::Text { text: span_text(bytes, stop, stop + 1), next: stop + 1 }
    } else {
        literal(bytes, pos, end)
    }
}

/// What the spaces and tabs from `pos` to `stop` are: nothing at the end
/// of the span or of a line, a break if they end a line with two spaces or
/// more, and literal text otherwise.
pub open spec fn white_space_at(bytes: Seq<u8>, pos: int, stop: int, end: int) -> Phrase
    recommends
        0 <= pos < stop <= end <= bytes.len(),
{
    if stop >= end {
        Phrase::Skip { next: stop }
    } else if is_line_break(bytes[stop]) {
        if stop - pos >= 2 && bytes[stop - 1] == SPACE && bytes[stop - 2] == SPACE {
            Phrase::Node { tree: Tree::leaf(NodeData::Break), next: break_end(bytes, stop, end) }
        } else {
            Phrase::Skip { next: stop }
        }
    } else {
        literal(bytes, pos, end)
    }
}

/// What the scan finds at `pos`, chosen by the token there. A line break
/// that nothing before it makes a break is one space, and the indentation
/// behind it is left out.
pub open spec fn phrase_at(
    bytes: Seq<u8>,
    pos: int,
    end: int,
    definitions: Seq<Seq<char>>,
) -> Phrase
    recommends
        end <= bytes.len(),
    decreases end - pos, 3int,
{
    let token = token_at(bytes, pos);
    let stop = token_end(bytes, pos, end);
    if pos < 0 || pos >= end {
        Phrase::Skip { next: end }
    } else {
        match token {
            Token::Backticks(_) => code_span_at(bytes, pos, stop, end),
            Token::Asterisks(_) => emphasis_at(
                bytes,
                pos,
                stop,
                end,
                Delimiter::Asterisks,
                definitions,
            ),
            Token::Underscores(_) => emphasis_at(
                bytes,
                pos,
                stop,
                end,
                Delimiter::Underscores,
                definitions,
            ),
            Token::KeyChar(_) => key_char_at(bytes, pos, stop, end, definitions),
            Token::WhiteSpaces(_) => white_space_at(bytes, pos, stop, end),
            Token::LineBreaks(_) => Phrase::Text {
                text: seq![' '],
                next: blank_end(bytes, stop, end),
            },
            Token::PlainText(_) => plain_at(bytes, pos, stop, end, definitions),
            _ => literal(bytes, pos, end),
        }
    }
}

/// A span that is one plain token, and does not start with two tildes, is
/// one text: the characters of the source between the offsets of the
/// token, without the backslashes that stand before a reserved character.
pub proof fn lemma_plain_token_is_its_text(
    bytes: Seq<u8>,
    start: int,
    end: int,
    definitions: Seq<Seq<char>>,
)
    requires
        0 <= start < end <= bytes.len(),
        token_at(bytes, start) is PlainText,
        token_at(bytes, start).end() == end,
        !is_tildes(bytes, start),
    ensures
        inlines(bytes, start, end, definitions) == flushed(
            Seq::empty(),
            unescaped(span_text(bytes, start, end)),
        ),
{
    let text = unescaped(span_text(bytes, start, end));
    assert(token_end(bytes, start, end) == end);
    assert(plain_stop(bytes, start, end, end) == end);
    assert(phrase_at(bytes, start, end, definitions) == Phrase::Text { text, next: end });
    assert(Seq::<char>::empty() + text =~= text);
    assert(inline_scan(bytes, end, end, definitions, Seq::empty(), text) == flushed(
        Seq::empty(),
        text,
    ));
}

/// Whether the bytes from `start` to `end` are a part of the text that can
/// be cut out of it.
pub open spec fn is_span(bytes: Seq<u8>, start: int, end: int) -> bool {
    &&& start <= end
    &&& is_cut(bytes, start)
    &&& is_cut(bytes, end)
}

/// The identifiers that `definitions` holds.
pub open spec fn labels(definitions: Seq<String>) -> Seq<Seq<char>> {
    definitions.map_values(|identifier: String| identifier@)
}

/// Whether `token` is a run of `delimiter`.
pub fn is_delimiter(token: &Token, delimiter: Delimiter) -> (r: bool)
    ensures
        r == (delimiter_of(*token) == Some(delimiter)),
{
    match (token, delimiter) {
        (Token::Backticks(_), Delimiter::Backticks) => true,
        (Token::Asterisks(_), Delimiter::Asterisks) => true,
        (Token::Underscores(_), Delimiter::Underscores) => true,
        _ => false,
    }
}

/// Where the spaces and tabs at `pos` end within the span that ends at
/// `end`.
pub fn skip_blank(source: &str, pos: usize, end: usize) -> (stop: usize)
    requires
        is_span(source.spec_bytes(), pos as int, end as int),
    ensures
        stop == blank_end(source.spec_bytes(), pos as int, end as int),
        pos <= stop <= end,
        is_cut(source.spec_bytes(), stop as int),
{
    let stop = skip_whitespace(source, pos);
    if stop > end {
        end
    } else {
        stop
    }
}

/// The token at `pos`, and where it ends within the span that ends at
/// `end`.
pub fn scan_token(lexer: &mut Lexer, pos: usize, end: usize) -> (r: (Token, usize))
    requires
        pos < end,
        is_span(old(lexer).bytes(), pos as int, end as int),
    ensures
        final(lexer).text() == old(lexer).text(),
        r.0 == token_at(old(lexer).bytes(), pos as int),
        r.1 == token_end(old(lexer).bytes(), pos as int, end as int),
        pos < r.1 <= end,
        is_cut(old(lexer).bytes(), r.1 as int),
{
    let token = lexer.token_from(pos);
    let stop = token.to_range().end;
    if stop > end {
        (token, end)
    } else {
        (token, stop)
    }
}

/// The start of the first run of `delimiter` of length `length` among the
/// tokens from `pos` up to `end`.
pub fn seek_run(
    lexer: &mut Lexer,
    pos: usize,
    end: usize,
    delimiter: Delimiter,
    length: usize,
) -> (found: Option<usize>)
    requires
        is_span(old(lexer).bytes(), pos as int, end as int),
    ensures
        final(lexer).text() == old(lexer).text(),
        match found {
            Some(at) => {
                &&& find_run(old(lexer).bytes(), pos as int, end as int, delimiter, length as int)
                    == Some(at as int)
                &&& pos <= at
                &&& at + length <= end
                &&& is_cut(old(lexer).bytes(), at as int)
                &&& is_cut(old(lexer).bytes(), at + length)
            },
            None => find_run(
                old(lexer).bytes(),
                pos as int,
                end as int,
                delimiter,
                length as int,
            ) is None,
        },
{
    let ghost bytes = lexer.bytes();
    let mut at = pos;
    while at < end
        invariant
            lexer.text() == old(lexer).text(),
            bytes == lexer.bytes(),
            pos <= at <= end,
            is_span(bytes, at as int, end as int),
            find_run(bytes, at as int, end as int, delimiter, length as int) == find_run(
                bytes,
                pos as int,
                end as int,
                delimiter,
                length as int,
            ),
        decreases end - at,
    {
        let (token, stop) = scan_token(lexer, at, end);
        if is_delimiter(&token, delimiter) && stop - at == length {
            return Some(at);
        }
        at = stop;
    }
    None
}

/// The offset of the `]` that closes the bracket opened before `pos`.
pub fn seek_bracket(lexer: &mut Lexer, pos: usize, end: usize) -> (found: Option<usize>)
    requires
        is_span(old(lexer).bytes(), pos as int, end as int),
    ensures
        final(lexer).text() == old(lexer).text(),
        match found {
            Some(at) => {
                &&& find_bracket(old(lexer).bytes(), pos as int, end as int, 0) == Some(at as int)
                &&& pos <= at < end
                &&& is_cut(old(lexer).bytes(), at as int)
                &&& is_cut(old(lexer).bytes(), at + 1)
                &&& old(lexer).bytes()[at as int] == RIGHT_BRACKET
            },
            None => find_bracket(old(lexer).bytes(), pos as int, end as int, 0) is None,
        },
{
    let ghost bytes = lexer.bytes();
    let source = lexer.source();
    proof {
        encode_utf8_valid_utf8(source@);
    }
    let mut at = pos;
    let mut depth: usize = 0;
    while at < end
        invariant
            lexer.text() == old(lexer).text(),
            bytes == lexer.bytes(),
            source == lexer.text(),
            valid_utf8(bytes),
            pos <= at <= end,
            depth <= at - pos,
            is_span(bytes, at as int, end as int),
            find_bracket(bytes, at as int, end as int, depth as nat) == find_bracket(
                bytes,
                pos as int,
                end as int,
                0,
            ),
        decreases end - at,
    {
        let (token, stop) = scan_token(lexer, at, end);
        let byte = byte_at(source, at);
        let key = match token {
            Token::KeyChar(_) => true,
            _ => false,
        };
        if key && byte == RIGHT_BRACKET {
            proof {
                lemma_cut_at_ascii(bytes, at as int);
            }
            if depth == 0 {
                return Some(at);
            }
            depth = depth - 1;
            at = at + 1;
        } else if key && byte == LEFT_BRACKET {
            proof {
                lemma_cut_at_ascii(bytes, at as int);
            }
            depth = depth + 1;
            at = at + 1;
        } else {
            at = stop;
        }
    }
    None
}

/// The offset of the first byte `wanted` from `pos` up to `end`.
pub fn seek_byte(source: &str, pos: usize, end: usize, wanted: u8) -> (found: Option<usize>)
    requires
        pos <= end <= source.spec_bytes().len(),
        wanted < 0x80,
    ensures
        match found {
            Some(at) => {
                &&& find_byte(source.spec_bytes(), pos as int, end as int, wanted) == Some(
                    at as int,
                )
                &&& pos <= at < end
                &&& is_cut(source.spec_bytes(), at as int)
                &&& is_cut(source.spec_bytes(), at + 1)
                &&& source.spec_bytes()[at as int] == wanted
            },
            None => find_byte(source.spec_bytes(), pos as int, end as int, wanted) is None,
        },
{
    proof {
        encode_utf8_valid_utf8(source@);
    }
    let bytes = source.as_bytes();
    let mut at = pos;
    while at < end
        invariant
            bytes@ == source.spec_bytes(),
            valid_utf8(bytes@),
            wanted < 0x80,
            pos <= at <= end <= bytes@.len(),
            find_byte(bytes@, at as int, end as int, wanted) == find_byte(
                bytes@,
                pos as int,
                end as int,
                wanted,
            ),
        decreases end - at,
    {
        if bytes[at] == wanted {
            proof {
                lemma_cut_at_ascii(bytes@, at as int);
            }
            return Some(at);
        }
        at = at + 1;
    }
    None
}

/// Where the address that starts at `pos` ends.
pub fn seek_address_end(source: &str, pos: usize, end: usize, stop: u8) -> (at: usize)
    requires
        is_span(source.spec_bytes(), pos as int, end as int),
        stop < 0x80,
    ensures
        at == address_end(source.spec_bytes(), pos as int, end as int, stop),
        pos <= at <= end,
        is_cut(source.spec_bytes(), at as int),
{
    proof {
        encode_utf8_valid_utf8(source@);
    }
    let bytes = source.as_bytes();
    let mut at = pos;
    while at < end && !(whitespace(bytes[at]) || line_break(bytes[at]) || bytes[at] == stop)
        invariant
            bytes@ == source.spec_bytes(),
            pos <= at <= end <= bytes@.len(),
            address_end(bytes@, at as int, end as int, stop) == address_end(
                bytes@,
                pos as int,
                end as int,
                stop,
            ),
        decreases end - at,
    {
        at = at + 1;
    }
    proof {
        if at < end {
            lemma_cut_at_ascii(bytes@, at as int);
        }
    }
    at
}

/// Whether `destination` lies in the span from `pos` to `end`, part by
/// part in order, and each part can be cut out.
pub open spec fn is_destination(
    bytes: Seq<u8>,
    destination: Destination,
    pos: int,
    end: int,
) -> bool {
    &&& pos <= destination.url_start
    &&& is_span(bytes, destination.url_start as int, destination.url_end as int)
    &&& is_span(bytes, destination.url_end as int, destination.next as int)
    &&& destination.next <= end
    &&& match destination.title {
        Some((from, to)) => {
            &&& destination.url_end <= from
            &&& is_span(bytes, from as int, to as int)
            &&& to <= destination.next
        },
        None => true,
    }
}

/// The destination written from `pos` on.
pub fn read_destination(source: &str, pos: usize, end: usize, stop: u8) -> (found: Option<
    Destination,
>)
    requires
        is_span(source.spec_bytes(), pos as int, end as int),
        end <= source.spec_bytes().len() <= usize::MAX,
        stop < 0x80,
    ensures
        found == destination_at(source.spec_bytes(), pos as int, end as int, stop),
        found is Some ==> is_destination(source.spec_bytes(), found->0, pos as int, end as int),
{
    let url_start = skip_blank(source, pos, end);
    let url_end = seek_address_end(source, url_start, end, stop);
    let gap_end = skip_blank(source, url_end, end);
    if gap_end > url_end && gap_end < end && byte_at(source, gap_end) == QUOTE {
        proof {
            encode_utf8_valid_utf8(source@);
            lemma_cut_at_ascii(source.spec_bytes(), gap_end as int);
        }
        match seek_byte(source, gap_end + 1, end, QUOTE) {
            Some(quote) => {
                let next = skip_blank(source, quote + 1, end);
                Some(Destination { url_start, url_end, title: Some((gap_end + 1, quote)), next })
            },
            None => None,
        }
    } else {
        Some(Destination { url_start, url_end, title: None, next: gap_end })
    }
}

/// What stands at `pos`, behind the closing bracket of a link text.
pub fn read_link_tail(source: &str, pos: usize, end: usize) -> (tail: LinkTail)
    requires
        is_span(source.spec_bytes(), pos as int, end as int),
        end <= source.spec_bytes().len() <= usize::MAX,
    ensures
        tail == link_tail(source.spec_bytes(), pos as int, end as int),
        match tail {
            LinkTail::Resource { destination } => is_destination(
                source.spec_bytes(),
                destination,
                pos as int,
                end as int,
            ) && pos < destination.next,
            LinkTail::Full { label_start, label_end, next } => {
                &&& pos < label_start
                &&& is_span(source.spec_bytes(), label_start as int, label_end as int)
                &&& is_span(source.spec_bytes(), label_end as int, next as int)
                &&& next <= end
            },
            LinkTail::Collapsed { next } => pos < next <= end && is_cut(
                source.spec_bytes(),
                next as int,
            ),
            LinkTail::Missing => true,
        },
{
    proof {
        encode_utf8_valid_utf8(source@);
    }
    if pos < end && byte_at(source, pos) == LEFT_PAREN {
        proof {
            lemma_cut_at_ascii(source.spec_bytes(), pos as int);
        }
        match read_destination(source, pos + 1, end, RIGHT_PAREN) {
            Some(destination) => {
                if destination.next < end && byte_at(source, destination.next) == RIGHT_PAREN {
                    proof {
                        lemma_cut_at_ascii(source.spec_bytes(), destination.next as int);
                    }
                    LinkTail::Resource {
                        destination: Destination {
                            url_start: destination.url_start,
                            url_end: destination.url_end,
                            title: destination.title,
                            next: destination.next + 1,
                        },
                    }
                } else {
                    LinkTail::Missing
                }
            },
            None => LinkTail::Missing,
        }
    } else if pos < end && byte_at(source, pos) == LEFT_BRACKET {
        proof {
            lemma_cut_at_ascii(source.spec_bytes(), pos as int);
        }
        match seek_byte(source, pos + 1, end, RIGHT_BRACKET) {
            Some(close) => {
                if close == pos + 1 {
                    LinkTail::Collapsed { next: close + 1 }
                } else {
                    LinkTail::Full { label_start: pos + 1, label_end: close, next: close + 1 }
                }
            },
            None => LinkTail::Missing,
        }
    } else {
        LinkTail::Missing
    }
}

/// Whether `definitions` holds `identifier`.
pub fn is_defined(definitions: &Vec<String>, identifier: &String) -> (found: bool)
    ensures
        found == labels(definitions@).contains(identifier@),
{
    let mut i: usize = 0;
    while i < definitions.len()
        invariant
            i <= definitions.len(),
            forall|j: int| 0 <= j < i ==> labels(definitions@)[j] != identifier@,
        decreases definitions.len() - i,
    {
        if definitions[i] == *identifier {
            assert(labels(definitions@)[i as int] == identifier@);
            return true;
        }
        i = i + 1;
    }
    false
}

/// The offset of the first two tildes that end a plain token among the
/// tokens from `pos` up to `end`, behind content that starts at `from`.
pub fn seek_tildes(lexer: &mut Lexer, pos: usize, end: usize, from: usize) -> (found: Option<
    usize,
>)
    requires
        is_span(old(lexer).bytes(), pos as int, end as int),
        end <= old(lexer).bytes().len(),
        pos <= from,
    ensures
        final(lexer).text() == old(lexer).text(),
        match found {
            Some(at) => {
                &&& find_tildes(old(lexer).bytes(), pos as int, end as int, from as int) == Some(
                    at as int,
                )
                &&& from < at
                &&& at + 2 <= end
                &&& is_cut(old(lexer).bytes(), at as int)
                &&& is_cut(old(lexer).bytes(), at + 2)
                &&& is_tildes(old(lexer).bytes(), at as int)
            },
            None => find_tildes(old(lexer).bytes(), pos as int, end as int, from as int) is None,
        },
{
    let ghost bytes = lexer.bytes();
    let source = lexer.source();
    proof {
        encode_utf8_valid_utf8(source@);
    }
    let mut at = pos;
    while at < end
        invariant
            lexer.text() == old(lexer).text(),
            bytes == lexer.bytes(),
            source == lexer.text(),
            valid_utf8(bytes),
            pos <= at <= end <= bytes.len(),
            pos <= from,
            is_span(bytes, at as int, end as int),
            find_tildes(bytes, at as int, end as int, from as int) == find_tildes(
                bytes,
                pos as int,
                end as int,
                from as int,
            ),
        decreases end - at,
    {
        let (token, stop) = scan_token(lexer, at, end);
        let plain = match token {
            Token::PlainText(_) => true,
            _ => false,
        };
        if plain && stop >= 2 && from < stop - 2 && byte_at(source, stop - 2) == TILDE && byte_at(
            source,
            stop - 1,
        ) == TILDE {
            proof {
                lemma_cut_at_ascii(bytes, stop - 2);
            }
            return Some(stop - 2);
        }
        at = stop;
    }
    None
}

/// Whether the bytes from `pos` to `stop` end with a backslash that no
/// backslash before it makes a literal one.
pub fn has_last_backslash(source: &str, pos: usize, stop: usize) -> (r: bool)
    requires
        pos <= stop <= source.spec_bytes().len(),
    ensures
        r == ends_in_backslash(source.spec_bytes(), pos as int, stop as int),
        r ==> pos < stop && source.spec_bytes()[stop - 1] == BACKSLASH,
{
    let bytes = source.as_bytes();
    let mut at = pos;
    while at < stop
        invariant
            bytes@ == source.spec_bytes(),
            pos <= at <= stop <= bytes@.len(),
            ends_in_backslash(bytes@, at as int, stop as int) == ends_in_backslash(
                bytes@,
                pos as int,
                stop as int,
            ),
        decreases stop - at,
    {
        if bytes[at] == BACKSLASH {
            if at + 1 == stop {
                return true;
            } else if reserved(bytes[at + 1]) {
                at = at + 2;
            } else {
                at = at + 1;
            }
        } else {
            at = at + 1;
        }
    }
    false
}

/// The text of the source from `start` to `end`, as a value of its own.
pub fn copy_span(source: &str, start: usize, end: usize) -> (copy: String)
    requires
        is_span(source.spec_bytes(), start as int, end as int),
    ensures
        copy@ == span_text(source.spec_bytes(), start as int, end as int),
{
    slice(source, start, end).to_owned()
}

/// Whether `tree` is a piece of phrasing content other than a text, well
/// formed and with no text next to another text.
pub open spec fn is_phrase(tree: Tree) -> bool {
    &&& tree.data.content() == Some(Content::Phrasing)
    &&& tree.well_formed()
    &&& tree.coalesced()
    &&& !tree.is_text()
}

/// A node that takes phrasing content, over a run of phrasing content, is
/// well formed.
pub proof fn lemma_parent_of_phrases(data: NodeData, children: Seq<Tree>)
    requires
        phrasing_run(children),
        data.child_content() == Some(Content::Phrasing),
        !(data is Heading),
    ensures
        (Tree { data, children }).well_formed(),
        (Tree { data, children }).coalesced(),
{
}

/// Adds a text node for `text` to `nodes`, if there is any text.
pub fn flush(nodes: &mut Vec<Node>, text: String)
    requires
        phrasing_run(trees(old(nodes)@)),
        old(nodes)@.len() > 0 ==> !trees(old(nodes)@).last().is_text(),
    ensures
        trees(final(nodes)@) == flushed(trees(old(nodes)@), text@),
        phrasing_run(trees(final(nodes)@)),
{
    if !text.as_str().is_empty() {
        let node = Node::Text(Text { value: text });
        proof {
            lemma_trees_push(nodes@, node);
        }
        nodes.push(node);
    }
}

/// The title of `destination`, as a value of its own.
pub fn copy_title(source: &str, destination: &Destination) -> (title: Option<String>)
    requires
        match destination.title {
            Some((from, to)) => is_span(source.spec_bytes(), from as int, to as int),
            None => true,
        },
    ensures
        text_of(title) == title_of(source.spec_bytes(), *destination),
{
    match destination.title {
        Some((from, to)) => Some(copy_span(source, from, to)),
        None => None,
    }
}

/// The reference that the bracket from `open` to `close` makes with the
/// label from `label_start` to `label_end`.
pub fn make_reference(
    source: &str,
    open: usize,
    close: usize,
    label_start: usize,
    label_end: usize,
    reference_type: ReferenceType,
    image: bool,
    children: Vec<Node>,
) -> (node: Node)
    requires
        is_span(source.spec_bytes(), open + 1, close as int),
        is_span(source.spec_bytes(), label_start as int, label_end as int),
        phrasing_run(trees(children@)),
        image ==> children@.len() == 0,
    ensures
        node@ == reference(
            source.spec_bytes(),
            open as int,
            close as int,
            label_start as int,
            label_end as int,
            reference_type,
            image,
            trees(children@),
        ),
        is_phrase(node@),
{
    let label = copy_span(source, label_start, label_end);
    let identifier = normalize(label.as_str());
    if image {
        Node::ImageReference(
            ImageReference {
                identifier,
                label: Some(label),
                reference_type,
                alt: Some(copy_span(source, open + 1, close)),
            },
        )
    } else {
        proof {
            lemma_parent_of_phrases(
                NodeData::LinkReference {
                    identifier: identifier@,
                    label: Some(label@),
                    reference_type,
                },
                trees(children@),
            );
        }
        Node::LinkReference(
            LinkReference { children, identifier, label: Some(label), reference_type },
        )
    }
}

/// What a step of the scan has made of `phrase`: the node if it found one,
/// or the text that it added to the characters found before.
pub open spec fn made(
    phrase: Phrase,
    node: Option<Node>,
    before: Seq<char>,
    after: Seq<char>,
) -> bool {
    match phrase {
        Phrase::Node { tree, .. } => node is Some && node->0@ == tree && after == before
            && is_phrase(tree),
        Phrase::Text { text, .. } => node is None && after == before + text,
        Phrase::Skip { .. } => node is None && after == before,
    }
}

/// Adds the token from `pos` to `stop` to `text` as it stands.
fn push_literal(source: &str, pos: usize, stop: usize, text: &mut String) -> (r: (
    Option<Node>,
    usize,
))
    requires
        is_span(source.spec_bytes(), pos as int, stop as int),
    ensures
        r.0 is None,
        r.1 == stop,
        final(text)@ == old(text)@ + span_text(source.spec_bytes(), pos as int, stop as int),
{
    append_span(text, source, pos, stop);
    (None, stop)
}

/// The phrasing content of the span from `start` to `end`.
pub fn parse_inlines(
    lexer: &mut Lexer,
    start: usize,
    end: usize,
    definitions: &Vec<String>,
) -> (nodes: Vec<Node>)
    requires
        is_span(old(lexer).bytes(), start as int, end as int),
        end <= old(lexer).bytes().len(),
    ensures
        final(lexer).text() == old(lexer).text(),
        trees(nodes@) == inlines(
            old(lexer).bytes(),
            start as int,
            end as int,
            labels(definitions@),
        ),
        phrasing_run(trees(nodes@)),
    decreases end - start, 5int,
{
    let ghost bytes = lexer.bytes();
    let ghost known = labels(definitions@);
    let mut nodes: Vec<Node> = Vec::new();
    let mut text = String::new();
    let mut pos = start;
    assert(trees(nodes@) =~= Seq::empty());
    while pos < end
        invariant
            lexer.text() == old(lexer).text(),
            bytes == lexer.bytes(),
            known == labels(definitions@),
            start <= pos <= end <= bytes.len(),
            is_span(bytes, pos as int, end as int),
            inline_scan(bytes, pos as int, end as int, known, trees(nodes@), text@) == inlines(
                bytes,
                start as int,
                end as int,
                known,
            ),
            phrasing_run(trees(nodes@)),
            nodes@.len() > 0 ==> !trees(nodes@).last().is_text(),
        decreases end - pos,
    {
        let ghost before = trees(nodes@);
        let ghost written = text@;
        let (node, next) = parse_phrasing_content(lexer, pos, end, definitions, &mut text);
        match node {
            Some(node) => {
                flush(&mut nodes, text);
                text = String::new();
                proof {
                    lemma_trees_push(nodes@, node);
                }
                nodes.push(node);
                assert(trees(nodes@) == flushed(before, written).push(node@));
            },
            None => {},
        }
        pos = next;
    }
    flush(&mut nodes, text);
    nodes
}

/// The link or image that the bracket from `open` to `close` makes with
/// `destination`.
pub fn make_resource(
    source: &str,
    open: usize,
    close: usize,
    destination: Destination,
    image: bool,
    children: Vec<Node>,
) -> (node: Node)
    requires
        is_span(source.spec_bytes(), open + 1, close as int),
        is_span(source.spec_bytes(), destination.url_start as int, destination.url_end as int),
        match destination.title {
            Some((from, to)) => is_span(source.spec_bytes(), from as int, to as int),
            None => true,
        },
        phrasing_run(trees(children@)),
        image ==> children@.len() == 0,
    ensures
        node@ == resource(
            source.spec_bytes(),
            open as int,
            close as int,
            destination,
            image,
            trees(children@),
        ),
        is_phrase(node@),
{
    let url = copy_span(source, destination.url_start, destination.url_end);
    let title = copy_title(source, &destination);
    if image {
        let alt = Some(copy_span(source, open + 1, close));
        Node::Image(Image { url, title, alt })
    } else {
        proof {
            lemma_parent_of_phrases(
                NodeData::Link { url: url@, title: text_of(title) },
                trees(children@),
            );
        }
        Node::Link(Link { children, url, title })
    }
}

/// What the bracket from `open` to `close` holds.
pub fn parse_link_children(
    lexer: &mut Lexer,
    open: usize,
    close: usize,
    image: bool,
    definitions: &Vec<String>,
) -> (children: Vec<Node>)
    requires
        open < close <= old(lexer).bytes().len(),
        is_span(old(lexer).bytes(), open + 1, close as int),
    ensures
        final(lexer).text() == old(lexer).text(),
        trees(children@) == link_children(
            old(lexer).bytes(),
            open as int,
            close as int,
            image,
            labels(definitions@),
        ),
        phrasing_run(trees(children@)),
        image ==> children@.len() == 0,
    decreases close - open, 0int,
{
    if image {
        let children: Vec<Node> = Vec::new();
        assert(trees(children@) =~= Seq::empty());
        children
    } else {
        parse_inlines(lexer, open + 1, close, definitions)
    }
}

/// The link or image whose bracket opens at `open` and closes at `close`,
/// seen from `pos`, where the token at `pos` ends at `stop`.
pub fn parse_link_from(
    lexer: &mut Lexer,
    pos: usize,
    open: usize,
    close: usize,
    stop: usize,
    end: usize,
    definitions: &Vec<String>,
    text: &mut String,
) -> (r: (Option<Node>, usize))
    requires
        pos <= open < close < end <= old(lexer).bytes().len(),
        is_span(old(lexer).bytes(), pos as int, end as int),
        is_span(old(lexer).bytes(), open + 1, close as int),
        is_cut(old(lexer).bytes(), close + 1),
        stop == token_end(old(lexer).bytes(), pos as int, end as int),
        is_span(old(lexer).bytes(), pos as int, stop as int),
        pos < stop <= end,
    ensures
        final(lexer).text() == old(lexer).text(),
        r.1 == link_from(
            old(lexer).bytes(),
            pos as int,
            open as int,
            close as int,
            end as int,
            labels(definitions@),
        ).next(),
        pos < r.1 <= end,
        is_cut(old(lexer).bytes(), r.1 as int),
        made(
            link_from(
                old(lexer).bytes(),
                pos as int,
                open as int,
                close as int,
                end as int,
                labels(definitions@),
            ),
            r.0,
            old(text)@,
            final(text)@,
        ),
    decreases end - pos, 0int,
{
    let ghost bytes = lexer.bytes();
    let source = lexer.source();
    let image = open != pos;
    proof {
        encode_utf8_valid_utf8(source@);
    }
    if !image && open + 2 < close && byte_at(source, open + 1) == CARET {
        proof {
            lemma_cut_at_ascii(bytes, open + 1);
        }
        let label = copy_span(source, open + 2, close);
        let identifier = normalize(label.as_str());
        let node = Node::FootnoteReference(FootnoteReference { identifier, label: Some(label) });
        return (Some(node), close + 1);
    }
    let tail = read_link_tail(source, close + 1, end);
    match tail {
        LinkTail::Resource { destination } => {
            let next = destination.next;
            let children = parse_link_children(lexer, open, close, image, definitions);
            let node = make_resource(source, open, close, destination, image, children);
            (Some(node), next)
        },
        LinkTail::Full { label_start, label_end, next } => {
            let children = parse_link_children(lexer, open, close, image, definitions);
            let node = make_reference(
                source,
                open,
                close,
                label_start,
                label_end,
                ReferenceType::Full,
                image,
                children,
            );
            (Some(node), next)
        },
        LinkTail::Collapsed { next } => {
            let children = parse_link_children(lexer, open, close, image, definitions);
            let node = make_reference(
                source,
                open,
                close,
                open + 1,
                close,
                ReferenceType::Collapsed,
                image,
                children,
            );
            (Some(node), next)
        },
        LinkTail::Missing => {
            let identifier = normalize(slice(source, open + 1, close));
            if is_defined(definitions, &identifier) {
                let children = parse_link_children(lexer, open, close, image, definitions);
                let node = make_reference(
                    source,
                    open,
                    close,
                    open + 1,
                    close,
                    ReferenceType::Shortcut,
                    image,
                    children,
                );
                (Some(node), close + 1)
            } else {
                push_literal(source, pos, stop, text)
            }
        },
    }
}

/// The link or image whose bracket opens at `open`, seen from `pos`.
pub fn parse_link(
    lexer: &mut Lexer,
    pos: usize,
    open: usize,
    end: usize,
    definitions: &Vec<String>,
    text: &mut String,
) -> (r: (Option<Node>, usize))
    requires
        pos <= open < end <= old(lexer).bytes().len(),
        open <= pos + 1,
        is_span(old(lexer).bytes(), pos as int, end as int),
        old(lexer).bytes()[open as int] == LEFT_BRACKET,
        open != pos ==> old(lexer).bytes()[pos as int] == BANG,
    ensures
        final(lexer).text() == old(lexer).text(),
        r.1 == link_at(
            old(lexer).bytes(),
            pos as int,
            open as int,
            end as int,
            labels(definitions@),
        ).next(),
        pos < r.1 <= end,
        is_cut(old(lexer).bytes(), r.1 as int),
        made(
            link_at(old(lexer).bytes(), pos as int, open as int, end as int, labels(definitions@)),
            r.0,
            old(text)@,
            final(text)@,
        ),
    decreases end - pos, 1int,
{
    let ghost bytes = lexer.bytes();
    let source = lexer.source();
    proof {
        encode_utf8_valid_utf8(source@);
        lemma_cut_at_ascii(bytes, open as int);
        lemma_cut_at_ascii(bytes, pos as int);
    }
    let (_, stop) = scan_token(lexer, pos, end);
    match seek_bracket(lexer, open + 1, end) {
        Some(close) => parse_link_from(lexer, pos, open, close, stop, end, definitions, text),
        None => push_literal(source, pos, stop, text),
    }
}

/// What a step of the scan from `pos` gives back: what it has made of
/// `phrase`, and that the scan goes on behind `pos`, inside the span and at
/// a cut.
pub open spec fn stepped(
    bytes: Seq<u8>,
    phrase: Phrase,
    pos: int,
    end: int,
    r: (Option<Node>, usize),
    before: Seq<char>,
    after: Seq<char>,
) -> bool {
    &&& r.1 == phrase.next()
    &&& pos < r.1 <= end
    &&& is_cut(bytes, r.1 as int)
    &&& made(phrase, r.0, before, after)
}

/// Whether the scan can take a step from `pos`, where the token there
/// ends at `stop`.
pub open spec fn can_step(bytes: Seq<u8>, pos: int, stop: int, end: int) -> bool {
    &&& pos < stop <= end <= bytes.len()
    &&& is_span(bytes, pos, end)
    &&& is_cut(bytes, stop)
    &&& stop == token_end(bytes, pos, end)
}

/// The inline code that the run of backticks from `pos` to `stop` opens.
pub fn parse_code_span(
    lexer: &mut Lexer,
    pos: usize,
    stop: usize,
    end: usize,
    text: &mut String,
) -> (r: (Option<Node>, usize))
    requires
        can_step(old(lexer).bytes(), pos as int, stop as int, end as int),
    ensures
        final(lexer).text() == old(lexer).text(),
        stepped(
            old(lexer).bytes(),
            code_span_at(old(lexer).bytes(), pos as int, stop as int, end as int),
            pos as int,
            end as int,
            r,
            old(text)@,
            final(text)@,
        ),
{
    let source = lexer.source();
    match seek_run(lexer, stop, end, Delimiter::Backticks, stop - pos) {
        Some(close) => {
            let value = copy_span(source, stop, close);
            (Some(Node::InlineCode(InlineCode { value })), close + (stop - pos))
        },
        None => push_literal(source, pos, stop, text),
    }
}

/// The emphasis that the run of `delimiter` from `pos` to `stop` opens.
pub fn parse_emphasis(
    lexer: &mut Lexer,
    pos: usize,
    stop: usize,
    end: usize,
    delimiter: Delimiter,
    definitions: &Vec<String>,
    text: &mut String,
) -> (r: (Option<Node>, usize))
    requires
        can_step(old(lexer).bytes(), pos as int, stop as int, end as int),
    ensures
        final(lexer).text() == old(lexer).text(),
        stepped(
            old(lexer).bytes(),
            emphasis_at(
                old(lexer).bytes(),
                pos as int,
                stop as int,
                end as int,
                delimiter,
                labels(definitions@),
            ),
            pos as int,
            end as int,
            r,
            old(text)@,
            final(text)@,
        ),
    decreases end - pos, 1int,
{
    let source = lexer.source();
    match seek_run(lexer, stop, end, delimiter, stop - pos) {
        Some(close) => {
            let children = parse_inlines(lexer, stop, close, definitions);
            if children.len() == 0 {
                return push_literal(source, pos, stop, text);
            }
            if stop - pos == 1 {
                proof {
                    lemma_parent_of_phrases(NodeData::Emphasis, trees(children@));
                }
                (Some(Node::Emphasis(Emphasis { children })), close + (stop - pos))
            } else {
                proof {
                    lemma_parent_of_phrases(NodeData::Strong, trees(children@));
                }
                (Some(Node::Strong(Strong { children })), close + (stop - pos))
            }
        },
        None => push_literal(source, pos, stop, text),
    }
}

/// What the plain token from `pos` to `stop` is.
pub fn parse_plain(
    lexer: &mut Lexer,
    pos: usize,
    stop: usize,
    end: usize,
    definitions: &Vec<String>,
    text: &mut String,
) -> (r: (Option<Node>, usize))
    requires
        can_step(old(lexer).bytes(), pos as int, stop as int, end as int),
        token_at(old(lexer).bytes(), pos as int) is PlainText,
    ensures
        final(lexer).text() == old(lexer).text(),
        stepped(
            old(lexer).bytes(),
            plain_at(old(lexer).bytes(), pos as int, stop as int, end as int, labels(definitions@)),
            pos as int,
            end as int,
            r,
            old(text)@,
            final(text)@,
        ),
    decreases end - pos, 1int,
{
    let ghost bytes = lexer.bytes();
    let source = lexer.source();
    proof {
        encode_utf8_valid_utf8(source@);
    }
    let total = length(source);
    if pos + 1 < total && byte_at(source, pos) == TILDE && byte_at(source, pos + 1) == TILDE {
        proof {
            lemma_cut_at_ascii(bytes, pos as int);
            lemma_cut_at_ascii(bytes, pos + 1);
        }
        match seek_tildes(lexer, pos, end, pos + 2) {
            Some(close) => {
                let children = parse_inlines(lexer, pos + 2, close, definitions);
                if children.len() > 0 {
                    proof {
                        lemma_parent_of_phrases(NodeData::Delete, trees(children@));
                    }
                    return (Some(Node::Delete(Delete { children })), close + 2);
                }
            },
            None => {},
        }
    }
    let cut = if pos + 1 < stop && stop < end && line_break(byte_at(source, stop))
        && has_last_backslash(source, pos, stop) {
        proof {
            lemma_cut_at_ascii(bytes, stop - 1);
        }
        stop - 1
    } else {
        stop
    };
    push_unescaped(text, slice(source, pos, cut));
    (None, cut)
}

/// What the reserved byte at `pos` is.
pub fn parse_key_char(
    lexer: &mut Lexer,
    pos: usize,
    stop: usize,
    end: usize,
    definitions: &Vec<String>,
    text: &mut String,
) -> (r: (Option<Node>, usize))
    requires
        can_step(old(lexer).bytes(), pos as int, stop as int, end as int),
    ensures
        final(lexer).text() == old(lexer).text(),
        stepped(
            old(lexer).bytes(),
            key_char_at(
                old(lexer).bytes(),
                pos as int,
                stop as int,
                end as int,
                labels(definitions@),
            ),
            pos as int,
            end as int,
            r,
            old(text)@,
            final(text)@,
        ),
    decreases end - pos, 2int,
{
    let source = lexer.source();
    let byte = byte_at(source, pos);
    if byte == LEFT_BRACKET {
        parse_link(lexer, pos, pos, end, definitions, text)
    } else if byte == BANG && pos + 1 < end && byte_at(source, pos + 1) == LEFT_BRACKET {
        parse_link(lexer, pos, pos + 1, end, definitions, text)
    } else if byte == BACKSLASH && stop < end && line_break(byte_at(source, stop)) {
        let (_, behind) = scan_token(lexer, stop, end);
        let next = skip_blank(source, behind, end);
        (Some(Node::Break(Break {  })), next)
    } else if byte == BACKSLASH && stop < end && reserved(byte_at(source, stop)) {
        proof {
            encode_utf8_valid_utf8(source@);
            lemma_cut_at_ascii(old(lexer).bytes(), stop as int);
        }
        push_literal(source, stop, stop + 1, text)
    } else {
        push_literal(source, pos, stop, text)
    }
}

/// What the spaces and tabs from `pos` to `stop` are.
pub fn parse_white_space(
    lexer: &mut Lexer,
    pos: usize,
    stop: usize,
    end: usize,
    text: &mut String,
) -> (r: (Option<Node>, usize))
    requires
        can_step(old(lexer).bytes(), pos as int, stop as int, end as int),
    ensures
        final(lexer).text() == old(lexer).text(),
        stepped(
            old(lexer).bytes(),
            white_space_at(old(lexer).bytes(), pos as int, stop as int, end as int),
            pos as int,
            end as int,
            r,
            old(text)@,
            final(text)@,
        ),
{
    let source = lexer.source();
    if stop >= end {
        (None, stop)
    } else if line_break(byte_at(source, stop)) {
        if stop - pos >= 2 && byte_at(source, stop - 1) == SPACE && byte_at(source, stop - 2)
            == SPACE {
            let (_, behind) = scan_token(lexer, stop, end);
            let next = skip_blank(source, behind, end);
            (Some(Node::Break(Break {  })), next)
        } else {
            (None, stop)
        }
    } else {
        push_literal(source, pos, stop, text)
    }
}

/// What the scan finds at `pos`: a node, or text that it adds to `text`;
/// and where the scan goes on.
pub fn parse_phrasing_content(
    lexer: &mut Lexer,
    pos: usize,
    end: usize,
    definitions: &Vec<String>,
    text: &mut String,
) -> (r: (Option<Node>, usize))
    requires
        pos < end <= old(lexer).bytes().len(),
        is_span(old(lexer).bytes(), pos as int, end as int),
    ensures
        final(lexer).text() == old(lexer).text(),
        stepped(
            old(lexer).bytes(),
            phrase_at(old(lexer).bytes(), pos as int, end as int, labels(definitions@)),
            pos as int,
            end as int,
            r,
            old(text)@,
            final(text)@,
        ),
    decreases end - pos, 3int,
{
    let source = lexer.source();
    let (token, stop) = scan_token(lexer, pos, end);
    match token {
        Token::Backticks(_) => parse_code_span(lexer, pos, stop, end, text),
        Token::Asterisks(_) => parse_emphasis(
            lexer,
            pos,
            stop,
            end,
            Delimiter::Asterisks,
            definitions,
            text,
        ),
        Token::Underscores(_) => parse_emphasis(
            lexer,
            pos,
            stop,
            end,
            Delimiter::Underscores,
            definitions,
            text,
        ),
        Token::KeyChar(_) => parse_key_char(lexer, pos, stop, end, definitions, text),
        Token::WhiteSpaces(_) => parse_white_space(lexer, pos, stop, end, text),
        Token::LineBreaks(_) => {
            push_char(text, ' ');
            assert(text@ =~= old(text)@ + seq![' ']);
            (None, skip_blank(source, stop, end))
        },
        Token::PlainText(_) => parse_plain(lexer, pos, stop, end, definitions, text),
        _ => push_literal(source, pos, stop, text),
    }
}

} // verus!
