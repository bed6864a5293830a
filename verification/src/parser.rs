use vstd::prelude::*;
use vstd::std_specs::convert::FromSpecImpl;
use vstd::string::{StringExecFns, StringSliceAdditionalSpecFns};
use vstd::utf8::{encode_utf8, encode_utf8_valid_utf8, valid_utf8};

use crate::ascii::{
    digit, is_line_break, is_whitespace, line_break, whitespace, ASTERISK, CARET, CARRIAGE_RETURN,
    COLON, DASH, DOT, GREATER_THAN, LEFT_BRACKET, LINE_FEED, PLUS, RIGHT_BRACKET, RIGHT_PAREN,
    SPACE,
};
use crate::ast::{
    content_run, lemma_parent_of, lemma_trees_push, text_of, trees, AstError, Blockquote, Code,
    Content, Definition, Document, FootnoteDefinition, Heading, List, ListItem, Node, NodeData,
    Paragraph, ThematicBreak, Tree,
};
use crate::block::{
    before_break, block_at, blocks, blocks_from, closes_fence, code_at, container_lines,
    definition_at, definitions_in, digits_end, document, fence_close, fence_length, following_line,
    footnote_at, footnote_label_end, footnote_lines, heading_at, heading_depth, interrupts,
    is_break_line, is_quote_line, item_body, item_marker_end, lemma_container_lines,
    lemma_digits_end, lemma_quote_body, list_at, list_items, marker, marker_style, optional_text,
    paragraph_at, paragraph_end, quote_at, quote_body, quote_content, skip_blank_lines, Block,
    FOOTNOTE_INDENT,
};
use crate::chars::normalize;
use crate::inline::{
    copy_span, copy_title, is_span, labels, parse_inlines, read_destination, seek_address_end,
    seek_byte, skip_blank,
};
use crate::lexer::{lemma_run_end, CharClass, Lexer, Token};
use crate::line::{
    byte_at, find_line_end, find_next_line, indent_end, is_blank, lemma_indent_end, lemma_line_end,
    lemma_line_end_step, lemma_line_end_within, lemma_next_line, length, line_end, next_line,
    skip_break, skip_whitespace,
};
use crate::table::{parse_table, table_header};
use crate::text::{append_span, is_cut, lemma_cut_at_ascii};

verus! {

/// Whether `pos` is an offset of the source at which a line can be looked
/// at.
pub open spec fn is_place(bytes: Seq<u8>, pos: int) -> bool {
    is_cut(bytes, pos) && bytes.len() <= usize::MAX
}

/// Whether the line holds nothing but spaces and tabs from `pos` on.
pub fn blank_line(source: &str, pos: usize) -> (r: bool)
    requires
        is_place(source.spec_bytes(), pos as int),
    ensures
        r == is_blank(source.spec_bytes(), pos as int),
{
    skip_whitespace(source, pos) >= find_line_end(source, pos)
}

/// Whether the line opens or continues a block quote.
pub fn quote_line(source: &str, pos: usize) -> (r: bool)
    requires
        is_place(source.spec_bytes(), pos as int),
    ensures
        r == is_quote_line(source.spec_bytes(), pos as int),
{
    let at = skip_whitespace(source, pos);
    at < length(source) && byte_at(source, at) == GREATER_THAN
}

/// The number of backticks that the line starts with, if they are a fence.
pub fn fence(lexer: &mut Lexer, pos: usize) -> (r: Option<usize>)
    requires
        is_place(old(lexer).bytes(), pos as int),
    ensures
        final(lexer).text() == old(lexer).text(),
        match r {
            Some(n) => fence_length(old(lexer).bytes(), pos as int) == Some(n as int),
            None => fence_length(old(lexer).bytes(), pos as int) is None,
        },
{
    let source = lexer.source();
    let at = skip_whitespace(source, pos);
    let token = lexer.token_from(at);
    match token {
        Token::Backticks(range) => {
            if range.end - at >= 3 {
                Some(range.end - at)
            } else {
                None
            }
        },
        _ => None,
    }
}

/// The depth of the heading that the line is, if it is one.
pub fn heading(lexer: &mut Lexer, pos: usize) -> (r: Option<usize>)
    requires
        is_place(old(lexer).bytes(), pos as int),
    ensures
        final(lexer).text() == old(lexer).text(),
        match r {
            Some(n) => heading_depth(old(lexer).bytes(), pos as int) == Some(n as int) && 1 <= n
                <= 6,
            None => heading_depth(old(lexer).bytes(), pos as int) is None,
        },
{
    let source = lexer.source();
    let at = skip_whitespace(source, pos);
    let token = lexer.token_from(at);
    match token {
        Token::Pounds(range) => {
            let stop = range.end;
            let depth = stop - at;
            if 1 <= depth && depth <= 6 && (stop >= length(source) || whitespace(
                byte_at(source, stop),
            ) || line_break(byte_at(source, stop))) {
                Some(depth)
            } else {
                None
            }
        },
        _ => None,
    }
}

/// Whether the line is a thematic break.
pub fn break_line(lexer: &mut Lexer, pos: usize) -> (r: bool)
    requires
        is_place(old(lexer).bytes(), pos as int),
    ensures
        final(lexer).text() == old(lexer).text(),
        r == is_break_line(old(lexer).bytes(), pos as int),
{
    let source = lexer.source();
    let at = skip_whitespace(source, pos);
    let token = lexer.token_from(at);
    let stop = token.to_range().end;
    match token {
        Token::Dashes(_) | Token::Asterisks(_) | Token::Underscores(_) => stop - at >= 3
            && blank_line(source, stop),
        _ => false,
    }
}

/// Where the digits that start at `pos` end.
pub fn skip_digits(source: &str, pos: usize) -> (end: usize)
    requires
        is_place(source.spec_bytes(), pos as int),
    ensures
        end == digits_end(source.spec_bytes(), pos as int),
        pos <= end <= source.spec_bytes().len(),
        is_cut(source.spec_bytes(), end as int),
{
    proof {
        encode_utf8_valid_utf8(source@);
    }
    let bytes = source.as_bytes();
    let mut i = pos;
    while i < bytes.len() && digit(bytes[i])
        invariant
            bytes@ == source.spec_bytes(),
            valid_utf8(bytes@),
            pos <= i <= bytes.len(),
            is_cut(bytes@, i as int),
            digits_end(bytes@, i as int) == digits_end(bytes@, pos as int),
        decreases bytes.len() - i,
    {
        proof {
            lemma_cut_at_ascii(bytes@, i as int);
        }
        i = i + 1;
    }
    i
}

/// Where the marker of a list item ends, if the line starts with one.
pub fn item_marker(source: &str, pos: usize) -> (r: Option<usize>)
    requires
        is_place(source.spec_bytes(), pos as int),
    ensures
        match r {
            Some(stop) => {
                &&& item_marker_end(source.spec_bytes(), pos as int) == Some(stop as int)
                &&& pos < stop < source.spec_bytes().len()
                &&& is_cut(source.spec_bytes(), stop as int)
                &&& is_cut(source.spec_bytes(), stop + 1)
                &&& stop + 1 <= line_end(source.spec_bytes(), pos as int)
                &&& is_whitespace(source.spec_bytes()[stop as int])
            },
            None => item_marker_end(source.spec_bytes(), pos as int) is None,
        },
{
    proof {
        encode_utf8_valid_utf8(source@);
        lemma_indent_end(source.spec_bytes(), pos as int);
    }
    let total = length(source);
    let at = skip_whitespace(source, pos);
    let number = skip_digits(source, at);
    if at >= total || at + 1 >= total {
        return None;
    }
    let first = byte_at(source, at);
    let found = if (first == DASH || first == PLUS || first == ASTERISK) && whitespace(
        byte_at(source, at + 1),
    ) {
        proof {
            lemma_cut_at_ascii(source.spec_bytes(), at as int);
        }
        Some(at + 1)
    } else if at < number && number - at <= 9 && number < total - 1 && (byte_at(source, number)
        == DOT || byte_at(source, number) == RIGHT_PAREN) && whitespace(
        byte_at(source, number + 1),
    ) {
        proof {
            lemma_cut_at_ascii(source.spec_bytes(), number as int);
        }
        Some(number + 1)
    } else {
        None
    };
    proof {
        if let Some(stop) = found {
            let bytes = source.spec_bytes();
            lemma_cut_at_ascii(bytes, stop as int);
            lemma_digits_end(bytes, at as int);
            lemma_line_end_within(bytes, pos as int, at as int);
            lemma_line_end_step(bytes, pos as int, stop - 1);
            lemma_line_end_step(bytes, pos as int, stop as int);
        }
    }
    found
}

/// Whether the line cannot continue a paragraph.
pub fn interrupting(lexer: &mut Lexer, pos: usize) -> (r: bool)
    requires
        is_place(old(lexer).bytes(), pos as int),
    ensures
        final(lexer).text() == old(lexer).text(),
        r == interrupts(old(lexer).bytes(), pos as int),
{
    reveal(interrupts);
    let source = lexer.source();
    if blank_line(source, pos) || quote_line(source, pos) {
        return true;
    }
    if fence(lexer, pos).is_some() {
        return true;
    }
    if heading(lexer, pos).is_some() {
        return true;
    }
    if break_line(lexer, pos) {
        return true;
    }
    item_marker(source, pos).is_some()
}

/// The start of the line behind the one at `pos`.
pub fn line_after(source: &str, pos: usize) -> (next: usize)
    requires
        pos < source.spec_bytes().len(),
    ensures
        next == following_line(source.spec_bytes(), pos as int),
        next == next_line(source.spec_bytes(), pos as int),
        pos < next <= source.spec_bytes().len(),
        line_end(source.spec_bytes(), pos as int) <= next,
        is_cut(source.spec_bytes(), next as int),
{
    proof {
        lemma_next_line(source.spec_bytes(), pos as int);
    }
    find_next_line(source, pos)
}

/// The start of the first line from `pos` on that is not blank, or the end
/// of the source.
pub fn skip_blanks(source: &str, pos: usize) -> (start: usize)
    requires
        is_place(source.spec_bytes(), pos as int),
    ensures
        start == skip_blank_lines(source.spec_bytes(), pos as int),
        pos <= start <= source.spec_bytes().len(),
        is_cut(source.spec_bytes(), start as int),
        start < source.spec_bytes().len() ==> !is_blank(source.spec_bytes(), start as int),
{
    let total = length(source);
    let mut at = pos;
    while at < total && blank_line(source, at)
        invariant
            total == source.spec_bytes().len(),
            pos <= at <= total,
            is_place(source.spec_bytes(), at as int),
            skip_blank_lines(source.spec_bytes(), at as int) == skip_blank_lines(
                source.spec_bytes(),
                pos as int,
            ),
        decreases total - at,
    {
        at = line_after(source, at);
    }
    at
}

/// Where the paragraph that starts with the line at `pos` ends.
pub fn find_paragraph_end(lexer: &mut Lexer, pos: usize) -> (end: usize)
    requires
        is_place(old(lexer).bytes(), pos as int),
        pos < old(lexer).bytes().len(),
    ensures
        final(lexer).text() == old(lexer).text(),
        end == paragraph_end(old(lexer).bytes(), pos as int),
        line_end(old(lexer).bytes(), pos as int) <= end <= old(lexer).bytes().len(),
        is_cut(old(lexer).bytes(), end as int),
        end < old(lexer).bytes().len() ==> is_line_break(
            old(lexer).bytes()[end as int],
        ),
{
    let ghost bytes = lexer.bytes();
    let source = lexer.source();
    let total = length(source);
    let mut at = pos;
    proof {
        lemma_line_end(bytes, pos as int);
    }
    loop
        invariant
            lexer.text() == old(lexer).text(),
            bytes == lexer.bytes(),
            source == lexer.text(),
            total == bytes.len(),
            pos <= at < total,
            is_place(bytes, at as int),
            line_end(bytes, pos as int) <= line_end(bytes, at as int),
            paragraph_end(bytes, at as int) == paragraph_end(bytes, pos as int),
        decreases total - at,
    {
        let next = line_after(source, at);
        if next >= total || interrupting(lexer, next) {
            proof {
                lemma_line_end(bytes, at as int);
            }
            return find_line_end(source, at);
        }
        proof {
            lemma_line_end(bytes, next as int);
        }
        at = next;
    }
}

/// Whether the line closes a fence of `width` backticks.
pub fn closing_fence(lexer: &mut Lexer, pos: usize, width: usize) -> (r: bool)
    requires
        is_place(old(lexer).bytes(), pos as int),
    ensures
        final(lexer).text() == old(lexer).text(),
        r == closes_fence(old(lexer).bytes(), pos as int, width as int),
{
    let source = lexer.source();
    let at = skip_whitespace(source, pos);
    let token = lexer.token_from(at);
    match token {
        Token::Backticks(range) => range.end - at >= width && blank_line(source, range.end),
        _ => false,
    }
}

/// The start of the first line from `pos` on that closes a fence of
/// `width` backticks, or the end of the source.
pub fn find_fence_close(lexer: &mut Lexer, pos: usize, width: usize) -> (close: usize)
    requires
        is_place(old(lexer).bytes(), pos as int),
    ensures
        final(lexer).text() == old(lexer).text(),
        close == fence_close(old(lexer).bytes(), pos as int, width as int),
        pos <= close <= old(lexer).bytes().len(),
        is_cut(old(lexer).bytes(), close as int),
{
    let ghost bytes = lexer.bytes();
    let source = lexer.source();
    let total = length(source);
    let mut at = pos;
    while at < total && !closing_fence(lexer, at, width)
        invariant
            lexer.text() == old(lexer).text(),
            bytes == lexer.bytes(),
            source == lexer.text(),
            total == bytes.len(),
            pos <= at <= total,
            is_place(bytes, at as int),
            fence_close(bytes, at as int, width as int) == fence_close(
                bytes,
                pos as int,
                width as int,
            ),
        decreases total - at,
    {
        at = line_after(source, at);
    }
    at
}

/// The offset in front of the line break that ends at `pos`.
pub fn step_before_break(source: &str, pos: usize) -> (at: usize)
    requires
        is_place(source.spec_bytes(), pos as int),
    ensures
        at == before_break(source.spec_bytes(), pos as int),
        at <= pos,
        is_cut(source.spec_bytes(), at as int),
{
    proof {
        encode_utf8_valid_utf8(source@);
    }
    if pos > 0 && byte_at(source, pos - 1) == LINE_FEED {
        proof {
            lemma_cut_at_ascii(source.spec_bytes(), pos - 1);
        }
        if pos > 1 && byte_at(source, pos - 2) == CARRIAGE_RETURN {
            proof {
                lemma_cut_at_ascii(source.spec_bytes(), pos - 2);
            }
            pos - 2
        } else {
            pos - 1
        }
    } else if pos > 0 && byte_at(source, pos - 1) == CARRIAGE_RETURN {
        proof {
            lemma_cut_at_ascii(source.spec_bytes(), pos - 1);
        }
        pos - 1
    } else {
        pos
    }
}

/// The text of the span, unless the span is empty.
pub fn copy_optional(source: &str, start: usize, end: usize) -> (text: Option<String>)
    requires
        is_cut(source.spec_bytes(), start as int),
        is_cut(source.spec_bytes(), end as int),
    ensures
        text_of(text) == optional_text(source.spec_bytes(), start as int, end as int),
{
    if start < end {
        Some(copy_span(source, start, end))
    } else {
        None
    }
}

/// Whether `tree` is a block: flow content, well formed, with no text next
/// to another text.
pub open spec fn is_flow(tree: Tree) -> bool {
    &&& tree.data.content() == Some(Content::Flow)
    &&& tree.well_formed()
    &&& tree.coalesced()
}

/// The fenced code block that starts with the line at `pos`.
pub fn parse_code(lexer: &mut Lexer, pos: usize) -> (r: (Node, usize))
    requires
        is_place(old(lexer).bytes(), pos as int),
        pos < old(lexer).bytes().len(),
        fence_length(old(lexer).bytes(), pos as int) is Some,
    ensures
        final(lexer).text() == old(lexer).text(),
        r.0@ == code_at(old(lexer).bytes(), pos as int).tree,
        r.1 == code_at(old(lexer).bytes(), pos as int).next,
        pos < r.1 <= old(lexer).bytes().len(),
        is_cut(old(lexer).bytes(), r.1 as int),
        is_flow(r.0@),
{
    let ghost bytes = lexer.bytes();
    let source = lexer.source();
    let total = length(source);
    let at = skip_whitespace(source, pos);
    let token = lexer.token_from(at);
    let fence_end = token.to_range().end;
    let width = fence_end - at;
    let stop = find_line_end(source, pos);
    proof {
        lemma_line_end_within(bytes, pos as int, at as int);
        lemma_line_end(bytes, pos as int);
        lemma_run_end(bytes, fence_end as int, CharClass::WhiteSpace);
    }
    let lang_start = if fence_end <= stop {
        skip_blank(source, fence_end, stop)
    } else {
        stop
    };
    let lang_end = seek_address_end(source, lang_start, stop, SPACE);
    let meta_start = skip_blank(source, lang_end, stop);
    let first = line_after(source, pos);
    let close = find_fence_close(lexer, first, width);
    let last = step_before_break(source, close);
    let value = if first <= last {
        copy_span(source, first, last)
    } else {
        String::new()
    };
    let lang = copy_optional(source, lang_start, lang_end);
    let meta = copy_optional(source, meta_start, stop);
    let next = if close < total {
        line_after(source, close)
    } else {
        close
    };
    (Node::Code(Code { value, lang, meta }), next)
}

/// The definition that the line at `pos` is, if it is one.
pub fn parse_definition(source: &str, pos: usize) -> (r: Option<(Node, usize)>)
    requires
        is_place(source.spec_bytes(), pos as int),
        pos < source.spec_bytes().len(),
    ensures
        match r {
            Some((node, next)) => {
                &&& definition_at(source.spec_bytes(), pos as int) == Some(
                    Block { tree: node@, next: next as int },
                )
                &&& pos < next <= source.spec_bytes().len()
                &&& is_cut(source.spec_bytes(), next as int)
                &&& is_flow(node@)
            },
            None => definition_at(source.spec_bytes(), pos as int) is None,
        },
{
    proof {
        encode_utf8_valid_utf8(source@);
        lemma_line_end(source.spec_bytes(), pos as int);
    }
    let at = skip_whitespace(source, pos);
    let stop = find_line_end(source, pos);
    if !(at < stop && at + 1 < stop && byte_at(source, at) == LEFT_BRACKET && byte_at(
        source,
        at + 1,
    ) != CARET) {
        return None;
    }
    proof {
        lemma_cut_at_ascii(source.spec_bytes(), at as int);
    }
    let close = match seek_byte(source, at + 1, stop, RIGHT_BRACKET) {
        Some(close) => close,
        None => {
            return None;
        },
    };
    if !(at + 1 < close && close + 1 < stop && byte_at(source, close + 1) == COLON) {
        return None;
    }
    proof {
        lemma_cut_at_ascii(source.spec_bytes(), close + 1);
    }
    let destination = match read_destination(source, close + 2, stop, LINE_FEED) {
        Some(destination) => destination,
        None => {
            return None;
        },
    };
    if !(destination.url_start < destination.url_end && destination.next == stop) {
        return None;
    }
    let label = copy_span(source, at + 1, close);
    let identifier = normalize(label.as_str());
    let url = copy_span(source, destination.url_start, destination.url_end);
    let title = copy_title(source, &destination);
    let node = Node::Definition(Definition { identifier, label: Some(label), url, title });
    Some((node, line_after(source, pos)))
}

/// Every offset of the indentation of a line is a cut, and lies inside
/// the line.
pub proof fn lemma_cut_in_indent(bytes: Seq<u8>, pos: int, at: int)
    requires
        valid_utf8(bytes),
        is_cut(bytes, pos),
        pos <= at <= indent_end(bytes, pos),
    ensures
        is_cut(bytes, at),
        at <= line_end(bytes, pos),
    decreases at - pos,
{
    lemma_indent_end(bytes, pos);
    if pos < at {
        lemma_cut_at_ascii(bytes, pos);
        lemma_line_end(bytes, pos);
        lemma_cut_in_indent(bytes, pos + 1, at);
    }
}

/// Where the quoted text of the quote line at `pos` starts.
pub fn quote_start(source: &str, pos: usize) -> (start: usize)
    requires
        is_place(source.spec_bytes(), pos as int),
        is_quote_line(source.spec_bytes(), pos as int),
    ensures
        start == quote_content(source.spec_bytes(), pos as int),
        pos < start <= line_end(source.spec_bytes(), pos as int),
        is_cut(source.spec_bytes(), start as int),
{
    let ghost bytes = source.spec_bytes();
    proof {
        encode_utf8_valid_utf8(source@);
        lemma_indent_end(bytes, pos as int);
    }
    let total = length(source);
    let at = skip_whitespace(source, pos);
    proof {
        lemma_cut_at_ascii(bytes, at as int);
        lemma_line_end_step(bytes, pos as int, at as int);
    }
    if at + 1 < total && whitespace(byte_at(source, at + 1)) {
        proof {
            lemma_cut_at_ascii(bytes, at + 1);
            lemma_line_end_step(bytes, pos as int, at + 1);
        }
        at + 2
    } else {
        at + 1
    }
}

/// The quoted lines of the block quote that starts at `pos`, and where
/// the quote ends.
pub fn read_quote(lexer: &mut Lexer, pos: usize) -> (r: (String, usize))
    requires
        is_place(old(lexer).bytes(), pos as int),
        pos < old(lexer).bytes().len(),
        is_quote_line(old(lexer).bytes(), pos as int),
    ensures
        final(lexer).text() == old(lexer).text(),
        encode_utf8(r.0@) == quote_body(old(lexer).bytes(), pos as int, false).inner,
        r.1 == quote_body(old(lexer).bytes(), pos as int, false).end,
        pos < r.1 <= old(lexer).bytes().len(),
        is_cut(old(lexer).bytes(), r.1 as int),
{
    let ghost bytes = lexer.bytes();
    let source = lexer.source();
    let total = length(source);
    let mut inner = String::new();
    let mut at = pos;
    let mut lazy = false;
    assert(encode_utf8(inner@) + quote_body(bytes, pos as int, false).inner =~= quote_body(
        bytes,
        pos as int,
        false,
    ).inner);
    loop
        invariant
            lexer.text() == old(lexer).text(),
            bytes == lexer.bytes(),
            source == lexer.text(),
            total == bytes.len(),
            pos <= at <= total,
            is_place(bytes, at as int),
            at == pos ==> is_quote_line(bytes, pos as int),
            encode_utf8(inner@) + quote_body(bytes, at as int, lazy).inner == quote_body(
                bytes,
                pos as int,
                false,
            ).inner,
            quote_body(bytes, at as int, lazy).end == quote_body(bytes, pos as int, false).end,
        ensures
            pos < at <= total,
            is_cut(bytes, at as int),
            encode_utf8(inner@) == quote_body(bytes, pos as int, false).inner,
            at == quote_body(bytes, pos as int, false).end,
        decreases total - at,
    {
        if at >= total {
            assert(encode_utf8(inner@) + Seq::<u8>::empty() =~= encode_utf8(inner@));
            break ;
        }
        let next = line_after(source, at);
        let ghost before = encode_utf8(inner@);
        let ghost body = quote_body(bytes, at as int, lazy);
        if quote_line(source, at) {
            let start = quote_start(source, at);
            append_span(&mut inner, source, start, next);
            lazy = !interrupting(lexer, start);
            assert((before + bytes.subrange(start as int, next as int)) + quote_body(
                bytes,
                next as int,
                lazy,
            ).inner =~= before + body.inner);
            at = next;
        } else if lazy && !interrupting(lexer, at) {
            append_span(&mut inner, source, at, next);
            assert((before + bytes.subrange(at as int, next as int)) + quote_body(
                bytes,
                next as int,
                true,
            ).inner =~= before + body.inner);
            at = next;
        } else {
            assert(encode_utf8(inner@) + Seq::<u8>::empty() =~= encode_utf8(inner@));
            break ;
        }
    }
    (inner, at)
}

/// The lines of the container whose first line starts at `pos` and has
/// its content from `start` on, where the lines behind it are indented by
/// `width`; and where the container ends.
pub fn read_lines(lexer: &mut Lexer, pos: usize, start: usize, width: usize) -> (r: (
    String,
    usize,
))
    requires
        is_place(old(lexer).bytes(), pos as int),
        pos < start <= line_end(old(lexer).bytes(), pos as int),
        is_cut(old(lexer).bytes(), start as int),
        pos < old(lexer).bytes().len(),
        width >= 1,
    ensures
        final(lexer).text() == old(lexer).text(),
        encode_utf8(r.0@) == container_lines(
            old(lexer).bytes(),
            pos as int,
            start as int,
            width as int,
        ).inner,
        r.1 == container_lines(old(lexer).bytes(), pos as int, start as int, width as int).end,
        pos < r.1 <= old(lexer).bytes().len(),
        is_cut(old(lexer).bytes(), r.1 as int),
{
    let ghost bytes = lexer.bytes();
    let ghost lines = container_lines(bytes, pos as int, start as int, width as int);
    let source = lexer.source();
    let total = length(source);
    let first = line_after(source, pos);
    let mut inner = String::new();
    append_span(&mut inner, source, start, first);
    let mut lazy = !interrupting(lexer, start);
    let mut at = first;
    proof {
        encode_utf8_valid_utf8(source@);
        assert(encode_utf8(inner@) =~= bytes.subrange(start as int, first as int));
    }
    loop
        invariant
            lexer.text() == old(lexer).text(),
            bytes == lexer.bytes(),
            source == lexer.text(),
            valid_utf8(bytes),
            total == bytes.len(),
            pos < at <= total,
            width >= 1,
            lines == container_lines(bytes, pos as int, start as int, width as int),
            is_place(bytes, at as int),
            encode_utf8(inner@) + item_body(bytes, at as int, width as int, lazy).inner
                == lines.inner,
            item_body(bytes, at as int, width as int, lazy).end == lines.end,
        ensures
            pos < at <= total,
            is_cut(bytes, at as int),
            encode_utf8(inner@) == lines.inner,
            at == lines.end,
        decreases total - at,
    {
        if at >= total {
            assert(encode_utf8(inner@) + Seq::<u8>::empty() =~= encode_utf8(inner@));
            break ;
        }
        let next = line_after(source, at);
        let ghost before = encode_utf8(inner@);
        let ghost body = item_body(bytes, at as int, width as int, lazy);
        let indent = skip_whitespace(source, at) - at;
        if blank_line(source, at) {
            let resume = skip_blanks(source, at);
            if at < resume && resume < total && skip_whitespace(source, resume) - resume
                >= width {
                append_span(&mut inner, source, at, resume);
                lazy = false;
                assert((before + bytes.subrange(at as int, resume as int)) + item_body(
                    bytes,
                    resume as int,
                    width as int,
                    false,
                ).inner =~= before + body.inner);
                at = resume;
            } else {
                assert(encode_utf8(inner@) + Seq::<u8>::empty() =~= encode_utf8(inner@));
                break ;
            }
        } else if indent >= width {
            proof {
                lemma_cut_in_indent(bytes, at as int, at + width);
            }
            append_span(&mut inner, source, at + width, next);
            lazy = !interrupting(lexer, at + width);
            assert((before + bytes.subrange(at + width, next as int)) + item_body(
                bytes,
                next as int,
                width as int,
                lazy,
            ).inner =~= before + body.inner);
            at = next;
        } else if lazy && !interrupting(lexer, at) {
            append_span(&mut inner, source, at, next);
            assert((before + bytes.subrange(at as int, next as int)) + item_body(
                bytes,
                next as int,
                width as int,
                true,
            ).inner =~= before + body.inner);
            at = next;
        } else {
            assert(encode_utf8(inner@) + Seq::<u8>::empty() =~= encode_utf8(inner@));
            break ;
        }
    }
    (inner, at)
}

/// The blocks of a container, whose lines are `inner`.
pub fn parse_nested(inner: &str, definitions: &Vec<String>) -> (nodes: Vec<Node>)
    ensures
        trees(nodes@) == blocks(inner.spec_bytes(), labels(definitions@)),
        content_run(trees(nodes@), Content::Flow),
    decreases inner.spec_bytes().len(), inner.spec_bytes().len() + 1, 0int,
{
    let mut lexer = Lexer::new(inner);
    let start = lexer.next_offset();
    parse_blocks(&mut lexer, start, definitions)
}

/// The heading that the line at `pos` is.
pub fn parse_heading(
    lexer: &mut Lexer,
    pos: usize,
    depth: usize,
    definitions: &Vec<String>,
) -> (r: (Node, usize))
    requires
        is_place(old(lexer).bytes(), pos as int),
        pos < old(lexer).bytes().len(),
        heading_depth(old(lexer).bytes(), pos as int) == Some(depth as int),
        1 <= depth <= 6,
    ensures
        final(lexer).text() == old(lexer).text(),
        r.0@ == heading_at(old(lexer).bytes(), pos as int, labels(definitions@)).tree,
        r.1 == heading_at(old(lexer).bytes(), pos as int, labels(definitions@)).next,
        pos < r.1 <= old(lexer).bytes().len(),
        is_cut(old(lexer).bytes(), r.1 as int),
        is_flow(r.0@),
{
    let ghost bytes = lexer.bytes();
    let source = lexer.source();
    let at = skip_whitespace(source, pos);
    let token = lexer.token_from(at);
    let behind = token.to_range().end;
    let stop = find_line_end(source, pos);
    proof {
        lemma_run_end(bytes, behind as int, CharClass::WhiteSpace);
    }
    let start = if behind <= stop {
        skip_blank(source, behind, stop)
    } else {
        stop
    };
    let children = parse_inlines(lexer, start, stop, definitions);
    let mut heading = Heading::new(depth);
    heading.children = children;
    proof {
        lemma_parent_of(
            NodeData::Heading { depth: depth as nat },
            trees(heading.children@),
            Content::Phrasing,
        );
    }
    (Node::Heading(heading), line_after(source, pos))
}

/// The paragraph that starts with the line at `pos`.
pub fn parse_paragraph(lexer: &mut Lexer, pos: usize, definitions: &Vec<String>) -> (r: (
    Node,
    usize,
))
    requires
        is_place(old(lexer).bytes(), pos as int),
        pos < old(lexer).bytes().len(),
    ensures
        final(lexer).text() == old(lexer).text(),
        r.0@ == paragraph_at(old(lexer).bytes(), pos as int, labels(definitions@)).tree,
        r.1 == paragraph_at(old(lexer).bytes(), pos as int, labels(definitions@)).next,
        pos < r.1 <= old(lexer).bytes().len(),
        is_cut(old(lexer).bytes(), r.1 as int),
        is_flow(r.0@),
{
    let ghost bytes = lexer.bytes();
    let source = lexer.source();
    let at = skip_whitespace(source, pos);
    let end = find_paragraph_end(lexer, pos);
    let children = parse_inlines(lexer, at, end, definitions);
    proof {
        lemma_parent_of(NodeData::Paragraph, trees(children@), Content::Phrasing);
    }
    (Node::Paragraph(Paragraph { children }), skip_break(source, end))
}

/// The block quote that starts with the line at `pos`.
pub fn parse_block_quote(lexer: &mut Lexer, pos: usize, definitions: &Vec<String>) -> (r: (
    Node,
    usize,
))
    requires
        is_place(old(lexer).bytes(), pos as int),
        pos < old(lexer).bytes().len(),
        is_quote_line(old(lexer).bytes(), pos as int),
    ensures
        final(lexer).text() == old(lexer).text(),
        r.0@ == quote_at(old(lexer).bytes(), pos as int, labels(definitions@)).tree,
        r.1 == quote_at(old(lexer).bytes(), pos as int, labels(definitions@)).next,
        pos < r.1 <= old(lexer).bytes().len(),
        is_cut(old(lexer).bytes(), r.1 as int),
        is_flow(r.0@),
    decreases old(lexer).bytes().len(), old(lexer).bytes().len() - pos, 1int,
{
    let (inner, end) = read_quote(lexer, pos);
    proof {
        lemma_quote_body(old(lexer).bytes(), pos as int, false);
    }
    let children = parse_nested(inner.as_str(), definitions);
    proof {
        lemma_parent_of(NodeData::Blockquote, trees(children@), Content::Flow);
    }
    (Node::Blockquote(Blockquote { children }), end)
}

/// The list that starts with the item at `pos`.
pub fn parse_list(lexer: &mut Lexer, pos: usize, definitions: &Vec<String>) -> (r: (Node, usize))
    requires
        is_place(old(lexer).bytes(), pos as int),
        pos < old(lexer).bytes().len(),
        item_marker_end(old(lexer).bytes(), pos as int) is Some,
    ensures
        final(lexer).text() == old(lexer).text(),
        r.0@ == list_at(old(lexer).bytes(), pos as int, labels(definitions@)).tree,
        r.1 == list_at(old(lexer).bytes(), pos as int, labels(definitions@)).next,
        pos < r.1 <= old(lexer).bytes().len(),
        is_cut(old(lexer).bytes(), r.1 as int),
        is_flow(r.0@),
    decreases old(lexer).bytes().len(), old(lexer).bytes().len() - pos, 1int,
{
    let ghost bytes = lexer.bytes();
    let ghost known = labels(definitions@);
    let source = lexer.source();
    let total = length(source);
    let mut stop = match item_marker(source, pos) {
        Some(stop) => stop,
        None => pos,
    };
    let style = byte_at(source, stop - 1);
    let mut items: Vec<Node> = Vec::new();
    let mut at = pos;
    assert(trees(items@) =~= Seq::empty());
    loop
        invariant
            lexer.text() == old(lexer).text(),
            bytes == lexer.bytes(),
            source == lexer.text(),
            known == labels(definitions@),
            total == bytes.len(),
            pos <= at < stop < total,
            is_place(bytes, at as int),
            item_marker_end(bytes, at as int) == Some(stop as int),
            is_cut(bytes, stop + 1),
            stop + 1 <= line_end(bytes, at as int),
            style == marker_style(bytes, pos as int),
            list_items(bytes, at as int, style, known, trees(items@)) == list_items(
                bytes,
                pos as int,
                style,
                known,
                Seq::empty(),
            ),
            content_run(trees(items@), Content::List),
        decreases total - at,
    {
        let (inner, end) = read_lines(lexer, at, stop + 1, stop + 1 - at);
        proof {
            lemma_container_lines(bytes, at as int, stop + 1, stop + 1 - at);
        }
        let children = parse_nested(inner.as_str(), definitions);
        let item = Node::ListItem(ListItem { children });
        proof {
            lemma_parent_of(NodeData::ListItem, trees(children@), Content::Flow);
            lemma_trees_push(items@, item);
        }
        items.push(item);
        let resume = skip_blanks(source, end);
        let more = if resume < total {
            match item_marker(source, resume) {
                Some(behind) => {
                    if byte_at(source, behind - 1) == style {
                        Some(behind)
                    } else {
                        None
                    }
                },
                None => None,
            }
        } else {
            None
        };
        match more {
            Some(behind) => {
                at = resume;
                stop = behind;
            },
            None => {
                proof {
                    lemma_parent_of(NodeData::List, trees(items@), Content::List);
                }
                return (Node::List(List { children: items }), end);
            },
        }
    }
}

/// The offset of the bracket that closes the label of the footnote
/// definition that the line at `pos` starts, if it starts one.
pub fn find_footnote_label(source: &str, pos: usize) -> (found: Option<usize>)
    requires
        is_place(source.spec_bytes(), pos as int),
        pos < source.spec_bytes().len(),
    ensures
        match found {
            Some(close) => {
                &&& footnote_label_end(source.spec_bytes(), pos as int) == Some(close as int)
                &&& is_span(
                    source.spec_bytes(),
                    marker(source.spec_bytes(), pos as int) + 2,
                    close as int,
                )
                &&& is_cut(source.spec_bytes(), close + 2)
                &&& pos < close
                &&& close + 2 <= line_end(source.spec_bytes(), pos as int)
            },
            None => footnote_label_end(source.spec_bytes(), pos as int) is None,
        },
{
    proof {
        encode_utf8_valid_utf8(source@);
        lemma_line_end(source.spec_bytes(), pos as int);
    }
    let at = skip_whitespace(source, pos);
    let stop = find_line_end(source, pos);
    if !(at < stop && at + 1 < stop && at + 2 < stop && byte_at(source, at) == LEFT_BRACKET
        && byte_at(source, at + 1) == CARET) {
        return None;
    }
    proof {
        lemma_cut_at_ascii(source.spec_bytes(), at as int);
        lemma_cut_at_ascii(source.spec_bytes(), at + 1);
    }
    match seek_byte(source, at + 2, stop, RIGHT_BRACKET) {
        Some(close) => {
            if at + 2 < close && close + 1 < stop && byte_at(source, close + 1) == COLON {
                proof {
                    lemma_cut_at_ascii(source.spec_bytes(), close + 1);
                }
                Some(close)
            } else {
                None
            }
        },
        None => None,
    }
}

/// The blocks of the footnote definition that starts with the line at
/// `pos`, whose label ends at `close`; and where the definition ends.
pub fn parse_footnote_lines(
    lexer: &mut Lexer,
    pos: usize,
    close: usize,
    definitions: &Vec<String>,
) -> (r: (Vec<Node>, usize))
    requires
        is_place(old(lexer).bytes(), pos as int),
        pos < old(lexer).bytes().len(),
        footnote_label_end(old(lexer).bytes(), pos as int) == Some(close as int),
        is_cut(old(lexer).bytes(), close + 2),
        pos < close,
        close + 2 <= line_end(old(lexer).bytes(), pos as int),
    ensures
        final(lexer).text() == old(lexer).text(),
        trees(r.0@) == blocks(
            footnote_lines(old(lexer).bytes(), pos as int).inner,
            labels(definitions@),
        ),
        content_run(trees(r.0@), Content::Flow),
        r.1 == footnote_lines(old(lexer).bytes(), pos as int).end,
        pos < r.1 <= old(lexer).bytes().len(),
        is_cut(old(lexer).bytes(), r.1 as int),
    decreases old(lexer).bytes().len(), old(lexer).bytes().len() - pos, 0int,
{
    let ghost bytes = lexer.bytes();
    let source = lexer.source();
    let stop = find_line_end(source, pos);
    let start = skip_blank(source, close + 2, stop);
    let (inner, end) = read_lines(lexer, pos, start, FOOTNOTE_INDENT);
    proof {
        lemma_container_lines(bytes, pos as int, start as int, FOOTNOTE_INDENT as int);
    }
    (parse_nested(inner.as_str(), definitions), end)
}

/// The footnote definition with the given label over the given blocks.
pub fn make_footnote_definition(children: Vec<Node>, identifier: String, label: String) -> (node:
    Node)
    requires
        content_run(trees(children@), Content::Flow),
    ensures
        node@ == (Tree {
            data: NodeData::FootnoteDefinition { identifier: identifier@, label: Some(label@) },
            children: trees(children@),
        }),
        is_flow(node@),
{
    proof {
        lemma_parent_of(
            NodeData::FootnoteDefinition { identifier: identifier@, label: Some(label@) },
            trees(children@),
            Content::Flow,
        );
    }
    Node::FootnoteDefinition(FootnoteDefinition { children, identifier, label: Some(label) })
}

/// The footnote definition that starts with the line at `pos`, whose label
/// ends at `close`.
pub fn parse_footnote_definition(
    lexer: &mut Lexer,
    pos: usize,
    close: usize,
    definitions: &Vec<String>,
) -> (r: (Node, usize))
    requires
        is_place(old(lexer).bytes(), pos as int),
        pos < old(lexer).bytes().len(),
        footnote_label_end(old(lexer).bytes(), pos as int) == Some(close as int),
        is_span(old(lexer).bytes(), marker(old(lexer).bytes(), pos as int) + 2, close as int),
        is_cut(old(lexer).bytes(), close + 2),
        pos < close,
        close + 2 <= line_end(old(lexer).bytes(), pos as int),
    ensures
        final(lexer).text() == old(lexer).text(),
        r.0@ == footnote_at(old(lexer).bytes(), pos as int, labels(definitions@)).tree,
        r.1 == footnote_at(old(lexer).bytes(), pos as int, labels(definitions@)).next,
        pos < r.1 <= old(lexer).bytes().len(),
        is_cut(old(lexer).bytes(), r.1 as int),
        is_flow(r.0@),
    decreases old(lexer).bytes().len(), old(lexer).bytes().len() - pos, 1int,
{
    let source = lexer.source();
    let at = skip_whitespace(source, pos);
    let label = copy_span(source, at + 2, close);
    let identifier = normalize(label.as_str());
    let (children, end) = parse_footnote_lines(lexer, pos, close, definitions);
    (make_footnote_definition(children, identifier, label), end)
}

/// The block that starts with the line at `pos`, which is not blank.
pub fn parse_block(lexer: &mut Lexer, pos: usize, definitions: &Vec<String>) -> (r: (Node, usize))
    requires
        is_place(old(lexer).bytes(), pos as int),
        pos < old(lexer).bytes().len(),
    ensures
        final(lexer).text() == old(lexer).text(),
        r.0@ == block_at(old(lexer).bytes(), pos as int, labels(definitions@)).tree,
        r.1 == block_at(old(lexer).bytes(), pos as int, labels(definitions@)).next,
        pos < r.1 <= old(lexer).bytes().len(),
        is_cut(old(lexer).bytes(), r.1 as int),
        is_flow(r.0@),
    decreases old(lexer).bytes().len(), old(lexer).bytes().len() - pos, 2int,
{
    let source = lexer.source();
    if quote_line(source, pos) {
        return parse_block_quote(lexer, pos, definitions);
    }
    if fence(lexer, pos).is_some() {
        return parse_code(lexer, pos);
    }
    if let Some(depth) = heading(lexer, pos) {
        return parse_heading(lexer, pos, depth, definitions);
    }
    if break_line(lexer, pos) {
        return (Node::ThematicBreak(ThematicBreak {  }), line_after(source, pos));
    }
    if item_marker(source, pos).is_some() {
        return parse_list(lexer, pos, definitions);
    }
    if let Some(found) = parse_definition(source, pos) {
        return found;
    }
    if let Some(close) = find_footnote_label(source, pos) {
        return parse_footnote_definition(lexer, pos, close, definitions);
    }
    if let Some(columns) = table_header(lexer, pos) {
        return parse_table(lexer, pos, columns, definitions);
    }
    parse_paragraph(lexer, pos, definitions)
}

/// The blocks from `pos` on.
pub fn parse_blocks(lexer: &mut Lexer, pos: usize, definitions: &Vec<String>) -> (nodes: Vec<Node>)
    requires
        is_place(old(lexer).bytes(), pos as int),
    ensures
        final(lexer).text() == old(lexer).text(),
        trees(nodes@) == blocks_from(
            old(lexer).bytes(),
            pos as int,
            labels(definitions@),
            Seq::empty(),
        ),
        content_run(trees(nodes@), Content::Flow),
    decreases old(lexer).bytes().len(), old(lexer).bytes().len() - pos, 3int,
{
    let ghost bytes = lexer.bytes();
    let ghost known = labels(definitions@);
    let source = lexer.source();
    let total = length(source);
    let mut nodes: Vec<Node> = Vec::new();
    let mut at = pos;
    assert(trees(nodes@) =~= Seq::empty());
    loop
        invariant
            lexer.text() == old(lexer).text(),
            bytes == lexer.bytes(),
            source == lexer.text(),
            known == labels(definitions@),
            total == bytes.len(),
            pos <= at <= total,
            is_place(bytes, at as int),
            blocks_from(bytes, at as int, known, trees(nodes@)) == blocks_from(
                bytes,
                pos as int,
                known,
                Seq::empty(),
            ),
            content_run(trees(nodes@), Content::Flow),
        decreases total - at,
    {
        let start = skip_blanks(source, at);
        if start >= total {
            return nodes;
        }
        let (node, next) = parse_block(lexer, start, definitions);
        proof {
            lemma_trees_push(nodes@, node);
        }
        nodes.push(node);
        at = next;
    }
}

/// Adds the identifiers of the definitions in `nodes`, at any depth, to
/// `found`.
pub fn collect_definitions(nodes: &Vec<Node>, found: &mut Vec<String>)
    ensures
        labels(final(found)@) == labels(old(found)@) + definitions_in(
            trees(nodes@),
            nodes@.len(),
        ),
    decreases trees(nodes@),
{
    let mut i: usize = 0;
    assert(labels(found@) + definitions_in(trees(nodes@), 0) =~= labels(found@));
    while i < nodes.len()
        invariant
            i <= nodes.len(),
            labels(found@) == labels(old(found)@) + definitions_in(trees(nodes@), i as nat),
        decreases nodes.len() - i,
    {
        let node = &nodes[i];
        let ghost before = labels(found@);
        let ghost tree = trees(nodes@)[i as int];
        assert(tree == node@);
        if let Node::Definition(definition) = node {
            found.push(definition.identifier.clone());
            assert(labels(found@) =~= before + seq![definition.identifier@]);
        } else {
            assert(labels(found@) =~= before + Seq::<Seq<char>>::empty());
        }
        let ghost own = labels(found@);
        match node.child_nodes() {
            Some(children) => {
                collect_definitions(children, found);
            },
            None => {
                assert(labels(found@) =~= own + definitions_in(tree.children, 0));
            },
        }
        assert(labels(found@) =~= labels(old(found)@) + definitions_in(
            trees(nodes@),
            (i + 1) as nat,
        ));
        i = i + 1;
    }
}

/// What can go wrong when a source is parsed.
#[derive(Debug, PartialEq, Eq)]
pub enum ParserError {
    /// The tree could not be built.
    AstError(AstError),
}

impl ParserError {
    /// What went wrong, in words.
    pub open spec fn description(self) -> Seq<char> {
        match self {
            ParserError::AstError(error) => "mdast error "@ + error.description(),
        }
    }

    /// What went wrong, in words.
    pub fn message(&self) -> (text: String)
        ensures
            text@ == self.description(),
    {
        match self {
            ParserError::AstError(error) => {
                let mut text = "mdast error ".to_owned();
                text.append(error.message().as_str());
                text
            },
        }
    }
}

impl From<AstError> for ParserError {
    fn from(error: AstError) -> (r: Self) {
        ParserError::AstError(error)
    }
}

impl FromSpecImpl<AstError> for ParserError {
    open spec fn obeys_from_spec() -> bool {
        true
    }

    open spec fn from_spec(error: AstError) -> Self {
        ParserError::AstError(error)
    }
}

/// The next block from `pos` on, if there is one.
pub open spec fn flow_at(bytes: Seq<u8>, pos: int, definitions: Seq<Seq<char>>) -> Option<Block> {
    let start = skip_blank_lines(bytes, pos);
    if pos < 0 || start < pos || start >= bytes.len() {
        None
    } else {
        Some(block_at(bytes, start, definitions))
    }
}

/// The parser: a reader of the tokens that its lexer hands out.
pub struct Parser<'a> {
    lexer: Lexer<'a>,
}

impl<'a> Parser<'a> {
    /// The source.
    pub closed spec fn text(&self) -> &'a str {
        self.lexer.text()
    }

    /// The bytes of the source.
    pub open spec fn bytes(&self) -> Seq<u8> {
        self.text().spec_bytes()
    }

    /// The offset from which the parser reads on.
    pub closed spec fn position(&self) -> int {
        self.lexer.position()
    }

    /// The parser that reads what `lexer` has not handed out yet.
    pub closed spec fn over(lexer: Lexer<'a>) -> Self {
        Parser { lexer }
    }

    /// A parser that reads what `lexer` has not handed out yet.
    pub fn new(lexer: Lexer<'a>) -> (parser: Self)
        ensures
            parser == Self::over(lexer),
            parser.text() == lexer.text(),
            parser.position() == lexer.position(),
    {
        Parser { lexer }
    }

    /// The next block, if there is one, where `definitions` holds the
    /// identifiers that the source defines; the parser moves behind it.
    pub fn parse_flow_content(&mut self, definitions: &Vec<String>) -> (node: Option<Node>)
        ensures
            final(self).text() == old(self).text(),
            match flow_at(old(self).bytes(), old(self).position(), labels(definitions@)) {
                Some(block) => {
                    &&& node is Some
                    &&& node->0@ == block.tree
                    &&& final(self).position() == block.next
                    &&& skip_blank_lines(old(self).bytes(), old(self).position()) < block.next
                        <= old(self).bytes().len()
                    &&& old(self).position() < block.next
                    &&& is_flow(block.tree)
                },
                None => {
                    &&& node is None
                    &&& final(self).position() == old(self).bytes().len()
                },
            },
    {
        let source = self.lexer.source();
        let total = length(source);
        let at = self.lexer.next_offset();
        let start = skip_blanks(source, at);
        if start >= total {
            self.lexer.seek(total);
            return None;
        }
        let (node, next) = parse_block(&mut self.lexer, start, definitions);
        self.lexer.seek(next);
        Some(node)
    }

    /// The blocks from where the parser stands, as a document, where
    /// `definitions` holds the identifiers that the source defines.
    pub fn parse_document(&mut self, definitions: &Vec<String>) -> (result: Result<
        Document,
        ParserError,
    >)
        ensures
            final(self).text() == old(self).text(),
            final(self).position() == old(self).bytes().len(),
            result is Ok,
            trees(result->Ok_0.children@) == blocks_from(
                old(self).bytes(),
                old(self).position(),
                labels(definitions@),
                Seq::empty(),
            ),
            content_run(trees(result->Ok_0.children@), Content::Flow),
    {
        let ghost bytes = self.bytes();
        let ghost start = self.position();
        let ghost known = labels(definitions@);
        let mut document = Document::default();
        assert(trees(document.children@) =~= Seq::empty());
        let _ = self.lexer.next_offset();
        loop
            invariant
                self.text() == old(self).text(),
                bytes == self.bytes(),
                start == old(self).position(),
                known == labels(definitions@),
                0 <= self.position() <= bytes.len(),
                content_run(trees(document.children@), Content::Flow),
                blocks_from(bytes, self.position(), known, trees(document.children@))
                    == blocks_from(bytes, start, known, Seq::empty()),
            decreases bytes.len() - self.position(),
        {
            match self.parse_flow_content(definitions) {
                Some(node) => {
                    proof {
                        lemma_trees_push(document.children@, node);
                    }
                    match document.add_child_node(node) {
                        Ok(_) => {},
                        Err(error) => {
                            return Err(ParserError::from(error));
                        },
                    }
                },
                None => {
                    return Ok(document);
                },
            }
        }
    }

    /// The document that the source holds from where the parser stands.
    pub fn parse(&mut self) -> (result: Result<Document, ParserError>)
        ensures
            final(self).text() == old(self).text(),
            final(self).position() == old(self).bytes().len(),
            result is Ok,
            Node::Document(result->Ok_0)@ == document(old(self).bytes(), old(self).position()),
            Node::Document(result->Ok_0)@.well_formed(),
            Node::Document(result->Ok_0)@.coalesced(),
    {
        let start = self.lexer.next_offset();
        let nothing: Vec<String> = Vec::new();
        assert(labels(nothing@) =~= Seq::<Seq<char>>::empty());
        let first = parse_blocks(&mut self.lexer, start, &nothing);
        let mut definitions: Vec<String> = Vec::new();
        collect_definitions(&first, &mut definitions);
        assert(labels(definitions@) =~= definitions_in(trees(first@), first@.len()));
        self.lexer.seek(start);
        let result = self.parse_document(&definitions);
        proof {
            if result is Ok {
                lemma_parent_of(
                    NodeData::Document,
                    trees(result->Ok_0.children@),
                    Content::Flow,
                );
            }
        }
        result
    }
}

impl<'a> From<&'a str> for Parser<'a> {
    fn from(source: &'a str) -> (parser: Self) {
        Parser::new(Lexer::new(source))
    }
}

impl<'a> FromSpecImpl<&'a str> for Parser<'a> {
    open spec fn obeys_from_spec() -> bool {
        true
    }

    open spec fn from_spec(source: &'a str) -> Self {
        Parser::over(Lexer::at_start(source))
    }
}

} // verus!
