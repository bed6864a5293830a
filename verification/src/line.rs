use vstd::prelude::*;
use vstd::string::StringSliceAdditionalSpecFns;
use vstd::utf8::{encode_utf8_valid_utf8, valid_utf8};

use crate::ascii::{is_line_break, line_break, whitespace, CARRIAGE_RETURN, LINE_FEED};
use crate::lexer::{lemma_run_end, run_end, CharClass};
use crate::text::{is_cut, lemma_cut_at_ascii, lemma_cut_ends};

verus! {

/// Where the line that `pos` lies in ends: at its line break, or at the end
/// of the source.
pub open spec fn line_end(bytes: Seq<u8>, pos: int) -> int
    decreases bytes.len() - pos,
{
    if 0 <= pos < bytes.len() && !is_line_break(bytes[pos]) {
        line_end(bytes, pos + 1)
    } else {
        pos
    }
}

/// Where the line that follows the line break at `end` starts; a carriage
/// return and the line feed behind it are one line break.
pub open spec fn after_break(bytes: Seq<u8>, end: int) -> int {
    if end < 0 || end >= bytes.len() {
        end
    } else if bytes[end] == CARRIAGE_RETURN && end + 1 < bytes.len() && bytes[end + 1]
        == LINE_FEED {
        end + 2
    } else {
        end + 1
    }
}

/// Where the line behind the line that `pos` lies in starts.
pub open spec fn next_line(bytes: Seq<u8>, pos: int) -> int {
    after_break(bytes, line_end(bytes, pos))
}

/// Where the spaces and tabs that start at `pos` end.
pub open spec fn indent_end(bytes: Seq<u8>, pos: int) -> int {
    run_end(bytes, pos, CharClass::WhiteSpace)
}

/// Whether the line holds nothing but spaces and tabs from `pos` on.
pub open spec fn is_blank(bytes: Seq<u8>, pos: int) -> bool {
    indent_end(bytes, pos) >= line_end(bytes, pos)
}

/// A line ends inside the source, at a cut, and at a line break unless the
/// source ends there.
pub proof fn lemma_line_end(bytes: Seq<u8>, pos: int)
    requires
        0 <= pos <= bytes.len(),
    ensures
        pos <= line_end(bytes, pos) <= bytes.len(),
        line_end(bytes, pos) < bytes.len() ==> is_line_break(bytes[line_end(bytes, pos)]),
        valid_utf8(bytes) ==> is_cut(bytes, line_end(bytes, pos)),
    decreases bytes.len() - pos,
{
    if pos < bytes.len() && !is_line_break(bytes[pos]) {
        lemma_line_end(bytes, pos + 1);
    } else if valid_utf8(bytes) {
        if pos < bytes.len() {
            lemma_cut_at_ascii(bytes, pos);
        } else {
            lemma_cut_ends(bytes);
        }
    }
}

/// Every offset of a line has the end of that line as its own.
pub proof fn lemma_line_end_within(bytes: Seq<u8>, pos: int, within: int)
    requires
        0 <= pos <= within <= line_end(bytes, pos),
        pos <= bytes.len(),
    ensures
        line_end(bytes, within) == line_end(bytes, pos),
    decreases within - pos,
{
    if pos < within {
        lemma_line_end_within(bytes, pos + 1, within);
    }
}

/// A line does not end at a byte that is no line break.
pub proof fn lemma_line_end_step(bytes: Seq<u8>, pos: int, at: int)
    requires
        0 <= pos <= at <= line_end(bytes, pos),
        at < bytes.len(),
        !is_line_break(bytes[at]),
    ensures
        at + 1 <= line_end(bytes, pos),
{
    lemma_line_end(bytes, pos);
    lemma_line_end_within(bytes, pos, at);
    lemma_line_end(bytes, at + 1);
}

/// The next line starts behind the end of this one, inside the source and
/// at a cut.
pub proof fn lemma_next_line(bytes: Seq<u8>, pos: int)
    requires
        0 <= pos <= bytes.len(),
    ensures
        line_end(bytes, pos) <= next_line(bytes, pos) <= bytes.len(),
        pos < bytes.len() ==> pos < next_line(bytes, pos),
        valid_utf8(bytes) ==> is_cut(bytes, next_line(bytes, pos)),
{
    lemma_line_end(bytes, pos);
    let end = line_end(bytes, pos);
    if valid_utf8(bytes) && end < bytes.len() {
        lemma_cut_at_ascii(bytes, end);
        if end + 1 < bytes.len() && bytes[end + 1] == LINE_FEED {
            lemma_cut_at_ascii(bytes, end + 1);
        }
    }
}

/// The indentation ends inside the line, and at a cut where it starts at
/// one.
pub proof fn lemma_indent_end(bytes: Seq<u8>, pos: int)
    requires
        0 <= pos <= bytes.len(),
    ensures
        pos <= indent_end(bytes, pos) <= line_end(bytes, pos),
        valid_utf8(bytes) && is_cut(bytes, pos) ==> is_cut(bytes, indent_end(bytes, pos)),
    decreases bytes.len() - pos,
{
    lemma_run_end(bytes, pos, CharClass::WhiteSpace);
    lemma_line_end(bytes, pos);
    if pos < bytes.len() && CharClass::WhiteSpace.has(bytes[pos]) {
        lemma_indent_end(bytes, pos + 1);
    }
}

/// The byte of `source` at `pos`.
pub fn byte_at(source: &str, pos: usize) -> (b: u8)
    requires
        pos < source.spec_bytes().len(),
    ensures
        b == source.spec_bytes()[pos as int],
{
    source.as_bytes()[pos]
}

/// The number of bytes of `source`.
pub fn length(source: &str) -> (len: usize)
    ensures
        len == source.spec_bytes().len(),
        valid_utf8(source.spec_bytes()),
        is_cut(source.spec_bytes(), 0),
        is_cut(source.spec_bytes(), len as int),
{
    proof {
        encode_utf8_valid_utf8(source@);
        lemma_cut_ends(source.spec_bytes());
    }
    source.as_bytes().len()
}

/// Where the line that `pos` lies in ends.
pub fn find_line_end(source: &str, pos: usize) -> (end: usize)
    requires
        pos <= source.spec_bytes().len(),
    ensures
        end == line_end(source.spec_bytes(), pos as int),
        pos <= end <= source.spec_bytes().len(),
        is_cut(source.spec_bytes(), end as int),
{
    proof {
        encode_utf8_valid_utf8(source@);
        lemma_line_end(source.spec_bytes(), pos as int);
    }
    let bytes = source.as_bytes();
    let mut i = pos;
    while i < bytes.len() && !line_break(bytes[i])
        invariant
            bytes@ == source.spec_bytes(),
            pos <= i <= bytes.len(),
            line_end(bytes@, i as int) == line_end(bytes@, pos as int),
        decreases bytes.len() - i,
    {
        i = i + 1;
    }
    i
}

/// Where the line behind the line break at `end` starts.
pub fn skip_break(source: &str, end: usize) -> (next: usize)
    requires
        end <= source.spec_bytes().len(),
        end < source.spec_bytes().len() ==> is_line_break(source.spec_bytes()[end as int]),
    ensures
        next == after_break(source.spec_bytes(), end as int),
        end <= next <= source.spec_bytes().len(),
        end < source.spec_bytes().len() ==> end < next,
        is_cut(source.spec_bytes(), next as int),
{
    proof {
        encode_utf8_valid_utf8(source@);
        lemma_cut_ends(source.spec_bytes());
        if end < source.spec_bytes().len() {
            lemma_cut_at_ascii(source.spec_bytes(), end as int);
            if end + 1 < source.spec_bytes().len() && source.spec_bytes()[end + 1] == LINE_FEED {
                lemma_cut_at_ascii(source.spec_bytes(), end + 1);
            }
        }
    }
    let bytes = source.as_bytes();
    if end >= bytes.len() {
        end
    } else if bytes[end] == CARRIAGE_RETURN && end + 1 < bytes.len() && bytes[end + 1]
        == LINE_FEED {
        end + 2
    } else {
        end + 1
    }
}

/// Where the line behind the line that `pos` lies in starts.
pub fn find_next_line(source: &str, pos: usize) -> (next: usize)
    requires
        pos <= source.spec_bytes().len(),
    ensures
        next == next_line(source.spec_bytes(), pos as int),
        pos <= next <= source.spec_bytes().len(),
        pos < source.spec_bytes().len() ==> pos < next,
        is_cut(source.spec_bytes(), next as int),
{
    proof {
        lemma_line_end(source.spec_bytes(), pos as int);
        lemma_next_line(source.spec_bytes(), pos as int);
    }
    let end = find_line_end(source, pos);
    skip_break(source, end)
}

/// Where the spaces and tabs that start at `pos` end.
pub fn skip_whitespace(source: &str, pos: usize) -> (end: usize)
    requires
        is_cut(source.spec_bytes(), pos as int),
    ensures
        end == indent_end(source.spec_bytes(), pos as int),
        pos <= end <= line_end(source.spec_bytes(), pos as int),
        end <= source.spec_bytes().len(),
        is_cut(source.spec_bytes(), end as int),
{
    proof {
        encode_utf8_valid_utf8(source@);
        lemma_indent_end(source.spec_bytes(), pos as int);
        lemma_line_end(source.spec_bytes(), pos as int);
    }
    let bytes = source.as_bytes();
    let mut i = pos;
    while i < bytes.len() && whitespace(bytes[i])
        invariant
            bytes@ == source.spec_bytes(),
            pos <= i <= bytes.len(),
            indent_end(bytes@, i as int) == indent_end(bytes@, pos as int),
        decreases bytes.len() - i,
    {
        i = i + 1;
    }
    i
}

} // verus!
