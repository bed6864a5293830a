use vstd::prelude::*;
use vstd::string::StringSliceAdditionalSpecFns;
use vstd::utf8::{encode_utf8_valid_utf8, valid_utf8};

use crate::ascii::{BACKSLASH, PIPE};
use crate::ast::{
    content_run, lemma_parent_of, lemma_trees_push, trees, AlignType, Content, Node, NodeData,
    Table, TableCell, TableRow, Tree,
};
use crate::block::{following_line, interrupts, marker, Block};
use crate::inline::{
    blank_end, inlines, is_span, labels, parse_inlines, scan_token, skip_blank, token_end,
};
use crate::lexer::{token_at, Lexer, Token};
use crate::line::{byte_at, find_line_end, lemma_line_end, length, line_end, skip_whitespace};
use crate::parser::{interrupting, is_place, line_after};
use crate::text::{is_cut, lemma_cut_at_ascii};

verus! {

/// Whether the token at `pos` is a `|` that parts two cells.
pub open spec fn is_pipe(bytes: Seq<u8>, pos: int) -> bool {
    0 <= pos < bytes.len() && bytes[pos] == PIPE
}

/// Whether a backslash at `pos` makes the `|` behind it a part of the
/// cell.
pub open spec fn is_escaped_pipe(bytes: Seq<u8>, pos: int, stop: int) -> bool {
    0 <= pos && pos + 1 < stop && pos + 1 < bytes.len() && bytes[pos] == BACKSLASH && bytes[pos
        + 1] == PIPE
}

/// Where the cell that starts at `pos` ends: at the first `|` among the
/// tokens from `pos` on that no backslash stands before, or at the end
/// `stop` of the line.
pub open spec fn cell_end(bytes: Seq<u8>, pos: int, stop: int) -> int
    decreases stop - pos,
{
    if pos < 0 || pos >= stop || is_pipe(bytes, pos) {
        pos
    } else if is_escaped_pipe(bytes, pos, stop) {
        cell_end(bytes, pos + 2, stop)
    } else {
        cell_end(bytes, token_end(bytes, pos, stop), stop)
    }
}

/// The alignments that the tokens from `pos` to the end `stop` of the line
/// state, behind the alignments `columns` found so far, if the tokens are
/// a delimiter row: dashes and alignments, `|` and whitespace, and nothing
/// else.
pub open spec fn columns_from(
    bytes: Seq<u8>,
    pos: int,
    stop: int,
    columns: Seq<AlignType>,
) -> Option<Seq<AlignType>>
    decreases stop - pos,
{
    if pos < 0 || pos >= stop {
        if columns.len() > 0 {
            Some(columns)
        } else {
            None
        }
    } else {
        let next = token_end(bytes, pos, stop);
        match token_at(bytes, pos) {
            Token::WhiteSpaces(_) => columns_from(bytes, next, stop, columns),
            Token::KeyChar(_) => if bytes[pos] == PIPE {
                columns_from(bytes, next, stop, columns)
            } else {
                None
            },
            Token::Dashes(_) => columns_from(
                bytes,
                next,
                stop,
                columns.push(AlignType::Unaligned),
            ),
            Token::Align(_, align) => columns_from(bytes, next, stop, columns.push(align)),
            _ => None,
        }
    }
}

/// The alignments of the columns of the table that starts with the line at
/// `pos`, if one starts there: the line holds a `|`, and the line behind it
/// is a delimiter row.
pub open spec fn table_columns(bytes: Seq<u8>, pos: int) -> Option<Seq<AlignType>> {
    let stop = line_end(bytes, pos);
    let second = following_line(bytes, pos);
    if 0 <= pos < bytes.len() && cell_end(bytes, pos, stop) < stop && second < bytes.len() {
        columns_from(bytes, second, line_end(bytes, second), Seq::empty())
    } else {
        None
    }
}

/// A cell without content.
pub open spec fn empty_cell() -> Tree {
    Tree::leaf(NodeData::TableCell)
}

/// The cells of a row from `pos` to the end `stop` of the line, behind the
/// cells `cells` found so far: `count` cells in all, where cells beyond
/// that number are left out and cells that the line lacks are empty.
pub open spec fn row_cells(
    bytes: Seq<u8>,
    pos: int,
    stop: int,
    definitions: Seq<Seq<char>>,
    count: int,
    cells: Seq<Tree>,
) -> Seq<Tree>
    decreases count - cells.len(),
{
    if cells.len() >= count {
        cells
    } else if pos < 0 || pos >= stop {
        row_cells(bytes, pos, stop, definitions, count, cells.push(empty_cell()))
    } else {
        let end = cell_end(bytes, pos, stop);
        let cell = Tree {
            data: NodeData::TableCell,
            children: inlines(bytes, blank_end(bytes, pos, end), end, definitions),
        };
        row_cells(
            bytes,
            if end < stop {
                end + 1
            } else {
                stop
            },
            stop,
            definitions,
            count,
            cells.push(cell),
        )
    }
}

/// Where the first cell of the row at `pos` starts: behind the `|` that
/// the row starts with, if it starts with one.
pub open spec fn row_start(bytes: Seq<u8>, pos: int) -> int {
    let at = marker(bytes, pos);
    if at < line_end(bytes, pos) && is_pipe(bytes, at) {
        at + 1
    } else {
        at
    }
}

/// The row of `count` cells that the line at `pos` holds.
pub open spec fn row_at(bytes: Seq<u8>, pos: int, definitions: Seq<Seq<char>>, count: int) -> Tree {
    Tree {
        data: NodeData::TableRow,
        children: row_cells(
            bytes,
            row_start(bytes, pos),
            line_end(bytes, pos),
            definitions,
            count,
            Seq::empty(),
        ),
    }
}

/// The rows of a table from the line at `pos` on, behind the rows `rows`
/// found so far, and where the table ends: before the first line that is
/// blank or starts another block.
pub open spec fn table_rows(
    bytes: Seq<u8>,
    pos: int,
    definitions: Seq<Seq<char>>,
    count: int,
    rows: Seq<Tree>,
) -> (Seq<Tree>, int)
    decreases bytes.len() - pos,
{
    if pos < 0 || pos >= bytes.len() || interrupts(bytes, pos) {
        (rows, pos)
    } else {
        table_rows(
            bytes,
            following_line(bytes, pos),
            definitions,
            count,
            rows.push(row_at(bytes, pos, definitions, count)),
        )
    }
}

/// The table that starts with the line at `pos`: the header row, and
/// behind the delimiter row the rows of the body.
pub open spec fn table_at(bytes: Seq<u8>, pos: int, definitions: Seq<Seq<char>>) -> Block {
    let columns = table_columns(bytes, pos)->0;
    let count = columns.len() as int;
    let body = following_line(bytes, following_line(bytes, pos));
    let rows = table_rows(
        bytes,
        body,
        definitions,
        count,
        seq![row_at(bytes, pos, definitions, count)],
    );
    Block {
        tree: Tree { data: NodeData::Table { align: columns }, children: rows.0 },
        next: rows.1,
    }
}

/// Where the cell that starts at `pos` ends.
pub fn find_cell_end(lexer: &mut Lexer, pos: usize, stop: usize) -> (end: usize)
    requires
        is_span(old(lexer).bytes(), pos as int, stop as int),
        stop <= old(lexer).bytes().len(),
    ensures
        final(lexer).text() == old(lexer).text(),
        end == cell_end(old(lexer).bytes(), pos as int, stop as int),
        pos <= end <= stop,
        is_cut(old(lexer).bytes(), end as int),
        end < stop ==> is_pipe(old(lexer).bytes(), end as int),
{
    let ghost bytes = lexer.bytes();
    let source = lexer.source();
    let mut at = pos;
    proof {
        encode_utf8_valid_utf8(source@);
    }
    while at < stop && byte_at(source, at) != PIPE
        invariant
            lexer.text() == old(lexer).text(),
            bytes == lexer.bytes(),
            source == lexer.text(),
            valid_utf8(bytes),
            pos <= at <= stop <= bytes.len(),
            is_span(bytes, at as int, stop as int),
            cell_end(bytes, at as int, stop as int) == cell_end(bytes, pos as int, stop as int),
        decreases stop - at,
    {
        if byte_at(source, at) == BACKSLASH && at + 1 < stop && byte_at(source, at + 1) == PIPE {
            proof {
                lemma_cut_at_ascii(bytes, at + 1);
            }
            at = at + 2;
        } else {
            let (_, next) = scan_token(lexer, at, stop);
            at = next;
        }
    }
    at
}

/// The alignments that the tokens from `pos` to the end `stop` of the line
/// state, if the tokens are a delimiter row.
pub fn read_columns(lexer: &mut Lexer, pos: usize, stop: usize) -> (found: Option<Vec<AlignType>>)
    requires
        is_span(old(lexer).bytes(), pos as int, stop as int),
        stop <= old(lexer).bytes().len(),
    ensures
        final(lexer).text() == old(lexer).text(),
        match found {
            Some(columns) => columns_from(
                old(lexer).bytes(),
                pos as int,
                stop as int,
                Seq::empty(),
            ) == Some(columns@) && columns@.len() > 0,
            None => columns_from(old(lexer).bytes(), pos as int, stop as int, Seq::empty())
                is None,
        },
{
    let ghost bytes = lexer.bytes();
    let source = lexer.source();
    let mut columns: Vec<AlignType> = Vec::new();
    let mut at = pos;
    while at < stop
        invariant
            lexer.text() == old(lexer).text(),
            bytes == lexer.bytes(),
            source == lexer.text(),
            pos <= at <= stop <= bytes.len(),
            is_span(bytes, at as int, stop as int),
            columns_from(bytes, at as int, stop as int, columns@) == columns_from(
                bytes,
                pos as int,
                stop as int,
                Seq::empty(),
            ),
        decreases stop - at,
    {
        let (token, next) = scan_token(lexer, at, stop);
        match token {
            Token::WhiteSpaces(_) => {},
            Token::KeyChar(_) => {
                if byte_at(source, at) != PIPE {
                    return None;
                }
            },
            Token::Dashes(_) => {
                columns.push(AlignType::Unaligned);
            },
            Token::Align(_, align) => {
                columns.push(align);
            },
            _ => {
                return None;
            },
        }
        at = next;
    }
    if columns.len() > 0 {
        Some(columns)
    } else {
        None
    }
}

/// The alignments of the columns of the table that starts with the line at
/// `pos`, if one starts there.
pub fn table_header(lexer: &mut Lexer, pos: usize) -> (found: Option<Vec<AlignType>>)
    requires
        is_place(old(lexer).bytes(), pos as int),
        pos < old(lexer).bytes().len(),
    ensures
        final(lexer).text() == old(lexer).text(),
        match found {
            Some(columns) => table_columns(old(lexer).bytes(), pos as int) == Some(columns@)
                && columns@.len() > 0,
            None => table_columns(old(lexer).bytes(), pos as int) is None,
        },
{
    let source = lexer.source();
    let total = length(source);
    let stop = find_line_end(source, pos);
    let first = find_cell_end(lexer, pos, stop);
    let second = line_after(source, pos);
    if first < stop && second < total {
        let end = find_line_end(source, second);
        read_columns(lexer, second, end)
    } else {
        None
    }
}

/// The row of `count` cells that the line at `pos` holds.
pub fn parse_row(lexer: &mut Lexer, pos: usize, count: usize, definitions: &Vec<String>) -> (row:
    Node)
    requires
        is_place(old(lexer).bytes(), pos as int),
        pos < old(lexer).bytes().len(),
    ensures
        final(lexer).text() == old(lexer).text(),
        row@ == row_at(old(lexer).bytes(), pos as int, labels(definitions@), count as int),
        row@.data.content() == Some(Content::Table),
        row@.well_formed(),
        row@.coalesced(),
{
    let ghost bytes = lexer.bytes();
    let ghost known = labels(definitions@);
    let source = lexer.source();
    let stop = find_line_end(source, pos);
    let first = skip_whitespace(source, pos);
    proof {
        encode_utf8_valid_utf8(source@);
        lemma_line_end(bytes, pos as int);
    }
    let mut at = if first < stop && byte_at(source, first) == PIPE {
        proof {
            lemma_cut_at_ascii(bytes, first as int);
        }
        first + 1
    } else {
        first
    };
    let ghost start = at;
    let mut cells: Vec<Node> = Vec::new();
    assert(trees(cells@) =~= Seq::empty());
    while cells.len() < count
        invariant
            lexer.text() == old(lexer).text(),
            bytes == lexer.bytes(),
            source == lexer.text(),
            known == labels(definitions@),
            valid_utf8(bytes),
            at <= stop <= bytes.len(),
            is_span(bytes, at as int, stop as int),
            cells@.len() <= count,
            cells@.len() == trees(cells@).len(),
            row_cells(bytes, at as int, stop as int, known, count as int, trees(cells@))
                == row_cells(bytes, start as int, stop as int, known, count as int, Seq::empty()),
            content_run(trees(cells@), Content::Row),
        decreases count - cells.len(),
    {
        let cell = if at >= stop {
            let children: Vec<Node> = Vec::new();
            assert(trees(children@) =~= Seq::empty());
            Node::TableCell(TableCell { children })
        } else {
            let end = find_cell_end(lexer, at, stop);
            let from = skip_blank(source, at, end);
            let children = parse_inlines(lexer, from, end, definitions);
            if end < stop {
                proof {
                    lemma_cut_at_ascii(bytes, end as int);
                }
                at = end + 1;
            } else {
                at = stop;
            }
            Node::TableCell(TableCell { children })
        };
        proof {
            lemma_parent_of(NodeData::TableCell, cell@.children, Content::Phrasing);
            lemma_trees_push(cells@, cell);
        }
        cells.push(cell);
    }
    proof {
        lemma_parent_of(NodeData::TableRow, trees(cells@), Content::Row);
    }
    Node::TableRow(TableRow { children: cells })
}

/// The table that starts with the line at `pos` and has the columns
/// `columns`.
pub fn parse_table(
    lexer: &mut Lexer,
    pos: usize,
    columns: Vec<AlignType>,
    definitions: &Vec<String>,
) -> (r: (Node, usize))
    requires
        is_place(old(lexer).bytes(), pos as int),
        pos < old(lexer).bytes().len(),
        table_columns(old(lexer).bytes(), pos as int) == Some(columns@),
    ensures
        final(lexer).text() == old(lexer).text(),
        r.0@ == table_at(old(lexer).bytes(), pos as int, labels(definitions@)).tree,
        r.1 == table_at(old(lexer).bytes(), pos as int, labels(definitions@)).next,
        pos < r.1 <= old(lexer).bytes().len(),
        is_cut(old(lexer).bytes(), r.1 as int),
        r.0@.data.content() == Some(Content::Flow),
        r.0@.well_formed(),
        r.0@.coalesced(),
{
    let ghost bytes = lexer.bytes();
    let ghost known = labels(definitions@);
    let source = lexer.source();
    let total = length(source);
    let count = columns.len();
    let header = parse_row(lexer, pos, count, definitions);
    let second = line_after(source, pos);
    let body = line_after(source, second);
    let mut rows: Vec<Node> = Vec::new();
    proof {
        lemma_trees_push(rows@, header);
    }
    rows.push(header);
    assert(trees(rows@) =~= seq![row_at(bytes, pos as int, known, count as int)]);
    let mut at = body;
    while at < total && !interrupting(lexer, at)
        invariant
            lexer.text() == old(lexer).text(),
            bytes == lexer.bytes(),
            source == lexer.text(),
            known == labels(definitions@),
            total == bytes.len(),
            pos < at <= total,
            is_place(bytes, at as int),
            table_rows(bytes, at as int, known, count as int, trees(rows@)) == table_rows(
                bytes,
                body as int,
                known,
                count as int,
                seq![row_at(bytes, pos as int, known, count as int)],
            ),
            content_run(trees(rows@), Content::Table),
        decreases total - at,
    {
        let row = parse_row(lexer, at, count, definitions);
        proof {
            lemma_trees_push(rows@, row);
        }
        rows.push(row);
        at = line_after(source, at);
    }
    proof {
        lemma_parent_of(NodeData::Table { align: columns@ }, trees(rows@), Content::Table);
    }
    (Node::Table(Table { children: rows, align: columns }), at)
}

} // verus!
