use core::ops::Range;
use vstd::prelude::*;
use vstd::string::StringSliceAdditionalSpecFns;
use vstd::utf8::{encode_utf8_valid_utf8, valid_utf8};

use crate::ascii::{
    is_line_break, is_plain_start, is_reserved, is_whitespace, line_break, plain_start, reserved,
    whitespace, ASTERISK, BACKSLASH, BACKTICK, COLON, DASH, PLUS, POUND, UNDERSCORE,
};
use crate::ast::AlignType;
use crate::text::{is_cut, lemma_cut_at_ascii, lemma_cut_ends, slice, span_text};

verus! {

/// The sets of bytes that a run token is made of.
#[derive(Clone, Copy, Debug, PartialEq, Eq, Structural)]
pub enum CharClass {
    /// One byte, repeated.
    Byte(u8),
    /// Spaces and tabs.
    WhiteSpace,
    /// Carriage returns and line feeds.
    LineBreak,
}

impl CharClass {
    /// Whether `b` belongs to the class.
    pub open spec fn has(self, b: u8) -> bool {
        match self {
            CharClass::Byte(c) => b == c,
            CharClass::WhiteSpace => is_whitespace(b),
            CharClass::LineBreak => is_line_break(b),
        }
    }

    /// Whether every byte of the class is a character of its own.
    pub open spec fn is_ascii(self) -> bool {
        match self {
            CharClass::Byte(c) => c < 0x80,
            _ => true,
        }
    }

    /// Whether `b` belongs to the class.
    pub fn contains(self, b: u8) -> (r: bool)
        ensures
            r == self.has(b),
    {
        match self {
            CharClass::Byte(c) => b == c,
            CharClass::WhiteSpace => whitespace(b),
            CharClass::LineBreak => line_break(b),
        }
    }
}

/// Where the longest run of bytes of `class` that starts at `from` ends.
pub open spec fn run_end(bytes: Seq<u8>, from: int, class: CharClass) -> int
    decreases bytes.len() - from,
{
    if 0 <= from < bytes.len() && class.has(bytes[from]) {
        run_end(bytes, from + 1, class)
    } else {
        from
    }
}

/// Where a run of plain text that has reached `from` ends: before the first
/// whitespace, line break or reserved byte, where a backslash takes a
/// reserved byte that follows it into the run.
pub open spec fn plain_end(bytes: Seq<u8>, from: int) -> int
    decreases bytes.len() - from,
{
    if from < 0 || from >= bytes.len() {
        from
    } else if bytes[from] == BACKSLASH {
        if from + 1 < bytes.len() && is_reserved(bytes[from + 1]) {
            plain_end(bytes, from + 2)
        } else {
            plain_end(bytes, from + 1)
        }
    } else if is_reserved(bytes[from]) || is_whitespace(bytes[from]) || is_line_break(bytes[from]) {
        from
    } else {
        plain_end(bytes, from + 1)
    }
}

/// Where the dashes after the first byte of an alignment run end.
pub open spec fn dashes_end(bytes: Seq<u8>, pos: int) -> int {
    run_end(bytes, pos + 1, CharClass::Byte(DASH))
}

/// Whether a colon closes the alignment run that starts at `pos`.
pub open spec fn has_closing_colon(bytes: Seq<u8>, pos: int) -> bool {
    dashes_end(bytes, pos) < bytes.len() && bytes[dashes_end(bytes, pos)] == COLON
}

/// Where the alignment run that starts at `pos` ends: behind its first byte,
/// the dashes that follow, and one colon if it follows them.
pub open spec fn align_end(bytes: Seq<u8>, pos: int) -> int {
    if has_closing_colon(bytes, pos) {
        dashes_end(bytes, pos) + 1
    } else {
        dashes_end(bytes, pos)
    }
}

/// The half-open range from `start` to `end`.
pub open spec fn span(start: int, end: int) -> Range<usize> {
    Range { start: start as usize, end: end as usize }
}

/// A token: its kind, and the bytes of the source that it covers.
#[derive(Debug, PartialEq)]
pub enum Token {
    /// `#`, one or more.
    Pounds(Range<usize>),
    /// The end of the source.
    Eof(Range<usize>),
    /// The alignment of a table column: dashes with a colon on either side.
    Align(Range<usize>, AlignType),
    /// `>`, one or more. The lexer makes no token of this kind: it hands
    /// out each `>` as a reserved byte.
    GreaterThans(Range<usize>),
    /// `*`, one or more.
    Asterisks(Range<usize>),
    /// `_`, one or more.
    Underscores(Range<usize>),
    /// `-`, two or more.
    Dashes(Range<usize>),
    /// `+`, one or more.
    Pluses(Range<usize>),
    /// A backtick, one or more.
    Backticks(Range<usize>),
    /// Carriage returns and line feeds.
    LineBreaks(Range<usize>),
    /// Spaces and tabs.
    WhiteSpaces(Range<usize>),
    /// One reserved byte.
    KeyChar(Range<usize>),
    /// Anything else.
    PlainText(Range<usize>),
}

impl Token {
    /// The bytes of the source that the token covers.
    pub open spec fn range(&self) -> Range<usize> {
        match *self {
            Token::Eof(r) => r,
            Token::Pounds(r) => r,
            Token::Align(r, _) => r,
            Token::GreaterThans(r) => r,
            Token::Asterisks(r) => r,
            Token::Underscores(r) => r,
            Token::Dashes(r) => r,
            Token::Backticks(r) => r,
            Token::LineBreaks(r) => r,
            Token::WhiteSpaces(r) => r,
            Token::Pluses(r) => r,
            Token::KeyChar(r) => r,
            Token::PlainText(r) => r,
        }
    }

    /// The offset of the token's first byte.
    pub open spec fn start(&self) -> int {
        self.range().start as int
    }

    /// The offset behind the token's last byte.
    pub open spec fn end(&self) -> int {
        self.range().end as int
    }

    /// The bytes of the source that the token covers.
    pub fn to_range(&self) -> (r: Range<usize>)
        ensures
            r == self.range(),
    {
        match self {
            Token::Eof(r) => r.start..r.end,
            Token::Pounds(r) => r.start..r.end,
            Token::Align(r, _) => r.start..r.end,
            Token::GreaterThans(r) => r.start..r.end,
            Token::Asterisks(r) => r.start..r.end,
            Token::Underscores(r) => r.start..r.end,
            Token::Dashes(r) => r.start..r.end,
            Token::Backticks(r) => r.start..r.end,
            Token::LineBreaks(r) => r.start..r.end,
            Token::WhiteSpaces(r) => r.start..r.end,
            Token::Pluses(r) => r.start..r.end,
            Token::KeyChar(r) => r.start..r.end,
            Token::PlainText(r) => r.start..r.end,
        }
    }
}

impl AsRef<Token> for Token {
    fn as_ref(&self) -> (token: &Token)
        ensures
            *token == *self,
    {
        self
    }
}

impl Clone for Token {
    fn clone(&self) -> (copy: Self)
        ensures
            copy == *self,
    {
        match self {
            Token::Eof(r) => Token::Eof(r.start..r.end),
            Token::Pounds(r) => Token::Pounds(r.start..r.end),
            Token::Align(r, align) => Token::Align(r.start..r.end, *align),
            Token::GreaterThans(r) => Token::GreaterThans(r.start..r.end),
            Token::Asterisks(r) => Token::Asterisks(r.start..r.end),
            Token::Underscores(r) => Token::Underscores(r.start..r.end),
            Token::Dashes(r) => Token::Dashes(r.start..r.end),
            Token::Backticks(r) => Token::Backticks(r.start..r.end),
            Token::LineBreaks(r) => Token::LineBreaks(r.start..r.end),
            Token::WhiteSpaces(r) => Token::WhiteSpaces(r.start..r.end),
            Token::Pluses(r) => Token::Pluses(r.start..r.end),
            Token::KeyChar(r) => Token::KeyChar(r.start..r.end),
            Token::PlainText(r) => Token::PlainText(r.start..r.end),
        }
    }
}

/// The token that starts with a dash or a colon at `pos`.
pub open spec fn align_token_at(bytes: Seq<u8>, pos: int) -> Token {
    let end = align_end(bytes, pos);
    let closed = has_closing_colon(bytes, pos);
    if end - pos > 1 {
        if bytes[pos] == COLON {
            if closed {
                Token::Align(span(pos, end), AlignType::Center)
            } else {
                Token::Align(span(pos, end), AlignType::Left)
            }
        } else {
            if closed {
                Token::Align(span(pos, end), AlignType::Right)
            } else {
                Token::Dashes(span(pos, end))
            }
        }
    } else if bytes[pos] == COLON && end < bytes.len() && is_plain_start(bytes[end]) {
        Token::PlainText(span(pos, plain_end(bytes, end + 1)))
    } else {
        Token::PlainText(span(pos, end))
    }
}

/// The token that starts at `pos`, chosen by the byte found there.
pub open spec fn token_at(bytes: Seq<u8>, pos: int) -> Token {
    if pos < 0 || pos >= bytes.len() {
        Token::Eof(span(bytes.len() as int, bytes.len() as int))
    } else if bytes[pos] == POUND {
        Token::Pounds(span(pos, run_end(bytes, pos, CharClass::Byte(POUND))))
    } else if bytes[pos] == ASTERISK {
        Token::Asterisks(span(pos, run_end(bytes, pos, CharClass::Byte(ASTERISK))))
    } else if bytes[pos] == PLUS {
        Token::Pluses(span(pos, run_end(bytes, pos, CharClass::Byte(PLUS))))
    } else if bytes[pos] == DASH || bytes[pos] == COLON {
        align_token_at(bytes, pos)
    } else if bytes[pos] == UNDERSCORE {
        Token::Underscores(span(pos, run_end(bytes, pos, CharClass::Byte(UNDERSCORE))))
    } else if bytes[pos] == BACKTICK {
        Token::Backticks(span(pos, run_end(bytes, pos, CharClass::Byte(BACKTICK))))
    } else if is_whitespace(bytes[pos]) {
        Token::WhiteSpaces(span(pos, run_end(bytes, pos, CharClass::WhiteSpace)))
    } else if is_line_break(bytes[pos]) {
        Token::LineBreaks(span(pos, run_end(bytes, pos, CharClass::LineBreak)))
    } else if is_reserved(bytes[pos]) {
        Token::KeyChar(span(pos, pos + 1))
    } else {
        Token::PlainText(span(pos, plain_end(bytes, pos + 1)))
    }
}

/// A run ends inside the source, and at a cut where it starts at one and is
/// made of one-byte characters.
pub proof fn lemma_run_end(bytes: Seq<u8>, from: int, class: CharClass)
    requires
        0 <= from <= bytes.len(),
    ensures
        from <= run_end(bytes, from, class) <= bytes.len(),
        valid_utf8(bytes) && is_cut(bytes, from) && class.is_ascii() ==> is_cut(
            bytes,
            run_end(bytes, from, class),
        ),
        from < bytes.len() && class.has(bytes[from]) ==> from < run_end(bytes, from, class),
    decreases bytes.len() - from,
{
    if from < bytes.len() && class.has(bytes[from]) {
        if valid_utf8(bytes) && class.is_ascii() {
            lemma_cut_at_ascii(bytes, from);
        }
        lemma_run_end(bytes, from + 1, class);
    }
}

/// A run of plain text ends inside the source and at a cut.
pub proof fn lemma_plain_end(bytes: Seq<u8>, from: int)
    requires
        0 <= from <= bytes.len(),
    ensures
        from <= plain_end(bytes, from) <= bytes.len(),
        valid_utf8(bytes) ==> is_cut(bytes, plain_end(bytes, from)),
    decreases bytes.len() - from,
{
    if from >= bytes.len() {
        if valid_utf8(bytes) {
            lemma_cut_ends(bytes);
        }
    } else if bytes[from] == BACKSLASH {
        if from + 1 < bytes.len() && is_reserved(bytes[from + 1]) {
            lemma_plain_end(bytes, from + 2);
        } else {
            lemma_plain_end(bytes, from + 1);
        }
    } else if is_reserved(bytes[from]) || is_whitespace(bytes[from]) || is_line_break(bytes[from]) {
        if valid_utf8(bytes) {
            lemma_cut_at_ascii(bytes, from);
        }
    } else {
        lemma_plain_end(bytes, from + 1);
    }
}

/// An alignment run ends inside the source and at a cut.
pub proof fn lemma_align_end(bytes: Seq<u8>, pos: int)
    requires
        0 <= pos < bytes.len(),
        bytes[pos] == DASH || bytes[pos] == COLON,
    ensures
        pos < align_end(bytes, pos) <= bytes.len(),
        valid_utf8(bytes) ==> is_cut(bytes, align_end(bytes, pos)),
{
    lemma_run_end(bytes, pos + 1, CharClass::Byte(DASH));
    if valid_utf8(bytes) {
        lemma_cut_at_ascii(bytes, pos);
        if has_closing_colon(bytes, pos) {
            lemma_cut_at_ascii(bytes, dashes_end(bytes, pos));
        }
    }
}

/// Every token lies inside the source, starts where it was asked for,
/// covers at least one byte unless it is the end of the source, and ends at
/// a cut where it starts at one.
pub proof fn lemma_token_at(bytes: Seq<u8>, pos: int)
    requires
        0 <= pos <= bytes.len() <= usize::MAX,
    ensures
        token_at(bytes, pos) is Eof <==> pos == bytes.len(),
        token_at(bytes, pos).start() == pos,
        pos <= token_at(bytes, pos).end() <= bytes.len(),
        pos < bytes.len() ==> pos < token_at(bytes, pos).end(),
        valid_utf8(bytes) && is_cut(bytes, pos) ==> is_cut(bytes, token_at(bytes, pos).end()),
{
    if pos < bytes.len() {
        let b = bytes[pos];
        if b == DASH || b == COLON {
            lemma_align_end(bytes, pos);
            let end = align_end(bytes, pos);
            if end < bytes.len() {
                lemma_plain_end(bytes, end + 1);
            }
        } else if b == POUND || b == ASTERISK || b == PLUS || b == UNDERSCORE || b == BACKTICK {
            lemma_run_end(bytes, pos, CharClass::Byte(b));
        } else if is_whitespace(b) {
            lemma_run_end(bytes, pos, CharClass::WhiteSpace);
        } else if is_line_break(b) {
            lemma_run_end(bytes, pos, CharClass::LineBreak);
        } else if is_reserved(b) {
            if valid_utf8(bytes) {
                lemma_cut_at_ascii(bytes, pos);
            }
        } else {
            lemma_plain_end(bytes, pos + 1);
        }
    }
}

/// The tokens of a source lie one behind the other: each starts where the
/// one before it ended, and the token at the end of the source is the end
/// of the source, with an empty range, as often as it is asked for.
pub proof fn lemma_end_of_source(bytes: Seq<u8>)
    requires
        bytes.len() <= usize::MAX,
    ensures
        token_at(bytes, bytes.len() as int) == Token::Eof(
            span(bytes.len() as int, bytes.len() as int),
        ),
        token_at(bytes, token_at(bytes, bytes.len() as int).end()) == token_at(
            bytes,
            bytes.len() as int,
        ),
{
}

/// The scanner: the source, and how far it has been read.
#[derive(Debug)]
pub struct Lexer<'a> {
    /// The whole source.
    source: &'a str,
    /// The offset up to which the source has been scanned.
    cursor: usize,
    /// The token that `lookahead` has scanned and `next_token` has yet to
    /// hand out.
    lookahead: Option<Token>,
}

impl<'a> Lexer<'a> {
    #[verifier::type_invariant]
    spec fn well_formed(self) -> bool {
        let bytes = self.source.spec_bytes();
        &&& bytes.len() <= usize::MAX
        &&& is_cut(bytes, self.cursor as int)
        &&& match self.lookahead {
            Some(token) => {
                &&& is_cut(bytes, token.start())
                &&& token == token_at(bytes, token.start())
                &&& token.end() == self.cursor
            },
            None => true,
        }
    }

    /// The bytes of the source.
    pub open spec fn bytes(&self) -> Seq<u8> {
        self.text().spec_bytes()
    }

    /// The source.
    pub closed spec fn text(&self) -> &'a str {
        self.source
    }

    /// Whether a token has been scanned ahead and not handed out yet.
    pub closed spec fn buffered(&self) -> bool {
        self.lookahead is Some
    }

    /// The offset at which the next token starts.
    pub closed spec fn position(&self) -> int {
        match self.lookahead {
            Some(token) => token.start(),
            None => self.cursor as int,
        }
    }

    /// The offset up to which the source has been scanned: behind the
    /// buffered token if there is one.
    pub open spec fn scanned(&self) -> int {
        if self.buffered() {
            token_at(self.bytes(), self.position()).end()
        } else {
            self.position()
        }
    }

    /// The lexer at the start of `source`.
    pub closed spec fn at_start(source: &'a str) -> Self {
        Lexer { source, cursor: 0, lookahead: None }
    }

    /// The offset at which the next token starts.
    pub fn next_offset(&self) -> (offset: usize)
        ensures
            offset == self.position(),
            is_cut(self.bytes(), offset as int),
            offset <= self.bytes().len() <= usize::MAX,
    {
        proof {
            use_type_invariant(self);
        }
        match &self.lookahead {
            Some(token) => token.to_range().start,
            None => self.cursor,
        }
    }

    /// A lexer at the start of `source`.
    pub fn new(source: &'a str) -> (lexer: Self)
        ensures
            lexer == Self::at_start(source),
            lexer.text() == source,
            lexer.bytes() == source.spec_bytes(),
            lexer.position() == 0,
            !lexer.buffered(),
    {
        let length = source.as_bytes().len();
        proof {
            encode_utf8_valid_utf8(source@);
            lemma_cut_ends(source.spec_bytes());
        }
        Lexer { source, cursor: 0, lookahead: None }
    }

    /// Scans on from the start of `token`.
    pub fn rollback_to(&mut self, token: Token)
        requires
            is_cut(old(self).bytes(), token.start()),
        ensures
            final(self).text() == old(self).text(),
            final(self).position() == token.start(),
            !final(self).buffered(),
    {
        proof {
            use_type_invariant(&*self);
        }
        self.lookahead = None;
        self.cursor = token.to_range().start;
    }

    /// Scans on from `offset`.
    pub fn seek(&mut self, offset: usize)
        requires
            is_cut(old(self).bytes(), offset as int),
        ensures
            final(self).text() == old(self).text(),
            final(self).position() == offset,
            !final(self).buffered(),
    {
        proof {
            use_type_invariant(&*self);
        }
        self.lookahead = None;
        self.cursor = offset;
    }

    /// The source.
    pub fn source(&self) -> (source: &'a str)
        ensures
            source == self.text(),
            self.bytes().len() <= usize::MAX,
    {
        proof {
            use_type_invariant(self);
        }
        self.source
    }

    /// The token that starts at `offset`; the lexer moves behind it.
    pub fn token_from(&mut self, offset: usize) -> (token: Token)
        requires
            is_cut(old(self).bytes(), offset as int),
        ensures
            final(self).text() == old(self).text(),
            token == token_at(old(self).bytes(), offset as int),
            final(self).position() == token.end(),
            !final(self).buffered(),
            is_cut(old(self).bytes(), token.end()),
            token.start() == offset,
            offset <= token.end() <= old(self).bytes().len(),
            offset < old(self).bytes().len() ==> offset < token.end(),
    {
        self.seek(offset);
        self.next_token()
    }

    /// The next token; the lexer moves behind it.
    pub fn next_token(&mut self) -> (token: Token)
        ensures
            final(self).text() == old(self).text(),
            token == token_at(old(self).bytes(), old(self).position()),
            final(self).position() == token.end(),
            !final(self).buffered(),
            is_cut(old(self).bytes(), token.start()),
            is_cut(old(self).bytes(), token.end()),
            token.start() == old(self).position(),
            token.start() <= token.end() <= old(self).bytes().len(),
            token.start() < old(self).bytes().len() ==> token.start() < token.end(),
    {
        proof {
            use_type_invariant(&*self);
            encode_utf8_valid_utf8(self.source@);
            lemma_token_at(self.bytes(), self.position());
        }
        let buffered = match &self.lookahead {
            Some(token) => Some(token.clone()),
            None => None,
        };
        if let Some(token) = buffered {
            self.lookahead = None;
            return token;
        }
        let bytes = self.source.as_bytes();
        let start = self.cursor;
        if start >= bytes.len() {
            let offset = bytes.len();
            return Token::Eof(offset..offset);
        }
        let c = bytes[start];
        if c == POUND {
            self.read_pounds(start)
        } else if c == ASTERISK {
            self.read_asterisks(start)
        } else if c == PLUS {
            self.read_pluses(start)
        } else if c == DASH {
            self.read_align_type_or_plaintext(start, false)
        } else if c == COLON {
            let token = self.read_align_type_or_plaintext(start, true);
            if let Token::PlainText(range) = &token {
                let end = range.end;
                if end < bytes.len() && plain_start(bytes[end]) {
                    proof {
                        use_type_invariant(&*self);
                    }
                    let rest = self.read_plaintext(end);
                    return Token::PlainText(start..rest.to_range().end);
                }
            }
            token
        } else if c == UNDERSCORE {
            self.read_underscores(start)
        } else if c == BACKTICK {
            self.read_backticks(start)
        } else if whitespace(c) {
            self.read_whitespaces(start)
        } else if line_break(c) {
            self.read_linebreaks(start)
        } else if reserved(c) {
            proof {
                lemma_cut_at_ascii(self.bytes(), start as int);
            }
            self.cursor = start + 1;
            Token::KeyChar(start..start + 1)
        } else {
            self.read_plaintext(start)
        }
    }

    /// The run of `#` that starts at `start`.
    fn read_pounds(&mut self, start: usize) -> (token: Token)
        requires
            old(self).unread(start),
        ensures
            final(self).read_to(*old(self), token.end()),
            token == Token::Pounds(
                span(
                    start as int,
                    run_end(old(self).bytes(), start as int, CharClass::Byte(POUND)),
                ),
            ),
    {
        let range = self.read_until(CharClass::Byte(POUND));
        Token::Pounds(start..range.end)
    }

    /// The run of `*` that starts at `start`.
    fn read_asterisks(&mut self, start: usize) -> (token: Token)
        requires
            old(self).unread(start),
        ensures
            final(self).read_to(*old(self), token.end()),
            token == Token::Asterisks(
                span(
                    start as int,
                    run_end(old(self).bytes(), start as int, CharClass::Byte(ASTERISK)),
                ),
            ),
    {
        let range = self.read_until(CharClass::Byte(ASTERISK));
        Token::Asterisks(start..range.end)
    }

    /// The run of `_` that starts at `start`.
    fn read_underscores(&mut self, start: usize) -> (token: Token)
        requires
            old(self).unread(start),
        ensures
            final(self).read_to(*old(self), token.end()),
            token == Token::Underscores(
                span(
                    start as int,
                    run_end(old(self).bytes(), start as int, CharClass::Byte(UNDERSCORE)),
                ),
            ),
    {
        let range = self.read_until(CharClass::Byte(UNDERSCORE));
        Token::Underscores(start..range.end)
    }

    /// The run of `+` that starts at `start`.
    fn read_pluses(&mut self, start: usize) -> (token: Token)
        requires
            old(self).unread(start),
        ensures
            final(self).read_to(*old(self), token.end()),
            token == Token::Pluses(
                span(start as int, run_end(old(self).bytes(), start as int, CharClass::Byte(PLUS))),
            ),
    {
        let range = self.read_until(CharClass::Byte(PLUS));
        Token::Pluses(start..range.end)
    }

    /// The run of backticks that starts at `start`.
    fn read_backticks(&mut self, start: usize) -> (token: Token)
        requires
            old(self).unread(start),
        ensures
            final(self).read_to(*old(self), token.end()),
            token == Token::Backticks(
                span(
                    start as int,
                    run_end(old(self).bytes(), start as int, CharClass::Byte(BACKTICK)),
                ),
            ),
    {
        let range = self.read_until(CharClass::Byte(BACKTICK));
        Token::Backticks(start..range.end)
    }

    /// The run of spaces and tabs that starts at `start`.
    fn read_whitespaces(&mut self, start: usize) -> (token: Token)
        requires
            old(self).unread(start),
        ensures
            final(self).read_to(*old(self), token.end()),
            token == Token::WhiteSpaces(
                span(start as int, run_end(old(self).bytes(), start as int, CharClass::WhiteSpace)),
            ),
    {
        let range = self.read_until(CharClass::WhiteSpace);
        Token::WhiteSpaces(start..range.end)
    }

    /// The run of line breaks that starts at `start`.
    fn read_linebreaks(&mut self, start: usize) -> (token: Token)
        requires
            old(self).unread(start),
        ensures
            final(self).read_to(*old(self), token.end()),
            token == Token::LineBreaks(
                span(start as int, run_end(old(self).bytes(), start as int, CharClass::LineBreak)),
            ),
    {
        let range = self.read_until(CharClass::LineBreak);
        Token::LineBreaks(start..range.end)
    }

    /// The token that starts with the dash or colon at `start`, before a
    /// lone colon is joined to the plain text behind it.
    fn read_align_type_or_plaintext(&mut self, start: usize, has_prefix: bool) -> (token: Token)
        requires
            old(self).unread(start),
            start < old(self).bytes().len(),
            old(self).bytes()[start as int] == (if has_prefix { COLON } else { DASH }),
        ensures
            final(self).read_to(*old(self), token.end()),
            token.end() == align_end(old(self).bytes(), start as int),
            token.start() == start,
            token.end() - start > 1 ==> token == align_token_at(old(self).bytes(), start as int),
            token.end() - start <= 1 ==> token == Token::PlainText(span(start as int, start + 1)),
    {
        proof {
            use_type_invariant(&*self);
            encode_utf8_valid_utf8(self.source@);
            lemma_cut_at_ascii(self.bytes(), start as int);
            lemma_align_end(self.bytes(), start as int);
        }
        let bytes = self.source.as_bytes();
        self.cursor = start + 1;
        let dashes = self.read_until(CharClass::Byte(DASH));
        let mut end = dashes.end;
        let mut suffix = false;
        if end < bytes.len() && bytes[end] == COLON {
            suffix = true;
            end = end + 1;
            self.cursor = end;
        }
        if has_prefix && end - start > 1 {
            if suffix {
                return Token::Align(start..end, AlignType::Center);
            } else {
                return Token::Align(start..end, AlignType::Left);
            }
        }
        if !has_prefix && end - start > 1 {
            if suffix {
                return Token::Align(start..end, AlignType::Right);
            } else {
                return Token::Dashes(start..end);
            }
        }
        Token::PlainText(start..end)
    }

    /// The run of plain text that starts at `start`.
    fn read_plaintext(&mut self, start: usize) -> (token: Token)
        requires
            old(self).unread(start),
            start < old(self).bytes().len(),
        ensures
            final(self).read_to(*old(self), token.end()),
            token == Token::PlainText(span(start as int, plain_end(old(self).bytes(), start + 1))),
    {
        proof {
            use_type_invariant(&*self);
            encode_utf8_valid_utf8(self.source@);
            lemma_plain_end(self.bytes(), start + 1);
        }
        let bytes = self.source.as_bytes();
        let mut i = start + 1;
        loop
            invariant
                bytes@ == self.source.spec_bytes(),
                start < i <= bytes.len(),
                plain_end(bytes@, i as int) == plain_end(bytes@, start + 1),
            ensures
                start < i <= bytes.len(),
                i == plain_end(bytes@, start + 1),
            decreases bytes.len() - i,
        {
            if i >= bytes.len() {
                break ;
            }
            let c = bytes[i];
            if c == BACKSLASH {
                if i + 1 < bytes.len() && reserved(bytes[i + 1]) {
                    i = i + 2;
                } else {
                    i = i + 1;
                }
            } else if reserved(c) || whitespace(c) || line_break(c) {
                break ;
            } else {
                i = i + 1;
            }
        }
        self.cursor = i;
        Token::PlainText(start..i)
    }

    /// The next token; the lexer stays in front of it.
    pub fn lookahead(&mut self) -> (token: Token)
        ensures
            final(self).text() == old(self).text(),
            token == token_at(old(self).bytes(), old(self).position()),
            final(self).position() == old(self).position(),
            final(self).buffered(),
            is_cut(old(self).bytes(), token.start()),
            is_cut(old(self).bytes(), token.end()),
            token.start() == old(self).position(),
            token.start() <= token.end(),
    {
        let token = self.next_token();
        proof {
            use_type_invariant(&*self);
        }
        self.lookahead = Some(token.clone());
        token
    }

    /// The text of the source that `token` covers.
    pub fn token_as_str(&self, token: Token) -> (part: &'a str)
        requires
            token.start() <= token.end(),
            is_cut(self.bytes(), token.start()),
            is_cut(self.bytes(), token.end()),
        ensures
            part.spec_bytes() == self.bytes().subrange(token.start(), token.end()),
            part@ == span_text(self.bytes(), token.start(), token.end()),
    {
        let range = token.to_range();
        slice(self.source, range.start, range.end)
    }

    /// Whether the lexer stands at `start` with no token buffered.
    spec fn unread(&self, start: usize) -> bool {
        &&& self.well_formed()
        &&& self.lookahead is None
        &&& self.cursor == start
    }

    /// Whether the lexer has moved from where `before` stood to `end`.
    spec fn read_to(&self, before: Self, end: int) -> bool {
        &&& self.source == before.source
        &&& self.lookahead is None
        &&& self.cursor == end
        &&& before.cursor <= end <= self.source.spec_bytes().len()
    }

    /// Moves over the bytes of `class`, and says which bytes it passed.
    fn read_until(&mut self, class: CharClass) -> (range: Range<usize>)
        requires
            old(self).lookahead is None,
            class.is_ascii(),
        ensures
            final(self).read_to(*old(self), range.end as int),
            range.start == old(self).cursor,
            range.end == run_end(old(self).bytes(), old(self).cursor as int, class),
    {
        proof {
            use_type_invariant(&*self);
            encode_utf8_valid_utf8(self.source@);
            lemma_run_end(self.bytes(), self.cursor as int, class);
        }
        let bytes = self.source.as_bytes();
        let begin = self.cursor;
        let mut i = begin;
        while i < bytes.len() && class.contains(bytes[i])
            invariant
                bytes@ == self.source.spec_bytes(),
                begin <= i <= bytes.len(),
                run_end(bytes@, i as int, class) == run_end(bytes@, begin as int, class),
            decreases bytes.len() - i,
        {
            i = i + 1;
        }
        self.cursor = i;
        begin..i
    }

    /// The offset up to which the source has been scanned.
    pub fn offset(&self) -> (offset: usize)
        ensures
            offset == self.scanned(),
    {
        proof {
            use_type_invariant(self);
        }
        self.cursor
    }

    /// The next token, unless the source has ended.
    pub fn next(&mut self) -> (token: Option<Token>)
        ensures
            final(self).text() == old(self).text(),
            !final(self).buffered(),
            match token {
                Some(token) => {
                    &&& !(token is Eof)
                    &&& token == token_at(old(self).bytes(), old(self).position())
                    &&& final(self).position() == token.end()
                },
                None => {
                    &&& old(self).position() == old(self).bytes().len()
                    &&& final(self).position() == old(self).position()
                },
            },
    {
        proof {
            use_type_invariant(&*self);
            lemma_token_at(self.bytes(), self.position());
        }
        let token = self.next_token();
        if let Token::Eof(_) = token {
            None
        } else {
            Some(token)
        }
    }
}

} // verus!
