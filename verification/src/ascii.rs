use vstd::prelude::*;

verus! {

/// A tab.
pub const TAB: u8 = 0x09;

/// A line feed.
pub const LINE_FEED: u8 = 0x0a;

/// A carriage return.
pub const CARRIAGE_RETURN: u8 = 0x0d;

/// A space.
pub const SPACE: u8 = 0x20;

/// `!`
pub const BANG: u8 = 0x21;

/// `"`
pub const QUOTE: u8 = 0x22;

/// `#`
pub const POUND: u8 = 0x23;

/// `(`
pub const LEFT_PAREN: u8 = 0x28;

/// `)`
pub const RIGHT_PAREN: u8 = 0x29;

/// `*`
pub const ASTERISK: u8 = 0x2a;

/// `+`
pub const PLUS: u8 = 0x2b;

/// `-`
pub const DASH: u8 = 0x2d;

/// `.`
pub const DOT: u8 = 0x2e;

/// `0`
pub const DIGIT_ZERO: u8 = 0x30;

/// `9`
pub const DIGIT_NINE: u8 = 0x39;

/// `:`
pub const COLON: u8 = 0x3a;

/// `<`
pub const LESS_THAN: u8 = 0x3c;

/// `>`
pub const GREATER_THAN: u8 = 0x3e;

/// `[`
pub const LEFT_BRACKET: u8 = 0x5b;

/// `\`
pub const BACKSLASH: u8 = 0x5c;

/// `]`
pub const RIGHT_BRACKET: u8 = 0x5d;

/// `^`
pub const CARET: u8 = 0x5e;

/// `_`
pub const UNDERSCORE: u8 = 0x5f;

/// A backtick.
pub const BACKTICK: u8 = 0x60;

/// `{`
pub const LEFT_BRACE: u8 = 0x7b;

/// `|`
pub const PIPE: u8 = 0x7c;

/// `}`
pub const RIGHT_BRACE: u8 = 0x7d;

/// `~`
pub const TILDE: u8 = 0x7e;

/// Space or tab.
pub open spec fn is_whitespace(b: u8) -> bool {
    b == SPACE || b == TAB
}

/// Carriage return or line feed.
pub open spec fn is_line_break(b: u8) -> bool {
    b == CARRIAGE_RETURN || b == LINE_FEED
}

/// The punctuation that markup is made of: each of these ends a run of plain
/// text unless a backslash stands before it.
pub open spec fn is_reserved(b: u8) -> bool {
    b == BACKSLASH || b == BACKTICK || b == ASTERISK || b == UNDERSCORE || b == LEFT_BRACE || b
        == RIGHT_BRACE || b == LEFT_BRACKET || b == RIGHT_BRACKET || b == LEFT_PAREN || b
        == RIGHT_PAREN || b == POUND || b == PLUS || b == DASH || b == DOT || b == BANG || b
        == PIPE || b == GREATER_THAN || b == LESS_THAN
}

/// A byte that opens a run of plain text when a token starts with it.
pub open spec fn is_plain_start(b: u8) -> bool {
    !is_reserved(b) && !is_whitespace(b) && !is_line_break(b) && b != COLON
}

/// A decimal digit.
pub open spec fn is_digit(b: u8) -> bool {
    DIGIT_ZERO <= b <= DIGIT_NINE
}

/// Whether `b` is a space or a tab.
#[verifier::when_used_as_spec(is_whitespace)]
pub fn whitespace(b: u8) -> (r: bool)
    ensures
        r == is_whitespace(b),
{
    b == SPACE || b == TAB
}

/// Whether `b` is a carriage return or a line feed.
#[verifier::when_used_as_spec(is_line_break)]
pub fn line_break(b: u8) -> (r: bool)
    ensures
        r == is_line_break(b),
{
    b == CARRIAGE_RETURN || b == LINE_FEED
}

/// Whether `b` is one of the reserved bytes.
#[verifier::when_used_as_spec(is_reserved)]
pub fn reserved(b: u8) -> (r: bool)
    ensures
        r == is_reserved(b),
{
    b == BACKSLASH || b == BACKTICK || b == ASTERISK || b == UNDERSCORE || b == LEFT_BRACE || b
        == RIGHT_BRACE || b == LEFT_BRACKET || b == RIGHT_BRACKET || b == LEFT_PAREN || b
        == RIGHT_PAREN || b == POUND || b == PLUS || b == DASH || b == DOT || b == BANG || b
        == PIPE || b == GREATER_THAN || b == LESS_THAN
}

/// Whether `b` opens a run of plain text when a token starts with it.
#[verifier::when_used_as_spec(is_plain_start)]
pub fn plain_start(b: u8) -> (r: bool)
    ensures
        r == is_plain_start(b),
{
    !reserved(b) && !whitespace(b) && !line_break(b) && b != COLON
}

/// Whether `b` is a decimal digit.
#[verifier::when_used_as_spec(is_digit)]
pub fn digit(b: u8) -> (r: bool)
    ensures
        r == is_digit(b),
{
    DIGIT_ZERO <= b && b <= DIGIT_NINE
}

} // verus!
