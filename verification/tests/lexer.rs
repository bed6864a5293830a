use markdown_rs::ast::AlignType;
use markdown_rs::lexer::{Lexer, Token};

#[test]
fn lexer_test_heading() {
    let md = r#"# Heading
        "#;

    let mut lexer = Lexer::new(md);

    assert_eq!(lexer.next(), Some(Token::Pounds(0..1)));
    assert_eq!(lexer.next(), Some(Token::WhiteSpaces(1..2)));
    assert_eq!(lexer.next(), Some(Token::PlainText(2..9)));
    assert_eq!(lexer.next(), Some(Token::LineBreaks(9..10)));
}

#[test]
fn test_thematic_break() {
    let md = "\n__________\n----------\n***";

    let mut lexer = Lexer::new(md);

    assert_eq!(lexer.next(), Some(Token::LineBreaks(0..1)));
    assert_eq!(lexer.next(), Some(Token::Underscores(1..11)));
    assert_eq!(lexer.next(), Some(Token::LineBreaks(11..12)));
    assert_eq!(lexer.next(), Some(Token::Dashes(12..22)));
    assert_eq!(lexer.next(), Some(Token::LineBreaks(22..23)));
    assert_eq!(lexer.next(), Some(Token::Asterisks(23..26)));

    assert_eq!(md.len(), 26);
}

#[test]
fn test_list() {
    let md = "1. hello";

    let mut lexer = Lexer::new(md);

    assert_eq!(lexer.next(), Some(Token::PlainText(0..1)));
    assert_eq!(lexer.lookahead(), Token::KeyChar(1..2));

    let token = lexer.next().unwrap();

    assert_eq!(lexer.token_as_str(token), ".");

    assert_eq!(lexer.next(), Some(Token::WhiteSpaces(2..3)));
    assert_eq!(lexer.next(), Some(Token::PlainText(3..8)));
}

#[test]
fn test_asterisks() {
    let md = "* hello";

    let mut lexer = Lexer::new(md);

    assert_eq!(lexer.next(), Some(Token::Asterisks(0..1)));

    assert_eq!(lexer.next(), Some(Token::WhiteSpaces(1..2)));
    assert_eq!(lexer.next(), Some(Token::PlainText(2..7)));
}

#[test]
fn test_align_type() {
    let md = ":-- :---: --: ----";

    let mut lexer = Lexer::new(md);

    assert_eq!(lexer.next(), Some(Token::Align(0..3, AlignType::Left)));
    assert_eq!(lexer.next(), Some(Token::WhiteSpaces(3..4)));
    assert_eq!(lexer.next(), Some(Token::Align(4..9, AlignType::Center)));
    assert_eq!(lexer.next(), Some(Token::WhiteSpaces(9..10)));
    assert_eq!(lexer.next(), Some(Token::Align(10..13, AlignType::Right)));
    assert_eq!(lexer.next(), Some(Token::WhiteSpaces(13..14)));
    assert_eq!(lexer.next(), Some(Token::Dashes(14..18)));
}

#[test]
fn test_keychars() {
    let md = "| foo |";
    let mut lexer = Lexer::new(md);
    assert_eq!(lexer.next(), Some(Token::KeyChar(0..1)));
    assert_eq!(lexer.next(), Some(Token::WhiteSpaces(1..2)));
    assert_eq!(lexer.next(), Some(Token::PlainText(2..5)));
    assert_eq!(lexer.next(), Some(Token::WhiteSpaces(5..6)));
    assert_eq!(lexer.next(), Some(Token::KeyChar(6..7)));
}

#[test]
fn end_of_input_is_stable() {
    let mut lexer = Lexer::new("a");
    assert_eq!(lexer.next_token(), Token::PlainText(0..1));
    assert_eq!(lexer.next_token(), Token::Eof(1..1));
    assert_eq!(lexer.next_token(), Token::Eof(1..1));
    assert_eq!(lexer.lookahead(), Token::Eof(1..1));
    assert_eq!(lexer.next(), None);
    assert_eq!(lexer.offset(), 1);
}

#[test]
fn empty_source_is_at_its_end() {
    let mut lexer = Lexer::new("");
    assert_eq!(lexer.next_token(), Token::Eof(0..0));
    assert_eq!(lexer.next(), None);
}

#[test]
fn lookahead_hands_the_same_token_out_once() {
    let mut lexer = Lexer::new("## b");
    assert_eq!(lexer.lookahead(), Token::Pounds(0..2));
    assert_eq!(lexer.lookahead(), Token::Pounds(0..2));
    assert_eq!(lexer.offset(), 2);
    assert_eq!(lexer.next_token(), Token::Pounds(0..2));
    assert_eq!(lexer.next_token(), Token::WhiteSpaces(2..3));
    assert_eq!(lexer.next_token(), Token::PlainText(3..4));
}

#[test]
fn rollback_scans_again_from_an_earlier_token() {
    let mut lexer = Lexer::new("a *b* c");
    let first = lexer.next_token();
    assert_eq!(first, Token::PlainText(0..1));
    let space = lexer.next_token();
    assert_eq!(space, Token::WhiteSpaces(1..2));
    let star = lexer.next_token();
    assert_eq!(star, Token::Asterisks(2..3));
    assert_eq!(lexer.next_token(), Token::PlainText(3..4));
    lexer.rollback_to(space);
    assert_eq!(lexer.next_token(), Token::WhiteSpaces(1..2));
    assert_eq!(lexer.next_token(), Token::Asterisks(2..3));
    lexer.rollback_to(first);
    assert_eq!(lexer.next_token(), Token::PlainText(0..1));
    // The last token of the source can be gone back to as well.
    let mut lexer = Lexer::new("a b");
    lexer.next_token();
    lexer.next_token();
    let last = lexer.next_token();
    assert_eq!(last, Token::PlainText(2..3));
    assert_eq!(lexer.next_token(), Token::Eof(3..3));
    lexer.rollback_to(last);
    assert_eq!(lexer.next_token(), Token::PlainText(2..3));
}

#[test]
fn dashes_and_colons() {
    let mut lexer = Lexer::new("- -- : :: :- -: a:b :c");
    assert_eq!(lexer.next_token(), Token::PlainText(0..1));
    assert_eq!(lexer.next_token(), Token::WhiteSpaces(1..2));
    assert_eq!(lexer.next_token(), Token::Dashes(2..4));
    assert_eq!(lexer.next_token(), Token::WhiteSpaces(4..5));
    assert_eq!(lexer.next_token(), Token::PlainText(5..6));
    assert_eq!(lexer.next_token(), Token::WhiteSpaces(6..7));
    assert_eq!(lexer.next_token(), Token::Align(7..9, AlignType::Center));
    assert_eq!(lexer.next_token(), Token::WhiteSpaces(9..10));
    assert_eq!(lexer.next_token(), Token::Align(10..12, AlignType::Left));
    assert_eq!(lexer.next_token(), Token::WhiteSpaces(12..13));
    assert_eq!(lexer.next_token(), Token::Align(13..15, AlignType::Right));
    assert_eq!(lexer.next_token(), Token::WhiteSpaces(15..16));
    assert_eq!(lexer.next_token(), Token::PlainText(16..19));
    assert_eq!(lexer.next_token(), Token::WhiteSpaces(19..20));
    // A lone colon is joined to the plain text behind it.
    assert_eq!(lexer.next_token(), Token::PlainText(20..22));
    assert_eq!(lexer.next_token(), Token::Eof(22..22));
}

#[test]
fn alignment_run_ends_behind_its_closing_colon() {
    let mut lexer = Lexer::new("--:--");
    assert_eq!(lexer.next_token(), Token::Align(0..3, AlignType::Right));
    assert_eq!(lexer.next_token(), Token::Dashes(3..5));
}

#[test]
fn backslash_takes_one_reserved_character_into_plain_text() {
    let mut lexer = Lexer::new("a\\*b*c");
    assert_eq!(lexer.next_token(), Token::PlainText(0..4));
    assert_eq!(lexer.next_token(), Token::Asterisks(4..5));
    assert_eq!(lexer.next_token(), Token::PlainText(5..6));
    // Before anything else a backslash is ordinary text.
    let mut lexer = Lexer::new("a\\b c\\");
    assert_eq!(lexer.next_token(), Token::PlainText(0..3));
    assert_eq!(lexer.next_token(), Token::WhiteSpaces(3..4));
    assert_eq!(lexer.next_token(), Token::PlainText(4..6));
    // At the start of a token it is a reserved character of its own.
    let mut lexer = Lexer::new("\\*");
    assert_eq!(lexer.next_token(), Token::KeyChar(0..1));
    assert_eq!(lexer.next_token(), Token::Asterisks(1..2));
}

#[test]
fn runs_and_reserved_characters() {
    let mut lexer = Lexer::new("```__++ \t\r\n\n>x<");
    assert_eq!(lexer.next_token(), Token::Backticks(0..3));
    assert_eq!(lexer.next_token(), Token::Underscores(3..5));
    assert_eq!(lexer.next_token(), Token::Pluses(5..7));
    assert_eq!(lexer.next_token(), Token::WhiteSpaces(7..9));
    assert_eq!(lexer.next_token(), Token::LineBreaks(9..12));
    assert_eq!(lexer.next_token(), Token::KeyChar(12..13));
    assert_eq!(lexer.next_token(), Token::PlainText(13..14));
    assert_eq!(lexer.next_token(), Token::KeyChar(14..15));
    assert_eq!(lexer.next_token(), Token::Eof(15..15));
}

#[test]
fn tokens_cover_whole_characters() {
    let md = "#é ü*";
    let mut lexer = Lexer::new(md);
    let pounds = lexer.next_token();
    assert_eq!(pounds, Token::Pounds(0..1));
    let word = lexer.next_token();
    assert_eq!(word, Token::PlainText(1..3));
    assert_eq!(lexer.token_as_str(word), "é");
    assert_eq!(lexer.next_token(), Token::WhiteSpaces(3..4));
    let word = lexer.next_token();
    assert_eq!(word, Token::PlainText(4..6));
    assert_eq!(word.to_range(), 4..6);
    assert_eq!(lexer.token_as_str(word), "ü");
    assert_eq!(lexer.next_token(), Token::Asterisks(6..7));
}
