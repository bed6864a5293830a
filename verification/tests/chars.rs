use markdown_rs::chars::{collapse_whitespace, normalize, push_unescaped};
use markdown_rs::line::{find_line_end, find_next_line, skip_whitespace};
use markdown_rs::text::{append_span, slice};

#[test]
fn labels_are_normalized() {
    assert_eq!(normalize("id"), "id");
    assert_eq!(normalize("  Foo\t\r\n BAR  "), "foo bar");
    assert_eq!(normalize("ÄÖ Ü"), "äö ü");
    assert_eq!(normalize(" \t"), "");
    assert_eq!(normalize(""), "");
}

#[test]
fn whitespace_is_collapsed_and_trimmed() {
    assert_eq!(collapse_whitespace("a"), "a");
    assert_eq!(collapse_whitespace(" a  b\n\nc "), "a b c");
    assert_eq!(collapse_whitespace("A  B"), "A B");
    assert_eq!(collapse_whitespace("\n"), "");
}

#[test]
fn escapes_are_taken_out() {
    let mut buffer = String::from("x");
    push_unescaped(&mut buffer, "a\\*b");
    assert_eq!(buffer, "xa*b");
    push_unescaped(&mut buffer, "\\\\\\a\\");
    assert_eq!(buffer, "xa*b\\\\a\\");
    push_unescaped(&mut buffer, "");
    assert_eq!(buffer, "xa*b\\\\a\\");
    let mut buffer = String::new();
    push_unescaped(&mut buffer, "\\[é\\]\\é");
    assert_eq!(buffer, "[é]\\é");
}

#[test]
fn spans_are_cut_out_at_byte_offsets() {
    let source = "aé\nb";
    assert_eq!(slice(source, 0, 0), "");
    assert_eq!(slice(source, 1, 3), "é");
    assert_eq!(slice(source, 0, source.len()), source);
    let mut buffer = String::from("x");
    append_span(&mut buffer, source, 1, 4);
    assert_eq!(buffer, "xé\n");
}

#[test]
fn lines_end_at_their_line_breaks() {
    let source = "ab\r\n \tc\rd\n";
    assert_eq!(find_line_end(source, 0), 2);
    assert_eq!(find_line_end(source, 2), 2);
    assert_eq!(find_next_line(source, 0), 4);
    assert_eq!(skip_whitespace(source, 4), 6);
    assert_eq!(find_line_end(source, 4), 7);
    assert_eq!(find_next_line(source, 4), 8);
    assert_eq!(find_next_line(source, 8), 10);
    assert_eq!(find_next_line(source, 10), 10);
    assert_eq!(find_line_end(source, 10), 10);
}
