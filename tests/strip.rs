use parser_haskell::fault::Fault;
use parser_haskell::strip::{decode, rewrite_literal, strip_comments};

#[test]
fn block_comment_removed() {
    assert_eq!(strip_comments("a {- x -} b").unwrap(), "a  b");
}

#[test]
fn line_comment_removed() {
    assert_eq!(strip_comments("a -- comment\nb").unwrap(), "a \nb");
}

#[test]
fn empty_line_comment_removed() {
    assert_eq!(strip_comments("a --\nb").unwrap(), "a \nb");
}

#[test]
fn trailing_semicolons_removed() {
    assert_eq!(strip_comments("a;;\nb").unwrap(), "a\nb");
}

#[test]
fn directive_removed() {
    assert_eq!(strip_comments("#include foo\nx").unwrap(), "\nx");
}

#[test]
fn char_literal_encoded() {
    assert_eq!(strip_comments("'a'").unwrap(), "'YQ=='");
}

#[test]
fn string_literal_encoded() {
    assert_eq!(strip_comments("\"hi\"").unwrap(), "\"aGk=\"");
}

#[test]
fn escaped_string_literal_encoded() {
    assert_eq!(strip_comments("\"a\\nb\"").unwrap(), "\"YQpi\"");
}

#[test]
fn unknown_escape_in_char_literal_fails() {
    assert_eq!(strip_comments("'\\DEL'"), Err(Fault::UnknownEscape));
}

#[test]
fn unknown_escape_in_string_literal_fails() {
    assert_eq!(strip_comments("\"\\q\""), Err(Fault::UnknownEscape));
}

#[test]
fn multi_char_literal_fails() {
    assert_eq!(rewrite_literal("ab", '\'', true), Err(Fault::MultiCharLiteral));
}

#[test]
fn forall_period_becomes_semicolon() {
    assert_eq!(strip_comments("forall a b. a").unwrap(), "forall a b; a");
}

#[test]
fn stripping_twice_changes_nothing() {
    let once = strip_comments("a -- c\nb {- x -} c;\n#if X\nd").unwrap();
    assert_eq!(strip_comments(&once).unwrap(), once);
}

#[test]
fn escapes_decoded() {
    let s: Vec<char> = "x\\ty\\NULz\\ESC\\\\".chars().collect();
    let d: String = decode(&s).unwrap().into_iter().collect();
    assert_eq!(d, "x\ty\0z\x1b\\");
    let bad: Vec<char> = "a\\q".chars().collect();
    assert!(decode(&bad).is_none());
}

#[test]
fn plain_literal_reaches_encoder_unchanged() {
    let r = rewrite_literal("hello world", '"', false).unwrap();
    assert_eq!(r, "\"aGVsbG8gd29ybGQ=\"");
}

#[test]
fn empty_string_literal() {
    assert_eq!(rewrite_literal("", '"', false).unwrap(), "\"\"");
}

#[test]
fn single_char_literal_checked() {
    assert_eq!(rewrite_literal("ab", '\'', true), Err(Fault::MultiCharLiteral));
    assert_eq!(rewrite_literal("\\n", '\'', true).unwrap(), "'Cg=='");
}
