use parser_haskell::block_word::BlockWord;
use parser_haskell::fault::Fault;
use parser_haskell::layout::layout;
use parser_haskell::preprocess;
use parser_haskell::whitespace::commify;

fn count(s: &str, c: char) -> usize {
    s.chars().filter(|x| *x == c).count()
}

#[test]
fn simple_block() {
    assert_eq!(preprocess("do\n  a\n  b\n").unwrap(), "do{\n  a\n  ;b\n}");
}

#[test]
fn nested_dedent() {
    let out = preprocess("where\n  f = do\n    x\n  g = 1\n").unwrap();
    assert_eq!(out, "where{\n  f = do{\n    x\n   };g = 1\n}");
}

#[test]
fn same_line_let_in() {
    assert_eq!(preprocess("let x = 1 in x").unwrap(), "let{ x = 1 }in{ x}");
}

#[test]
fn unmatched_closing_bracket() {
    assert_eq!(layout("g (do x)").unwrap(), "g (do{ x})");
}

#[test]
fn balanced_delimiters() {
    let out = layout("where\n  f = do\n    x\n  g = 1\n").unwrap();
    assert_eq!(count(&out, '{'), count(&out, '}'));
    assert_eq!(count(&out, '{'), 2);
}

#[test]
fn mismatched_in_is_noted() {
    assert_eq!(
        layout("do x in y").unwrap(),
        "do{ x  /* ERR: `in` while in `Do` block */ in{ y}}"
    );
}

#[test]
fn in_outside_any_block() {
    assert_eq!(
        layout("a in b").unwrap(),
        "a  /* ERR: `in` at top level */ in{ b}"
    );
    assert!(commify("a in b").unwrap().contains("/* ERR"));
}

#[test]
fn then_outside_any_block() {
    assert_eq!(
        layout("then x").unwrap(),
        " /* ERR: `ifin` at top level */ then{ x}"
    );
}

#[test]
fn stray_carriage_return() {
    assert_eq!(layout("x\ry"), Err(Fault::StrayCarriageReturn));
    assert_eq!(preprocess("x\ry"), Err(Fault::StrayCarriageReturn));
}

#[test]
fn crlf_is_a_line_break() {
    assert_eq!(layout("do\r\n  a\r\n  b").unwrap(), "do{\r\n  a\r\n  ;b}");
}

#[test]
fn if_then_else() {
    assert_eq!(layout("if a then b else c").unwrap(), "if{ a }then{ b else{ c}}");
}

#[test]
fn empty_input() {
    assert_eq!(preprocess("").unwrap(), "");
    assert_eq!(commify("").unwrap(), "");
}

#[test]
fn where_semicolon_is_dropped() {
    assert_eq!(commify("nowhere ;x").unwrap(), "nowhere x");
}

#[test]
fn semicolon_between_closing_braces_is_dropped() {
    assert_eq!(commify("a };} b").unwrap(), "a }} b");
}

#[test]
fn block_words() {
    assert_eq!(BlockWord::from_str("do"), Some(BlockWord::Do));
    assert_eq!(BlockWord::from_str("where"), Some(BlockWord::Where));
    assert_eq!(BlockWord::from_str("of"), Some(BlockWord::Of));
    assert_eq!(BlockWord::from_str("let"), Some(BlockWord::Let));
    assert_eq!(BlockWord::from_str("in"), Some(BlockWord::In));
    assert_eq!(BlockWord::from_str("if"), Some(BlockWord::If));
    assert_eq!(BlockWord::from_str("then"), Some(BlockWord::Then));
    assert_eq!(BlockWord::from_str("else"), Some(BlockWord::Else));
    assert_eq!(BlockWord::from_str("done"), None);
    assert_eq!(BlockWord::from_str(""), None);
}

#[test]
fn balanced_delimiters_with_brackets() {
    let input = "do\n  f {x} (y\n    z)\n  g [w]\n";
    let out = layout(input).unwrap();
    assert_eq!(
        count(&out, '{') + count(input, '}'),
        count(&out, '}') + count(input, '{')
    );
}
