use parser_haskell::diagnostic::{char_index, code_context, describe_parse_error, SyntaxError};

#[test]
fn unrecognized_token_report() {
    let code = "a = 1\nb = 2\nc = x y\n";
    let err = SyntaxError::UnrecognizedToken {
        start: 18,
        token: "y".to_string(),
        end: 19,
        expected: vec![],
    };
    let r = describe_parse_error(code, &err).unwrap();
    assert_eq!(r.message, "Error: Unrecognized token `y`:");
    assert!(r.message.contains("y"));
    let e = r.excerpt.unwrap();
    assert_eq!(e.lines.len(), 3);
    assert_eq!(e.lines[0].number, 1);
    assert_eq!(e.lines[0].text, "a = 1");
    assert_eq!(e.lines[1].number, 2);
    assert_eq!(e.lines[1].text, "b = 2");
    assert_eq!(e.lines[2].number, 3);
    assert_eq!(e.lines[2].text, "c = x y");
    assert_eq!(e.arrow, 12);
}

#[test]
fn first_line_shows_one_line() {
    let e = code_context("abc\ndef", 1).unwrap();
    assert_eq!(e.lines.len(), 1);
    assert_eq!(e.lines[0].number, 1);
    assert_eq!(e.lines[0].text, "abc");
    assert_eq!(e.arrow, 7);
}

#[test]
fn second_line_shows_two_lines() {
    let e = code_context("abc  \ndef", 6).unwrap();
    assert_eq!(e.lines.len(), 2);
    assert_eq!(e.lines[0].text, "abc");
    assert_eq!(e.lines[1].number, 2);
    assert_eq!(e.lines[1].text, "def");
    assert_eq!(e.arrow, 6);
}

#[test]
fn long_lines_are_windowed() {
    let long: String = (0..200).map(|i| char::from(b'a' + (i % 26) as u8)).collect();
    let code = format!("{}\n{}\n{}", long, long, long);
    let pos = 2 * 201 + 150;
    let e = code_context(&code, pos).unwrap();
    assert_eq!(e.lines.len(), 3);
    for l in &e.lines {
        assert!(l.text.chars().count() <= 70);
    }
    assert_eq!(e.arrow, 60);
    assert_eq!(e.lines[2].text, long[96..166].to_string());
}

#[test]
fn past_the_end_gives_nothing() {
    assert!(code_context("abc", 10).is_none());
    assert!(code_context("", 0).is_none());
}

#[test]
fn messages_by_kind() {
    let code = "x";
    let r = describe_parse_error(code, &SyntaxError::InvalidToken { location: 0 }).unwrap();
    assert_eq!(r.message, "Error: Invalid token:");
    let r = describe_parse_error(
        code,
        &SyntaxError::UnrecognizedEof { location: 1, expected: vec!["a".to_string(), "b".to_string()] },
    )
    .unwrap();
    assert_eq!(r.message, "Error: Unrecognized eof `a\nb`:");
    let r = describe_parse_error(
        code,
        &SyntaxError::ExtraToken { start: 0, token: "x".to_string(), end: 1 },
    )
    .unwrap();
    assert_eq!(r.message, "Error: Extra token `x`:");
    assert!(describe_parse_error(code, &SyntaxError::User { error: "u".to_string() }).is_none());
}

#[test]
fn byte_offsets_on_non_ascii_text() {
    let code = "\u{e9} = 1\nb = x";
    let pos = code.find('x').unwrap();
    assert_eq!(pos, 11);
    let e = code_context(code, pos).unwrap();
    assert_eq!(e.lines.len(), 2);
    assert_eq!(e.lines[0].text, "\u{e9} = 1");
    assert_eq!(e.lines[1].text, "b = x");
    assert_eq!(e.arrow, 10);
}

#[test]
fn char_index_of_byte_offsets() {
    let s: Vec<char> = "a\u{e9}\u{20ac}b".chars().collect();
    assert_eq!(char_index(&s, 0), 0);
    assert_eq!(char_index(&s, 1), 1);
    assert_eq!(char_index(&s, 3), 2);
    assert_eq!(char_index(&s, 6), 3);
    assert_eq!(char_index(&s, 7), 4);
    assert_eq!(char_index(&s, 9), 6);
}
