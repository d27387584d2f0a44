use chaincall::parser::{self, S};

fn cursor(src: &str) -> S<'_> {
    S::from(src)
}

#[test]
fn skip_whitespace_stops_at_text() {
    let s = parser::skip_whitespace(cursor("  \t\n x"));
    assert_eq!(s.index, 5);
}

#[test]
fn skip_whitespace_at_end() {
    let s = parser::skip_whitespace(cursor("   "));
    assert_eq!(s.index, 3);
}

#[test]
fn next_decodes_multibyte() {
    let src = "héllo";
    let (c, s) = parser::next(cursor(src)).unwrap();
    assert_eq!(c, 'h');
    let (c2, s2) = parser::next(s).unwrap();
    assert_eq!(c2, 'é');
    assert_eq!(s2.index, 2);
}

#[test]
fn next_none_at_end() {
    assert!(parser::next(cursor("")).is_none());
}

#[test]
fn command_name_trims_trailing_whitespace() {
    let (name, s) = parser::command_name(cursor("foo  (x)")).unwrap();
    assert_eq!(name.content, "foo");
    assert_eq!(name.beginning_pos.index, 0);
    assert_eq!(s.index, 5);
}

#[test]
fn command_name_stops_at_separator() {
    let (name, s) = parser::command_name(cursor("foo;bar")).unwrap();
    assert_eq!(name.content, "foo");
    assert_eq!(s.index, 3);
}

#[test]
fn command_name_empty_is_none() {
    assert!(parser::command_name(cursor("(x)")).is_none());
    assert!(parser::command_name(cursor("   (x)")).is_none());
    assert!(parser::command_name(cursor("")).is_none());
}

#[test]
fn input_simple_body() {
    let (inp, s) = parser::input(cursor("(hello) rest")).unwrap();
    assert_eq!(inp.content, "hello");
    assert_eq!(inp.opening_paren_pos.index, 0);
    assert_eq!(s.index, 7);
}

#[test]
fn input_empty_body() {
    let (inp, s) = parser::input(cursor("()")).unwrap();
    assert_eq!(inp.content, "");
    assert_eq!(s.index, 2);
}

#[test]
fn input_nested_parens_kept_in_body() {
    let (inp, s) = parser::input(cursor("(a(b(c)d)e)")).unwrap();
    assert_eq!(inp.content, "a(b(c)d)e");
    assert_eq!(s.index, 11);
}

#[test]
fn input_balanced_run_of_parens() {
    // Three unescaped opening parens followed by three closing ones: the
    // scan consumes exactly through the third closer and keeps the parens.
    let (inp, s) = parser::input(cursor("(((())))x")).unwrap();
    assert_eq!(inp.content, "((()))");
    assert_eq!(s.index, 8);
}

#[test]
fn input_not_an_input() {
    match parser::input(cursor("abc")) {
        Err(None) => {},
        _ => panic!("expected not-an-input"),
    }
}

#[test]
fn input_escaped_paren_does_not_close() {
    let (inp, s) = parser::input(cursor("(a\\)b)")).unwrap();
    assert_eq!(inp.content, "a\\)b");
    assert_eq!(s.index, 6);
}

#[test]
fn input_escape_kept_verbatim() {
    let (inp, _) = parser::input(cursor("(a\\nb)")).unwrap();
    assert_eq!(inp.content, "a\\nb");
}

#[test]
fn input_missing_close_reported_at_opening_paren() {
    match parser::input(cursor("(abc")) {
        Err(Some(parser::Error::MissingClosingParen { opening_paren_pos })) => {
            assert_eq!(opening_paren_pos.index, 0);
        },
        _ => panic!("expected MissingClosingParen"),
    }
}

#[test]
fn input_trailing_escape_beats_missing_close() {
    match parser::input(cursor("(ab\\")) {
        Err(Some(parser::Error::NothingAfterEscapeCharacter { esc_char_pos })) => {
            assert_eq!(esc_char_pos.index, 3);
        },
        _ => panic!("expected NothingAfterEscapeCharacter"),
    }
}

#[test]
fn line_collects_inputs_after_whitespace() {
    let (line, s) = parser::line(cursor("foo (a) (b)")).unwrap();
    assert_eq!(line.command_name.content, "foo");
    assert_eq!(line.inputs.len(), 2);
    assert_eq!(line.inputs[0].content, "a");
    assert_eq!(line.inputs[1].content, "b");
    assert_eq!(s.index, 11);
}

#[test]
fn line_without_name_before_input() {
    match parser::line(cursor("(x)")) {
        Err(Some(parser::Error::InputWithoutCommandName { opening_paren_pos })) => {
            assert_eq!(opening_paren_pos.index, 0);
        },
        _ => panic!("expected InputWithoutCommandName"),
    }
}

#[test]
fn line_empty_at_separator_is_no_line() {
    match parser::line(cursor(";")) {
        Err(None) => {},
        _ => panic!("expected no line"),
    }
}

#[test]
fn line_stray_closer() {
    match parser::line(cursor(")")) {
        Err(Some(parser::Error::UnexpectedClosingParen { closing_paren_pos })) => {
            assert_eq!(closing_paren_pos.index, 0);
        },
        _ => panic!("expected UnexpectedClosingParen"),
    }
}

#[test]
fn program_round_trips_names_and_bodies() {
    let src = "print(hello)\nadd(1)(2);last(x y)";
    let program = parser::program(cursor(src)).unwrap();
    assert_eq!(program.lines.len(), 3);
    assert_eq!(program.lines[0].command_name.content, "print");
    assert_eq!(program.lines[0].inputs.len(), 1);
    assert_eq!(program.lines[0].inputs[0].content, "hello");
    assert_eq!(program.lines[1].command_name.content, "add");
    assert_eq!(program.lines[1].inputs.len(), 2);
    assert_eq!(program.lines[1].inputs[0].content, "1");
    assert_eq!(program.lines[1].inputs[1].content, "2");
    assert_eq!(program.lines[2].command_name.content, "last");
    assert_eq!(program.lines[2].inputs[0].content, "x y");
}

#[test]
fn program_empty_source() {
    let program = parser::program(cursor("")).unwrap();
    assert_eq!(program.lines.len(), 0);
}

#[test]
fn program_only_separators_and_whitespace() {
    let program = parser::program(cursor(" ;\n ; ")).unwrap();
    assert_eq!(program.lines.len(), 0);
}

#[test]
fn program_stray_closer_position() {
    match parser::program(cursor("a\n  )x")) {
        Err(parser::Error::UnexpectedClosingParen { closing_paren_pos }) => {
            assert_eq!(closing_paren_pos.index, 4);
        },
        _ => panic!("expected UnexpectedClosingParen"),
    }
}

#[test]
fn program_propagates_input_error() {
    match parser::program(cursor("cmd(x")) {
        Err(parser::Error::MissingClosingParen { opening_paren_pos }) => {
            assert_eq!(opening_paren_pos.index, 3);
        },
        _ => panic!("expected MissingClosingParen"),
    }
}

#[test]
fn command_name_may_contain_inner_spaces() {
    let (name, _) = parser::command_name(cursor("my cmd(x)")).unwrap();
    assert_eq!(name.content, "my cmd");
}

#[test]
fn unicode_names_and_bodies() {
    let program = parser::program(cursor("grüß(héllo wörld)")).unwrap();
    assert_eq!(program.lines[0].command_name.content, "grüß");
    assert_eq!(program.lines[0].inputs[0].content, "héllo wörld");
}

#[test]
fn escaped_backslash_does_not_escape_the_closer() {
    let (inp, s) = parser::input(cursor("(a\\\\)")).unwrap();
    assert_eq!(inp.content, "a\\\\");
    assert_eq!(s.index, 5);
}

#[test]
fn escaped_open_paren_does_not_deepen() {
    let (inp, _) = parser::input(cursor("(a\\(b)")).unwrap();
    assert_eq!(inp.content, "a\\(b");
}

#[test]
fn row_col_line_first_line() {
    let src = "abc";
    let s = cursor(src);
    let (row, col, line) = parser::row_col_line(&s);
    assert_eq!(row, 1);
    assert_eq!(col, 1);
    assert_eq!(line, "abc");
}

#[test]
fn row_col_line_second_line() {
    let src = "ab\ncde\nf";
    let mut s = cursor(src);
    // advance to the 'd' (offset 4)
    for _ in 0..4 {
        let (_, n) = parser::next(s).unwrap();
        s = n;
    }
    let (row, col, line) = parser::row_col_line(&s);
    assert_eq!(row, 2);
    assert_eq!(col, 2);
    assert_eq!(line, "cde");
}

#[test]
fn row_col_line_at_end_of_input() {
    let src = "ab\ncd";
    let mut s = cursor(src);
    for _ in 0..5 {
        let (_, n) = parser::next(s).unwrap();
        s = n;
    }
    let (row, col, line) = parser::row_col_line(&s);
    assert_eq!(row, 2);
    assert_eq!(col, 3);
    assert_eq!(line, "cd");
}

#[test]
fn offset_reports_cursor_position() {
    let s = cursor("xyz");
    assert_eq!(s.offset(), 0);
    let (_, s2) = parser::next(s).unwrap();
    assert_eq!(s2.offset(), 1);
}

#[test]
fn is_whitespace_matches_unicode_property() {
    assert!(parser::is_whitespace(' '));
    assert!(parser::is_whitespace('\t'));
    assert!(parser::is_whitespace('\n'));
    assert!(parser::is_whitespace('\u{2003}'));
    assert!(!parser::is_whitespace('('));
    assert!(!parser::is_whitespace('a'));
}
