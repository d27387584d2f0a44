use std::cell::RefCell;
use std::rc::Rc;

use chaincall::interpreter::{Interpreter, Scope};
use chaincall::objects::{Command, Object};
use chaincall::parser::{self, S};

/// Commands the tests install into scopes.
enum TestCmd {
    /// Records its input text and returns the unit value.
    Record(Rc<RefCell<Vec<String>>>),
    /// Binds its input text to the unit value in the scope.
    Define,
    /// Returns a fresh recording command.
    MakeRecorder(Rc<RefCell<Vec<String>>>),
}

impl Command for TestCmd {
    fn call(&self, input: String, scope: &mut Scope<TestCmd>) -> Object<TestCmd> {
        match self {
            TestCmd::Record(log) => {
                log.borrow_mut().push(input);
                Object::Nothing
            },
            TestCmd::Define => {
                scope.insert(input, Object::Nothing);
                Object::Nothing
            },
            TestCmd::MakeRecorder(log) => {
                Object::Command(Rc::new(TestCmd::Record(log.clone())))
            },
        }
    }
}

fn run<'a>(src: &'a str, interpreter: &mut Interpreter<TestCmd>) -> Object<TestCmd> {
    let program = parser::program(S::from(src)).unwrap();
    interpreter.interpret(program)
}

fn empty_interpreter() -> Interpreter<TestCmd> {
    Interpreter { names: Scope::new() }
}

#[test]
fn print_command_consumes_its_input() {
    let log: Rc<RefCell<Vec<String>>> = Rc::new(RefCell::new(Vec::new()));
    let mut interpreter = empty_interpreter();
    interpreter.names.insert(
        "print".to_owned(),
        Object::Command(Rc::new(TestCmd::Record(log.clone()))),
    );
    let result = run("print(hello)", &mut interpreter);
    assert!(matches!(result, Object::Nothing));
    assert_eq!(*log.borrow(), vec!["hello".to_owned()]);
}

#[test]
fn unknown_name_with_empty_scope_is_an_error_value() {
    let mut interpreter = empty_interpreter();
    let result = run("unknown(1)", &mut interpreter);
    match result {
        Object::Error(message) => {
            assert_eq!(
                message,
                "Execution error at row 1, column 1: Unknown name\n\nunknown(1)\n^\n"
            );
        },
        _ => panic!("expected an Error value"),
    }
}

#[test]
fn unknown_name_position_on_later_line() {
    let mut interpreter = empty_interpreter();
    interpreter.names.insert("a".to_owned(), Object::Nothing);
    let result = run("a\nmissing", &mut interpreter);
    match result {
        Object::Error(message) => {
            assert_eq!(
                message,
                "Execution error at row 2, column 1: Unknown name\n\nmissing\n^\n"
            );
        },
        _ => panic!("expected an Error value"),
    }
}

#[test]
fn calling_a_non_command_reports_first_paren() {
    let mut interpreter = empty_interpreter();
    interpreter.names.insert("foo".to_owned(), Object::Nothing);
    let result = run("foo(x)(y)", &mut interpreter);
    match result {
        Object::Error(message) => {
            assert_eq!(
                message,
                "Execution error at row 1, column 4: Calling a non-command\n\nfoo(x)(y)\n   ^\n"
            );
        },
        _ => panic!("expected an Error value"),
    }
}

#[test]
fn escaped_paren_body_passes_through_to_command() {
    let log: Rc<RefCell<Vec<String>>> = Rc::new(RefCell::new(Vec::new()));
    let mut interpreter = empty_interpreter();
    interpreter.names.insert(
        "cmd".to_owned(),
        Object::Command(Rc::new(TestCmd::Record(log.clone()))),
    );
    let result = run("cmd(a\\)b)", &mut interpreter);
    assert!(matches!(result, Object::Nothing));
    assert_eq!(*log.borrow(), vec!["a\\)b".to_owned()]);
}

#[test]
fn empty_program_yields_nothing() {
    let mut interpreter = empty_interpreter();
    let result = run("", &mut interpreter);
    assert!(matches!(result, Object::Nothing));
}

#[test]
fn bare_name_returns_its_bound_value() {
    let mut interpreter = empty_interpreter();
    interpreter.names.insert("thing".to_owned(), Object::Error("boom".to_owned()));
    let result = run("thing", &mut interpreter);
    match result {
        Object::Error(message) => assert_eq!(message, "boom"),
        _ => panic!("expected the bound Error value"),
    }
}

#[test]
fn chained_invocation_threads_the_current_value() {
    let log: Rc<RefCell<Vec<String>>> = Rc::new(RefCell::new(Vec::new()));
    let mut interpreter = empty_interpreter();
    interpreter.names.insert(
        "mk".to_owned(),
        Object::Command(Rc::new(TestCmd::MakeRecorder(log.clone()))),
    );
    let result = run("mk(x)(y)", &mut interpreter);
    assert!(matches!(result, Object::Nothing));
    assert_eq!(*log.borrow(), vec!["y".to_owned()]);
}

#[test]
fn command_side_effects_persist_across_lines() {
    let mut interpreter = empty_interpreter();
    interpreter.names.insert("def".to_owned(), Object::Command(Rc::new(TestCmd::Define)));
    let result = run("def(fresh)\nfresh", &mut interpreter);
    assert!(matches!(result, Object::Nothing));
    assert!(interpreter.names.get("fresh").is_some());
}

#[test]
fn scope_effects_survive_a_failing_later_line() {
    let mut interpreter = empty_interpreter();
    interpreter.names.insert("def".to_owned(), Object::Command(Rc::new(TestCmd::Define)));
    let result = run("def(kept)\nmissing", &mut interpreter);
    assert!(matches!(result, Object::Error(_)));
    assert!(interpreter.names.get("kept").is_some());
}

#[test]
fn scope_insert_replaces_existing_binding() {
    let mut scope: Scope<TestCmd> = Scope::new();
    scope.insert("k".to_owned(), Object::Nothing);
    scope.insert("k".to_owned(), Object::Error("second".to_owned()));
    match scope.get("k") {
        Some(Object::Error(m)) => assert_eq!(m, "second"),
        _ => panic!("expected replaced binding"),
    }
}

#[test]
fn scope_get_missing_is_none() {
    let scope: Scope<TestCmd> = Scope::new();
    assert!(scope.get("absent").is_none());
}

#[test]
fn object_renderings() {
    let nothing: Object<TestCmd> = Object::Nothing;
    assert_eq!(nothing.to_string(), "nothing");
    let cmd: Object<TestCmd> = Object::Command(Rc::new(TestCmd::Define));
    assert_eq!(cmd.to_string(), "command");
    let err: Object<TestCmd> = Object::Error("msg".to_owned());
    assert_eq!(err.to_string(), "msg");
}

#[test]
fn error_positions_with_multiple_digits() {
    let mut interpreter = empty_interpreter();
    interpreter.names.insert("a".to_owned(), Object::Nothing);
    // eleven lines of `a`, then an unbound name on row 12
    let src = "a\na\na\na\na\na\na\na\na\na\na\nmissing";
    let result = run(src, &mut interpreter);
    match result {
        Object::Error(message) => {
            assert_eq!(
                message,
                "Execution error at row 12, column 1: Unknown name\n\nmissing\n^\n"
            );
        },
        _ => panic!("expected an Error value"),
    }
}

#[test]
fn error_caret_under_a_late_column() {
    let mut interpreter = empty_interpreter();
    interpreter.names.insert("abcdefghij".to_owned(), Object::Nothing);
    let result = run("abcdefghij(x)", &mut interpreter);
    match result {
        Object::Error(message) => {
            assert_eq!(
                message,
                "Execution error at row 1, column 11: Calling a non-command\n\nabcdefghij(x)\n          ^\n"
            );
        },
        _ => panic!("expected an Error value"),
    }
}

#[test]
fn resolve_name_decides_for_any_scope() {
    let mut scope: Scope<TestCmd> = Scope::new();
    scope.insert("here".to_owned(), Object::Error("payload".to_owned()));
    let program = parser::program(S::from("here\ngone")).unwrap();
    match chaincall::interpreter::resolve_name(&scope, &program.lines[0].command_name) {
        Ok(Object::Error(m)) => assert_eq!(m, "payload"),
        _ => panic!("expected the bound value"),
    }
    match chaincall::interpreter::resolve_name(&scope, &program.lines[1].command_name) {
        Err(Object::Error(m)) => {
            assert_eq!(
                m,
                "Execution error at row 2, column 1: Unknown name\n\ngone\n^\n"
            );
        },
        _ => panic!("expected the unknown-name error value"),
    }
}

#[test]
fn narrow_to_command_decides_for_any_value() {
    let program = parser::program(S::from("f(x)")).unwrap();
    let pos = program.lines[0].inputs[0].opening_paren_pos;
    let cmd: Object<TestCmd> = Object::Command(Rc::new(TestCmd::Define));
    assert!(chaincall::interpreter::narrow_to_command(&cmd, &pos).is_ok());
    let plain: Object<TestCmd> = Object::Nothing;
    match chaincall::interpreter::narrow_to_command(&plain, &pos) {
        Err(Object::Error(m)) => {
            assert_eq!(
                m,
                "Execution error at row 1, column 2: Calling a non-command\n\nf(x)\n ^\n"
            );
        },
        _ => panic!("expected the non-command error value"),
    }
}

#[test]
fn error_to_string_renders_caret_under_column() {
    let src = "ab cd";
    let mut s = S::from(src);
    for _ in 0..3 {
        let (_, n) = parser::next(s).unwrap();
        s = n;
    }
    let e = chaincall::interpreter::Error::UnknownName { beginning_pos: s };
    assert_eq!(
        e.to_string(),
        "Execution error at row 1, column 4: Unknown name\n\nab cd\n   ^\n"
    );
}
