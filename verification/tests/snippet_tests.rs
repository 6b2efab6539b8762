use nmpolicy::error::{evaluation_error, validation_error, ErrorKind, NmpolicyError};
use nmpolicy::snippet::snippet;

fn with_newline(expression: &str, pos: usize) -> String {
    let mut obtained_snippet = String::from('\n');
    obtained_snippet.push_str(snippet(expression.to_string(), pos).as_str());
    obtained_snippet
}

#[test]
fn snippet_expr_0() {
    assert_eq!(
        with_newline("012345678", 5),
        r#"
| 012345678
| .....^"#
    );
}

#[test]
fn snippet_expr_1() {
    assert_eq!(
        with_newline("012345678", 0),
        r#"
| 012345678
| ^"#
    );
}

#[test]
fn snippet_expr_2() {
    assert_eq!(
        with_newline("012345678", 10),
        r#"
| 012345678
| ........^"#
    );
}

#[test]
fn snippet_expr_3() {
    assert_eq!(with_newline("", 10), "\n");
}

#[test]
fn snippet_counts_bytes() {
    // "é" takes two bytes: the expression is five bytes long.
    assert_eq!(snippet("aébc".to_string(), 100), "| aébc\n| ....^");
    assert_eq!(snippet("aébc".to_string(), 4), "| aébc\n| ....^");
    assert_eq!(snippet("aébc".to_string(), 3), "| aébc\n| ...^");
}

#[test]
fn new_error_is_plain() {
    let e = NmpolicyError::new(ErrorKind::Bug);
    assert_eq!(e.kind(), ErrorKind::Bug);
    assert_eq!(e.message(), "");
    assert_eq!(e.position(), 0);
    assert_eq!(e.source(), None);
    assert_eq!(e.to_string(), "");
}

#[test]
fn error_kinds() {
    assert_eq!(validation_error("a".to_string()).kind(), ErrorKind::ValidationError);
    assert_eq!(evaluation_error("a".to_string()).kind(), ErrorKind::EvaluationError);
    assert_eq!(NmpolicyError::from("a".to_string()).kind(), ErrorKind::EvaluationError);
    assert_eq!(NmpolicyError::from("a".to_string()).message(), "a");
    assert_eq!(
        NmpolicyError::new(ErrorKind::NotImplementedError).kind(),
        ErrorKind::NotImplementedError
    );
    assert_eq!(
        NmpolicyError::new(ErrorKind::NotSupportedError).kind(),
        ErrorKind::NotSupportedError
    );
}

#[test]
fn ctx_is_put_in_front_once() {
    let e = evaluation_error("boom".to_string()).ctx("outer".to_string());
    assert_eq!(e.message(), "outer: boom");
    let e = e.ctx("outer".to_string());
    assert_eq!(e.message(), "outer: boom");
    let e = e.ctx("boom".to_string());
    assert_eq!(e.message(), "outer: boom");
    let e = e.ctx("more".to_string());
    assert_eq!(e.message(), "more: outer: boom");
}

#[test]
fn named_contexts() {
    assert_eq!(evaluation_error("x".to_string()).resolver().message(), "resolve error: x");
    assert_eq!(evaluation_error("x".to_string()).eqfilter().message(), "eqfilter error: x");
    assert_eq!(evaluation_error("x".to_string()).replace().message(), "replace error: x");
    let e = evaluation_error("x".to_string()).path(4);
    assert_eq!(e.message(), "invalid path: x");
    assert_eq!(e.position(), 4);
    let e = e.path(9).resolver().resolver();
    assert_eq!(e.message(), "resolve error: invalid path: x");
    assert_eq!(e.position(), 4);
}

#[test]
fn position_is_written_once() {
    let e = evaluation_error("x".to_string()).pos(0);
    assert_eq!(e.position(), 0);
    let e = e.pos(3);
    assert_eq!(e.position(), 3);
    let e = e.pos(8);
    assert_eq!(e.position(), 3);
}

#[test]
fn decorate_sets_expression_and_position() {
    let e = evaluation_error("x".to_string()).decorate("abcdef".to_string(), 2);
    assert_eq!(e.source(), Some("abcdef".to_string()));
    assert_eq!(e.position(), 2);
    assert_eq!(e.to_string(), "x\n| abcdef\n| ..^");
    let e = e.decorate("zz".to_string(), 1);
    assert_eq!(e.source(), Some("zz".to_string()));
    assert_eq!(e.position(), 2);
    assert_eq!(e.to_string(), "x\n| zz\n| .^");
    let e = e.expression(None);
    assert_eq!(e.to_string(), "x");
}

#[test]
fn locate_and_within_keep_what_is_set() {
    let e = evaluation_error("x".to_string()).locate(5).within("first".to_string());
    assert_eq!(e.position(), 5);
    assert_eq!(e.source(), Some("first".to_string()));
    let e = evaluation_error("x".to_string())
        .within("first".to_string())
        .locate(5)
        .within("second".to_string());
    assert_eq!(e.position(), 0);
    assert_eq!(e.source(), Some("first".to_string()));
}

#[test]
fn clone_of_error_is_equal() {
    let e = evaluation_error("x".to_string()).decorate("abc".to_string(), 1);
    assert_eq!(e.clone(), e);
}
