use nmpolicy::ast::node::{eqfilter, identity, number, path, string, Node};
use nmpolicy::error::ErrorKind;
use nmpolicy::resolve::path::{Path, Step};

fn compose(node: Box<Node>) -> Result<Path, nmpolicy::NmpolicyError> {
    Path::compose_from_node(*node)
}

#[test]
fn compose_plain_path() {
    let p = compose(path(
        0,
        vec![*identity(0, "routes".to_string()), *number(7, 3), *identity(9, "name".to_string())],
    ))
    .unwrap();
    assert_eq!(p.capture_entry_name, None);
    assert_eq!(
        p.steps,
        vec![
            Step::Identity(0, "routes".to_string()),
            Step::Number(7, 3),
            Step::Identity(9, "name".to_string())
        ]
    );
    assert_eq!(p.current_step_idx, 0);
}

#[test]
fn compose_capture_reference() {
    let p = compose(path(
        4,
        vec![
            *identity(4, "capture".to_string()),
            *identity(12, "default-gw".to_string()),
            *identity(23, "routes".to_string()),
            *number(30, 0),
        ],
    ))
    .unwrap();
    assert_eq!(p.capture_entry_name, Some("default-gw".to_string()));
    assert_eq!(p.steps, vec![Step::Identity(23, "routes".to_string()), Step::Number(30, 0)]);
}

#[test]
fn compose_capture_reference_to_whole_state() {
    let p = compose(path(
        0,
        vec![*identity(0, "capture".to_string()), *identity(8, "gw".to_string())],
    ))
    .unwrap();
    assert_eq!(p.capture_entry_name, Some("gw".to_string()));
    assert_eq!(p.steps, vec![]);
    assert!(!p.has_more_steps());
}

#[test]
fn compose_capture_without_entry_name() {
    let e = compose(path(0, vec![*identity(0, "capture".to_string())])).unwrap_err();
    assert_eq!(e.kind(), ErrorKind::ValidationError);
    assert_eq!(e.message(), "path capture ref is missing capture entry name");
    let e = compose(path(0, vec![*identity(0, "capture".to_string()), *number(8, 1)])).unwrap_err();
    assert_eq!(e.kind(), ErrorKind::ValidationError);
    assert_eq!(e.message(), "path capture ref is missing capture entry name");
}

#[test]
fn compose_refuses_what_is_no_path() {
    for node in [
        identity(0, "a".to_string()),
        string(0, "a".to_string()),
        number(0, 1),
        path(0, vec![]),
        path(0, vec![*number(0, 1), *identity(2, "a".to_string())]),
        path(0, vec![*identity(0, "a".to_string()), *string(2, "b".to_string())]),
        path(0, vec![*identity(0, "a".to_string()), *path(2, vec![])]),
        eqfilter(
            1,
            identity(0, "a".to_string()),
            identity(0, "a".to_string()),
            identity(0, "a".to_string()),
        ),
    ] {
        let e = compose(node).unwrap_err();
        assert_eq!(e.kind(), ErrorKind::NotImplementedError);
        assert_eq!(e.message(), "");
    }
}

#[test]
fn negative_number_wraps_like_a_cast() {
    let p = compose(path(0, vec![*identity(0, "a".to_string()), *number(2, -1)])).unwrap();
    assert_eq!(p.steps[1], Step::Number(2, usize::MAX));
    let p = compose(path(0, vec![*identity(0, "a".to_string()), *number(2, i32::MIN)])).unwrap();
    assert_eq!(p.steps[1], Step::Number(2, i32::MIN as usize));
    let p = compose(path(0, vec![*identity(0, "a".to_string()), *number(2, i32::MAX)])).unwrap();
    assert_eq!(p.steps[1], Step::Number(2, i32::MAX as usize));
}

#[test]
fn cursor_moves_to_the_last_step_and_stays() {
    let mut p = Path::new(
        None,
        vec![Step::Identity(0, "a".to_string()), Step::Number(2, 5), Step::Identity(4, "c".to_string())],
    );
    assert!(p.has_more_steps());
    assert_eq!(p.current_step(), &Step::Identity(0, "a".to_string()));
    p.next_step();
    assert!(p.has_more_steps());
    assert_eq!(p.current_step(), &Step::Number(2, 5));
    assert_eq!(p.current_step().pos(), 2);
    p.next_step();
    assert!(!p.has_more_steps());
    assert_eq!(p.current_step(), &Step::Identity(4, "c".to_string()));
    p.next_step();
    assert_eq!(p.current_step_idx, 2);
    let empty = Path::new(Some("x".to_string()), vec![]);
    assert!(!empty.has_more_steps());
    assert_eq!(empty.clone(), empty);
}

#[test]
fn step_text() {
    assert_eq!(Step::Identity(3, "next-hop".to_string()).to_string(), "identity(next-hop)");
    assert_eq!(Step::Number(3, 0).to_string(), "number(0)");
    assert_eq!(Step::Number(3, 1234567890).to_string(), "number(1234567890)");
}

#[test]
fn number_above_the_signed_range_as_a_step() {
    let root = nmpolicy::parse::parser::parse_expression("a.3000000000.4294967295.7").unwrap().unwrap();
    let p = Path::compose_from_node(*root).unwrap();
    assert_eq!(
        p.steps,
        vec![
            Step::Identity(0, "a".to_string()),
            Step::Number(2, (3000000000u32 as i32) as usize),
            Step::Number(13, usize::MAX),
            Step::Number(24, 7),
        ]
    );
}
