use nmpolicy::ast::node::{current_state, eqfilter, identity, number, path, replace, string, Node};

#[test]
fn eqfilter_display() {
    let obtained_string = eqfilter(
        0,
        path(0, vec![*current_state(0)]),
        path(
            0,
            vec![
                *identity(0, "routes".to_string()),
                *identity(0, "running".to_string()),
                *identity(0, "table-id".to_string()),
            ],
        ),
        number(0, 254),
    )
    .to_string();
    assert_eq!(obtained_string, "EqFilter([Path=[Identity=currentState] Path=[Identity=routes Identity=running Identity=table-id] Number=254])");
}

#[test]
fn replace_display() {
    let obtained_string = replace(
        0,
        current_state(0),
        path(
            0,
            vec![
                *identity(0, "routes".to_string()),
                *identity(0, "running".to_string()),
                *identity(0, "next-hop-interface".to_string()),
            ],
        ),
        string(0, "br1".to_string()),
    )
    .to_string();
    assert_eq!(obtained_string, "Replace([Identity=currentState Path=[Identity=routes Identity=running Identity=next-hop-interface] String=br1])");
}

#[test]
fn negative_number_display() {
    assert_eq!(number(3, -17).to_string(), "Number=-17");
    assert_eq!(number(3, 0).to_string(), "Number=0");
    assert_eq!(number(3, i32::MIN).to_string(), "Number=-2147483648");
    assert_eq!(number(3, i32::MAX).to_string(), "Number=2147483647");
}

#[test]
fn empty_path_display() {
    assert_eq!(path(0, vec![]).to_string(), "Path=[]");
}

#[test]
fn default_node_is_nil_identity() {
    assert_eq!(Node::default().to_string(), "Identity=nil");
    assert_eq!(Node::default().pos, 0);
}

#[test]
fn clone_keeps_the_tree() {
    let node = eqfilter(
        7,
        current_state(0),
        path(1, vec![*identity(1, "a".to_string()), *number(3, 4)]),
        string(9, "x".to_string()),
    );
    let copy = (*node).clone();
    assert_eq!(*node, copy);
}

#[test]
fn current_state_is_recognised() {
    assert!(current_state(5).is_current_state());
    assert!(!identity(5, "currentstate".to_string()).is_current_state());
    assert!(!string(5, "currentState".to_string()).is_current_state());
}
