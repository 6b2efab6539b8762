use nmpolicy::resolve::filter;
use nmpolicy::resolve::path::{Path, Step};
use nmpolicy::resolve::replace;
use nmpolicy::resolve::visitor::{visit_state, Route};
use nmpolicy::resolve::walk;
use nmpolicy::error::ErrorKind;
use nmpolicy::state::{list_json_string, NMState, Value};

fn s(text: &str) -> Value {
    Value::Str(text.to_string())
}

fn n(text: &str) -> Value {
    Value::Number(text.to_string())
}

fn obj(entries: Vec<(&str, Value)>) -> NMState {
    NMState { entries: entries.into_iter().map(|(k, v)| (k.to_string(), v)).collect() }
}

fn map(entries: Vec<(&str, Value)>) -> Value {
    Value::Object(obj(entries))
}

fn steps(names: &[&str]) -> Path {
    let mut pos = 0;
    let mut steps = vec![];
    for name in names {
        match name.parse::<usize>() {
            Ok(index) => steps.push(Step::Number(pos, index)),
            Err(_) => steps.push(Step::Identity(pos, name.to_string())),
        }
        pos += name.len() + 1;
    }
    Path::new(None, steps)
}

fn routes() -> NMState {
    obj(vec![(
        "routes",
        map(vec![(
            "running",
            Value::Array(vec![
                map(vec![("destination", s("0.0.0.0/0")), ("iface", s("eth1")), ("table-id", n("254"))]),
                map(vec![("destination", s("1.1.1.0/24")), ("iface", s("eth1")), ("table-id", n("254"))]),
                map(vec![("destination", s("2.2.2.0/24")), ("iface", s("eth2")), ("table-id", n("254"))]),
            ]),
        )]),
    )])
}

#[test]
fn insert_sets_and_overwrites_in_place() {
    let mut state = NMState::new();
    assert!(state.is_empty());
    state.insert("a".to_string(), n("1"));
    state.insert("b".to_string(), n("2"));
    state.insert("a".to_string(), n("3"));
    assert_eq!(state, obj(vec![("a", n("3")), ("b", n("2"))]));
    assert_eq!(state.len(), 2);
    assert_eq!(state.get("a"), Some(&n("3")));
    assert_eq!(state.get("c"), None);
    assert_eq!(state.find("b"), Some(1));
    assert!(state.contains_key("b"));
    assert!(!state.contains_key(""));
}

#[test]
fn first_entry_of_a_name_counts() {
    let state = obj(vec![("a", n("1")), ("a", n("2"))]);
    assert_eq!(state.get("a"), Some(&n("1")));
    assert!(map(vec![("a", n("1")), ("a", n("2"))]).same_as(&map(vec![("a", n("1"))])));
    assert!(map(vec![("a", n("1"))]).same_as(&map(vec![("a", n("1")), ("a", n("2"))])));
    assert!(!map(vec![("a", n("2"))]).same_as(&map(vec![("a", n("1")), ("a", n("2"))])));
}

#[test]
fn equality_of_trees() {
    assert!(Value::Null.same_as(&Value::Null));
    assert!(!Value::Null.same_as(&Value::Bool(false)));
    assert!(Value::Bool(true).same_as(&Value::Bool(true)));
    assert!(!Value::Bool(true).same_as(&Value::Bool(false)));
    assert!(n("1").same_as(&n("1")));
    assert!(!n("1").same_as(&n("2")));
    assert!(!n("1").same_as(&s("1")));
    assert!(s("a").same_as(&s("a")));
    assert!(!s("a").same_as(&s("b")));
    let a = Value::Array(vec![n("1"), s("x")]);
    assert!(a.same_as(&Value::Array(vec![n("1"), s("x")])));
    assert!(!a.same_as(&Value::Array(vec![s("x"), n("1")])));
    assert!(!a.same_as(&Value::Array(vec![n("1")])));
    assert!(!a.same_as(&Value::Array(vec![n("1"), s("x"), s("y")])));
    let m = map(vec![("a", n("1")), ("b", a.clone())]);
    assert!(m.same_as(&map(vec![("b", a.clone()), ("a", n("1"))])));
    assert!(!m.same_as(&map(vec![("a", n("1"))])));
    assert!(!m.same_as(&map(vec![("a", n("1")), ("b", a.clone()), ("c", Value::Null)])));
    assert!(!m.same_as(&map(vec![("a", n("1")), ("b", n("1"))])));
    assert!(!m.same_as(&a));
    assert!(map(vec![]).same_as(&map(vec![])));
    assert_eq!(m.clone(), m);
}

#[test]
fn types_of_values() {
    assert!(Value::Null.has_same_type(&Value::Null));
    assert!(!Value::Null.has_same_type(&s("")));
    assert!(s("a").has_same_type(&s("b")));
    assert!(!s("1").has_same_type(&n("1")));
    assert!(n("1").has_same_type(&n("2.5")));
    assert!(Value::Bool(true).has_same_type(&Value::Bool(false)));
    assert!(Value::Array(vec![]).has_same_type(&Value::Array(vec![n("1")])));
    assert!(!Value::Array(vec![]).has_same_type(&map(vec![])));
    assert!(map(vec![]).has_same_type(&map(vec![("a", n("1"))])));
    assert!(filter::value_has_same_type(&n("1"), &n("2")));
    assert!(!filter::value_has_same_type(&n("1"), &Value::Null));
    assert!(Value::Null.is_null());
    assert!(!Value::Bool(false).is_null());
}

#[test]
fn json_text_of_values() {
    assert_eq!(Value::Null.to_json_string(), "null");
    assert_eq!(Value::Bool(true).to_json_string(), "true");
    assert_eq!(Value::Bool(false).to_json_string(), "false");
    assert_eq!(n("254").to_json_string(), "254");
    assert_eq!(n("-1.5").to_json_string(), "-1.5");
    assert_eq!(s("eth1").to_json_string(), "\"eth1\"");
    // The quoting is serde_json's: quotes, backslashes and control
    // characters are escaped, other characters stay.
    assert_eq!(s("a\"b\\c\nd\te\u{1}é").to_json_string(), "\"a\\\"b\\\\c\\nd\\te\\u0001é\"");
    assert_eq!(
        s("\u{0}\u{8}\u{b}\u{c}\r\u{1f} \u{7f}/").to_json_string(),
        "\"\\u0000\\b\\u000b\\f\\r\\u001f \u{7f}/\""
    );
    assert_eq!(s("").to_json_string(), "\"\"");
    assert_eq!(Value::Array(vec![]).to_json_string(), "[]");
    assert_eq!(Value::Array(vec![n("1")]).to_json_string(), "[1]");
    assert_eq!(Value::Array(vec![n("1"), s("x"), Value::Null]).to_json_string(), "[1,\"x\",null]");
    assert_eq!(map(vec![]).to_json_string(), "{}");
    assert_eq!(
        map(vec![("b", n("1")), ("a \"q\"", Value::Array(vec![map(vec![("c", Value::Bool(true))])]))])
            .to_json_string(),
        "{\"b\":1,\"a \\\"q\\\"\":[{\"c\":true}]}"
    );
    assert_eq!(obj(vec![("a", n("1")), ("b", s("x"))]).to_json_string(), "{\"a\":1,\"b\":\"x\"}");
    assert_eq!(list_json_string(&vec![n("1"), n("2")]), "[1,2]");
    assert_eq!(
        serde_json::from_str::<serde_json::Value>(&Value::Object(routes()).to_json_string()).unwrap()
            ["routes"]["running"][2]["iface"],
        serde_json::Value::String("eth2".to_string())
    );
}

#[test]
fn debug_text_of_values() {
    assert_eq!(Value::Null.debug_string(), "Null");
    assert_eq!(Value::Bool(true).debug_string(), "Bool(true)");
    assert_eq!(Value::Bool(false).debug_string(), "Bool(false)");
    assert_eq!(n("254").debug_string(), "Number(254)");
    assert_eq!(s("eth1").debug_string(), "String(\"eth1\")");
    assert_eq!(s("a\"b\n").debug_string(), "String(\"a\\\"b\\n\")");
}

#[test]
fn routes_of_the_walk() {
    let m = map(vec![("a", n("1"))]);
    let l = Value::Array(vec![]);
    assert_eq!(visit_state(&steps(&["a", "b"]), &m), Ok(Route::InMap));
    assert_eq!(visit_state(&steps(&["a"]), &m), Ok(Route::LastMap));
    assert_eq!(visit_state(&steps(&["0"]), &m), Ok(Route::LastMap));
    assert_eq!(visit_state(&steps(&["a", "b"]), &l), Ok(Route::InSlice));
    assert_eq!(visit_state(&steps(&["0", "b"]), &l), Ok(Route::InSlice));
    assert_eq!(visit_state(&steps(&["a"]), &l), Ok(Route::LastSlice));
    let e = visit_state(&steps(&["0", "b"]), &m).unwrap_err();
    assert_eq!(e.kind(), ErrorKind::EvaluationError);
    assert_eq!(e.message(), "invalid path: unexpected non identity step for map state '{\"a\":1}'");
    let mut p = steps(&["x", "name"]);
    p.next_step();
    let e = visit_state(&p, &n("7")).unwrap_err();
    assert_eq!(e.kind(), ErrorKind::EvaluationError);
    assert_eq!(e.message(), "invalid path: invalid type Number(7) for identity step 'identity(name)'");
    assert_eq!(e.position(), 2);
    let e = visit_state(&steps(&["3"]), &s("x")).unwrap_err();
    assert_eq!(e.message(), "invalid path: invalid type String(\"x\") for identity step 'number(3)'");
    assert_eq!(e.position(), 0);
}

#[test]
fn filter_keeps_matching_maps() {
    let filtered =
        filter::visit_state(routes(), steps(&["routes", "running", "iface"]), s("eth2")).unwrap();
    assert_eq!(
        filtered,
        obj(vec![(
            "routes",
            map(vec![(
                "running",
                Value::Array(vec![map(vec![
                    ("destination", s("2.2.2.0/24")),
                    ("iface", s("eth2")),
                    ("table-id", n("254"))
                ])]),
            )]),
        )])
    );
    let filtered =
        filter::visit_state(routes(), steps(&["routes", "running", "table-id"]), n("254")).unwrap();
    assert_eq!(filtered, routes());
}

#[test]
fn filter_without_match_is_empty() {
    assert_eq!(
        filter::visit_state(routes(), steps(&["routes", "running", "iface"]), s("eth9")),
        Ok(NMState::new())
    );
    assert_eq!(
        filter::visit_state(routes(), steps(&["routes", "missing", "iface"]), s("eth1")),
        Ok(NMState::new())
    );
    assert_eq!(filter::visit_state(routes(), steps(&["nothing"]), Value::Null), Ok(NMState::new()));
    assert_eq!(filter::visit_state(NMState::new(), steps(&["a", "b"]), Value::Null), Ok(NMState::new()));
}

#[test]
fn filter_with_null_projects() {
    let state = obj(vec![
        ("a", map(vec![("b", n("1")), ("c", n("2"))])),
        ("d", n("3")),
    ]);
    assert_eq!(
        filter::visit_state(state.clone(), steps(&["a", "b"]), Value::Null),
        Ok(obj(vec![("a", map(vec![("b", n("1"))]))]))
    );
    assert_eq!(
        filter::visit_state(state.clone(), steps(&["a"]), Value::Null),
        Ok(obj(vec![("a", map(vec![("b", n("1")), ("c", n("2"))]))]))
    );
    // Inside a list the maps that have the name are cut down to it, and
    // the others are dropped.
    let list = obj(vec![(
        "l",
        Value::Array(vec![
            map(vec![("x", n("1")), ("y", n("2"))]),
            map(vec![("y", n("3"))]),
            map(vec![("x", n("4"))]),
        ]),
    )]);
    assert_eq!(
        filter::visit_state(list, steps(&["l", "x"]), Value::Null),
        Ok(obj(vec![("l", Value::Array(vec![map(vec![("x", n("1"))]), map(vec![("x", n("4"))])]))]))
    );
}

#[test]
fn filter_in_nested_lists_keeps_the_siblings() {
    let state = obj(vec![(
        "interfaces",
        Value::Array(vec![
            map(vec![
                ("name", s("eth1")),
                ("address", Value::Array(vec![map(vec![("ip", s("10.0.0.1"))]), map(vec![("ip", s("10.0.0.2"))])])),
            ]),
            map(vec![
                ("name", s("eth2")),
                ("address", Value::Array(vec![map(vec![("ip", s("10.0.0.3"))])])),
            ]),
        ]),
    )]);
    let filtered =
        filter::visit_state(state, steps(&["interfaces", "address", "ip"]), s("10.0.0.2")).unwrap();
    assert_eq!(
        filtered,
        obj(vec![(
            "interfaces",
            Value::Array(vec![map(vec![
                ("name", s("eth1")),
                ("address", Value::Array(vec![map(vec![("ip", s("10.0.0.1"))]), map(vec![("ip", s("10.0.0.2"))])])),
            ])]),
        )])
    );
}

#[test]
fn filter_type_mismatch() {
    let e = filter::visit_state(routes(), steps(&["routes", "running", "table-id"]), s("254"))
        .unwrap_err();
    assert_eq!(e.kind(), ErrorKind::EvaluationError);
    assert_eq!(
        e.message(),
        "failed applying operation on the path: invalid path: type mismatch: 254 != \"254\""
    );
    assert_eq!(e.position(), 15);
    assert_eq!(e.source(), None);
}

#[test]
fn filter_errors() {
    let e = filter::visit_state(routes(), steps(&["routes", "0", "x"]), s("a")).unwrap_err();
    assert_eq!(e.kind(), ErrorKind::EvaluationError);
    assert_eq!(e.position(), 7);
    assert!(e.message().starts_with(
        "failed applying operation on the path: invalid path: unexpected non identity step for map state '{\"running\":"
    ));
    let e = filter::visit_state(routes(), steps(&["0"]), s("a")).unwrap_err();
    assert_eq!(
        e.message(),
        "failed applying operation on the path: invalid path: unexpected step type visiting last map"
    );
    let e = filter::visit_state(routes(), steps(&["routes", "running", "0"]), s("a")).unwrap_err();
    assert_eq!(
        e.message(),
        "failed applying operation on the path: invalid path: failed filtering map: path with index not supported"
    );
    assert_eq!(e.position(), 15);
    let e = filter::visit_state(routes(), steps(&["routes", "running", "0", "iface"]), s("a"))
        .unwrap_err();
    assert_eq!(
        e.message(),
        "failed applying operation on the path: invalid path: failed filtering slice: path with index not supported"
    );
    let e = filter::visit_state(routes(), steps(&["routes", "running", "iface", "x"]), s("a"))
        .unwrap_err();
    assert_eq!(
        e.message(),
        "failed applying operation on the path: invalid path: invalid type String(\"eth1\") for identity step 'identity(x)'"
    );
    assert_eq!(e.position(), 21);
    let e = filter::visit_state(routes(), Path::new(None, vec![]), s("a")).unwrap_err();
    assert_eq!(e.kind(), ErrorKind::NotImplementedError);
}

#[test]
fn replace_sets_the_value_everywhere() {
    let replaced =
        replace::visit_state(routes(), steps(&["routes", "running", "iface"]), s("br1")).unwrap();
    let expected = obj(vec![(
        "routes",
        map(vec![(
            "running",
            Value::Array(vec![
                map(vec![("destination", s("0.0.0.0/0")), ("iface", s("br1")), ("table-id", n("254"))]),
                map(vec![("destination", s("1.1.1.0/24")), ("iface", s("br1")), ("table-id", n("254"))]),
                map(vec![("destination", s("2.2.2.0/24")), ("iface", s("br1")), ("table-id", n("254"))]),
            ]),
        )]),
    )]);
    assert_eq!(replaced, expected);
    // A new name is added at the end.
    let replaced = replace::visit_state(obj(vec![("a", n("1"))]), steps(&["b"]), s("x")).unwrap();
    assert_eq!(replaced, obj(vec![("a", n("1")), ("b", s("x"))]));
}

#[test]
fn replace_then_filter_finds_the_value() {
    let path = ["routes", "running", "iface"];
    let replaced = replace::visit_state(routes(), steps(&path), s("br1")).unwrap();
    let filtered = filter::visit_state(replaced.clone(), steps(&path), s("br1")).unwrap();
    assert!(!filtered.is_empty());
    assert_eq!(filtered, replaced);
}

#[test]
fn replace_on_a_missing_path() {
    assert_eq!(
        replace::visit_state(routes(), steps(&["missing", "x"]), s("a")),
        Ok(NMState::new())
    );
    // Where the path leads nowhere below a name, the tree stays as it is.
    assert_eq!(
        replace::visit_state(obj(vec![("a", map(vec![("x", n("1"))]))]), steps(&["a", "b", "c"]), s("v")),
        Ok(obj(vec![("a", map(vec![("x", n("1"))]))]))
    );
    let list = obj(vec![(
        "l",
        Value::Array(vec![
            map(vec![("a", map(vec![("b", n("1"))]))]),
            map(vec![("c", n("2"))]),
            map(vec![("a", map(vec![]))]),
        ]),
    )]);
    assert_eq!(
        replace::visit_state(list, steps(&["l", "a", "b"]), s("v")),
        Ok(obj(vec![(
            "l",
            Value::Array(vec![
                map(vec![("a", map(vec![("b", s("v"))]))]),
                map(vec![("c", n("2"))]),
                map(vec![("a", map(vec![("b", s("v"))]))]),
            ]),
        )]))
    );
}

#[test]
fn replace_errors() {
    let e = replace::visit_state(routes(), steps(&["0"]), s("a")).unwrap_err();
    assert_eq!(e.kind(), ErrorKind::NotImplementedError);
    let e = replace::visit_state(routes(), steps(&["routes", "running", "0"]), s("a")).unwrap_err();
    assert_eq!(e.kind(), ErrorKind::NotImplementedError);
    let e = replace::visit_state(routes(), steps(&["routes", "running", "0", "x"]), s("a")).unwrap_err();
    assert_eq!(e.kind(), ErrorKind::NotSupportedError);
    assert_eq!(e.message(), "failed applying operation on the path: ");
    let e = replace::visit_state(routes(), steps(&["routes", "0", "x"]), s("a")).unwrap_err();
    assert_eq!(e.kind(), ErrorKind::EvaluationError);
    let e = replace::visit_state(routes(), steps(&["routes", "running", "iface", "x"]), s("a"))
        .unwrap_err();
    assert_eq!(
        e.message(),
        "failed applying operation on the path: invalid path: invalid type String(\"eth1\") for identity step 'identity(x)'"
    );
    let e = replace::visit_state(routes(), Path::new(None, vec![]), s("a")).unwrap_err();
    assert_eq!(e.kind(), ErrorKind::NotImplementedError);
}

#[test]
fn walk_leads_to_a_value() {
    assert_eq!(
        walk::visit_state(routes(), steps(&["routes", "running", "1", "destination"])),
        Ok(s("1.1.1.0/24"))
    );
    assert_eq!(
        walk::visit_state(routes(), steps(&["routes", "running", "2"])),
        Ok(map(vec![("destination", s("2.2.2.0/24")), ("iface", s("eth2")), ("table-id", n("254"))]))
    );
    assert_eq!(walk::visit_state(routes(), Path::new(None, vec![])), Ok(Value::Object(routes())));
}

#[test]
fn walk_errors() {
    let e = walk::visit_state(routes(), steps(&["routes", "running", "3"])).unwrap_err();
    assert_eq!(e.kind(), ErrorKind::EvaluationError);
    assert!(e
        .message()
        .starts_with("failed walking path: invalid path: step not found at slice state '[{"));
    assert_eq!(e.position(), 15);
    let e = walk::visit_state(routes(), steps(&["routes", "nope"])).unwrap_err();
    assert!(e
        .message()
        .starts_with("failed walking path: invalid path: step not found at map state '{\"running\""));
    assert_eq!(e.position(), 7);
    let e = walk::visit_state(routes(), steps(&["routes", "running", "x"])).unwrap_err();
    assert!(e.message().starts_with(
        "failed walking path: invalid path: unexpected non numeric step for slice state '[{"
    ));
    let e = walk::visit_state(routes(), steps(&["routes", "1"])).unwrap_err();
    assert!(e.message().starts_with(
        "failed walking path: invalid path: unexpected non identity step for map state '{\"running\""
    ));
    let e = walk::visit_state(routes(), steps(&["routes", "1", "x"])).unwrap_err();
    assert!(e.message().starts_with(
        "failed walking path: invalid path: unexpected non identity step for map state '{\"running\""
    ));
    let e = walk::visit_state(routes(), steps(&["routes", "running", "0", "iface", "x"])).unwrap_err();
    assert_eq!(
        e.message(),
        "failed walking path: invalid path: invalid type String(\"eth1\") for identity step 'identity(x)'"
    );
}

fn contained(part: &Value, whole: &Value) -> bool {
    match (part, whole) {
        (Value::Array(xs), Value::Array(ys)) => {
            let mut from = 0;
            for x in xs {
                match (from..ys.len()).find(|j| contained(x, &ys[*j])) {
                    Some(j) => from = j + 1,
                    None => return false,
                }
            }
            true
        }
        (Value::Object(xs), Value::Object(ys)) => xs.entries.iter().all(|(k, v)| match ys.get(k) {
            Some(y) => contained(v, y),
            None => false,
        }),
        (a, b) => a == b,
    }
}

#[test]
fn projection_is_a_part_of_the_state() {
    let state = obj(vec![
        (
            "interfaces",
            Value::Array(vec![
                map(vec![("name", s("eth1")), ("ipv4", map(vec![("enabled", Value::Bool(true))]))]),
                map(vec![("name", s("eth2"))]),
                map(vec![("name", s("eth3")), ("ipv4", map(vec![("enabled", Value::Bool(false))]))]),
            ]),
        ),
        ("routes", map(vec![("running", Value::Array(vec![]))])),
    ]);
    for path in [
        vec!["interfaces"],
        vec!["interfaces", "name"],
        vec!["interfaces", "ipv4"],
        vec!["interfaces", "ipv4", "enabled"],
        vec!["routes", "running"],
        vec!["routes", "running", "x"],
        vec!["nothing", "at", "all"],
    ] {
        let projected = filter::visit_state(state.clone(), steps(&path), Value::Null).unwrap();
        assert!(
            projected.is_empty()
                || contained(&Value::Object(projected.clone()), &Value::Object(state.clone())),
            "{:?} gives {:?}",
            path,
            projected
        );
    }
    assert_eq!(
        filter::visit_state(state.clone(), steps(&["interfaces", "ipv4", "enabled"]), Value::Null),
        Ok(obj(vec![(
            "interfaces",
            Value::Array(vec![
                map(vec![("name", s("eth1")), ("ipv4", map(vec![("enabled", Value::Bool(true))]))]),
                map(vec![("name", s("eth3")), ("ipv4", map(vec![("enabled", Value::Bool(false))]))]),
            ]),
        )]))
    );
}

#[test]
fn names_stay_unique() {
    let mut state = NMState::new();
    for (k, v) in [("a", "1"), ("b", "2"), ("a", "3"), ("c", "4"), ("b", "5")] {
        state.insert(k.to_string(), n(v));
    }
    assert_eq!(state, obj(vec![("a", n("3")), ("b", n("5")), ("c", n("4"))]));
    let names: Vec<&String> = state.entries.iter().map(|(k, _)| k).collect();
    for (i, name) in names.iter().enumerate() {
        assert_eq!(state.find(name), Some(i));
        assert_eq!(names.iter().filter(|other| other == &name).count(), 1);
    }
}
