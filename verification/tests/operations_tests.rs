use nmpolicy::capture::{
    filter_cache_by_capture, parse, resolve_entries, resolve_entry_path, Capture, CaptureEntry,
};
use nmpolicy::error::ErrorKind;
use nmpolicy::ast::node::{current_state, eqfilter, identity, number, path};
use nmpolicy::operations::generate_state;
use nmpolicy::resolve::resolver::Resolver;
use nmpolicy::state::{NMState, Value};
use nmpolicy::types::{
    CapturedState, CapturedStates, GeneratedState, MetaInfo, PolicySpec, TimeStamp,
};

const CURRENT_STATE_YAML: &str = r#"
routes:
  running:
  - destination: 0.0.0.0/0
    next-hop-address: 192.168.100.1
    next-hop-interface: eth1
    table-id: 254
  - destination: 1.1.1.0/24
    next-hop-address: 192.168.100.1
    next-hop-interface: eth1
    table-id: 254
  - destination: 2.2.2.0/24
    next-hop-address: 192.168.200.1
    next-hop-interface: eth2
    table-id: 254
interfaces:
  - name: eth1
    type: ethernet
    state: up
    ipv4:
      address:
      - ip: 10.244.0.1
        prefix-length: 24
      dhcp: false
      enabled: true
  - name: eth2
    type: ethernet
    state: down
"#;

fn to_value(v: &serde_json::Value) -> Value {
    match v {
        serde_json::Value::Null => Value::Null,
        serde_json::Value::Bool(b) => Value::Bool(*b),
        serde_json::Value::Number(n) => Value::Number(n.to_string()),
        serde_json::Value::String(s) => Value::Str(s.clone()),
        serde_json::Value::Array(items) => Value::Array(items.iter().map(to_value).collect()),
        serde_json::Value::Object(map) => Value::Object(to_state(map)),
    }
}

fn to_state(map: &serde_json::Map<String, serde_json::Value>) -> NMState {
    NMState { entries: map.iter().map(|(k, v)| (k.clone(), to_value(v))).collect() }
}

fn state_from_yaml(yaml: &str) -> NMState {
    let value: serde_json::Value = serde_yaml::from_str(yaml).unwrap();
    match value {
        serde_json::Value::Object(map) => to_state(&map),
        serde_json::Value::Null => NMState::new(),
        other => panic!("not a map: {}", other),
    }
}

fn same_state(a: &NMState, b: &NMState) -> bool {
    Value::Object(a.clone()).same_as(&Value::Object(b.clone()))
}

fn capture_of(entries: &[(&str, &str)]) -> Capture {
    let mut capture = Capture::new();
    for (name, expression) in entries {
        capture.insert(name.to_string(), CaptureEntry::new(expression.to_string()));
    }
    capture
}

fn captured(name: &str, yaml: &str) -> (String, CapturedState) {
    (name.to_string(), CapturedState { state: state_from_yaml(yaml), meta_info: None })
}

const DEFAULT_GW_YAML: &str = r#"
routes:
  running:
  - destination: 0.0.0.0/0
    next-hop-address: 192.168.100.1
    next-hop-interface: eth1
    table-id: 254
"#;

#[test]
fn empty_policy_generates_nothing() {
    let generated = generate_state(PolicySpec::new(), state_from_yaml(CURRENT_STATE_YAML), None);
    assert_eq!(generated, Ok(GeneratedState::new()));
    let cache = CapturedStates { entries: vec![captured("default-gw", DEFAULT_GW_YAML)] };
    let generated = generate_state(PolicySpec::new(), NMState::new(), Some(cache));
    assert_eq!(generated, Ok(GeneratedState::new()));
    assert_eq!(PolicySpec::default(), PolicySpec::new());
    assert_eq!(GeneratedState::default(), GeneratedState::new());
}

#[test]
fn no_current_state_and_no_cache_captures_nothing() {
    let policy = PolicySpec {
        capture: capture_of(&[("gw", "routes.running.destination == '0.0.0.0/0'")]),
        desired_state: state_from_yaml("a: b\n"),
    };
    let generated = generate_state(policy, NMState::new(), None).unwrap();
    assert!(generated.cache.is_empty());
    assert_eq!(generated.desired_state, state_from_yaml("a: b\n"));
}

#[test]
fn filter_by_equality() {
    let policy = PolicySpec {
        capture: capture_of(&[("default-gw", "routes.running.destination == '0.0.0.0/0'")]),
        desired_state: NMState::new(),
    };
    let generated = generate_state(policy, state_from_yaml(CURRENT_STATE_YAML), None).unwrap();
    assert_eq!(generated.cache.len(), 1);
    let state = &generated.cache.get("default-gw").unwrap().state;
    assert!(same_state(state, &state_from_yaml(DEFAULT_GW_YAML)));
    assert!(generated.desired_state.is_empty());
}

#[test]
fn cross_capture_reference() {
    let policy = PolicySpec {
        capture: capture_of(&[
            ("default-gw", "routes.running.destination == '0.0.0.0/0'"),
            (
                "base-iface-routes",
                "routes.running.next-hop-interface == capture.default-gw.routes.running.0.next-hop-interface",
            ),
        ]),
        desired_state: NMState::new(),
    };
    let cache = CapturedStates { entries: vec![captured("default-gw", DEFAULT_GW_YAML)] };
    let generated =
        generate_state(policy, state_from_yaml(CURRENT_STATE_YAML), Some(cache)).unwrap();
    let expected = state_from_yaml(
        r#"
routes:
  running:
  - destination: 0.0.0.0/0
    next-hop-address: 192.168.100.1
    next-hop-interface: eth1
    table-id: 254
  - destination: 1.1.1.0/24
    next-hop-address: 192.168.100.1
    next-hop-interface: eth1
    table-id: 254
"#,
    );
    assert_eq!(generated.cache.len(), 2);
    assert!(same_state(&generated.cache.get("base-iface-routes").unwrap().state, &expected));
    assert!(same_state(
        &generated.cache.get("default-gw").unwrap().state,
        &state_from_yaml(DEFAULT_GW_YAML)
    ));
}

#[test]
fn order_of_the_entries_does_not_change_the_states() {
    let a = ("default-gw", "routes.running.destination == '0.0.0.0/0'");
    let b = (
        "base-iface-routes",
        "routes.running.next-hop-interface == capture.default-gw.routes.running.0.next-hop-interface",
    );
    let first =
        resolve_entries(capture_of(&[a, b]), state_from_yaml(CURRENT_STATE_YAML), None).unwrap();
    let second =
        resolve_entries(capture_of(&[b, a]), state_from_yaml(CURRENT_STATE_YAML), None).unwrap();
    assert_eq!(first.len(), 2);
    assert_eq!(second.len(), 2);
    for name in ["default-gw", "base-iface-routes"] {
        assert!(same_state(&first.get(name).unwrap().state, &second.get(name).unwrap().state));
    }
}

#[test]
fn pipe_and_replace() {
    let policy = PolicySpec {
        capture: capture_of(&[
            ("default-gw", "routes.running.destination == '0.0.0.0/0'"),
            ("bridge-routes", "capture.default-gw | routes.running.next-hop-interface := 'br1'"),
        ]),
        desired_state: state_from_yaml("routes:\n  config: \"{{ capture.bridge-routes.routes.running }}\"\n"),
    };
    let cache = CapturedStates { entries: vec![captured("default-gw", DEFAULT_GW_YAML)] };
    let generated =
        generate_state(policy, state_from_yaml(CURRENT_STATE_YAML), Some(cache)).unwrap();
    let expected = state_from_yaml(
        r#"
routes:
  running:
  - destination: 0.0.0.0/0
    next-hop-address: 192.168.100.1
    next-hop-interface: br1
    table-id: 254
"#,
    );
    assert!(same_state(&generated.cache.get("bridge-routes").unwrap().state, &expected));
    let desired = state_from_yaml(
        r#"
routes:
  config:
  - destination: 0.0.0.0/0
    next-hop-address: 192.168.100.1
    next-hop-interface: br1
    table-id: 254
"#,
    );
    assert!(same_state(&generated.desired_state, &desired));
}

#[test]
fn expander_with_multiple_placeholders() {
    let policy = PolicySpec {
        capture: capture_of(&[
            ("base-iface", "interfaces.name == 'eth1'"),
            ("bridge-routes-takeover", "routes.running.next-hop-interface := 'br1'"),
        ]),
        desired_state: state_from_yaml(
            r#"
interfaces:
- name: br1
  ipv4: "{{ capture.base-iface.interfaces.0.ipv4 }}"
  bridge:
    options:
      stp:
        enabled: false
    port:
    - name: "{{ capture.base-iface.interfaces.0.name }}"
routes:
  config: "{{ capture.bridge-routes-takeover.routes.running }}"
"#,
        ),
    };
    let generated = generate_state(policy, state_from_yaml(CURRENT_STATE_YAML), None).unwrap();
    let desired = state_from_yaml(
        r#"
interfaces:
- name: br1
  ipv4:
    address:
    - ip: 10.244.0.1
      prefix-length: 24
    dhcp: false
    enabled: true
  bridge:
    options:
      stp:
        enabled: false
    port:
    - name: eth1
routes:
  config:
  - destination: 0.0.0.0/0
    next-hop-address: 192.168.100.1
    next-hop-interface: br1
    table-id: 254
  - destination: 1.1.1.0/24
    next-hop-address: 192.168.100.1
    next-hop-interface: br1
    table-id: 254
  - destination: 2.2.2.0/24
    next-hop-address: 192.168.200.1
    next-hop-interface: br1
    table-id: 254
"#,
    );
    assert!(same_state(&generated.desired_state, &desired));
}

#[test]
fn undefined_reference_error() {
    let policy = PolicySpec {
        capture: capture_of(&[(
            "x",
            "routes.running.next-hop-interface == capture.default-gw.routes",
        )]),
        desired_state: NMState::new(),
    };
    let e = generate_state(policy, state_from_yaml(CURRENT_STATE_YAML), None).unwrap_err();
    assert_eq!(e.kind(), ErrorKind::EvaluationError);
    assert_eq!(
        e.to_string(),
        r#"resolve error: eqfilter error: capture entry 'default-gw' not found
| routes.running.next-hop-interface == capture.default-gw.routes
| .....................................^"#
    );
}

#[test]
fn cache_of_other_names_is_left_out() {
    let policy = PolicySpec {
        capture: capture_of(&[(
            "x",
            "routes.running.next-hop-interface == capture.default-gw.routes.running.0.next-hop-interface",
        )]),
        desired_state: NMState::new(),
    };
    let cache = CapturedStates { entries: vec![captured("default-gw", DEFAULT_GW_YAML)] };
    let e = generate_state(policy, state_from_yaml(CURRENT_STATE_YAML), Some(cache)).unwrap_err();
    assert_eq!(e.message(), "resolve error: eqfilter error: capture entry 'default-gw' not found");
    let kept = filter_cache_by_capture(
        Some(CapturedStates {
            entries: vec![
                captured("a", "x: 1\n"),
                captured("b", "x: 2\n"),
                captured("c", "x: 3\n"),
            ],
        }),
        &capture_of(&[("c", "x"), ("a", "x")]),
    )
    .unwrap();
    assert_eq!(
        kept,
        CapturedStates { entries: vec![captured("a", "x: 1\n"), captured("c", "x: 3\n")] }
    );
    assert_eq!(filter_cache_by_capture(None, &capture_of(&[("c", "x")])), None);
}

#[test]
fn captured_state_from_cache_is_taken_as_it_is() {
    let meta = MetaInfo {
        version: Some("7".to_string()),
        time_stamp: Some(TimeStamp { seconds: 1_600_000_000, nanoseconds: 5 }),
    };
    let given = CapturedState { state: state_from_yaml("anything: 1\n"), meta_info: Some(meta) };
    let cache = CapturedStates { entries: vec![("gw".to_string(), given.clone())] };
    let policy = PolicySpec {
        capture: capture_of(&[("gw", "routes.running.destination == '0.0.0.0/0'")]),
        desired_state: state_from_yaml("v: \"{{ capture.gw.anything }}\"\n"),
    };
    let generated =
        generate_state(policy, state_from_yaml(CURRENT_STATE_YAML), Some(cache)).unwrap();
    assert_eq!(generated.cache, CapturedStates { entries: vec![("gw".to_string(), given)] });
    assert_eq!(generated.desired_state, state_from_yaml("v: 1\n"));
}

#[test]
fn capture_cycle_is_an_error() {
    let capture = capture_of(&[
        ("a", "routes.running.table-id == capture.b.x"),
        ("b", "routes.running.table-id == capture.a.x"),
    ]);
    let e = resolve_entries(capture, state_from_yaml(CURRENT_STATE_YAML), None).unwrap_err();
    assert_eq!(e.kind(), ErrorKind::EvaluationError);
    assert_eq!(
        e.to_string(),
        "resolve error: eqfilter error: capture entry 'a' refers to itself\n| routes.running.table-id == capture.a.x\n| ...........................^"
    );
    let capture = capture_of(&[("self", "capture.self | a := 'b'")]);
    let e = resolve_entries(capture, state_from_yaml(CURRENT_STATE_YAML), None).unwrap_err();
    assert_eq!(
        e.to_string(),
        "resolve error: replace error: capture entry 'self' refers to itself\n| capture.self | a := 'b'\n| ^"
    );
}

#[test]
fn error_in_a_referenced_entry_shows_that_entry() {
    let capture = capture_of(&[
        ("a", "routes.running.table-id == capture.b.x"),
        ("b", "interfaces.name == capture.missing.x"),
    ]);
    let e = resolve_entries(capture, state_from_yaml(CURRENT_STATE_YAML), None).unwrap_err();
    assert_eq!(
        e.to_string(),
        "resolve error: eqfilter error: capture entry 'missing' not found\n| interfaces.name == capture.missing.x\n| ...................^"
    );
}

#[test]
fn error_after_a_reference_shows_the_own_expression() {
    let capture = capture_of(&[
        ("a", "routes.running.table-id == capture.b.interfaces.7"),
        ("b", "interfaces.name == 'eth1'"),
    ]);
    let e = resolve_entries(capture, state_from_yaml(CURRENT_STATE_YAML), None).unwrap_err();
    assert!(e.message().starts_with(
        "resolve error: eqfilter error: failed walking path: invalid path: step not found at slice state '[{"
    ));
    assert_eq!(e.source(), Some("routes.running.table-id == capture.b.interfaces.7".to_string()));
    assert_eq!(e.position(), 48);
}

#[test]
fn unsupported_roots_and_values() {
    let e = resolve_entries(capture_of(&[("a", "'text'")]), state_from_yaml(CURRENT_STATE_YAML), None)
        .unwrap_err();
    assert_eq!(
        e.to_string(),
        "resolve error: root node has unsupported operation: String=text\n| 'text'\n| ^"
    );
    let e = resolve_entries(capture_of(&[("a", "")]), state_from_yaml(CURRENT_STATE_YAML), None)
        .unwrap_err();
    assert_eq!(e.kind(), ErrorKind::Bug);
    let e = resolve_entries(capture_of(&[("a", "a.b ==")]), state_from_yaml(CURRENT_STATE_YAML), None)
        .unwrap_err();
    assert_eq!(e.kind(), ErrorKind::ValidationError);
    assert_eq!(
        e.to_string(),
        "invalid equality filter: missing right hand argument\n| a.b ==\n| ....^"
    );
}

#[test]
fn path_that_misses_captures_the_empty_state() {
    let captured = resolve_entries(
        capture_of(&[("a", "nothing.here"), ("b", "routes.nothing")]),
        state_from_yaml(CURRENT_STATE_YAML),
        None,
    )
    .unwrap();
    assert_eq!(captured.len(), 2);
    assert!(captured.get("a").unwrap().state.is_empty());
    assert!(captured.get("b").unwrap().state.is_empty());
    assert_eq!(captured.get("a").unwrap().meta_info, None);
}

#[test]
fn type_mismatch_points_at_the_step() {
    let e = resolve_entries(
        capture_of(&[("a", "interfaces.ipv4.address=='10.244.0.1'")]),
        state_from_yaml(CURRENT_STATE_YAML),
        None,
    )
    .unwrap_err();
    assert_eq!(e.kind(), ErrorKind::EvaluationError);
    assert_eq!(
        e.to_string(),
        r#"resolve error: eqfilter error: failed applying operation on the path: invalid path: type mismatch: [{"ip":"10.244.0.1","prefix-length":24}] != "10.244.0.1"
| interfaces.ipv4.address=='10.244.0.1'
| ................^"#
    );
}

#[test]
fn parse_gives_the_capture_entry() {
    let entry = parse("a.b".to_string()).unwrap();
    assert_eq!(entry.expression, "a.b");
    assert_eq!(entry.ast.to_string(), "Path=[Identity=a Identity=b]");
    assert_eq!(entry.clone(), entry);
    assert_eq!(parse("  ".to_string()).unwrap_err().kind(), ErrorKind::Bug);
    assert_eq!(parse("a.".to_string()).unwrap_err().kind(), ErrorKind::ValidationError);
    assert_eq!(CaptureEntry::new("x".to_string()).ast.to_string(), "Identity=nil");
}

#[test]
fn entry_path_in_captured_states() {
    let states = CapturedStates { entries: vec![captured("gw", DEFAULT_GW_YAML)] };
    assert_eq!(
        resolve_entry_path("capture.gw.routes.running.0.table-id".to_string(), states.clone()),
        Ok(Value::Number("254".to_string()))
    );
    assert_eq!(
        resolve_entry_path("capture.gw".to_string(), states.clone()),
        Ok(Value::Object(state_from_yaml(DEFAULT_GW_YAML)))
    );
    let e = resolve_entry_path("capture.gw.routes.running.4".to_string(), states).unwrap_err();
    assert_eq!(e.position(), 26);
    assert_eq!(e.source(), Some("capture.gw.routes.running.4".to_string()));
}

#[test]
fn capture_entries_by_name() {
    let mut capture = Capture::new();
    assert!(capture.is_empty());
    capture.insert("a".to_string(), CaptureEntry::new("x".to_string()));
    capture.insert("b".to_string(), CaptureEntry::new("y".to_string()));
    capture.insert("a".to_string(), CaptureEntry::new("z".to_string()));
    assert_eq!(capture.len(), 2);
    assert_eq!(capture.find("b"), Some(1));
    assert_eq!(capture.get("a").unwrap().expression, "z");
    assert!(capture.get("c").is_none());
    assert_eq!(capture.clone(), capture);
    assert_eq!(Capture::default(), Capture::new());
    let mut states = CapturedStates::new();
    states.insert("a".to_string(), CapturedState { state: NMState::new(), meta_info: None });
    states.insert("a".to_string(), CapturedState { state: state_from_yaml("x: 1\n"), meta_info: None });
    assert_eq!(states.len(), 1);
    assert_eq!(states.find("a"), Some(0));
    assert_eq!(states.get("a").unwrap().state, state_from_yaml("x: 1\n"));
    assert_eq!(states.clone(), states);
    assert_eq!(CapturedStates::default(), CapturedStates::new());
}

#[test]
fn input_source_that_is_no_reference() {
    let e = resolve_entries(
        capture_of(&[("a", "capture | routes.running.table-id == 'x'")]),
        state_from_yaml(CURRENT_STATE_YAML),
        None,
    )
    .unwrap_err();
    assert_eq!(e.kind(), ErrorKind::EvaluationError);
    assert_eq!(
        e.to_string(),
        "resolve error: eqfilter error: invalid input source (Path=[Identity=capture]), only current state or capture reference is supported\n| capture | routes.running.table-id == 'x'\n| ^"
    );
}

#[test]
fn value_that_is_neither_string_nor_path() {
    let ast = eqfilter(
        7,
        current_state(0),
        path(0, vec![*identity(0, "routes".to_string())]),
        number(10, 5),
    );
    let mut capture = Capture::new();
    capture.insert("a".to_string(), CaptureEntry { expression: "routes == 5".to_string(), ast });
    let mut resolver = Resolver::new(capture);
    let e = resolver.resolve(state_from_yaml(CURRENT_STATE_YAML), None).unwrap_err();
    assert_eq!(e.kind(), ErrorKind::EvaluationError);
    assert_eq!(
        e.to_string(),
        "resolve error: eqfilter error: not supported value. Only string or capture entry path are supported\n| routes == 5\n| ..........^"
    );
}

#[test]
fn resolver_keeps_what_it_captured() {
    let mut capture = Capture::new();
    for (name, expression) in [("gw", "routes.running.destination == '0.0.0.0/0'"), ("all", "routes")] {
        capture.insert(name.to_string(), parse(expression.to_string()).unwrap());
    }
    let mut resolver = Resolver::new(capture);
    let states = resolver.resolve(state_from_yaml(CURRENT_STATE_YAML), None).unwrap();
    assert_eq!(states, resolver.captured_states);
    assert_eq!(states.len(), 2);
    assert!(resolver.visiting.is_empty());
    let again = resolver.resolve_capture_entry_by_name(&"gw".to_string()).unwrap();
    assert!(same_state(&again, &state_from_yaml(DEFAULT_GW_YAML)));
    let e = resolver.resolve_capture_entry_by_name(&"other".to_string()).unwrap_err();
    assert_eq!(e.to_string(), "capture entry 'other' not found");
    // A second run with no captured states given starts from what is kept.
    let second = resolver.resolve(NMState::new(), None).unwrap();
    assert_eq!(second, states);
}

#[test]
fn path_alone_with_a_reference_has_no_steps_to_filter_by() {
    let e = resolve_entries(
        capture_of(&[("a", "capture.b")]),
        state_from_yaml(CURRENT_STATE_YAML),
        None,
    )
    .unwrap_err();
    assert_eq!(e.kind(), ErrorKind::NotImplementedError);
    assert_eq!(e.to_string(), "resolve error: \n| capture.b\n| ^");
}

#[test]
fn errors_point_inside_their_expression() {
    for expression in [
        "routes.running.table-id == 'x'",
        "routes.running.table-id == capture.nothing.a",
        "interfaces.ipv4.address.ip.x == 'a'",
        "capture.a | x := 'y'",
        "a.b.c := capture",
        "routes.0.x == 'a'",
        "'text'",
        "a ; b",
        "a == ",
    ] {
        match resolve_entries(
            capture_of(&[("a", expression)]),
            state_from_yaml(CURRENT_STATE_YAML),
            None,
        ) {
            Ok(_) => {}
            Err(e) => match e.source() {
                Some(source) => assert!(e.position() < source.len(), "{}", expression),
                None => assert_eq!(e.position(), 0, "{}", expression),
            },
        }
    }
}
