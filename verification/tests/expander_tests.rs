use std::collections::HashMap;

use nmpolicy::capture::CaptureEntryResolver;
use nmpolicy::error::ErrorKind;
use nmpolicy::expand::expander::{placeholder, CapturePathResolver, StateExpander};
use nmpolicy::state::{NMState, Value};
use nmpolicy::types::{CapturedState, CapturedStates};
use nmpolicy::NmpolicyError;

fn to_value(v: &serde_json::Value) -> Value {
    match v {
        serde_json::Value::Null => Value::Null,
        serde_json::Value::Bool(b) => Value::Bool(*b),
        serde_json::Value::Number(n) => Value::Number(n.to_string()),
        serde_json::Value::String(s) => Value::Str(s.clone()),
        serde_json::Value::Array(items) => Value::Array(items.iter().map(to_value).collect()),
        serde_json::Value::Object(map) => Value::Object(to_state(map)),
    }
}

fn to_state(map: &serde_json::Map<String, serde_json::Value>) -> NMState {
    NMState { entries: map.iter().map(|(k, v)| (k.clone(), to_value(v))).collect() }
}

fn value_from_yaml(yaml: &str) -> Value {
    let value: serde_json::Value = serde_yaml::from_str(yaml).unwrap();
    to_value(&value)
}

fn state_from_yaml(yaml: &str) -> NMState {
    match value_from_yaml(yaml) {
        Value::Object(state) => state,
        other => panic!("not a map: {:?}", other),
    }
}

struct CapturePathResolverStub {
    captured_states: HashMap<&'static str, Value>,
    force_failure: bool,
}

impl CapturePathResolver for CapturePathResolverStub {
    fn resolve_capture_entry_path(&self, capture_path: String) -> Result<Value, NmpolicyError> {
        if self.force_failure {
            return Err(NmpolicyError::from("unit test forced resolver error".to_string()));
        }
        match self.captured_states.get(capture_path.as_str()) {
            Some(captured) => Ok(captured.clone()),
            None => Err(NmpolicyError::from("not found".to_string())),
        }
    }
}

#[test]
fn captures_with_map_values() {
    let desired_state: NMState = state_from_yaml(
        r#"
interfaces:
- name: br1
  description: Linux bridge with base interface as a port
  type: linux-bridge
  state: up
  ipv4: "{{ capture.base-iface.interfaces.0.ipv4 }}"
  bridge:
    options:
      stp:
        enabled: false
    port:
    - name: "{{ capture.base-iface.interfaces.0.name }}"
routes:
  config: "{{ capture.bridge-routes-takeover.running }}"
"#,
    );

    let expected_expanded_desired_state: NMState = state_from_yaml(
        r#"
interfaces:
- bridge:
    options:
      stp:
        enabled: false
    port:
    - name: eth1
  description: Linux bridge with base interface as a port
  ipv4: 1.2.3.4
  name: br1
  state: up
  type: linux-bridge
routes:
  config:
  - destination: 0.0.0.0/0
    next-hop-address: 192.168.100.1
    next-hop-interface: eth1
    table-id: 254
  - destination: 1.1.1.0/24
    next-hop-address: 192.168.100.1
    next-hop-interface: eth1
    table-id: 254
"#,
    );

    let routes: Value = value_from_yaml(
        r#"
  - destination: 0.0.0.0/0
    next-hop-address: 192.168.100.1
    next-hop-interface: eth1
    table-id: 254
  - destination: 1.1.1.0/24
    next-hop-address: 192.168.100.1
    next-hop-interface: eth1
    table-id: 254
"#,
    );

    let captured_states = HashMap::<&str, Value>::from([
        ("capture.base-iface.interfaces.0.ipv4", Value::Str("1.2.3.4".to_string())),
        ("capture.base-iface.interfaces.0.name", Value::Str("eth1".to_string())),
        ("capture.bridge-routes-takeover.running", routes),
    ]);

    let capture_path_resolver = CapturePathResolverStub { captured_states, force_failure: false };

    let expander = StateExpander::new(capture_path_resolver);
    match expander.expand(desired_state) {
        Ok(obtained_expanded_desired_state) => {
            assert_eq!(expected_expanded_desired_state, obtained_expanded_desired_state)
        }
        Err(e) => panic!("{}", e.to_string()),
    }
}

#[test]
fn capture_is_top_level() {
    let desired_state: NMState = state_from_yaml(
        r#"
interfaces: "{{ capture.base-iface }}"
"#,
    );

    let interfaces: Value = value_from_yaml(
        r#"
- name: eth1
  type: ethernet
  state: up
  ipv4:
    address:
    - ip: 10.244.0.1
      prefix-length: 24
    - ip: 169.254.1.0
      prefix-length: 16
    dhcp: false
    enabled: true
"#,
    );

    let mut expected_expanded_desired_state = NMState::new();
    expected_expanded_desired_state.insert("interfaces".to_string(), interfaces.clone());

    let captured_states = HashMap::<&str, Value>::from([("capture.base-iface", interfaces)]);

    let capture_path_resolver = CapturePathResolverStub { captured_states, force_failure: false };

    let expander = StateExpander::new(capture_path_resolver);
    match expander.expand(desired_state) {
        Ok(obtained_expanded_desired_state) => {
            assert_eq!(expected_expanded_desired_state, obtained_expanded_desired_state)
        }
        Err(e) => panic!("{}", e.to_string()),
    }
}

#[test]
fn resolve_capture_fails() {
    let desired_state: NMState = state_from_yaml(
        r#"
interfaces: "{{ capture.enabled-iface }}"
"#,
    );

    let capture_path_resolver =
        CapturePathResolverStub { captured_states: HashMap::<&str, Value>::new(), force_failure: true };

    let expander = StateExpander::new(capture_path_resolver);

    let expand_result = expander.expand(desired_state);
    assert_eq!(true, expand_result.is_err());
}

#[test]
fn placeholder_needs_the_exact_form() {
    assert_eq!(placeholder("{{ a.b }}"), Some("a.b".to_string()));
    assert_eq!(placeholder("{{  }}"), Some("".to_string()));
    assert_eq!(placeholder("{{   }}"), Some(" ".to_string()));
    assert_eq!(placeholder("{{ a }} }}"), Some("a }}".to_string()));
    assert_eq!(placeholder("{{ {{ a }}"), Some("{{ a".to_string()));
    assert_eq!(placeholder("{{ é }}"), Some("é".to_string()));
    assert_eq!(placeholder("{{ a\rb }}"), Some("a\rb".to_string()));
    assert_eq!(placeholder("{{ }}"), None);
    assert_eq!(placeholder("{{a}}"), None);
    assert_eq!(placeholder("{{ a}}"), None);
    assert_eq!(placeholder("{{a }}"), None);
    assert_eq!(placeholder(" {{ a }}"), None);
    assert_eq!(placeholder("{{ a }} "), None);
    assert_eq!(placeholder("x {{ a }} y"), None);
    assert_eq!(placeholder("{{ a\nb }}"), None);
    assert_eq!(placeholder("{{ a }}\n"), None);
    assert_eq!(placeholder(""), None);
    assert_eq!(placeholder("{{ a.b }}"), Some("a.b".to_string()));
}

#[test]
fn other_strings_stay() {
    let stub = CapturePathResolverStub { captured_states: HashMap::new(), force_failure: true };
    let expander = StateExpander::new(stub);
    for text in ["", "plain", "a {{ b }} c", "{{b}}", "{{ b }} ", "}} b {{"] {
        assert_eq!(expander.expand_string(text.to_string()), Ok(Value::Str(text.to_string())));
    }
    let state = state_from_yaml("a: 1\nb: true\nc: null\nd: [1, 'x {{ y }}', {e: 2.5}]\n");
    assert_eq!(expander.expand(state.clone()), Ok(state));
}

fn captured_states() -> CapturedStates {
    let mut captured = CapturedStates::new();
    captured.insert(
        "base-iface".to_string(),
        CapturedState {
            state: state_from_yaml("interfaces:\n- name: eth1\n  ipv4: 1.2.3.4\n"),
            meta_info: None,
        },
    );
    captured
}

#[test]
fn expands_from_captured_states() {
    let expander = StateExpander::new(CaptureEntryResolver::new(captured_states()));
    let desired = state_from_yaml(
        "name: \"{{ capture.base-iface.interfaces.0.name }}\"\nall: \"{{ capture.base-iface }}\"\nkeep: 7\n",
    );
    let expected = state_from_yaml(
        "name: eth1\nall:\n  interfaces:\n  - name: eth1\n    ipv4: 1.2.3.4\nkeep: 7\n",
    );
    assert_eq!(expander.expand(desired), Ok(expected));
}

#[test]
fn expanding_twice_changes_nothing() {
    let expander = StateExpander::new(CaptureEntryResolver::new(captured_states()));
    let desired = state_from_yaml("list:\n- \"{{ capture.base-iface.interfaces.0.ipv4 }}\"\n- x\n");
    let once = expander.expand(desired).unwrap();
    assert_eq!(once, state_from_yaml("list:\n- 1.2.3.4\n- x\n"));
    assert_eq!(expander.expand(once.clone()), Ok(once));
}

#[test]
fn placeholder_errors_point_into_the_path() {
    let expander = StateExpander::new(CaptureEntryResolver::new(captured_states()));
    let e = expander.expand(state_from_yaml("a: \"{{ capture.missing.x }}\"\n")).unwrap_err();
    assert_eq!(e.kind(), ErrorKind::EvaluationError);
    assert_eq!(e.to_string(), "capture entry 'missing' not found\n| capture.missing.x\n| ^");
    let e = expander.expand(state_from_yaml("a: \"{{ capture.base-iface.nope }}\"\n")).unwrap_err();
    assert_eq!(
        e.to_string(),
        "failed walking path: invalid path: step not found at map state '{\"interfaces\":[{\"ipv4\":\"1.2.3.4\",\"name\":\"eth1\"}]}'\n| capture.base-iface.nope\n| ...................^"
    );
    let e = expander.expand(state_from_yaml("a: \"{{ interfaces.0 }}\"\n")).unwrap_err();
    assert_eq!(
        e.to_string(),
        "not supported filtered value path. Only paths with a capture entry reference are supported\n| interfaces.0\n| ^"
    );
    let e = expander.expand(state_from_yaml("a: \"{{  }}\"\n")).unwrap_err();
    assert_eq!(e.kind(), ErrorKind::Bug);
    let e = expander.expand(state_from_yaml("a: \"{{ a..b }}\"\n")).unwrap_err();
    assert_eq!(e.kind(), ErrorKind::ValidationError);
    assert_eq!(
        e.to_string(),
        "invalid path: missing identity or number after dot\n| a..b\n| ..^"
    );
    let e = expander.expand(state_from_yaml("a: \"{{ 'text' }}\"\n")).unwrap_err();
    assert_eq!(e.kind(), ErrorKind::NotImplementedError);
}
