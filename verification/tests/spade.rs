use ipmes_rust::pattern::parser::PatternParser;
use ipmes_rust::pattern::spade::SpadePatternParser;
use serde_json::Value;

fn json(text: &str) -> Value {
    serde_json::from_str(text).expect("the test writes JSON")
}

#[test]
fn spade_test_node_signature() {
    assert_eq!(
        SpadePatternParser::node_signature(&json(
            r#"{"properties": {"type": "Process", "name": ".*"}}"#
        )),
        Some(String::from("Process::.*"))
    );

    assert_eq!(
        SpadePatternParser::node_signature(&json(
            r#"{"properties": {"type": "Artifact", "subtype": "file", "path": "./hello.sh"}}"#
        )),
        Some(String::from("Artifact::file::./hello.sh"))
    );

    assert_eq!(
        SpadePatternParser::node_signature(&json(
            r#"{"properties": {"type": "Artifact", "subtype": "directory", "path": "/tmp"}}"#
        )),
        Some(String::from("Artifact::directory::/tmp"))
    );

    assert_eq!(
        SpadePatternParser::node_signature(&json(
            r#"{"properties": {
                "type": "Artifact",
                "subtype": "network socket",
                "remote address": "localhost",
                "remote port": "8080"
            }}"#
        )),
        Some(String::from("Artifact::network socket::localhost:8080"))
    );
}

#[test]
fn spade_test_edge_signature() {
    let obj = json(r#"{"properties": {"operation": "open"}}"#);
    assert_eq!(SpadePatternParser::edge_signature(&obj), Some(String::from("open")));
}

#[test]
fn spade_node_without_what_its_type_asks_for() {
    assert_eq!(SpadePatternParser::node_signature(&json(r#"{}"#)), None);
    assert_eq!(SpadePatternParser::node_signature(&json(r#"{"properties": {"type": "Pipe"}}"#)), None);
    assert_eq!(SpadePatternParser::node_signature(&json(r#"{"properties": {"type": "Process"}}"#)), None);
    assert_eq!(
        SpadePatternParser::node_signature(&json(
            r#"{"properties": {"type": "Artifact", "subtype": "pipe", "path": "/tmp"}}"#
        )),
        None
    );
    assert_eq!(
        SpadePatternParser::node_signature(&json(
            r#"{"properties": {"type": "Artifact", "subtype": "network socket", "remote address": "a", "remote port": 80}}"#
        )),
        None
    );
    assert_eq!(SpadePatternParser::edge_signature(&json(r#"{"properties": {"operation": 1}}"#)), None);
}
