use ipmes_rust::pattern::darpa::DarpaPatternParser;
use ipmes_rust::pattern::parser::PatternParser;
use serde_json::Value;

fn json(text: &str) -> Value {
    serde_json::from_str(text).expect("the test writes JSON")
}

#[test]
fn darpa_test_node_signature() {
    assert_eq!(
        DarpaPatternParser::node_signature(&json(
            r#"{"properties": {"type": "SUBJECT_PROCESS", "Subject_properties_map_name": ".*"}}"#
        )),
        Some(String::from("SUBJECT_PROCESS::.*"))
    );

    assert_eq!(
        DarpaPatternParser::node_signature(&json(
            r#"{"properties": {"type": "SUBJECT_UNIT", "Subject_properties_map_name": ".*"}}"#
        )),
        Some(String::from("SUBJECT_UNIT::.*"))
    );

    assert_eq!(
        DarpaPatternParser::node_signature(&json(
            r#"{"properties": {"type": "FILE_OBJECT_CHAR", "path": "/dev/tty0"}}"#
        )),
        Some(String::from("FILE_OBJECT_CHAR::/dev/tty0"))
    );

    assert_eq!(
        DarpaPatternParser::node_signature(&json(
            r#"{"properties": {"type": "FILE_OBJECT_FILE", "path": "./hello.sh"}}"#
        )),
        Some(String::from("FILE_OBJECT_FILE::./hello.sh"))
    );

    assert_eq!(
        DarpaPatternParser::node_signature(&json(
            r#"{"properties": {"type": "FILE_OBJECT_DIR", "path": "/tmp"}}"#
        )),
        Some(String::from("FILE_OBJECT_DIR::/tmp"))
    );

    assert_eq!(
        DarpaPatternParser::node_signature(&json(r#"{"properties": {"type": "Foo"}}"#)),
        Some(String::from("Foo::"))
    );

    assert_eq!(
        DarpaPatternParser::node_signature(&json(r#"{"properties": {}}"#)),
        Some(String::from("OTHER::"))
    );
}

#[test]
fn test_node_signature_socket() {
    assert_eq!(
        DarpaPatternParser::node_signature(&json(
            r#"{"properties": {
                "NetFlowObject_baseObject_epoch": 10,
                "NetFlowObject_remoteAddress": "localhost",
                "NetFlowObject_remotePort": "8080"
            }}"#
        )),
        Some(String::from("OBJECT_SOCKET::localhost:8080"))
    );

    // port's type in some pattern is integer
    assert_eq!(
        DarpaPatternParser::node_signature(&json(
            r#"{"properties": {
                "NetFlowObject_baseObject_epoch": 10,
                "NetFlowObject_remoteAddress": "localhost",
                "NetFlowObject_remotePort": 8080
            }}"#
        )),
        Some(String::from("OBJECT_SOCKET::localhost:8080"))
    );
}

#[test]
fn darpa_test_edge_signature() {
    let obj = json(r#"{"properties": {"type": "open"}}"#);
    assert_eq!(DarpaPatternParser::edge_signature(&obj), Some(String::from("open")));
}

#[test]
fn darpa_node_without_what_its_type_asks_for() {
    assert_eq!(DarpaPatternParser::node_signature(&json(r#"{"properties": []}"#)), None);
    assert_eq!(DarpaPatternParser::node_signature(&json(r#"{}"#)), None);
    assert_eq!(DarpaPatternParser::node_signature(&json(r#"{"properties": {"type": 7}}"#)), None);
    assert_eq!(
        DarpaPatternParser::node_signature(&json(r#"{"properties": {"type": "SUBJECT_PROCESS"}}"#)),
        None
    );
    assert_eq!(
        DarpaPatternParser::node_signature(&json(
            r#"{"properties": {"type": "FILE_OBJECT_FILE", "path": 3}}"#
        )),
        None
    );
    assert_eq!(
        DarpaPatternParser::node_signature(&json(
            r#"{"properties": {"type": "OBJECT_SOCKET", "NetFlowObject_remoteAddress": "host"}}"#
        )),
        None
    );
    assert_eq!(
        DarpaPatternParser::node_signature(&json(
            r#"{"properties": {"UnnamedPipeObject_baseObject_epoch": 1}}"#
        )),
        Some(String::from("OBJECT_UNNAMEPIPE::"))
    );
    assert_eq!(DarpaPatternParser::edge_signature(&json(r#"{"properties": {}}"#)), None);
}
