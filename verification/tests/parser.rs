use ipmes_rust::pattern::parser::{
    parse, parse_edge_file, parse_node_file, parse_u64, PatternParser, PatternParsingError,
};
use ipmes_rust::pattern::spade::SpadePatternParser;
use serde_json::Value;

fn json(text: &str) -> Value {
    serde_json::from_str(text).expect("the test writes JSON")
}

fn lines(texts: &[&str]) -> Vec<String> {
    texts.iter().map(|text| text.to_string()).collect()
}

fn node_lines() -> Vec<String> {
    lines(&[
        r#"{"node": {"id": "7", "properties": {"type": "Process", "name": "sh"}}}"#,
        r#"{"node": {"id": "12", "properties": {"type": "Artifact", "subtype": "file", "path": "/etc/passwd"}}}"#,
    ])
}

fn edge_lines() -> Vec<String> {
    lines(&[
        r#"{"edge": {"start": {"id": "7"}, "end": {"id": "12"}, "properties": {"operation": "open"}}}"#,
        r#"{"edge": {"start": {"id": "7"}, "end": {"id": "12"}, "properties": {"operation": "read"}}}"#,
    ])
}

#[test]
fn ids_are_texts_of_digits() {
    assert_eq!(parse_u64(&json(r#""42""#)), Ok(42));
    assert_eq!(parse_u64(&json(r#""+42""#)), Ok(42));
    assert_eq!(parse_u64(&json(r#""007""#)), Ok(7));
    assert_eq!(parse_u64(&json(r#""18446744073709551615""#)), Ok(u64::MAX));
    assert_eq!(parse_u64(&json(r#""18446744073709551616""#)), Err("ID is not u64"));
    assert_eq!(parse_u64(&json(r#""4 2""#)), Err("ID is not u64"));
    assert_eq!(parse_u64(&json(r#""-1""#)), Err("ID is not u64"));
    assert_eq!(parse_u64(&json(r#""""#)), Err("ID is not u64"));
    assert_eq!(parse_u64(&json(r#""+""#)), Err("ID is not u64"));
    assert_eq!(parse_u64(&json("42")), Err("ID of node should be a string"));
    assert_eq!(parse_u64(&json("null")), Err("ID of node should be a string"));
}

#[test]
fn node_file_gives_lines_and_signatures() {
    let (ids, signatures) =
        parse_node_file::<SpadePatternParser>(&node_lines()).ok().expect("the lines can be read");
    assert_eq!(ids.len(), 2);
    assert_eq!(ids.get(&7), Some(&0));
    assert_eq!(ids.get(&12), Some(&1));
    assert_eq!(signatures, vec!["Process::sh".to_string(), "Artifact::file::/etc/passwd".to_string()]);
}

#[test]
fn node_file_reports_the_first_bad_line() {
    let bad_json = lines(&[r#"{"node": {"id": "7", "properties": {"type": "Process", "name": "sh"}}}"#, "{"]);
    assert!(matches!(
        parse_node_file::<SpadePatternParser>(&bad_json),
        Err(PatternParsingError::SerdeError(_))
    ));
    let bad_id = lines(&[r#"{"node": {"id": 7, "properties": {"type": "Process", "name": "sh"}}}"#]);
    assert!(matches!(
        parse_node_file::<SpadePatternParser>(&bad_id),
        Err(PatternParsingError::FormatError(1, "ID of node should be a string"))
    ));
    let bad_signature = lines(&[
        r#"{"node": {"id": "7", "properties": {"type": "Process", "name": "sh"}}}"#,
        r#"{"node": {"id": "8", "properties": {"type": "Process"}}}"#,
    ]);
    assert!(matches!(
        parse_node_file::<SpadePatternParser>(&bad_signature),
        Err(PatternParsingError::FormatError(
            2,
            "Fail to extract node signature, maybe the pattern format is wrong"
        ))
    ));
}

#[test]
fn edge_file_gives_edges_with_the_signatures_of_their_nodes() {
    let (ids, signatures) =
        parse_node_file::<SpadePatternParser>(&node_lines()).ok().expect("the lines can be read");
    let edges = parse_edge_file::<SpadePatternParser>(&edge_lines(), &ids, &signatures)
        .ok()
        .expect("the lines can be read");
    assert_eq!(edges.len(), 2);
    assert_eq!(edges[0].id, 0);
    assert_eq!(edges[0].signature, "open#Process::sh#Artifact::file::/etc/passwd");
    assert_eq!((edges[0].start, edges[0].end), (0, 1));
    assert_eq!(edges[1].id, 1);
    assert_eq!(edges[1].signature, "read#Process::sh#Artifact::file::/etc/passwd");
}

#[test]
fn edge_file_reports_the_first_bad_line() {
    let (ids, signatures) =
        parse_node_file::<SpadePatternParser>(&node_lines()).ok().expect("the lines can be read");
    let no_start = lines(&[
        r#"{"edge": {"start": {"id": "8"}, "end": {"id": "12"}, "properties": {"operation": "open"}}}"#,
    ]);
    assert!(matches!(
        parse_edge_file::<SpadePatternParser>(&no_start, &ids, &signatures),
        Err(PatternParsingError::FormatError(1, "The start id not exist in the node file"))
    ));
    let no_end = lines(&[
        r#"{"edge": {"start": {"id": "7"}, "end": {"id": "12"}, "properties": {"operation": "open"}}}"#,
        r#"{"edge": {"start": {"id": "7"}, "end": {"id": "13"}, "properties": {"operation": "open"}}}"#,
    ]);
    assert!(matches!(
        parse_edge_file::<SpadePatternParser>(&no_end, &ids, &signatures),
        Err(PatternParsingError::FormatError(2, "The end id not exist in the node file"))
    ));
    let no_operation =
        lines(&[r#"{"edge": {"start": {"id": "7"}, "end": {"id": "12"}, "properties": {}}}"#]);
    assert!(matches!(
        parse_edge_file::<SpadePatternParser>(&no_operation, &ids, &signatures),
        Err(PatternParsingError::FormatError(
            1,
            "Fail to extract edge signature, maybe the pattern format is wrong"
        ))
    ));
    let no_id = lines(&[r#"{"edge": {"start": {}, "end": {"id": "12"}, "properties": {"operation": "open"}}}"#]);
    assert!(matches!(
        parse_edge_file::<SpadePatternParser>(&no_id, &ids, &signatures),
        Err(PatternParsingError::FormatError(1, "ID of node should be a string"))
    ));
}

#[test]
fn a_whole_pattern_from_its_three_files() {
    let pattern = parse::<SpadePatternParser>(
        &node_lines(),
        &edge_lines(),
        r#"{"root": {"children": [0]}, "0": {"children": [1]}, "1": {"children": []}}"#,
    )
    .ok()
    .expect("the pattern can be read");
    assert_eq!(pattern.num_nodes, 2);
    assert_eq!(pattern.edges.len(), 2);
    assert!(pattern.is_well_formed());
    assert_eq!(pattern.order.get_roots(), vec![0]);
    assert_eq!(pattern.order.get_next(0), vec![1]);
    assert_eq!(pattern.order.get_previous(1), vec![0]);
    assert_eq!(pattern.order.get_previous(0), Vec::<usize>::new());
}

#[test]
fn a_pattern_with_a_bad_order_relation_file() {
    assert!(matches!(
        parse::<SpadePatternParser>(&node_lines(), &edge_lines(), "[1, 2]"),
        Err(PatternParsingError::FormatError(0, "Json format of order relation file is not right."))
    ));
    assert!(matches!(
        parse::<SpadePatternParser>(&node_lines(), &edge_lines(), "{"),
        Err(PatternParsingError::SerdeError(_))
    ));
}

struct TestParser;

impl PatternParser for TestParser {
    fn node_signature(_obj: &Value) -> Option<String> {
        Some(String::from("node"))
    }

    fn edge_signature(_obj: &Value) -> Option<String> {
        Some(String::from("edge"))
    }
}

#[test]
fn parser_test_parsing() {
    let pattern = parse::<TestParser>(
        &lines(&[r#"{"node": {"id": "3"}}"#, r#"{"node": {"id": "5"}}"#, r#"{"node": {"id": "8"}}"#]),
        &lines(&[
            r#"{"edge": {"start": {"id": "3"}, "end": {"id": "5"}}}"#,
            r#"{"edge": {"start": {"id": "5"}, "end": {"id": "8"}}}"#,
        ]),
        r#"{"root": {"children": [0]}, "0": {"children": [1]}}"#,
    )
    .ok()
    .expect("the pattern can be read");
    assert_eq!(pattern.edges.len(), 2);
    assert_eq!(pattern.edges[0].signature, "edge#node#node");
    assert_eq!((pattern.edges[1].id, pattern.edges[1].start, pattern.edges[1].end), (1, 1, 2));
    assert_eq!(pattern.num_nodes, 3);
    assert_eq!(pattern.order.get_next(0), vec![1]);
}
