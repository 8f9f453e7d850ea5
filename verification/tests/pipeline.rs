use ipmes_rust::pattern::parser::parse;
use ipmes_rust::pattern::spade::SpadePatternParser;
use ipmes_rust::pattern::Pattern;
use ipmes_rust::process_layers::parse_layer::{parse as parse_record, ParseLayer};
use ipmes_rust::process_layers::pipeline::Pipeline;
use ipmes_rust::sub_pattern::decompose;

fn lines(texts: &[&str]) -> Vec<String> {
    texts.iter().map(|text| text.to_string()).collect()
}

/// A process reads a file and then connects to a socket.
fn read_then_connect() -> Pattern {
    parse::<SpadePatternParser>(
        &lines(&[
            r#"{"node": {"id": "1", "properties": {"type": "Process", "name": "sh"}}}"#,
            r#"{"node": {"id": "2", "properties": {"type": "Artifact", "subtype": "file", "path": "/etc/passwd"}}}"#,
            r#"{"node": {"id": "3", "properties": {"type": "Artifact", "subtype": "network socket", "remote address": "10.0.0.1", "remote port": "80"}}}"#,
        ]),
        &lines(&[
            r#"{"edge": {"start": {"id": "2"}, "end": {"id": "1"}, "properties": {"operation": "read"}}}"#,
            r#"{"edge": {"start": {"id": "1"}, "end": {"id": "3"}, "properties": {"operation": "connect"}}}"#,
        ]),
        r#"{"root": {"children": [0]}, "0": {"children": [1]}, "1": {"children": []}}"#,
    )
    .ok()
    .expect("the pattern can be read")
}

const READ: &str = "read#Artifact::file::/etc/passwd#Process::sh";
const CONNECT: &str = "connect#Process::sh#Artifact::network socket::10.0.0.1:80";

/// Feeds the records through the parse layer, the matchers and the join
/// tree, and returns every match of the whole pattern as it is written.
fn run(pattern: &Pattern, window_size: u64, records: &[(u64, u64, &str, u64, u64, u64)]) -> Vec<String> {
    assert!(pattern.is_well_formed());
    let decomposition = decompose(pattern);
    assert!(!decomposition.is_empty());
    let mut pipeline =
        Pipeline::new(pattern, &decomposition, false, window_size).ok().expect("the signatures compile");
    let mut parse_layer = ParseLayer::new();
    let mut found = Vec::new();
    for &(time1, time2, signature, id, start, end) in records {
        let (edge1, edge2) = parse_record(time1, time2, signature.to_string(), id, start, end);
        parse_layer.push_record(edge1, edge2);
        while let Some(batch) = parse_layer.get_batch() {
            for answer in pipeline.process_batch(&batch) {
                found.push(answer.to_string());
            }
        }
    }
    parse_layer.finish();
    while let Some(batch) = parse_layer.get_batch() {
        for answer in pipeline.process_batch(&batch) {
            found.push(answer.to_string());
        }
    }
    found
}

#[test]
fn records_in_the_order_of_the_pattern_give_a_match() {
    let pattern = read_then_connect();
    let found = run(
        &pattern,
        1000,
        &[(100, 100, READ, 1, 20, 10), (150, 150, "write#x#y", 2, 10, 20), (200, 200, CONNECT, 3, 10, 30)],
    );
    assert_eq!(found, vec!["[1, 3]".to_string()]);
}

#[test]
fn records_against_the_order_of_the_pattern_give_none() {
    let pattern = read_then_connect();
    let found = run(&pattern, 1000, &[(100, 100, CONNECT, 3, 10, 30), (200, 200, READ, 1, 20, 10)]);
    assert_eq!(found, Vec::<String>::new());
}

#[test]
fn records_too_far_apart_give_none() {
    let pattern = read_then_connect();
    let found = run(&pattern, 50, &[(100, 100, READ, 1, 20, 10), (200, 200, CONNECT, 3, 10, 30)]);
    assert_eq!(found, Vec::<String>::new());
}

#[test]
fn records_of_another_process_give_none() {
    let pattern = read_then_connect();
    let found = run(&pattern, 1000, &[(100, 100, READ, 1, 20, 10), (200, 200, CONNECT, 3, 11, 30)]);
    assert_eq!(found, Vec::<String>::new());
}

#[test]
fn records_out_of_order_in_the_file_are_put_in_order() {
    let pattern = read_then_connect();
    // the second record begins before the end of the first
    let found = run(
        &pattern,
        1000,
        &[(100, 300, "write#x#y", 7, 10, 20), (120, 120, READ, 1, 20, 10), (200, 200, CONNECT, 3, 10, 30)],
    );
    assert_eq!(found, vec!["[1, 3]".to_string()]);
}
