use ipmes_rust::pattern::order_relation::OrderRelation;
use ipmes_rust::pattern::parser::parse;
use ipmes_rust::pattern::spade::SpadePatternParser;
use ipmes_rust::pattern::{Edge, Pattern};
use ipmes_rust::sub_pattern::{
    contains_selected_edge, decompose, generate_sub_patterns, select_sub_patterns, SubPattern,
};

fn lines(texts: &[String]) -> Vec<String> {
    texts.to_vec()
}

fn process(id: u32) -> String {
    format!(r#"{{"node": {{"id": "{}", "properties": {{"type": "Process", "name": "p{}"}}}}}}"#, id, id)
}

fn step(start: u32, end: u32, operation: &str) -> String {
    format!(
        r#"{{"edge": {{"start": {{"id": "{}"}}, "end": {{"id": "{}"}}, "properties": {{"operation": "{}"}}}}}}"#,
        start, end, operation
    )
}

/// Four edges along five nodes, each before the next.
fn four_in_a_row() -> Pattern {
    parse::<SpadePatternParser>(
        &lines(&[process(10), process(11), process(12), process(13), process(14)]),
        &lines(&[step(10, 11, "a"), step(11, 12, "b"), step(12, 13, "c"), step(13, 14, "d")]),
        r#"{"root": {"children": [0]}, "0": {"children": [1]}, "1": {"children": [2]}, "2": {"children": [3]}, "3": {"children": []}}"#,
    )
    .ok()
    .expect("the pattern can be read")
}

/// Edges 0, 1 and 2 fan out of edge 0 at one node; edge 3 lies apart.
fn fan_and_one_apart() -> Pattern {
    parse::<SpadePatternParser>(
        &lines(&[process(1), process(2), process(3), process(4), process(5), process(6)]),
        &lines(&[step(1, 2, "a"), step(2, 3, "b"), step(2, 4, "c"), step(5, 6, "d")]),
        r#"{"root": {"children": [0, 3]}, "0": {"children": [1, 2]}, "1": {"children": []}, "2": {"children": []}, "3": {"children": []}}"#,
    )
    .ok()
    .expect("the pattern can be read")
}

fn chains(sub_patterns: &[SubPattern]) -> Vec<Vec<usize>> {
    sub_patterns.iter().map(|sub_pattern| sub_pattern.edges.iter().map(|edge| edge.id).collect()).collect()
}

fn holds_each_edge_once(pattern: &Pattern, sub_patterns: &[SubPattern]) -> bool {
    let mut seen = vec![0; pattern.edges.len()];
    for sub_pattern in sub_patterns {
        for edge in &sub_pattern.edges {
            seen[edge.id] += 1;
        }
    }
    seen.iter().all(|&count| count == 1)
}

#[test]
fn test_gsp() {
    let pattern = four_in_a_row();
    assert!(pattern.is_well_formed());

    let edge: &Edge = &pattern.edges[0];
    let mut parents: Vec<&Edge> = Vec::new();
    let mut results: Vec<SubPattern> = Vec::new();
    generate_sub_patterns(&pattern, edge, &mut parents, &mut results);

    assert!(parents.is_empty());
    assert_eq!(chains(&results), vec![vec![0], vec![0, 1], vec![0, 1, 2], vec![0, 1, 2, 3]]);
}

#[test]
fn test_ss() {
    let pattern = four_in_a_row();
    assert!(pattern.is_well_formed());

    let edge: &Edge = &pattern.edges[0];
    let mut parents: Vec<&Edge> = Vec::new();
    let mut results: Vec<SubPattern> = Vec::new();
    generate_sub_patterns(&pattern, edge, &mut parents, &mut results);

    let num_edges: usize = 4;
    let selected = select_sub_patterns(num_edges, results);

    assert_eq!(chains(&selected), vec![vec![0, 1, 2, 3]]);
    assert_eq!(selected[0].id, 0);
}

#[test]
fn test_cse() {
    let pattern = four_in_a_row();
    assert!(pattern.is_well_formed());

    let edge: &Edge = &pattern.edges[0];
    let mut parents: Vec<&Edge> = Vec::new();
    let mut results: Vec<SubPattern> = Vec::new();
    generate_sub_patterns(&pattern, edge, &mut parents, &mut results);

    let sub_pattern = &results[0];
    let is_selected = vec![false, false, true, true];
    assert!(!contains_selected_edge(&sub_pattern, &is_selected));

    let sub_pattern = &results[1];
    let is_selected = vec![false, false, true, true];
    assert!(!contains_selected_edge(&sub_pattern, &is_selected));

    let sub_pattern = &results[2];
    let is_selected = vec![false, false, true, true];
    assert!(contains_selected_edge(&sub_pattern, &is_selected));

    let sub_pattern = &results[3];
    let is_selected = vec![false, false, false, true];
    assert!(contains_selected_edge(&sub_pattern, &is_selected));
}

#[test]
fn test_decompose() {
    let pattern = fan_and_one_apart();
    assert!(pattern.is_well_formed());

    let decomposition = decompose(&pattern);
    assert_eq!(chains(&decomposition), vec![vec![0, 2], vec![1], vec![3]]);
    for (k, sub_pattern) in decomposition.iter().enumerate() {
        assert_eq!(sub_pattern.id, k);
    }
    assert!(holds_each_edge_once(&pattern, &decomposition));
}

#[test]
fn a_decomposition_holds_each_pattern_edge_once() {
    let pattern = four_in_a_row();
    assert!(pattern.is_well_formed());
    let decomposition = decompose(&pattern);
    assert_eq!(chains(&decomposition), vec![vec![0, 1, 2, 3]]);
    assert!(holds_each_edge_once(&pattern, &decomposition));
}

#[test]
fn edges_without_a_common_node_are_sub_patterns_of_their_own() {
    let edge = |id: usize, start: usize, end: usize| Edge { id, signature: "s".to_string(), start, end };
    let pattern = Pattern {
        edges: vec![edge(0, 0, 1), edge(1, 2, 3), edge(2, 4, 5)],
        order: OrderRelation::from_order_rules(&[(0, 1), (1, 2)], &[0]),
        num_nodes: 6,
    };
    assert!(pattern.is_well_formed());
    let decomposition = decompose(&pattern);
    assert_eq!(chains(&decomposition), vec![vec![0], vec![1], vec![2]]);
    assert!(holds_each_edge_once(&pattern, &decomposition));
}

#[test]
fn a_cycle_of_order_rules_ends_the_walk_where_it_began() {
    let edge = |id: usize, start: usize, end: usize| Edge { id, signature: "s".to_string(), start, end };
    let pattern = Pattern {
        edges: vec![edge(0, 0, 1), edge(1, 1, 0)],
        order: OrderRelation::from_order_rules(&[(0, 1), (1, 0)], &[]),
        num_nodes: 2,
    };
    assert!(pattern.is_well_formed());
    let decomposition = decompose(&pattern);
    assert_eq!(chains(&decomposition), vec![vec![0, 1]]);
    assert!(holds_each_edge_once(&pattern, &decomposition));
}

#[test]
fn a_pattern_without_edges_has_no_sub_pattern() {
    let pattern = Pattern { edges: vec![], order: OrderRelation::from_order_rules(&[], &[]), num_nodes: 0 };
    assert!(pattern.is_well_formed());
    assert!(decompose(&pattern).is_empty());
}

#[test]
fn a_pattern_is_sound_where_its_parts_fit() {
    let edge = |id: usize, start: usize, end: usize| Edge { id, signature: "s".to_string(), start, end };
    let order = || OrderRelation::from_order_rules(&[(0, 1)], &[0]);
    assert!(Pattern { edges: vec![edge(0, 0, 1), edge(1, 1, 2)], order: order(), num_nodes: 3 }
        .is_well_formed());
    // an edge with another id than its place
    assert!(!Pattern { edges: vec![edge(0, 0, 1), edge(2, 1, 2)], order: order(), num_nodes: 3 }
        .is_well_formed());
    // a node beyond the number of nodes
    assert!(!Pattern { edges: vec![edge(0, 0, 1), edge(1, 1, 3)], order: order(), num_nodes: 3 }
        .is_well_formed());
    // an order rule for an edge that the pattern lacks
    assert!(!Pattern { edges: vec![edge(0, 0, 1)], order: order(), num_nodes: 3 }.is_well_formed());
}
