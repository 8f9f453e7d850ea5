use ipmes_rust::input_edge::InputEdge;
use ipmes_rust::match_edge::MatchEdge;
use ipmes_rust::pattern::Edge;
use ipmes_rust::sub_pattern_match::{check_edge_uniqueness, merge_edge_id_map};
use std::rc::Rc;

fn input_edge(id: u64) -> Rc<InputEdge> {
    Rc::new(InputEdge { timestamp: 0, signature: "".to_string(), id, start: 0, end: 0 })
}

/// Fail
#[test]
fn test_check_edge_uniqueness_1() {
    let pattern_edge = Edge { id: 0, signature: "".to_string(), start: 0, end: 0 };
    let match_edges = vec![
        MatchEdge { input_edge: input_edge(1), matched: &pattern_edge },
        MatchEdge { input_edge: input_edge(2), matched: &pattern_edge },
        MatchEdge { input_edge: input_edge(2), matched: &pattern_edge },
    ];

    assert_eq!(check_edge_uniqueness(&match_edges), false);
}

/// Pass
#[test]
fn test_check_edge_uniqueness_2() {
    let pattern_edge = Edge { id: 0, signature: "".to_string(), start: 0, end: 0 };
    let match_edges = vec![
        MatchEdge { input_edge: input_edge(1), matched: &pattern_edge },
        MatchEdge { input_edge: input_edge(2), matched: &pattern_edge },
        MatchEdge { input_edge: input_edge(3), matched: &pattern_edge },
    ];

    assert_eq!(check_edge_uniqueness(&match_edges), true);
}

#[test]
fn test_merge_edge_id_map_1() {
    let edge_id_map1 = vec![None, Some(3), Some(2), None, None];

    let edge_id_map2 = vec![Some(1), None, None, None, Some(7)];

    let ans = vec![Some(1), Some(3), Some(2), None, Some(7)];

    assert_eq!(ans, merge_edge_id_map(&edge_id_map1, &edge_id_map2));
}

#[test]
fn test_merge_edge_id_map_2() {
    let edge_id_map1 = vec![None, Some(3), None, None, None];

    let edge_id_map2 = vec![Some(1), None, None, None, Some(7)];

    let ans = vec![Some(1), Some(3), None, None, Some(7)];

    assert_eq!(ans, merge_edge_id_map(&edge_id_map1, &edge_id_map2));
}
