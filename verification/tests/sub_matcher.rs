use ipmes_rust::input_edge::InputEdge;
use ipmes_rust::pattern::Edge;
use ipmes_rust::process_layers::ord_match_layer::{PartialMatch, SubMatcher};
use std::rc::Rc;

fn input_edge(id: u64, timestamp: u64, start: u64, end: u64) -> Rc<InputEdge> {
    Rc::new(InputEdge { timestamp, signature: "s".to_string(), id, start, end })
}

#[test]
fn a_partial_match_comes_into_the_window_with_its_first_edge() {
    let first = Edge { id: 0, signature: "s".to_string(), start: 0, end: 1 };
    let second = Edge { id: 1, signature: "s".to_string(), start: 1, end: 2 };
    let first_stage = SubMatcher::new(&first, false).ok().expect("the signature compiles");
    let second_stage = SubMatcher::new(&second, false).ok().expect("the signature compiles");
    let nothing = PartialMatch { id: 3, timestamp: u64::MAX, node_id_map: vec![0, 0, 0], edges: vec![] };

    let one = first_stage.merge(input_edge(7, 100, 10, 20), &nothing).expect("the edge fits");
    assert_eq!((one.id, one.timestamp), (3, 100));
    assert_eq!(one.node_id_map, vec![10, 20, 0]);
    assert_eq!(one.edges.len(), 1);

    let two = second_stage.merge(input_edge(8, 250, 20, 30), &one).expect("the edge fits");
    assert_eq!((two.id, two.timestamp), (3, 100));
    assert_eq!(two.node_id_map, vec![10, 20, 30]);
    let edges: Vec<(u64, usize)> = two.edges.iter().map(|e| (e.input_edge.id, e.matched.id)).collect();
    assert_eq!(edges, vec![(7, 0), (8, 1)]);

    // another input node for pattern node 1
    assert!(second_stage.merge(input_edge(8, 250, 21, 30), &one).is_none());
    // the input edge that the match holds already
    assert!(second_stage.merge(input_edge(7, 250, 20, 30), &one).is_none());
}

#[test]
fn a_match_of_a_whole_sub_pattern_spans_the_times_of_its_edges() {
    let first = Edge { id: 0, signature: "s".to_string(), start: 0, end: 1 };
    let second = Edge { id: 1, signature: "s".to_string(), start: 1, end: 2 };
    let first_stage = SubMatcher::new(&first, false).ok().expect("the signature compiles");
    let second_stage = SubMatcher::new(&second, false).ok().expect("the signature compiles");
    let nothing = PartialMatch { id: 0, timestamp: u64::MAX, node_id_map: vec![0, 0, 0], edges: vec![] };
    let one = first_stage.merge(input_edge(9, 100, 10, 20), &nothing).expect("the edge fits");
    let two = second_stage.merge(input_edge(8, 250, 20, 30), &one).expect("the edge fits");
    let whole = two.to_sub_pattern_match(2);
    assert_eq!((whole.earliest_time, whole.latest_time), (100, 250));
    assert_eq!(whole.match_nodes, vec![(10, 0), (20, 1), (30, 2)]);
    assert_eq!(whole.edge_id_map, vec![Some(9), Some(8)]);
    let edges: Vec<u64> = whole.match_edges.iter().map(|e| e.input_edge.id).collect();
    assert_eq!(edges, vec![8, 9]);
}
