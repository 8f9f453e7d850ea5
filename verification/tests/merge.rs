use ipmes_rust::input_edge::InputEdge;
use ipmes_rust::match_edge::MatchEdge;
use ipmes_rust::pattern::order_relation::OrderRelation;
use ipmes_rust::pattern::{Edge, Pattern};
use ipmes_rust::process_layers::join_layer::sub_pattern_buffer::{Relation, SubPatternBuffer, TimeOrder};
use ipmes_rust::process_layers::join_layer::JoinLayer;
use ipmes_rust::sub_pattern::SubPattern;
use ipmes_rust::sub_pattern_match::{EarliestFirst, SubPatternMatch};
use std::rc::Rc;

/// Pattern edge 0 from node 0 to node 1, then pattern edge 1 from node 1 to
/// node 2.
fn one_then_the_other() -> Pattern {
    Pattern {
        edges: vec![
            Edge { id: 0, signature: "a".to_string(), start: 0, end: 1 },
            Edge { id: 1, signature: "b".to_string(), start: 1, end: 2 },
        ],
        order: OrderRelation::from_order_rules(&[(0, 1)], &[0]),
        num_nodes: 3,
    }
}

/// The buffer of the first pattern edge, with the relation to the buffer of
/// the second.
fn left_buffer<'p>(pattern: &'p Pattern) -> SubPatternBuffer<'p> {
    let first = SubPattern { id: 0, edges: vec![&pattern.edges[0]] };
    let second = SubPattern { id: 1, edges: vec![&pattern.edges[1]] };
    let mut left = SubPatternBuffer::new(0, 1, &first, 3, 2);
    let right = SubPatternBuffer::new(1, 0, &second, 3, 2);
    let distances = pattern.order.calculate_distances().expect("there is no negative cycle");
    left.relation = SubPatternBuffer::generate_relations(pattern, &left, &right, &distances);
    left
}

/// A match of one pattern edge by one input edge.
fn single<'p>(
    pattern: &'p Pattern,
    pattern_edge: usize,
    input_id: u64,
    timestamp: u64,
    start: u64,
    end: u64,
) -> SubPatternMatch<'p> {
    let matched = &pattern.edges[pattern_edge];
    let mut edge_id_map = vec![None; pattern.edges.len()];
    edge_id_map[pattern_edge] = Some(input_id);
    let mut match_nodes = vec![(start, matched.start as u64), (end, matched.end as u64)];
    match_nodes.sort();
    SubPatternMatch {
        id: pattern_edge,
        latest_time: timestamp,
        earliest_time: timestamp,
        match_nodes,
        edge_id_map,
        match_edges: vec![MatchEdge {
            input_edge: Rc::new(InputEdge { timestamp, signature: String::new(), id: input_id, start, end }),
            matched,
        }],
    }
}

fn scratch_is_clean(buffer: &SubPatternBuffer) -> bool {
    buffer.used_nodes.iter().all(|used| !used) && buffer.timestamps.iter().all(|time| time.is_none())
}

#[test]
fn two_matches_that_fit_are_merged() {
    let pattern = one_then_the_other();
    let mut buffer = left_buffer(&pattern);
    let first = single(&pattern, 0, 100, 1000, 10, 20);
    let second = single(&pattern, 1, 101, 2000, 20, 30);
    let merged = SubPatternMatch::merge_matches(&mut buffer, &first, &second).expect("the two fit");
    assert_eq!(merged.id, 0);
    assert_eq!(merged.earliest_time, 1000);
    assert_eq!(merged.latest_time, 2000);
    assert_eq!(merged.match_nodes, vec![(10, 0), (20, 1), (30, 2)]);
    assert_eq!(merged.edge_id_map, vec![Some(100), Some(101)]);
    let edges: Vec<(u64, usize)> =
        merged.match_edges.iter().map(|edge| (edge.input_edge.id, edge.matched.id)).collect();
    assert_eq!(edges, vec![(100, 0), (101, 1)]);
    assert!(scratch_is_clean(&buffer));
}

#[test]
fn one_pattern_node_with_two_input_nodes_is_not_merged() {
    let pattern = one_then_the_other();
    let mut buffer = left_buffer(&pattern);
    let first = single(&pattern, 0, 100, 1000, 10, 20);
    // pattern node 1 is input node 20 in the first and 21 in the second
    let second = single(&pattern, 1, 101, 2000, 21, 30);
    assert!(SubPatternMatch::merge_matches(&mut buffer, &first, &second).is_none());
    assert!(scratch_is_clean(&buffer));
}

#[test]
fn one_input_node_for_two_pattern_nodes_is_not_merged() {
    let pattern = one_then_the_other();
    let mut buffer = left_buffer(&pattern);
    let first = single(&pattern, 0, 100, 1000, 10, 20);
    // input node 10 is pattern node 0 in the first and pattern node 2 in the second
    let second = single(&pattern, 1, 101, 2000, 20, 10);
    assert!(SubPatternMatch::merge_matches(&mut buffer, &first, &second).is_none());
    assert!(scratch_is_clean(&buffer));
}

#[test]
fn one_input_edge_for_two_pattern_edges_is_not_merged() {
    let pattern = one_then_the_other();
    let mut buffer = left_buffer(&pattern);
    let first = single(&pattern, 0, 100, 1000, 10, 20);
    let second = single(&pattern, 1, 100, 1000, 20, 30);
    assert!(SubPatternMatch::merge_matches(&mut buffer, &first, &second).is_none());
    assert!(scratch_is_clean(&buffer));
}

#[test]
fn edges_against_the_order_of_the_pattern_are_not_merged() {
    let pattern = one_then_the_other();
    let mut buffer = left_buffer(&pattern);
    let first = single(&pattern, 0, 100, 1000, 10, 20);
    let second = single(&pattern, 1, 101, 999, 20, 30);
    assert!(SubPatternMatch::merge_matches(&mut buffer, &first, &second).is_none());
    assert!(scratch_is_clean(&buffer));
    // edges of one time come in either order
    let second = single(&pattern, 1, 101, 1000, 20, 30);
    assert!(SubPatternMatch::merge_matches(&mut buffer, &first, &second).is_some());
}

#[test]
fn the_relation_of_two_buffers() {
    let pattern = one_then_the_other();
    let buffer = left_buffer(&pattern);
    assert_eq!(buffer.relation.shared_nodes, vec![false, true, false]);
    assert_eq!(buffer.relation.edge_orders.len(), 1);
    assert!(matches!(buffer.relation.edge_orders[0], (0, 1, TimeOrder::FirstToSecond)));
    assert!(buffer.relation.is_node_shared(1));
    assert!(!buffer.relation.is_node_shared(0));
    assert!(!buffer.relation.is_node_shared(3));
}

#[test]
fn the_relation_names_the_later_edge_where_it_is_on_the_left() {
    let pattern = one_then_the_other();
    let first = SubPattern { id: 0, edges: vec![&pattern.edges[0]] };
    let second = SubPattern { id: 1, edges: vec![&pattern.edges[1]] };
    let left = SubPatternBuffer::new(0, 1, &second, 3, 2);
    let right = SubPatternBuffer::new(1, 0, &first, 3, 2);
    let distances = pattern.order.calculate_distances().expect("there is no negative cycle");
    let relation = SubPatternBuffer::generate_relations(&pattern, &left, &right, &distances);
    assert_eq!(relation.edge_orders.len(), 1);
    assert!(matches!(relation.edge_orders[0], (1, 0, TimeOrder::SecondToFirst)));
}

#[test]
fn a_relation_is_held_against_a_table_of_timestamps() {
    let relation = Relation {
        shared_nodes: vec![],
        edge_orders: vec![(0, 1, TimeOrder::FirstToSecond), (2, 1, TimeOrder::SecondToFirst)],
    };
    assert!(relation.check_order_relation(&vec![Some(1), Some(2), Some(3)]));
    assert!(relation.check_order_relation(&vec![Some(2), Some(2), Some(2)]));
    assert!(!relation.check_order_relation(&vec![Some(3), Some(2), Some(3)]));
    assert!(!relation.check_order_relation(&vec![Some(1), Some(2), Some(1)]));
    // what the table lacks is held against nothing
    assert!(relation.check_order_relation(&vec![Some(3), None, Some(1)]));
    assert!(relation.check_order_relation(&vec![Some(3)]));
    assert!(Relation::new().check_order_relation(&vec![Some(3), Some(2)]));
}

#[test]
fn the_buffer_above_two_buffers() {
    let pattern = one_then_the_other();
    let first = SubPattern { id: 0, edges: vec![&pattern.edges[0]] };
    let second = SubPattern { id: 1, edges: vec![&pattern.edges[1]] };
    let left = SubPatternBuffer::new(0, 1, &first, 3, 2);
    let right = SubPatternBuffer::new(1, 0, &second, 3, 2);
    let above = SubPatternBuffer::merge_buffers(&left, &right);
    assert_eq!((above.id, above.sibling_id), (2, 3));
    assert_eq!(above.max_num_nodes, 3);
    assert_eq!(above.used_nodes, vec![false, false, false]);
    assert_eq!(above.timestamps, vec![None, None]);
    assert!(above.buffer.is_empty() && above.new_match_buffer.is_empty());
    let mut nodes: Vec<usize> = above.node_id_list.iter().copied().collect();
    nodes.sort();
    assert_eq!(nodes, vec![0, 1, 2]);
    let mut edges: Vec<usize> = above.edge_id_list.iter().copied().collect();
    edges.sort();
    assert_eq!(edges, vec![0, 1]);
}

#[test]
fn the_scratch_space_of_a_buffer_is_wiped() {
    let pattern = one_then_the_other();
    let mut buffer = left_buffer(&pattern);
    buffer.used_nodes[1] = true;
    buffer.timestamps[0] = Some(5);
    buffer.clear_workspace();
    assert!(scratch_is_clean(&buffer));
    assert_eq!(buffer.used_nodes.len(), 3);
    assert_eq!(buffer.timestamps.len(), 2);
}

#[test]
fn the_buffers_of_a_join_tree_by_their_ids() {
    let edge = |id: usize, start: usize, end: usize| Edge { id, signature: "s".to_string(), start, end };
    let pattern = Pattern {
        edges: vec![edge(0, 0, 1), edge(1, 2, 3), edge(2, 4, 5)],
        order: OrderRelation::from_order_rules(&[], &[0, 1, 2]),
        num_nodes: 6,
    };
    assert!(pattern.is_well_formed());
    let sub_patterns: Vec<SubPattern> =
        (0..3).map(|id| SubPattern { id, edges: vec![&pattern.edges[id]] }).collect();
    let tree = JoinLayer::new(&pattern, &sub_patterns, 1000);
    assert_eq!(tree.sub_pattern_buffers.len(), 5);
    assert_eq!(tree.get_root_buffer_id(), 4);
    assert_eq!((tree.get_sibling_id(0), tree.get_sibling_id(1)), (1, 0));
    assert_eq!((tree.get_sibling_id(2), tree.get_sibling_id(3)), (3, 2));
    assert_eq!(tree.get_sibling_id(4), 4);
    assert_eq!((tree.get_parent_id(0), tree.get_parent_id(1)), (2, 2));
    assert_eq!((tree.get_parent_id(2), tree.get_parent_id(3)), (4, 4));
    assert_eq!(tree.get_parent_id(4), 4);
    assert_eq!(JoinLayer::get_left_buffer_id(3), 2);
    assert_eq!(JoinLayer::get_left_buffer_id(2), 2);
    for (id, buffer) in tree.sub_pattern_buffers.iter().enumerate() {
        assert_eq!(buffer.id, id);
    }
}

#[test]
fn the_match_that_expires_first_is_the_greatest() {
    let pattern = one_then_the_other();
    let early = EarliestFirst(single(&pattern, 0, 100, 1000, 10, 20));
    let late = EarliestFirst(single(&pattern, 0, 101, 2000, 10, 20));
    let also_early = EarliestFirst(single(&pattern, 1, 102, 1000, 20, 30));
    assert!(early > late);
    assert!(late < early);
    assert!(early == also_early);
    assert!(early != late);
    assert!(!(early < also_early) && !(early > also_early));
    let copy = late.clone();
    assert_eq!(copy.0.earliest_time, 2000);
    assert_eq!(copy.0.match_nodes, late.0.match_nodes);
}

#[test]
fn input_edges_are_ordered_by_their_time() {
    let at = |id: u64, timestamp: u64| InputEdge { timestamp, signature: String::new(), id, start: 0, end: 0 };
    assert!(at(2, 100) < at(1, 200));
    assert!(at(1, 200) > at(2, 100));
    assert!(at(1, 100) <= at(2, 100));
    assert!(at(1, 100) >= at(2, 100));
}

/// Pattern edges 0 and 1 come before pattern edges 2 and 3; no two of them
/// have a node in common.
fn two_before_two() -> Pattern {
    let edge = |id: usize| Edge { id, signature: "s".to_string(), start: 2 * id, end: 2 * id + 1 };
    Pattern {
        edges: vec![edge(0), edge(1), edge(2), edge(3)],
        order: OrderRelation::from_order_rules(&[(0, 2), (0, 3), (1, 2), (1, 3)], &[0, 1]),
        num_nodes: 8,
    }
}

#[test]
fn a_relation_holds_one_constraint_for_each_pair() {
    let pattern = two_before_two();
    let first = SubPattern { id: 0, edges: vec![&pattern.edges[0], &pattern.edges[1]] };
    let second = SubPattern { id: 1, edges: vec![&pattern.edges[2], &pattern.edges[3]] };
    let left = SubPatternBuffer::new(0, 1, &first, 8, 4);
    let right = SubPatternBuffer::new(1, 0, &second, 8, 4);
    let distances = pattern.order.calculate_distances().expect("there is no negative cycle");
    let relation = SubPatternBuffer::generate_relations(&pattern, &left, &right, &distances);
    let mut pairs: Vec<(usize, usize)> = relation.edge_orders.iter().map(|c| (c.0, c.1)).collect();
    pairs.sort();
    assert_eq!(pairs, vec![(0, 2), (0, 3), (1, 2), (1, 3)]);
    assert!(relation.edge_orders.iter().all(|c| matches!(c.2, TimeOrder::FirstToSecond)));
    assert_eq!(relation.shared_nodes, vec![false; 8]);
}

#[test]
fn the_buffers_of_a_join_tree_hold_the_nodes_of_their_sub_patterns() {
    let pattern = one_then_the_other();
    assert!(pattern.is_well_formed());
    let sub_patterns: Vec<SubPattern> =
        (0..2).map(|id| SubPattern { id, edges: vec![&pattern.edges[id]] }).collect();
    let tree = JoinLayer::new(&pattern, &sub_patterns, 1000);
    let nodes = |b: usize| {
        let mut nodes: Vec<usize> = tree.sub_pattern_buffers[b].node_id_list.iter().copied().collect();
        nodes.sort();
        nodes
    };
    let edges = |b: usize| {
        let mut edges: Vec<usize> = tree.sub_pattern_buffers[b].edge_id_list.iter().copied().collect();
        edges.sort();
        edges
    };
    assert_eq!((nodes(0), edges(0)), (vec![0, 1], vec![0]));
    assert_eq!((nodes(1), edges(1)), (vec![1, 2], vec![1]));
    assert_eq!((nodes(2), edges(2)), (vec![0, 1, 2], vec![0, 1]));
    let siblings: Vec<usize> = tree.sub_pattern_buffers.iter().map(|buffer| buffer.sibling_id).collect();
    assert_eq!(siblings, vec![1, 0, 3]);
    assert_eq!(tree.sub_pattern_buffers[0].relation.shared_nodes, vec![false, true, false]);
    assert_eq!(tree.sub_pattern_buffers[1].relation.shared_nodes, vec![false, true, false]);
    assert_eq!(tree.sub_pattern_buffers[0].relation.edge_orders.len(), 1);
    assert_eq!(tree.sub_pattern_buffers[1].relation.edge_orders.len(), 1);
}
