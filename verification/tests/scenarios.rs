use ipmes_rust::input_edge::InputEdge;
use ipmes_rust::pattern::order_relation::OrderRelation;
use ipmes_rust::pattern::{Edge, Pattern};
use ipmes_rust::process_layers::join_layer::JoinLayer;
use ipmes_rust::process_layers::ord_match_layer::OrdMatchLayer;
use ipmes_rust::sub_pattern::decompose;
use std::rc::Rc;

fn pattern_edge(id: usize, signature: &str, start: usize, end: usize) -> Edge {
    Edge { id, signature: signature.to_string(), start, end }
}

fn input_edge(id: u64, timestamp: u64, signature: &str, start: u64, end: u64) -> InputEdge {
    InputEdge { timestamp, signature: signature.to_string(), id, start, end }
}

/// Process `A` opens file `B`, then writes to it.
fn open_then_write() -> Pattern {
    Pattern {
        edges: vec![pattern_edge(0, "open", 0, 1), pattern_edge(1, "write", 0, 1)],
        order: OrderRelation::from_order_rules(&[(0, 1)], &[0]),
        num_nodes: 2,
    }
}

/// Feeds the input edges, grouped into batches of one timestamp, through the
/// matchers and the join tree, and returns the ids of the input edges of
/// every match of the whole pattern.
fn run(pattern: &Pattern, use_regex: bool, window_size: u64, input: Vec<InputEdge>) -> Vec<Vec<u64>> {
    assert!(pattern.is_well_formed());
    let decomposition = decompose(pattern);
    let mut matchers = OrdMatchLayer::new(&decomposition, use_regex, window_size)
        .ok()
        .expect("the signatures compile");
    let mut join_tree = JoinLayer::new(pattern, &decomposition, window_size);
    let mut found = Vec::new();
    let mut batch: Vec<Rc<InputEdge>> = Vec::new();
    for edge in input {
        if let Some(first) = batch.first() {
            if first.timestamp != edge.timestamp {
                let matches = matchers.process_batch(&batch);
                for answer in join_tree.process_batch(matches) {
                    found.push(answer.matched_edges.iter().map(|e| e.id).collect());
                }
                batch = Vec::new();
            }
        }
        batch.push(Rc::new(edge));
    }
    if !batch.is_empty() {
        let matches = matchers.process_batch(&batch);
        for answer in join_tree.process_batch(matches) {
            found.push(answer.matched_edges.iter().map(|e| e.id).collect());
        }
    }
    found
}

#[test]
fn scenario_happy_path() {
    let pattern = open_then_write();
    let found = run(
        &pattern,
        false,
        1000,
        vec![input_edge(100, 1000, "open", 10, 20), input_edge(101, 2000, "write", 10, 20)],
    );
    assert_eq!(found, vec![vec![100, 101]]);
}

#[test]
fn scenario_happy_path_wide_window() {
    let pattern = open_then_write();
    let found = run(
        &pattern,
        false,
        1_800_000,
        vec![input_edge(100, 1000, "open", 10, 20), input_edge(101, 2000, "write", 10, 20)],
    );
    assert_eq!(found, vec![vec![100, 101]]);
}

#[test]
fn scenario_order_violated() {
    let pattern = open_then_write();
    let found = run(
        &pattern,
        false,
        1000,
        vec![input_edge(101, 500, "write", 10, 20), input_edge(100, 1500, "open", 10, 20)],
    );
    assert_eq!(found, Vec::<Vec<u64>>::new());
}

#[test]
fn scenario_window_too_small() {
    let pattern = open_then_write();
    let found = run(
        &pattern,
        false,
        500,
        vec![input_edge(100, 1000, "open", 10, 20), input_edge(101, 2000, "write", 10, 20)],
    );
    assert_eq!(found, Vec::<Vec<u64>>::new());
}

#[test]
fn scenario_node_mismatch() {
    let pattern = open_then_write();
    let found = run(
        &pattern,
        false,
        1000,
        vec![input_edge(100, 1000, "open", 10, 20), input_edge(101, 2000, "write", 11, 20)],
    );
    assert_eq!(found, Vec::<Vec<u64>>::new());
}

/// Two edges with no order between them and no node in common: two
/// sub-patterns, joined in the tree.
fn two_apart() -> Pattern {
    Pattern {
        edges: vec![pattern_edge(0, "read", 0, 1), pattern_edge(1, "send", 2, 3)],
        order: OrderRelation::from_order_rules(&[], &[0, 1]),
        num_nodes: 4,
    }
}

#[test]
fn join_tree_merges_two_sub_patterns() {
    let pattern = two_apart();
    assert_eq!(decompose(&pattern).len(), 2);
    let found = run(
        &pattern,
        false,
        1000,
        vec![input_edge(7, 100, "send", 30, 40), input_edge(8, 200, "read", 10, 20)],
    );
    assert_eq!(found, vec![vec![8, 7]]);
}

#[test]
fn join_tree_refuses_one_input_node_for_two_pattern_nodes() {
    let pattern = two_apart();
    let found = run(
        &pattern,
        false,
        1000,
        vec![input_edge(7, 100, "send", 10, 40), input_edge(8, 200, "read", 10, 20)],
    );
    assert_eq!(found, Vec::<Vec<u64>>::new());
}

#[test]
fn join_tree_drops_what_expired() {
    let pattern = two_apart();
    // the window is 100: the match of "send" at 100 has expired at 200
    let found = run(
        &pattern,
        false,
        100,
        vec![input_edge(7, 100, "send", 30, 40), input_edge(8, 200, "read", 10, 20)],
    );
    assert_eq!(found, Vec::<Vec<u64>>::new());
    // it has not expired at 199
    let found = run(
        &pattern,
        false,
        100,
        vec![input_edge(7, 100, "send", 30, 40), input_edge(8, 199, "read", 10, 20)],
    );
    assert_eq!(found, vec![vec![8, 7]]);
}

/// Two edges with an order between them but no node in common: two
/// sub-patterns with a constraint between them.
fn first_then_second_apart() -> Pattern {
    Pattern {
        edges: vec![pattern_edge(0, "read", 0, 1), pattern_edge(1, "send", 2, 3)],
        order: OrderRelation::from_order_rules(&[(0, 1)], &[0]),
        num_nodes: 4,
    }
}

#[test]
fn join_tree_keeps_the_order_of_time() {
    let pattern = first_then_second_apart();
    assert_eq!(decompose(&pattern).len(), 2);
    let in_order = run(
        &pattern,
        false,
        1000,
        vec![input_edge(8, 100, "read", 10, 20), input_edge(7, 200, "send", 30, 40)],
    );
    assert_eq!(in_order, vec![vec![8, 7]]);
    let out_of_order = run(
        &pattern,
        false,
        1000,
        vec![input_edge(7, 100, "send", 30, 40), input_edge(8, 200, "read", 10, 20)],
    );
    assert_eq!(out_of_order, Vec::<Vec<u64>>::new());
    let at_once = run(
        &pattern,
        false,
        1000,
        vec![input_edge(7, 100, "send", 30, 40), input_edge(8, 100, "read", 10, 20)],
    );
    assert_eq!(at_once, vec![vec![8, 7]]);
}

#[test]
fn signatures_match_whole_text_only() {
    let pattern = open_then_write();
    let found = run(
        &pattern,
        false,
        1000,
        vec![input_edge(100, 1000, "reopen", 10, 20), input_edge(101, 2000, "write", 10, 20)],
    );
    assert_eq!(found, Vec::<Vec<u64>>::new());
    let found = run(
        &pattern,
        true,
        1000,
        vec![input_edge(100, 1000, "open", 10, 20), input_edge(101, 2000, "write it", 10, 20)],
    );
    assert_eq!(found, Vec::<Vec<u64>>::new());
}

#[test]
fn signatures_as_regular_expressions_or_as_plain_text() {
    let pattern = Pattern {
        edges: vec![pattern_edge(0, "op.n", 0, 1), pattern_edge(1, "write|append", 0, 1)],
        order: OrderRelation::from_order_rules(&[(0, 1)], &[0]),
        num_nodes: 2,
    };
    let input = || vec![input_edge(100, 1000, "open", 10, 20), input_edge(101, 2000, "append", 10, 20)];
    assert_eq!(run(&pattern, true, 1000, input()), vec![vec![100, 101]]);
    assert_eq!(run(&pattern, false, 1000, input()), Vec::<Vec<u64>>::new());
    let literal =
        vec![input_edge(100, 1000, "op.n", 10, 20), input_edge(101, 2000, "write|append", 10, 20)];
    assert_eq!(run(&pattern, false, 1000, literal), vec![vec![100, 101]]);
}

#[test]
fn a_signature_that_does_not_compile_is_reported() {
    let pattern = Pattern {
        edges: vec![pattern_edge(0, "open", 0, 1), pattern_edge(1, "wri(te", 0, 1)],
        order: OrderRelation::from_order_rules(&[(0, 1)], &[0]),
        num_nodes: 2,
    };
    let decomposition = decompose(&pattern);
    let error = OrdMatchLayer::new(&decomposition, true, 1000).err().expect("no regular expression");
    assert_eq!(error.edge_id, 1);
    assert!(OrdMatchLayer::new(&decomposition, false, 1000).is_ok());
}

#[test]
fn an_input_edge_is_not_used_twice_in_a_match() {
    let pattern = Pattern {
        edges: vec![pattern_edge(0, "touch", 0, 1), pattern_edge(1, "touch", 0, 1)],
        order: OrderRelation::from_order_rules(&[(0, 1)], &[0]),
        num_nodes: 2,
    };
    let found = run(&pattern, false, 1000, vec![input_edge(5, 100, "touch", 1, 2)]);
    assert_eq!(found, Vec::<Vec<u64>>::new());
    let found = run(
        &pattern,
        false,
        1000,
        vec![input_edge(5, 100, "touch", 1, 2), input_edge(6, 100, "touch", 1, 2)],
    );
    // the batch is gone through edge by edge: edge 5 extends the match that
    // begins with edge 6 first
    assert_eq!(found, vec![vec![6, 5], vec![5, 6]]);
}

#[test]
fn a_partial_match_lives_for_a_whole_window() {
    let pattern = open_then_write();
    let input = || vec![input_edge(100, 1000, "open", 10, 20), input_edge(101, 2000, "write", 10, 20)];
    assert_eq!(run(&pattern, false, 1000, input()), vec![vec![100, 101]]);
    assert_eq!(run(&pattern, false, 999, input()), Vec::<Vec<u64>>::new());
}

#[test]
fn the_first_signature_that_does_not_compile_is_the_one_reported() {
    let pattern = Pattern {
        edges: vec![pattern_edge(0, "op(en", 0, 1), pattern_edge(1, "wri(te", 0, 1)],
        order: OrderRelation::from_order_rules(&[(0, 1)], &[0]),
        num_nodes: 2,
    };
    let decomposition = decompose(&pattern);
    let error = OrdMatchLayer::new(&decomposition, true, 1000).err().expect("no regular expression");
    assert_eq!(error.edge_id, 0);
}

#[test]
fn a_regular_expression_has_to_be_one_by_itself() {
    // between `^(?:` and `)$` this signature would compile, and match a part
    // of a text
    let pattern = Pattern {
        edges: vec![pattern_edge(0, "open", 0, 1), pattern_edge(1, "a)|(b", 0, 1)],
        order: OrderRelation::from_order_rules(&[(0, 1)], &[0]),
        num_nodes: 2,
    };
    let decomposition = decompose(&pattern);
    let error = OrdMatchLayer::new(&decomposition, true, 1000).err().expect("no regular expression");
    assert_eq!(error.edge_id, 1);
    assert!(OrdMatchLayer::new(&decomposition, false, 1000).is_ok());
}
