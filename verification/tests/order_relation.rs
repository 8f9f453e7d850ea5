use ipmes_rust::pattern::order_relation::{OrderRelation, UNREACHABLE};
use ipmes_rust::pattern::parser::PatternParsingError;
use serde_json::Value;

fn json(text: &str) -> Value {
    serde_json::from_str(text).expect("the test writes JSON")
}

/// 0 comes before 1 and 2; 1 and 2 come before 3; 4 stands alone.
fn diamond() -> OrderRelation {
    OrderRelation::from_order_rules(&[(0, 1), (0, 2), (1, 3), (2, 3)], &[0, 4])
}

#[test]
fn neighbours_come_latest_rule_first() {
    let order = diamond();
    assert_eq!(order.get_next(0), vec![2, 1]);
    assert_eq!(order.get_next(1), vec![3]);
    assert_eq!(order.get_next(3), Vec::<usize>::new());
    assert_eq!(order.get_previous(3), vec![2, 1]);
    assert_eq!(order.get_previous(1), vec![0]);
    assert_eq!(order.get_previous(0), Vec::<usize>::new());
    assert_eq!(order.get_previous(4), Vec::<usize>::new());
    assert_eq!(order.get_roots(), vec![4, 0]);
    assert_eq!(order.get_next(99), Vec::<usize>::new());
    assert_eq!(order.get_previous(usize::MAX - 1), Vec::<usize>::new());
    assert_eq!(order.size(), 6);
}

#[test]
fn distances_count_the_rules_to_follow() {
    let order = diamond();
    let distances = order.calculate_distances().expect("there is no negative cycle");
    assert_eq!(distances.get(0, 0), 0);
    assert_eq!(distances.get(0, 1), 1);
    assert_eq!(distances.get(0, 2), 1);
    assert_eq!(distances.get(0, 3), 2);
    assert_eq!(distances.get(1, 3), 1);
    assert_eq!(distances.get(3, 0), UNREACHABLE);
    assert_eq!(distances.get(1, 2), UNREACHABLE);
    assert_eq!(distances.get(2, 1), UNREACHABLE);
    assert_eq!(distances.get(4, 0), UNREACHABLE);
    assert_eq!(distances.get(0, 4), UNREACHABLE);
    assert_eq!(distances.get(4, 4), 0);
    // pattern edges that no rule names
    assert_eq!(distances.get(17, 17), 0);
    assert_eq!(distances.get(17, 0), UNREACHABLE);
    assert_eq!(distances.get(0, 17), UNREACHABLE);
}

#[test]
fn the_two_distances_of_two_edges_are_not_both_finite() {
    let order = diamond();
    let distances = order.calculate_distances().expect("there is no negative cycle");
    for a in 0..5 {
        for b in 0..5 {
            if a != b {
                assert!(
                    distances.get(a, b) == UNREACHABLE || distances.get(b, a) == UNREACHABLE,
                    "{} and {}",
                    a,
                    b
                );
            }
        }
    }
}

#[test]
fn an_order_relation_without_rules() {
    let order = OrderRelation::from_order_rules(&[], &[]);
    assert_eq!(order.size(), 0);
    assert_eq!(order.get_roots(), Vec::<usize>::new());
    assert_eq!(order.get_next(0), Vec::<usize>::new());
    let distances = order.calculate_distances().expect("there is no negative cycle");
    assert_eq!(distances.get(0, 0), 0);
    assert_eq!(distances.get(0, 1), UNREACHABLE);
}

#[test]
fn an_order_relation_file() {
    let order = OrderRelation::parse(
        r#"{"root": {"children": [0, 4]}, "0": {"children": [1, 2]}, "1": {"children": [3]}, "2": {"children": [3]}, "3": {"children": []}, "4": {"children": []}}"#,
    )
    .ok()
    .expect("the file can be read");
    let mut roots = order.get_roots();
    roots.sort();
    assert_eq!(roots, vec![0, 4]);
    let mut next = order.get_next(0);
    next.sort();
    assert_eq!(next, vec![1, 2]);
    let mut previous = order.get_previous(3);
    previous.sort();
    assert_eq!(previous, vec![1, 2]);
    assert_eq!(order.get_previous(0), Vec::<usize>::new());
}

#[test]
fn the_rules_of_an_order_relation_file() {
    assert_eq!(
        OrderRelation::parse_json_obj(&json(r#"{"root": {"children": [0]}, "0": {"children": [1, 2]}}"#)),
        Some(vec![(1, 2), (1, 3), (0, 1)])
    );
    assert_eq!(OrderRelation::parse_json_obj(&json(r#"{}"#)), Some(vec![]));
    assert_eq!(OrderRelation::parse_json_obj(&json(r#"[]"#)), None);
    assert_eq!(OrderRelation::parse_json_obj(&json(r#"{"root": {}}"#)), None);
    assert_eq!(OrderRelation::parse_json_obj(&json(r#"{"top": {"children": []}}"#)), None);
    assert_eq!(OrderRelation::parse_json_obj(&json(r#"{"0": {"children": ["1"]}}"#)), None);
    assert_eq!(OrderRelation::parse_json_obj(&json(r#"{"0": {"children": [-1]}}"#)), None);
    assert_eq!(OrderRelation::parse_json_obj(&json(r#"{"0": {"children": [1.5]}}"#)), None);
    assert_eq!(OrderRelation::parse_json_obj(&json(r#"{"4294967295": {"children": []}}"#)), None);
    assert_eq!(OrderRelation::parse_json_obj(&json(r#"{"0": {"children": [2147483646]}}"#)), None);
    assert_eq!(
        OrderRelation::parse_json_obj(&json(r#"{"0": {"children": [2147483645]}}"#)),
        Some(vec![(1, 2147483646)])
    );
}

#[test]
fn an_order_relation_file_that_cannot_be_read() {
    assert!(matches!(OrderRelation::parse("not json"), Err(PatternParsingError::SerdeError(_))));
    assert!(matches!(
        OrderRelation::parse(r#"{"root": 1}"#),
        Err(PatternParsingError::FormatError(0, "Json format of order relation file is not right."))
    ));
}

/// An order relation file of four pattern edges: 0 and 1 first, then 2,
/// then 3.
fn four_edge_file() -> &'static str {
    r#"{"root": {"children": [0, 1]}, "0": {"children": [2]}, "1": {"children": [2]}, "2": {"children": [3]}, "3": {"children": []}}"#
}

#[test]
fn order_relation_test_parsing() {
    let ord = OrderRelation::parse(four_edge_file()).ok().expect("fail to parse order relation file");
    let mut previous = Vec::new();
    for neighbor in ord.get_previous(2) {
        println!("{:?}", neighbor);
        previous.push(neighbor);
    }
    previous.sort();
    assert_eq!(previous, vec![0, 1]);
    assert_eq!(ord.get_previous(1), Vec::<usize>::new());
}

#[test]
fn test_calculate_distances() {
    let ord = OrderRelation::parse(four_edge_file()).ok().expect("fail to parse order relation file");
    let distances = ord.calculate_distances().expect("there is no negative cycle");
    assert_eq!(distances.get(1, 0), UNREACHABLE);
    assert_eq!(distances.get(0, 1), UNREACHABLE);
    assert_eq!(distances.get(0, 2), 1);
    assert_eq!(distances.get(1, 3), 2);
    assert_eq!(distances.get(3, 1), UNREACHABLE);
}
