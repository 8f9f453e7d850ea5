use ipmes_rust::input_edge::InputEdge;
use ipmes_rust::pattern_match::PatternMatch;
use std::rc::Rc;

fn of_ids(ids: &[u64]) -> PatternMatch {
    PatternMatch {
        matched_edges: ids
            .iter()
            .map(|&id| Rc::new(InputEdge { timestamp: 0, signature: String::new(), id, start: 0, end: 0 }))
            .collect(),
    }
}

#[test]
fn a_match_is_written_as_the_list_of_its_input_edge_ids() {
    assert_eq!(of_ids(&[1, 2, 3]).to_string(), "[1, 2, 3]");
    assert_eq!(of_ids(&[42]).to_string(), "[42]");
    assert_eq!(of_ids(&[]).to_string(), "[]");
    assert_eq!(of_ids(&[0, 18446744073709551615, 10]).to_string(), "[0, 18446744073709551615, 10]");
}

#[test]
fn matches_are_equal_where_their_input_edge_ids_agree() {
    assert!(of_ids(&[1, 2, 3]) == of_ids(&[1, 2, 3]));
    assert!(of_ids(&[1, 2, 3]) != of_ids(&[1, 3, 2]));
    assert!(of_ids(&[1, 2, 3]) != of_ids(&[1, 2, 4]));
    // only the edges that both have are held against each other
    assert!(of_ids(&[1, 2]) == of_ids(&[1, 2, 3]));
    assert!(of_ids(&[]) == of_ids(&[7]));
}

#[test]
fn input_edges_are_equal_where_their_ids_agree() {
    let a = InputEdge { timestamp: 1, signature: "a".to_string(), id: 5, start: 1, end: 2 };
    let b = InputEdge { timestamp: 2, signature: "b".to_string(), id: 5, start: 3, end: 4 };
    let c = InputEdge { timestamp: 1, signature: "a".to_string(), id: 6, start: 1, end: 2 };
    assert!(a == b);
    assert!(a != c);
    let copy = a.clone();
    assert_eq!((copy.timestamp, copy.id, copy.start, copy.end), (1, 5, 1, 2));
    assert_eq!(copy.signature, "a");
}

#[test]
fn a_copy_of_a_match_holds_the_same_input_edges() {
    let found = of_ids(&[4, 5]);
    let copy = found.clone();
    assert_eq!(copy.matched_edges.len(), 2);
    assert!(Rc::ptr_eq(&copy.matched_edges[0], &found.matched_edges[0]));
    assert!(Rc::ptr_eq(&copy.matched_edges[1], &found.matched_edges[1]));
}
