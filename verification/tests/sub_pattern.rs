use ipmes_rust::pattern::Edge;
use ipmes_rust::sub_pattern::has_shared_node;

#[test]
fn test_hsn() {
    let e1 = &Edge { id: 0, signature: "a".to_string(), start: 10, end: 19 };
    let e2 = &Edge { id: 0, signature: "b".to_string(), start: 9, end: 15 };
    let e3 = &Edge { id: 0, signature: "c".to_string(), start: 11, end: 13 };
    let e4 = &Edge { id: 0, signature: "d".to_string(), start: 10, end: 13 };

    // true
    let parents: Vec<&Edge> = vec![e1, e3];
    assert!(has_shared_node(e4, &parents));

    // false
    let parents: Vec<&Edge> = vec![e2];
    assert!(!has_shared_node(e4, &parents));

    // true
    let parents: Vec<&Edge> = vec![e3];
    assert!(has_shared_node(e4, &parents));

    // true
    let parents: Vec<&Edge> = vec![];
    assert!(has_shared_node(e4, &parents));
}
