use ipmes_rust::input_edge::InputEdge;
use ipmes_rust::process_layers::parse_layer::{parse, ParseLayer};

/// What the records of an input file give: two times in milliseconds, a
/// signature, and the ids of the edge and of its two nodes.
fn records() -> Vec<(u64, u64, &'static str, u64, u64, u64)> {
    vec![
        (1000, 1000, "open", 1, 10, 20),
        (1000, 1500, "read", 2, 10, 20),
        (1200, 1200, "write", 3, 10, 21),
        (1500, 1500, "close", 4, 10, 20),
        (1500, 2500, "exec", 5, 11, 22),
        (2000, 2000, "open", 6, 11, 23),
    ]
}

fn read_all(layer: &mut ParseLayer) -> Vec<Vec<InputEdge>> {
    let mut batches = Vec::new();
    for (time1, time2, signature, id, start, end) in records() {
        let (edge1, edge2) = parse(time1, time2, signature.to_string(), id, start, end);
        layer.push_record(edge1, edge2);
        while let Some(batch) = layer.get_batch() {
            batches.push(batch.iter().map(|edge| (**edge).clone()).collect());
        }
    }
    layer.finish();
    while let Some(batch) = layer.get_batch() {
        batches.push(batch.iter().map(|edge| (**edge).clone()).collect());
    }
    batches
}

#[test]
fn parse_layer_test() {
    let mut parse_layer = ParseLayer::new();

    for batch in read_all(&mut parse_layer) {
        let mut time: u64 = 0;
        for edge in batch {
            if time == 0 {
                time = edge.timestamp;
            } else {
                assert_eq!(edge.timestamp, time);
            }
        }
    }
}

#[test]
fn batches_leave_in_the_order_of_time() {
    let mut layer = ParseLayer::new();
    let batches = read_all(&mut layer);
    let seen: Vec<(u64, Vec<u64>)> = batches
        .iter()
        .map(|batch| (batch[0].timestamp, batch.iter().map(|edge| edge.id).collect()))
        .collect();
    assert_eq!(
        seen,
        vec![
            (1000, vec![1, 2]),
            (1200, vec![3]),
            (1500, vec![2, 4, 5]),
            (2000, vec![6]),
            (2500, vec![5]),
        ]
    );
    assert!(layer.nothing_to_send());
    assert!(layer.buffer.is_empty());
}

#[test]
fn a_record_of_one_time_gives_one_edge() {
    let (edge1, edge2) = parse(7, 7, "s".to_string(), 1, 2, 3);
    assert_eq!((edge1.timestamp, edge1.id, edge1.start, edge1.end), (7, 1, 2, 3));
    assert_eq!(edge1.signature, "s");
    assert!(edge2.is_none());
}

#[test]
fn a_record_of_two_times_gives_two_edges() {
    let (edge1, edge2) = parse(7, 9, "s".to_string(), 1, 2, 3);
    let edge2 = edge2.expect("the times differ");
    assert_eq!((edge1.timestamp, edge1.id, edge1.start, edge1.end), (7, 1, 2, 3));
    assert_eq!((edge2.timestamp, edge2.id, edge2.start, edge2.end), (9, 1, 2, 3));
    assert_eq!(edge2.signature, "s");
}

#[test]
fn edges_wait_until_a_later_record_is_read() {
    let mut layer = ParseLayer::new();
    assert!(layer.nothing_to_send());
    assert!(layer.get_batch().is_none());
    let (edge1, edge2) = parse(10, 30, "s".to_string(), 1, 2, 3);
    layer.push_record(edge1, edge2);
    // the record read last is of time 10: nothing lies before it
    assert!(layer.nothing_to_send());
    assert!(layer.get_batch().is_none());
    let (edge1, edge2) = parse(20, 20, "s".to_string(), 2, 2, 3);
    layer.push_record(edge1, edge2);
    let batch = layer.get_batch().expect("the edge of time 10 can leave");
    assert_eq!(batch.iter().map(|edge| (edge.timestamp, edge.id)).collect::<Vec<_>>(), vec![(10, 1)]);
    assert!(layer.get_batch().is_none());
    layer.finish();
    let batch = layer.get_batch().expect("the edge of time 20 can leave");
    assert_eq!(batch.iter().map(|edge| (edge.timestamp, edge.id)).collect::<Vec<_>>(), vec![(20, 2)]);
    let batch = layer.get_batch().expect("the edge of time 30 can leave");
    assert_eq!(batch.iter().map(|edge| (edge.timestamp, edge.id)).collect::<Vec<_>>(), vec![(30, 1)]);
    assert!(layer.get_batch().is_none());
}
