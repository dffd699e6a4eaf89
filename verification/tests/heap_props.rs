use ch_matrix::heap::{Query, QueryHeap};

fn q(node: u32, parent: u32, weight: i32, duration: i32) -> Query {
    Query { node, parent, weight, duration }
}

#[test]
fn pop_returns_queries_by_ascending_weight() {
    let mut heap = QueryHeap::new();
    heap.push(q(1, 1, 30, 3));
    heap.push(q(2, 2, 10, 1));
    heap.push(q(3, 3, 20, 2));
    assert_eq!(heap.pop().unwrap().node, 2);
    assert_eq!(heap.pop().unwrap().node, 3);
    assert_eq!(heap.pop().unwrap().node, 1);
    assert!(heap.pop().is_none());
}

#[test]
fn push_rekeys_an_existing_node() {
    // The re-keying law: the second push for the same node wins, whether
    // its weight is lower or higher.
    let mut heap = QueryHeap::new();
    heap.push(q(5, 5, 100, 1));
    heap.push(q(5, 7, 40, 2));
    let got = heap.get(5).unwrap();
    assert_eq!(got.parent, 7);
    assert_eq!(got.weight, 40);

    heap.push(q(5, 9, 250, 3));
    let got = heap.get(5).unwrap();
    assert_eq!(got.parent, 9);
    assert_eq!(got.weight, 250);

    // Only one entry exists for the node.
    assert_eq!(heap.pop().unwrap().node, 5);
    assert!(heap.pop().is_none());
}

#[test]
fn decrease_key_changes_pop_order() {
    let mut heap = QueryHeap::new();
    heap.push(q(1, 1, 10, 0));
    heap.push(q(2, 2, 20, 0));
    // Re-key node 2 below node 1.
    heap.push(q(2, 2, 5, 0));
    assert_eq!(heap.pop().unwrap().node, 2);
    assert_eq!(heap.pop().unwrap().node, 1);
}

#[test]
fn payloads_survive_popping() {
    // Retention after pop is what the stall test relies on.
    let mut heap = QueryHeap::new();
    heap.push(q(8, 3, 12, 34));
    let popped = heap.pop().unwrap();
    assert_eq!(popped.node, 8);
    let still_there = heap.get(8).unwrap();
    assert_eq!(still_there.parent, 3);
    assert_eq!(still_there.weight, 12);
    assert_eq!(still_there.duration, 34);
    assert!(heap.get(9).is_none());
}
