use fib_heap::FibonacciHeap;
use fib_heap::Heap;
use fib_heap::TreeNode;

#[test]
fn fib_heap_test() {
    let mut a: FibonacciHeap = FibonacciHeap::new();
    assert_eq!(a.find_minimum(), None);
    assert_eq!(a.extract_minimum(), None);

    a.insert(42);
    assert_eq!(a.find_minimum(), Some(42));
    a.insert(10);
    assert_eq!(a.find_minimum(), Some(10));

    let mut b: FibonacciHeap = FibonacciHeap::new();
    b.insert(2);

    let mut a = a.merge(b);
    assert_eq!(a.find_minimum(), Some(2));

    assert_eq!(a.extract_minimum(), Some(2));

    assert_eq!(a.find_minimum(), Some(10));
    assert_eq!(a.extract_minimum(), Some(10));
    assert_eq!(a.extract_minimum(), Some(42));
    assert_eq!(a.extract_minimum(), None);
    assert_eq!(a.extract_minimum(), None);

    let handle42 = a.insert(42);
    let handle10 = a.insert(10);
    assert_eq!(a.find_minimum(), Some(10));

    a.decrease_key(&handle42, 2);
    assert_eq!(a.find_minimum(), Some(2));

    a.decrease_key(&handle10, 1);
    assert_eq!(a.find_minimum(), Some(1));
}

#[test]
fn empty_heap_yields_nothing() {
    let mut h = FibonacciHeap::new();
    assert_eq!(h.count(), 0);
    assert_eq!(h.find_minimum(), None);
    assert_eq!(h.extract_minimum(), None);
    assert_eq!(h.count(), 0);
}

#[test]
fn insert_tracks_minimum() {
    let mut h = FibonacciHeap::new();
    h.insert(7);
    assert_eq!(h.find_minimum(), Some(7));
    h.insert(9);
    assert_eq!(h.find_minimum(), Some(7));
    h.insert(3);
    assert_eq!(h.find_minimum(), Some(3));
    h.insert(3);
    assert_eq!(h.find_minimum(), Some(3));
    assert_eq!(h.count(), 4);
}

#[test]
fn extraction_is_sorted_with_duplicates() {
    let mut h = FibonacciHeap::new();
    for v in [5u64, 3, 8, 3, 1, 9, 1, 5, 0, 2] {
        h.insert(v);
    }
    assert_eq!(h.count(), 10);
    let mut out = Vec::new();
    while let Some(v) = h.extract_minimum() {
        out.push(v);
    }
    assert_eq!(out, vec![0, 1, 1, 2, 3, 3, 5, 5, 8, 9]);
    assert_eq!(h.count(), 0);
}

#[test]
fn merge_counts_and_minimum() {
    let mut a = FibonacciHeap::new();
    a.insert(4);
    a.insert(9);
    a.insert(6);
    let mut b = FibonacciHeap::new();
    b.insert(5);
    b.insert(2);
    let mut m = a.merge(b);
    assert_eq!(m.count(), 5);
    assert_eq!(m.find_minimum(), Some(2));
    assert_eq!(m.extract_minimum(), Some(2));
    assert_eq!(m.extract_minimum(), Some(4));
    assert_eq!(m.extract_minimum(), Some(5));
    assert_eq!(m.extract_minimum(), Some(6));
    assert_eq!(m.extract_minimum(), Some(9));
    assert_eq!(m.extract_minimum(), None);
}

#[test]
fn merge_with_empty_operand() {
    let mut a = FibonacciHeap::new();
    a.insert(11);
    a.insert(4);
    let b = FibonacciHeap::new();
    let mut m = a.merge(b);
    assert_eq!(m.count(), 2);
    assert_eq!(m.find_minimum(), Some(4));

    let e = FibonacciHeap::new();
    let mut c = FibonacciHeap::new();
    c.insert(8);
    let mut m2 = e.merge(c);
    assert_eq!(m2.count(), 1);
    assert_eq!(m2.find_minimum(), Some(8));
}

#[test]
fn decrease_key_rejects_greater_value() {
    let mut h = FibonacciHeap::new();
    let h10 = h.insert(10);
    h.insert(20);
    h.decrease_key(&h10, 50);
    assert_eq!(h.count(), 2);
    assert_eq!(h.find_minimum(), Some(10));
    assert_eq!(h.extract_minimum(), Some(10));
    assert_eq!(h.extract_minimum(), Some(20));
    assert_eq!(h.extract_minimum(), None);
}

#[test]
fn decrease_key_after_consolidation() {
    let mut h = FibonacciHeap::new();
    let mut handles = Vec::new();
    for v in [50u64, 40, 30, 20, 10, 60, 70, 80] {
        handles.push(h.insert(v));
    }
    // extracting forces consolidation into trees
    assert_eq!(h.extract_minimum(), Some(10));
    // decrease a (possibly deep) node below the current minimum
    h.decrease_key(&handles[7], 5);
    assert_eq!(h.find_minimum(), Some(5));
    // and another, triggering cascading cuts on marked ancestors
    h.decrease_key(&handles[6], 1);
    assert_eq!(h.find_minimum(), Some(1));
    let mut out = Vec::new();
    while let Some(v) = h.extract_minimum() {
        out.push(v);
    }
    assert_eq!(out, vec![1, 5, 20, 30, 40, 50, 60]);
}

#[test]
fn stale_handle_is_rejected_after_extraction() {
    let mut h = FibonacciHeap::new();
    let h3 = h.insert(3);
    h.insert(7);
    assert_eq!(h.extract_minimum(), Some(3));
    // h3 now names a removed node; a later insert may reuse its slot
    h.insert(100);
    h.decrease_key(&h3, 1);
    assert_eq!(h.find_minimum(), Some(7));
    assert_eq!(h.count(), 2);
    h.delete(&h3);
    assert_eq!(h.count(), 2);
    assert_eq!(h.extract_minimum(), Some(7));
    assert_eq!(h.extract_minimum(), Some(100));
    assert_eq!(h.extract_minimum(), None);
}

#[test]
fn delete_removes_exactly_one_node() {
    let mut h = FibonacciHeap::new();
    h.insert(6);
    let h4 = h.insert(4);
    h.insert(2);
    h.insert(4);
    assert_eq!(h.count(), 4);
    h.delete(&h4);
    assert_eq!(h.count(), 3);
    assert_eq!(h.extract_minimum(), Some(2));
    assert_eq!(h.extract_minimum(), Some(4));
    assert_eq!(h.extract_minimum(), Some(6));
    assert_eq!(h.extract_minimum(), None);
}

#[test]
fn delete_inside_a_tree() {
    let mut h = FibonacciHeap::new();
    let mut handles = Vec::new();
    for v in [9u64, 8, 7, 6, 5, 4, 3, 2, 1] {
        handles.push(h.insert(v));
    }
    // consolidate, so some nodes sit below roots
    assert_eq!(h.extract_minimum(), Some(1));
    // delete a node wherever it ended up
    h.delete(&handles[3]); // the node holding 6
    assert_eq!(h.count(), 7);
    let mut out = Vec::new();
    while let Some(v) = h.extract_minimum() {
        out.push(v);
    }
    assert_eq!(out, vec![2, 3, 4, 5, 7, 8, 9]);
    // deleting through the same handle again changes nothing
    h.delete(&handles[3]);
    assert_eq!(h.count(), 0);
}

#[test]
fn decrease_key_scenario_two_handles() {
    let mut a = FibonacciHeap::new();
    let h42 = a.insert(42);
    let h10 = a.insert(10);
    assert_eq!(a.find_minimum(), Some(10));
    a.decrease_key(&h42, 2);
    assert_eq!(a.find_minimum(), Some(2));
    a.decrease_key(&h10, 1);
    assert_eq!(a.find_minimum(), Some(1));
    assert_eq!(a.extract_minimum(), Some(1));
    assert_eq!(a.extract_minimum(), Some(2));
    assert_eq!(a.extract_minimum(), None);
}

#[test]
fn trait_interface_drives_the_heap() {
    let mut h = FibonacciHeap::new();
    let hd = Heap::insert(&mut h, 12);
    Heap::decrease_key(&mut h, &hd, 3);
    assert_eq!(Heap::find_minimum(&h), Some(3));
    Heap::delete(&mut h, &hd);
    assert_eq!(Heap::extract_minimum(&mut h), None);
}

#[test]
fn tree_node_new_and_degree() {
    let n = TreeNode::new(5, None, 1);
    assert_eq!(n.degree(), 0);
    assert_eq!(n.element, 5);
    assert_eq!(n.handle_id, 1);
    assert!(!n.marked);
    let m = TreeNode {
        parent: Some(0),
        element: 9,
        marked: true,
        children: vec![1, 2, 3],
        handle_id: 4,
    };
    assert_eq!(m.degree(), 3);
}
