use runloop::binary_heap::{BinaryHeap, Node, DETACHED};

fn keys(h: BinaryHeap<char>) -> Vec<u64> {
    h.into_vec().iter().map(|n| *Node::key(n)).collect()
}

fn drain(h: &mut BinaryHeap<char>) -> Vec<(u64, char)> {
    let mut out = Vec::new();
    while let Some(n) = h.pop() {
        assert_eq!(Node::index(&n), DETACHED);
        out.push((*Node::key(&n), *n.as_ref()));
    }
    out
}

#[test]
fn new_node_is_detached() {
    let n = Node::new(5, 'a');
    assert_eq!(Node::index(&n), DETACHED);
    assert_eq!(*Node::key(&n), 5);
    assert_eq!(*n.as_ref(), 'a');
}

#[test]
fn set_key_only_when_detached() {
    let mut n = Node::new(5, 'a');
    assert_eq!(Node::set_key(&mut n, 7), None);
    assert_eq!(*Node::key(&n), 7);
    let mut h = BinaryHeap::new();
    h.push(n);
    let mut v = h.into_vec();
    assert_eq!(Node::index(&v[0]), 0);
    assert_eq!(Node::set_key(&mut v[0], 9), Some(9));
    assert_eq!(*Node::key(&v[0]), 7);
}

#[test]
fn clone_is_detached() {
    let mut h = BinaryHeap::new();
    h.push(Node::new(3, 'x'));
    let top = h.peek().unwrap();
    assert_eq!(Node::index(top), 0);
    let c = top.clone();
    assert_eq!(Node::index(&c), DETACHED);
    assert_eq!(*Node::key(&c), 3);
    assert_eq!(*c.as_ref(), 'x');
}

#[test]
fn pops_in_key_order() {
    let mut h = BinaryHeap::with_capacity(8);
    for (k, c) in [(5, 'e'), (1, 'a'), (4, 'd'), (2, 'b'), (9, 'i'), (3, 'c'), (7, 'g')] {
        h.push(Node::new(k, c));
    }
    assert_eq!(h.len(), 7);
    assert!(!h.is_empty());
    assert_eq!(*Node::key(h.peek().unwrap()), 1);
    assert_eq!(
        drain(&mut h),
        vec![(1, 'a'), (2, 'b'), (3, 'c'), (4, 'd'), (5, 'e'), (7, 'g'), (9, 'i')]
    );
    assert!(h.is_empty());
    assert!(h.peek().is_none());
    assert!(h.pop().is_none());
}

#[test]
fn push_then_pop_gives_the_item_back() {
    let mut h = BinaryHeap::new();
    h.push(Node::new(42, 'z'));
    let n = h.pop().unwrap();
    assert_eq!(*Node::key(&n), 42);
    assert_eq!(*n.as_ref(), 'z');
    assert!(h.is_empty());
}

#[test]
fn push_sifts_up_to_the_root() {
    let mut h = BinaryHeap::new();
    h.push(Node::new(5, 'a'));
    h.push(Node::new(6, 'b'));
    h.push(Node::new(1, 'c'));
    assert_eq!(keys(h), vec![1, 6, 5]);
}

#[test]
fn positions_follow_the_nodes() {
    let mut h = BinaryHeap::new();
    for k in [8, 3, 6, 1, 9, 2] {
        h.push(Node::new(k, 'q'));
    }
    let v = h.into_vec();
    for (i, n) in v.iter().enumerate() {
        assert_eq!(Node::index(n), i);
    }
}

#[test]
fn update_lowers_and_raises_keys() {
    let mut h = BinaryHeap::new();
    for (k, c) in [(10, 'a'), (20, 'b'), (30, 'c'), (40, 'd')] {
        h.push(Node::new(k, c));
    }
    // Lower the key of the node at the last position below every other key.
    h.update(3, 5);
    assert_eq!(*h.peek().unwrap().as_ref(), 'd');
    // Raise the root's key above every other key.
    h.update(0, 50);
    assert_eq!(*h.peek().unwrap().as_ref(), 'a');
    // The same key changes nothing.
    h.update(0, 10);
    assert_eq!(drain(&mut h), vec![(10, 'a'), (20, 'b'), (30, 'c'), (50, 'd')]);
}

#[test]
fn remove_root_keeps_order() {
    let mut h = BinaryHeap::new();
    for k in [4, 8, 6, 9, 10, 7] {
        h.push(Node::new(k, 'r'));
    }
    let n = h.remove(0);
    assert_eq!(*Node::key(&n), 4);
    assert_eq!(Node::index(&n), DETACHED);
    assert_eq!(drain(&mut h).iter().map(|p| p.0).collect::<Vec<_>>(), vec![6, 7, 8, 9, 10]);
}

#[test]
fn remove_the_only_node() {
    let mut h = BinaryHeap::new();
    h.push(Node::new(1, 's'));
    let n = h.remove(0);
    assert_eq!(*n.as_ref(), 's');
    assert!(h.is_empty());
}

#[test]
fn remove_inside_never_lifts_above_its_place() {
    // Keys in heap order: 1; 10, 2; 11, 12, 3, 4.
    let mut h = BinaryHeap::new();
    for k in [1, 10, 2, 11, 12, 3, 4] {
        h.push(Node::new(k, 't'));
    }
    let n = h.remove(3);
    assert_eq!(*Node::key(&n), 11);
    // The last node (key 4) fills position 3 and stays below key 10.
    assert_eq!(keys(h), vec![1, 10, 2, 4, 12, 3]);
}

#[test]
fn clear_hands_out_nodes_in_heap_order() {
    let mut h = BinaryHeap::new();
    for k in [3, 1, 2] {
        h.push(Node::new(k, 'u'));
    }
    let removed = h.clear();
    assert!(h.is_empty());
    let ks: Vec<u64> = removed.iter().map(|n| *Node::key(n)).collect();
    assert_eq!(ks, vec![1, 3, 2]);
    assert_eq!(Node::index(&removed[2]), 2);
}

#[test]
fn default_heap_is_empty() {
    let h: BinaryHeap<u8> = Default::default();
    assert_eq!(h.len(), 0);
}

#[test]
fn key_mut_changes_the_key() {
    let mut n = Node::new(1, 'k');
    *Node::key_mut(&mut n) = 12;
    assert_eq!(*Node::key(&n), 12);
    assert_eq!(Node::index(&n), DETACHED);
}

#[test]
fn get_finds_nodes_by_position() {
    let mut h = BinaryHeap::new();
    for k in [4, 1, 3] {
        h.push(Node::new(k, 'g'));
    }
    assert_eq!(*Node::key(h.get(0).unwrap()), 1);
    assert_eq!(Node::index(h.get(2).unwrap()), 2);
    assert!(h.get(3).is_none());
}

#[test]
fn pop_sinks_the_last_node_to_the_bottom_and_back_up() {
    let mut h = BinaryHeap::new();
    for k in [1, 2, 3, 10, 11, 4, 5] {
        h.push(Node::new(k, 'p'));
    }
    assert_eq!(*Node::key(&h.pop().unwrap()), 1);
    assert_eq!(keys(h), vec![2, 5, 3, 10, 11, 4]);
}

#[test]
fn remove_the_last_position() {
    let mut h = BinaryHeap::new();
    for k in [1, 2, 3] {
        h.push(Node::new(k, 'l'));
    }
    let n = h.remove(2);
    assert_eq!(*Node::key(&n), 3);
    assert_eq!(Node::index(&n), DETACHED);
    assert_eq!(keys(h), vec![1, 2]);
}

#[test]
fn remove_inside_keeps_order_when_the_last_node_fits() {
    let mut h = BinaryHeap::new();
    for k in [1, 3, 2, 4, 5, 6, 7] {
        h.push(Node::new(k, 'm'));
    }
    // The last node (key 7) is not smaller than the key at the parent of 3.
    let n = h.remove(3);
    assert_eq!(*Node::key(&n), 4);
    assert_eq!(drain(&mut h).iter().map(|p| p.0).collect::<Vec<_>>(), vec![1, 2, 3, 5, 6, 7]);
}

#[test]
fn draining_gives_every_entry_once_in_key_order() {
    let mut h = BinaryHeap::new();
    let input = [(7, 'a'), (3, 'b'), (7, 'c'), (1, 'd'), (3, 'e'), (9, 'f')];
    for (k, c) in input {
        h.push(Node::new(k, c));
    }
    let out = drain(&mut h);
    let ks: Vec<u64> = out.iter().map(|p| p.0).collect();
    assert_eq!(ks, vec![1, 3, 3, 7, 7, 9]);
    let mut got: Vec<(u64, char)> = out.clone();
    got.sort();
    let mut want: Vec<(u64, char)> = input.to_vec();
    want.sort();
    assert_eq!(got, want);
}
