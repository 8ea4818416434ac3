use runloop::linked_list::{List, Node};

fn arena(n: usize) -> Vec<Node<usize>> {
    (0..n).map(Node::new).collect()
}

#[test]
fn push_back_then_pop_front_is_fifo() {
    let mut nodes = arena(4);
    let mut l: List<usize> = List::default();
    assert!(l.is_empty());
    l.push_back(&mut nodes, 2);
    l.push_back(&mut nodes, 0);
    l.push_back(&mut nodes, 3);
    assert!(!l.is_empty());
    assert_eq!(l.pop_front(&mut nodes), Some(2));
    assert_eq!(l.pop_front(&mut nodes), Some(0));
    assert_eq!(l.pop_front(&mut nodes), Some(3));
    assert_eq!(l.pop_front(&mut nodes), None);
    assert!(l.is_empty());
}

#[test]
fn push_front_then_pop_front_is_lifo() {
    let mut nodes = arena(3);
    let mut l: List<usize> = List::default();
    l.push_front(&mut nodes, 0);
    l.push_front(&mut nodes, 1);
    l.push_front(&mut nodes, 2);
    assert_eq!(l.clear(&nodes), vec![2, 1, 0]);
    assert!(l.is_empty());
}

#[test]
fn remove_unlinks_anywhere() {
    let mut nodes = arena(5);
    let mut l: List<usize> = List::default();
    for i in 0..5 {
        l.push_back(&mut nodes, i);
    }
    l.remove(&mut nodes, 2);
    l.remove(&mut nodes, 0);
    l.remove(&mut nodes, 4);
    // A removed node can be linked in again.
    l.push_front(&mut nodes, 2);
    assert_eq!(l.pop_front(&mut nodes), Some(2));
    assert_eq!(l.pop_front(&mut nodes), Some(1));
    l.remove(&mut nodes, 3);
    assert!(l.is_empty());
    assert_eq!(l.pop_front(&mut nodes), None);
}

#[test]
fn two_lists_share_an_arena() {
    let mut nodes = arena(4);
    let mut a: List<usize> = List::default();
    let mut b: List<usize> = List::default();
    a.push_back(&mut nodes, 0);
    b.push_back(&mut nodes, 1);
    a.push_back(&mut nodes, 2);
    b.push_back(&mut nodes, 3);
    a.remove(&mut nodes, 0);
    b.push_back(&mut nodes, 0);
    assert_eq!(a.clear(&nodes), vec![2]);
    assert_eq!(b.clear(&nodes), vec![1, 3, 0]);
}

#[test]
fn node_data_can_change() {
    let mut n = Node::new(5usize);
    *n.as_mut() = 6;
    assert_eq!(*n.as_ref(), 6);
}
