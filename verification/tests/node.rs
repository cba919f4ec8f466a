use huffman_codec::error::Error;
use huffman_codec::huffman::TravRes;
use huffman_codec::node::Node;

#[test]
fn ordering() {
    let node1 = Node::new_node('a', 1);
    let node2 = Node::new_node('b', 2);
    let node3 = Node::new_node('d', 3);
    let node4 = Node::new_node('d', 3);
    assert!(node1 != node2);
    assert!(node3 == node4);
    assert!(node1 < node2);
    assert!(node2 > node1);
}

#[test]
fn flatten() {
    let node = Node::new_node('a', 1);
    let flattened = vec![97, 0, 0, 0, 1];
    assert_eq!(node.flat(), Some(flattened.clone()));
    let from = Node::from_flat(&flattened).unwrap();
    assert_eq!(from.ch, 'a');
    assert_eq!(from.freq, 1);
}

#[test]
fn is_a_leave() {
    let node = Node::new_node('a', 1);
    assert!(node.is_leave());
    let mut node_non_leave = Node::new_node('b', 2);
    node_non_leave.left = Some(Box::new(node));
    assert!(!node_non_leave.is_leave());
}

#[test]
fn traverse() {
    let node1 = Node::new_node('a', 1);
    let node3 = Node::new_node('d', 3);
    let mut node_a = Node::new_node('\0', 4);
    node_a.left = Some(Box::new(node1.clone()));
    node_a.right = Some(Box::new(node3.clone()));

    assert!(node_a.next(0).unwrap() == TravRes::Node(&Box::new(node1)));
    assert!(node_a.next(1).unwrap() == TravRes::Node(&Box::new(node3.clone())));
    assert!(node3.next(0).unwrap() == TravRes::Char('d'));
    assert!(node_a.next(2).is_err());
}

#[test]
fn ordering_goes_by_frequency_alone() {
    let light = Node::new_node('z', 1);
    let heavy = Node::new_node('a', 9);
    assert!(light < heavy);
    assert!(heavy > light);
    assert!(!(heavy < light));
    assert!(Node::new_node('x', 5) == Node::new_node('y', 5));
    assert!(light <= heavy && heavy >= light);
}

#[test]
fn flat_form_is_symbol_then_big_endian_frequency() {
    let node = Node::new_node('\u{e9}', 0x0102_0304);
    assert_eq!(node.flat(), Some(vec![0xe9, 1, 2, 3, 4]));
    let wide = Node::new_node('\u{141}', u32::MAX);
    assert_eq!(wide.flat(), Some(vec![0x41, 255, 255, 255, 255]));
    let mut inner = Node::new_node('\0', 2);
    inner.left = Some(Box::new(Node::new_node('a', 1)));
    inner.right = Some(Box::new(Node::new_node('b', 1)));
    assert_eq!(inner.flat(), None);
}

#[test]
fn from_flat_reads_the_first_five_bytes() {
    let from = Node::from_flat(&[200, 0, 0, 1, 0, 77, 78]).unwrap();
    assert_eq!(from.ch, '\u{c8}');
    assert_eq!(from.freq, 256);
    assert!(from.is_leave());
}

#[test]
fn from_flat_rejects_short_records() {
    for len in 0..5usize {
        let data = vec![1u8; len];
        assert!(matches!(Node::from_flat(&data), Err(Error::Conversion(_, _))));
    }
}

#[test]
fn traversal_errors() {
    let mut half = Node::new_node('\0', 1);
    half.left = Some(Box::new(Node::new_node('a', 1)));
    assert!(matches!(half.next(1), Err(Error::Heapify(_, _))));
    assert!(matches!(half.next(7), Err(Error::Heapify(_, _))));
    assert!(half.next(0).unwrap() == TravRes::Node(&Box::new(Node::new_node('q', 1))));
    let leaf = Node::new_node('k', 3);
    assert!(leaf.next(9).unwrap() == TravRes::Char('k'));
}

#[test]
fn clone_copies_the_whole_tree() {
    let mut top = Node::new_node('\0', 3);
    top.left = Some(Box::new(Node::new_node('a', 1)));
    top.right = Some(Box::new(Node::new_node('b', 2)));
    let copy = top.clone();
    assert_eq!(copy.ch, '\0');
    assert_eq!(copy.freq, 3);
    assert_eq!(copy.left.as_ref().unwrap().ch, 'a');
    assert_eq!(copy.right.as_ref().unwrap().ch, 'b');
    assert_eq!(copy.right.as_ref().unwrap().freq, 2);
}
