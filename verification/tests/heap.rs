use huffman_codec::huffman::Huffman;
use huffman_codec::node::Node;

fn leaves(freqs: &[u32]) -> Vec<Node> {
    freqs.iter().enumerate().map(|(i, f)| Node::new_node((b'a' + i as u8) as char, *f)).collect()
}

fn freqs(nodes: &[Node]) -> Vec<u32> {
    nodes.iter().map(|n| n.freq).collect()
}

fn symbols(nodes: &[Node]) -> String {
    nodes.iter().map(|n| n.ch).collect()
}

fn is_heap(nodes: &[Node]) -> bool {
    (0..nodes.len()).all(|i| {
        (2 * i + 1 >= nodes.len() || nodes[i].freq <= nodes[2 * i + 1].freq)
            && (2 * i + 2 >= nodes.len() || nodes[i].freq <= nodes[2 * i + 2].freq)
    })
}

#[test]
fn build_makes_a_heap() {
    let mut nodes = leaves(&[6, 5, 4, 3, 2, 1]);
    Huffman::build(&mut nodes);
    assert!(is_heap(&nodes));
    assert_eq!(freqs(&nodes), vec![1, 2, 4, 3, 5, 6]);
    assert_eq!(symbols(&nodes), "fecdba");
}

#[test]
fn build_keeps_the_nodes() {
    let mut state: u32 = 7;
    for len in 0..40usize {
        let mut input = Vec::new();
        for _ in 0..len {
            state = state.wrapping_mul(1103515245).wrapping_add(12345);
            input.push((state >> 16) % 10);
        }
        let mut nodes = leaves(&input);
        Huffman::build(&mut nodes);
        assert!(is_heap(&nodes));
        let mut before = input.clone();
        before.sort();
        let mut after = freqs(&nodes);
        after.sort();
        assert_eq!(before, after);
    }
}

#[test]
fn build_leaves_short_sequences_alone() {
    let mut none: Vec<Node> = Vec::new();
    Huffman::build(&mut none);
    assert!(none.is_empty());
    let mut one = leaves(&[3]);
    Huffman::build(&mut one);
    assert_eq!(freqs(&one), vec![3]);
}

#[test]
fn heapify_follows_the_lighter_child() {
    let mut nodes = leaves(&[9, 2, 3, 8, 1]);
    Huffman::heapify(&mut nodes, 0);
    assert_eq!(freqs(&nodes), vec![2, 1, 3, 8, 9]);
    let mut tie = leaves(&[5, 2, 2]);
    Huffman::heapify(&mut tie, 0);
    assert_eq!(symbols(&tie), "bac");
    let mut settled = leaves(&[1, 1, 1]);
    Huffman::heapify(&mut settled, 0);
    assert_eq!(symbols(&settled), "abc");
    Huffman::heapify(&mut settled, 3);
    assert_eq!(symbols(&settled), "abc");
}

#[test]
fn get_min_shifts_and_builds_again() {
    let mut nodes = leaves(&[1, 2, 4, 3, 5, 6]);
    let min = Huffman::get_min(&mut nodes);
    assert_eq!((min.ch, min.freq), ('a', 1));
    assert_eq!(freqs(&nodes), vec![2, 4, 3, 5, 6]);
    let mut other = leaves(&[1, 7, 2, 3]);
    let min = Huffman::get_min(&mut other);
    assert_eq!(min.freq, 1);
    assert_eq!(freqs(&other), vec![2, 7, 3]);
    let mut last = leaves(&[4]);
    assert_eq!(Huffman::get_min(&mut last).freq, 4);
    assert!(last.is_empty());
}

#[test]
fn insert_sifts_up_past_heavier_parents_only() {
    let mut nodes = leaves(&[2, 4, 3]);
    Huffman::insert(&mut nodes, Node::new_node('x', 1));
    assert_eq!(freqs(&nodes), vec![1, 2, 3, 4]);
    assert_eq!(symbols(&nodes), "xacb");
    Huffman::insert(&mut nodes, Node::new_node('y', 2));
    assert_eq!(symbols(&nodes), "xacby");
    let mut empty: Vec<Node> = Vec::new();
    Huffman::insert(&mut empty, Node::new_node('z', 9));
    assert_eq!(symbols(&empty), "z");
}

#[test]
fn merging_keeps_the_total_frequency() {
    let mut nodes = leaves(&[6, 5, 4, 3, 2, 1]);
    Huffman::build(&mut nodes);
    while nodes.len() > 1 {
        let left = Huffman::get_min(&mut nodes);
        let right = Huffman::get_min(&mut nodes);
        let mut top = Node::new_node('\0', left.freq + right.freq);
        top.left = Some(Box::new(left));
        top.right = Some(Box::new(right));
        Huffman::insert(&mut nodes, top);
        assert_eq!(freqs(&nodes).iter().sum::<u32>(), 21);
    }
    let root = Huffman::get_min(&mut nodes);
    assert_eq!(root.freq, 21);
    assert!(!root.is_leave());
    assert_eq!(root.left.as_ref().unwrap().freq + root.right.as_ref().unwrap().freq, 21);
}

#[test]
fn get_min_leaves_a_heap() {
    let mut nodes = leaves(&[1, 5, 2, 6, 7, 3, 4]);
    assert!(is_heap(&nodes));
    let min = Huffman::get_min(&mut nodes);
    assert_eq!(min.freq, 1);
    assert!(is_heap(&nodes));
    assert_eq!(freqs(&nodes), vec![2, 3, 4, 7, 5, 6]);
}

#[test]
fn get_min_yields_ascending_frequencies() {
    let mut nodes = leaves(&[1, 50, 2, 60, 70, 3, 4]);
    let mut seen = Vec::new();
    while !nodes.is_empty() {
        seen.push(Huffman::get_min(&mut nodes).freq);
        assert!(is_heap(&nodes));
    }
    assert_eq!(seen, vec![1, 2, 3, 4, 50, 60, 70]);
}

#[test]
fn insert_keeps_a_heap() {
    let mut nodes: Vec<Node> = Vec::new();
    for f in [9u32, 4, 7, 1, 8, 2, 2, 6, 3] {
        Huffman::insert(&mut nodes, Node::new_node('x', f));
        assert!(is_heap(&nodes));
    }
    assert_eq!(nodes[0].freq, 1);
}

#[test]
fn each_round_joins_the_two_lightest() {
    let mut nodes = leaves(&[10, 9, 8, 7, 6, 5, 4, 3, 2, 1]);
    Huffman::build(&mut nodes);
    let mut joined = Vec::new();
    while nodes.len() > 1 {
        let mut sorted = freqs(&nodes);
        sorted.sort();
        let left = Huffman::get_min(&mut nodes);
        let right = Huffman::get_min(&mut nodes);
        assert_eq!((left.freq, right.freq), (sorted[0], sorted[1]));
        joined.push((left.freq, right.freq));
        let mut top = Node::new_node('\0', left.freq + right.freq);
        top.left = Some(Box::new(left));
        top.right = Some(Box::new(right));
        Huffman::insert(&mut nodes, top);
    }
    assert_eq!(
        joined,
        vec![(1, 2), (3, 3), (4, 5), (6, 6), (7, 8), (9, 9), (10, 12), (15, 18), (22, 33)]
    );
}

#[test]
fn heapify_makes_a_heap_over_two_heaps() {
    // the subtrees at positions 1 and 2 are heaps; the top is too heavy
    let mut nodes = leaves(&[9, 1, 2, 3, 4, 5, 6]);
    Huffman::heapify(&mut nodes, 0);
    assert!(is_heap(&nodes));
    assert_eq!(freqs(&nodes), vec![1, 3, 2, 9, 4, 5, 6]);
    // within the subtree at position 1 only; the rest stays where it was
    let mut part = leaves(&[0, 8, 1, 2, 3, 7, 7]);
    Huffman::heapify(&mut part, 1);
    assert_eq!(freqs(&part), vec![0, 2, 1, 8, 3, 7, 7]);
}
