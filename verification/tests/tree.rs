use compressor::huffman::frequency::Frequencies;
use compressor::huffman::tree::HuffmanNode;

fn find_leaf(node: &HuffmanNode, byte: u8) -> Option<u64> {
    match node {
        HuffmanNode::Leaf { byte: b, fequency } if *b == byte => Some(*fequency),
        HuffmanNode::Internal { left, right, .. } => {
            find_leaf(left, byte).or_else(|| find_leaf(right, byte))
        }
        _ => None,
    }
}

fn has_internal(node: &HuffmanNode) -> bool {
    match node {
        HuffmanNode::Internal { .. } => true,
        HuffmanNode::Leaf { .. } => false,
    }
}

#[test]
fn test_leaf_frequency() {
    let leaf = HuffmanNode::Leaf {
        byte: 42,
        fequency: 10,
    };
    assert_eq!(leaf.frequency(), 10);
}

#[test]
fn test_internal_frequency() {
    let left = HuffmanNode::Leaf {
        byte: 1,
        fequency: 5,
    };
    let right = HuffmanNode::Leaf {
        byte: 2,
        fequency: 15,
    };
    let internal = HuffmanNode::Internal {
        left: Box::new(left),
        right: Box::new(right),
        frequency: 20,
    };
    assert_eq!(internal.frequency(), 20);
}

#[test]
fn test_from_array_creates_correct_leaves() {
    let mut freqs = Frequencies::new();
    for _ in 0..3 {
        freqs.count_byte(10);
    }
    for _ in 0..5 {
        freqs.count_byte(20);
    }

    let root = HuffmanNode::from_frequencies(&freqs);
    assert_eq!(root.frequency(), 8);

    assert_eq!(find_leaf(&root, 10), Some(3));
    assert_eq!(find_leaf(&root, 20), Some(5));
}

#[test]
fn test_ordering_of_nodes() {
    // the builder extracts the lighter node first, so it becomes the left child
    let mut freqs = Frequencies::new();
    freqs.count_byte(0);
    for _ in 0..10 {
        freqs.count_byte(1);
    }

    let root = HuffmanNode::from_frequencies(&freqs);
    match root {
        HuffmanNode::Internal { left, right, .. } => {
            let first = *left;
            assert_eq!(first.frequency(), 1);
            let second = *right;
            assert_eq!(second.frequency(), 10);
        }
        HuffmanNode::Leaf { .. } => panic!("two symbols must build an internal root"),
    }
}

#[test]
fn test_tree_combination() {
    let mut freqs = Frequencies::new();
    for _ in 0..2 {
        freqs.count_byte(1);
    }
    for _ in 0..3 {
        freqs.count_byte(2);
    }
    for _ in 0..5 {
        freqs.count_byte(3);
    }

    let root = HuffmanNode::from_frequencies(&freqs);
    assert_eq!(root.frequency(), 10);

    assert!(has_internal(&root));
}
