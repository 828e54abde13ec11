use pagestore::tree::{InternalNode, Pos};

fn node_with(keys: &[(u32, u32)], right_most: u32) -> InternalNode {
    let mut bytes = Box::new([0u8; 4096]);
    bytes[0] = 1;
    bytes[6..10].copy_from_slice(&(keys.len() as u32).to_ne_bytes());
    bytes[10..14].copy_from_slice(&right_most.to_ne_bytes());
    for (i, (child, key)) in keys.iter().enumerate() {
        let at = 14 + 8 * i;
        bytes[at..at + 4].copy_from_slice(&child.to_ne_bytes());
        bytes[at + 4..at + 8].copy_from_slice(&key.to_ne_bytes());
    }
    InternalNode::new(bytes)
}

#[test]
fn internal_page_reads_its_header_and_cells() {
    let node = node_with(&[(3, 10), (5, 20), (8, 30)], 9);
    assert_eq!(node.num_keys(), 3);
    assert_eq!(node.right_most_child(), 9);
    assert_eq!(node.max_cells(), 510);
    assert_eq!(node.key(0), 10);
    assert_eq!(node.key(1), 20);
    assert_eq!(node.key(2), 30);
    assert_eq!(InternalNode::cell_offset(0), 14);
    assert_eq!(InternalNode::cell_offset(2), 30);
    assert_eq!(InternalNode::key_offset(2), 34);
    assert_eq!(InternalNode::key_offset(509) + 4, 4094);
}

#[test]
fn children_hang_left_and_right_of_a_key() {
    let node = node_with(&[(3, 10), (5, 20), (8, 30)], 9);
    assert_eq!(node.children(0, Pos::Left), 3);
    assert_eq!(node.children(0, Pos::Right), 5);
    assert_eq!(node.children(1, Pos::Left), 5);
    assert_eq!(node.children(1, Pos::Right), 8);
    assert_eq!(node.children(2, Pos::Left), 8);
    assert_eq!(node.children(2, Pos::Right), 9);
    assert_eq!(node.children(3, Pos::Left), 9);
    let empty = node_with(&[], 4);
    assert_eq!(empty.children(0, Pos::Left), 4);
}

#[test]
fn root_flag_is_set_and_read() {
    let mut node = node_with(&[(1, 2)], 3);
    assert!(!node.root_node());
    let before = node.bytes.clone();
    node.set_root_node();
    assert!(node.root_node());
    assert_eq!(node.bytes[1], 1);
    assert_eq!(node.bytes[0], before[0]);
    assert_eq!(&node.bytes[2..], &before[2..]);
    assert_eq!(node.key(0), 2);
}
