use algorithms::b_tree::{BTree, BTreeProps, Node};

#[test]
fn b_tree_test_search() {
    assert_eq!(1, 1);
}

#[test]
fn props_follow_degree() {
    let props = BTreeProps::new(6);
    assert_eq!(props.degree, 6);
    assert_eq!(props.max_keys, 5);
    assert_eq!(props.mid_key_index, 2);
    let full: Node<i32> = Node::new(6, Some(vec![1, 2, 3, 4, 5]), None);
    assert!(props.is_maxed_out(&full));
    let part: Node<i32> = Node::new(6, Some(vec![1, 2]), None);
    assert!(!props.is_maxed_out(&part));
}

#[test]
fn full_root_moves_down() {
    let mut tree: BTree<i32> = BTree::new(1);
    assert_eq!(tree.props.max_keys, 1);
    tree.root.keys.push(7);
    tree.insert(8);
    assert!(tree.root.keys.is_empty());
    assert_eq!(tree.root.children.len(), 1);
    assert_eq!(tree.root.children[0].keys, vec![7]);
}
