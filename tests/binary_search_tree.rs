use algorithms::binary_search_tree::BinarySearchTree;

fn tree() -> BinarySearchTree<&'static str> {
    let mut tree = BinarySearchTree::new();
    tree.insert("hello there");
    tree.insert("general kenobi");
    tree.insert("you are a bold one");
    tree.insert("kill him");
    tree.insert("back away...I will deal with this jedi slime myself");
    tree.insert("your move");
    tree.insert("you fool");
    tree
}

#[test]
fn binary_search_tree_test_search() {
    let tree = tree();
    assert!(tree.search(&"hello there"));
    assert!(tree.search(&"you are a bold one"));
    assert!(tree.search(&"general kenobi"));
    assert!(tree.search(&"you fool"));
    assert!(tree.search(&"kill him"));
    assert!(
        !tree.search(&"but i was going to tosche station to pick up some power converters",)
    );
    assert!(!tree.search(&"only a sith deals in absolutes"));
    assert!(!tree.search(&"you underestimate my power"));
}

#[test]
fn test_maximum_and_minimum() {
    let tree = tree();
    assert_eq!(*tree.maximum().unwrap(), "your move");
    assert_eq!(
        *tree.minimum().unwrap(),
        "back away...I will deal with this jedi slime myself"
    );

    let mut tree2: BinarySearchTree<i32> = BinarySearchTree::new();
    assert!(tree2.maximum().is_none());
    assert!(tree2.minimum().is_none());
    tree2.insert(0);
    assert_eq!(*tree2.minimum().unwrap(), 0);
    assert_eq!(*tree2.maximum().unwrap(), 0);
    tree2.insert(-5);
    assert_eq!(*tree2.minimum().unwrap(), -5);
    assert_eq!(*tree2.maximum().unwrap(), 0);
    tree2.insert(5);
    assert_eq!(*tree2.minimum().unwrap(), -5);
    assert_eq!(*tree2.maximum().unwrap(), 5);
}

#[test]
fn test_iterator() {
    let tree = tree();
    let mut iter = tree.iter();
    assert_eq!(
        iter.next().unwrap(),
        &"back away...I will deal with this jedi slime myself"
    );
    assert_eq!(iter.next().unwrap(), &"general kenobi");
    assert_eq!(iter.next().unwrap(), &"hello there");
    assert_eq!(iter.next().unwrap(), &"kill him");
    assert_eq!(iter.next().unwrap(), &"you are a bold one");
    assert_eq!(iter.next().unwrap(), &"you fool");
    assert_eq!(iter.next().unwrap(), &"your move");
    assert_eq!(iter.next(), None);
    assert_eq!(iter.next(), None);
}

#[test]
fn empty_tree_walk_ends_at_once() {
    let tree: BinarySearchTree<i32> = BinarySearchTree::new();
    let mut iter = tree.iter();
    assert_eq!(iter.next(), None);
    assert!(!tree.search(&1));
}

#[test]
fn equal_values_are_kept() {
    let mut tree = BinarySearchTree::new();
    tree.insert(3);
    tree.insert(3);
    tree.insert(1);
    let mut iter = tree.iter();
    assert_eq!(iter.next(), Some(&1));
    assert_eq!(iter.next(), Some(&3));
    assert_eq!(iter.next(), Some(&3));
    assert_eq!(iter.next(), None);
}
