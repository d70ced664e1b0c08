use vstd::prelude::*;

verus! {

/// A node of a B-tree: its keys and its children.
pub struct Node<T> {
    pub keys: Vec<T>,
    pub children: Vec<Node<T>>,
}

/// The sizes that a B-tree of a given degree works with.
pub struct BTreeProps {
    pub degree: usize,
    pub max_keys: usize,
    pub mid_key_index: usize,
}

/// A B-tree: a root node and its sizes.
pub struct BTree<T> {
    pub root: Node<T>,
    pub props: BTreeProps,
}

impl<T> Node<T> {
    /// A node with the given keys and children, each empty when not given.
    pub fn new(degree: usize, keys: Option<Vec<T>>, children: Option<Vec<Node<T>>>) -> (r: Node<T>)
        requires
            degree >= 1,
        ensures
            r.keys@ == match keys {
                Some(k) => k@,
                None => Seq::empty(),
            },
            r.children@ == match children {
                Some(c) => c@,
                None => Seq::empty(),
            },
    {
        Node {
            keys: match keys {
                None => Vec::with_capacity(degree - 1),
                Some(keys) => keys,
            },
            children: match children {
                None => Vec::with_capacity(degree - 1),
                Some(children) => children,
            },
        }
    }
}

impl BTreeProps {
    /// The sizes for `degree`: at most `degree - 1` keys in a node, split
    /// around the key at `(degree - 1) / 2`.
    pub fn new(degree: usize) -> (r: BTreeProps)
        requires
            degree >= 1,
        ensures
            r.degree == degree,
            r.max_keys == degree - 1,
            r.mid_key_index == (degree - 1) / 2,
    {
        BTreeProps { degree, max_keys: degree - 1, mid_key_index: (degree - 1) / 2 }
    }

    /// Whether `node` holds as many keys as a node may.
    pub fn is_maxed_out<T>(&self, node: &Node<T>) -> (r: bool)
        ensures
            r == (node.keys@.len() == self.max_keys),
    {
        node.keys.len() == self.max_keys
    }
}

impl<T> BTree<T> {
    /// An empty B-tree whose degree is twice `branch_factor`.
    pub fn new(branch_factor: usize) -> (r: BTree<T>)
        requires
            1 <= branch_factor,
            branch_factor * 2 <= usize::MAX,
        ensures
            r.props.degree == branch_factor * 2,
            r.props.max_keys == branch_factor * 2 - 1,
            r.props.mid_key_index == (branch_factor * 2 - 1) / 2,
            r.root.keys@.len() == 0,
            r.root.children@.len() == 0,
    {
        let degree = branch_factor * 2;
        BTree { root: Node::new(degree, None, None), props: BTreeProps::new(degree) }
    }

    /// The first step of an insertion: a root that is full moves down, as
    /// the only child of a new empty root. The key itself is not stored.
    pub fn insert(&mut self, key: T)
        requires
            old(self).props.degree >= 1,
        ensures
            final(self).props == old(self).props,
            old(self).root.keys@.len() == old(self).props.max_keys ==> {
                &&& final(self).root.keys@.len() == 0
                &&& final(self).root.children@ == seq![old(self).root]
            },
            old(self).root.keys@.len() != old(self).props.max_keys ==> final(self).root == old(self).root,
    {
        if self.props.is_maxed_out(&self.root) {
            let mut new_root = Node::new(self.props.degree, None, None);
            std::mem::swap(&mut new_root, &mut self.root);
            self.root.children.insert(0, new_root);
        }
    }
}

} // verus!
