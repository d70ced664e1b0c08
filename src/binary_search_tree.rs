use std::cmp::Ordering;
use vstd::prelude::*;
use vstd::laws_cmp::obeys_cmp;
use vstd::laws_eq::obeys_concrete_eq;
use vstd::std_specs::cmp::{OrdSpec, PartialOrdSpec};

verus! {

/// A binary search tree: an empty tree holds no value; every other node
/// holds one, smaller values to its left and the others to its right.
pub struct BinarySearchTree<T> {
    pub value: Option<T>,
    pub left: Option<Box<BinarySearchTree<T>>>,
    pub right: Option<Box<BinarySearchTree<T>>>,
}

impl<T> BinarySearchTree<T> {
    /// The values of the tree, in order: left subtree, node, right subtree.
    pub open spec fn in_order(self) -> Seq<T>
        decreases self,
    {
        let l = match self.left {
            Some(b) => b.in_order(),
            None => Seq::empty(),
        };
        let r = match self.right {
            Some(b) => b.in_order(),
            None => Seq::empty(),
        };
        match self.value {
            Some(v) => l + seq![v] + r,
            None => l + r,
        }
    }

    pub open spec fn left_order(self) -> Seq<T> {
        match self.left {
            Some(b) => b.in_order(),
            None => Seq::empty(),
        }
    }

    pub open spec fn right_order(self) -> Seq<T> {
        match self.right {
            Some(b) => b.in_order(),
            None => Seq::empty(),
        }
    }

    /// Only an empty tree lacks a value, and it has no subtrees.
    pub open spec fn wf(self) -> bool
        decreases self,
    {
        &&& self.value is None ==> self.left is None && self.right is None
        &&& match self.left {
            Some(b) => b.value is Some && b.wf(),
            None => true,
        }
        &&& match self.right {
            Some(b) => b.value is Some && b.wf(),
            None => true,
        }
    }

    /// An empty tree.
    pub fn new() -> (r: BinarySearchTree<T>)
        ensures
            r.wf(),
            r.in_order() == Seq::<T>::empty(),
            r.value is None && r.left is None && r.right is None,
    {
        BinarySearchTree { value: None, left: None, right: None }
    }

    /// The leftmost value, which is the first in order.
    pub fn minimum(&self) -> (r: Option<&T>)
        requires
            self.wf(),
        ensures
            match r {
                Some(v) => self.in_order().len() > 0 && *v == self.in_order()[0],
                None => self.in_order().len() == 0,
            },
        decreases self,
    {
        match &self.left {
            None => {
                assert(self.value is Some ==> self.in_order()[0] == self.value->0);
                self.value.as_ref()
            },
            Some(node) => {
                let r = node.minimum();
                assert(self.in_order() =~= node.in_order() + seq![self.value->0] + self.right_order());
                r
            },
        }
    }

    /// The rightmost value, which is the last in order.
    pub fn maximum(&self) -> (r: Option<&T>)
        requires
            self.wf(),
        ensures
            match r {
                Some(v) => self.in_order().len() > 0 && *v == self.in_order().last(),
                None => self.in_order().len() == 0,
            },
        decreases self,
    {
        match &self.right {
            None => {
                self.value.as_ref()
            },
            Some(node) => {
                let r = node.maximum();
                assert(self.in_order() =~= self.left_order() + seq![self.value->0] + node.in_order());
                r
            },
        }
    }
}


/// `T`'s comparison is a total order, and values compare equal only when
/// they are the same value.
pub open spec fn lawful_order<T: Ord>() -> bool {
    obeys_cmp::<T>() && obeys_concrete_eq::<T>()
}

proof fn lemma_lawful_order<T: Ord>()
    requires
        lawful_order::<T>(),
    ensures
        T::obeys_cmp_spec(),
        T::obeys_partial_cmp_spec(),
        forall|x: T, y: T| #[trigger] x.partial_cmp_spec(&y) == Some(x.cmp_spec(&y)),
        forall|x: T, y: T| #[trigger] x.cmp_spec(&y) == Ordering::Equal <==> x == y,
        forall|x: T, y: T| #[trigger] x.cmp_spec(&y) == Ordering::Less <==> y.cmp_spec(&x) == Ordering::Greater,
{
    reveal(vstd::laws_cmp::obeys_cmp_partial_ord);
    reveal(vstd::laws_cmp::obeys_cmp_ord);
    reveal(vstd::laws_cmp::obeys_partial_cmp_spec_properties);
    reveal(obeys_concrete_eq);
    assert forall|x: T, y: T| #[trigger] x.cmp_spec(&y) == Ordering::Less <==> y.cmp_spec(&x) == Ordering::Greater by {
        assert(x.partial_cmp_spec(&y) == Some(x.cmp_spec(&y)));
        assert(y.partial_cmp_spec(&x) == Some(y.cmp_spec(&x)));
    }
    assert forall|x: T, y: T| #[trigger] x.cmp_spec(&y) == Ordering::Equal <==> x == y by {
        assert(x.partial_cmp_spec(&y) == Some(x.cmp_spec(&y)));
    }
}

impl<T: Ord> BinarySearchTree<T> {
    /// Every value in a left subtree is smaller than the node's value, and
    /// no value in a right subtree is.
    pub open spec fn ordered(self) -> bool
        decreases self,
    {
        &&& match self.value {
            Some(v) => {
                &&& forall|x: T| #[trigger] self.left_order().contains(x) ==> x.cmp_spec(&v) == Ordering::Less
                &&& forall|x: T| #[trigger] self.right_order().contains(x) ==> x.cmp_spec(&v) != Ordering::Less
            },
            None => true,
        }
        &&& match self.left {
            Some(b) => b.ordered(),
            None => true,
        }
        &&& match self.right {
            Some(b) => b.ordered(),
            None => true,
        }
    }

    /// Whether the tree holds a value equal to `value`, looked up along the
    /// path that the order of the tree gives.
    pub fn search(&self, value: &T) -> (r: bool)
        requires
            self.wf(),
        ensures
            T::obeys_cmp_spec() && r ==> exists|i: int|
                0 <= i < self.in_order().len() && (#[trigger] self.in_order()[i]).cmp_spec(value)
                    == Ordering::Equal,
            lawful_order::<T>() && self.ordered() ==> (r <==> self.in_order().contains(*value)),
        decreases self,
    {
        proof {
            if lawful_order::<T>() {
                lemma_lawful_order::<T>();
            }
        }
        match &self.value {
            None => {
                assert(self.in_order() =~= Seq::<T>::empty());
                false
            },
            Some(key) => {
                let ghost l = self.left_order();
                let ghost rr = self.right_order();
                assert(self.in_order() =~= l + seq![*key] + rr);
                proof {
                    assert forall|x: T| self.in_order().contains(x) <==> (l.contains(x) || x == *key || rr.contains(x)) by {
                        if self.in_order().contains(x) {
                            let i = choose|i: int| 0 <= i < self.in_order().len() && self.in_order()[i] == x;
                            if i < l.len() {
                                assert(l[i] == x);
                            } else if i > l.len() {
                                assert(rr[i - l.len() - 1] == x);
                            }
                        }
                        if l.contains(x) {
                            let i = choose|i: int| 0 <= i < l.len() && l[i] == x;
                            assert(self.in_order()[i] == x);
                        }
                        if x == *key {
                            assert(self.in_order()[l.len() as int] == x);
                        }
                        if rr.contains(x) {
                            let i = choose|i: int| 0 <= i < rr.len() && rr[i] == x;
                            assert(self.in_order()[i + l.len() + 1] == x);
                        }
                    }
                }
                match key.cmp(value) {
                    Ordering::Equal => {
                        assert(self.in_order()[self.left_order().len() as int] == *key);
                        true
                    },
                    Ordering::Greater => match &self.left {
                        None => {
                            proof {
                                if lawful_order::<T>() && self.ordered() {
                                    assert(l =~= Seq::<T>::empty());
                                    if rr.contains(*value) {
                                        assert(value.cmp_spec(key) != Ordering::Less);
                                    }
                                }
                            }
                            false
                        },
                        Some(node) => {
                            let r = node.search(value);
                            proof {
                                if T::obeys_cmp_spec() && r {
                                    let i = choose|i: int|
                                        0 <= i < node.in_order().len() && (#[trigger] node.in_order()[i]).cmp_spec(value) == Ordering::Equal;
                                    assert(self.in_order()[i] == node.in_order()[i]);
                                }
                                if lawful_order::<T>() && self.ordered() {
                                    assert(node.in_order() == l);
                                    if rr.contains(*value) {
                                        assert(value.cmp_spec(key) != Ordering::Less);
                                    }
                                }
                            }
                            r
                        },
                    },
                    Ordering::Less => match &self.right {
                        None => {
                            proof {
                                if lawful_order::<T>() && self.ordered() {
                                    assert(rr =~= Seq::<T>::empty());
                                    if l.contains(*value) {
                                        assert(value.cmp_spec(key) == Ordering::Less);
                                    }
                                }
                            }
                            false
                        },
                        Some(node) => {
                            let r = node.search(value);
                            proof {
                                if T::obeys_cmp_spec() && r {
                                    let i = choose|i: int|
                                        0 <= i < node.in_order().len() && (#[trigger] node.in_order()[i]).cmp_spec(value) == Ordering::Equal;
                                    let j = i + self.left_order().len() + 1;
                                    assert(self.in_order()[j] == node.in_order()[i]);
                                }
                                if lawful_order::<T>() && self.ordered() {
                                    assert(node.in_order() == rr);
                                    if l.contains(*value) {
                                        assert(value.cmp_spec(key) == Ordering::Less);
                                    }
                                }
                            }
                            r
                        },
                    },
                }
            },
        }
    }

    /// Adds `value`: into an empty tree as its value, else into the left
    /// subtree when it is smaller than the node's value, the right one
    /// otherwise.
    pub fn insert(&mut self, value: T)
        requires
            old(self).wf(),
        ensures
            final(self).wf(),
            final(self).value is Some,
            final(self).in_order().to_multiset() == old(self).in_order().to_multiset().insert(value),
            lawful_order::<T>() && old(self).ordered() ==> final(self).ordered(),
        decreases old(self).in_order().len(),
    {
        broadcast use vstd::seq_lib::lemma_multiset_commutative;
        broadcast use vstd::seq_lib::group_to_multiset_ensures;
        proof {
            if lawful_order::<T>() {
                lemma_lawful_order::<T>();
            }
        }
        let go_left = match &self.value {
            None => None,
            Some(key) => Some(value < *key),
        };
        match go_left {
            None => {
                assert(self.left is None && self.right is None);
                self.value = Some(value);
                assert(self.wf());
                assert(self.left_order() =~= Seq::<T>::empty());
                assert(self.right_order() =~= Seq::<T>::empty());
                assert(self.in_order() =~= seq![value]);
                assert(seq![value] =~= Seq::<T>::empty().push(value));
            },
            Some(left) => {
                let ghost s0 = *self;
                assert(s0.in_order() =~= s0.left_order() + seq![s0.value->0] + s0.right_order());
                if left {
                    let child = self.left.take();
                    let new_child = match child {
                        None => {
                            let ghost e = Seq::<T>::empty();
                            assert(seq![value] =~= e.push(value));
                            Box::new(BinarySearchTree { value: Some(value), left: None, right: None })
                        },
                        Some(b) => {
                            let mut inner = *b;
                            inner.insert(value);
                            Box::new(inner)
                        },
                    };
                    assert(new_child.wf() && new_child.value is Some);
                    proof {
                        assert(new_child.in_order().to_multiset() == s0.left_order().to_multiset().insert(value));
                        if lawful_order::<T>() && s0.ordered() {
                            assert(new_child.ordered());
                            assert forall|x: T| #[trigger] new_child.in_order().contains(x) implies
                                s0.left_order().contains(x) || x == value by {
                                assert(new_child.in_order().to_multiset().count(x) > 0);
                            }
                        }
                    }
                    self.left = Some(new_child);
                    assert(self.right == s0.right);
                    assert(self.wf());
                    assert(self.in_order() =~= self.left_order() + seq![s0.value->0] + s0.right_order());
                } else {
                    let child = self.right.take();
                    let new_child = match child {
                        None => {
                            let ghost e = Seq::<T>::empty();
                            assert(seq![value] =~= e.push(value));
                            Box::new(BinarySearchTree { value: Some(value), left: None, right: None })
                        },
                        Some(b) => {
                            let mut inner = *b;
                            inner.insert(value);
                            Box::new(inner)
                        },
                    };
                    assert(new_child.wf() && new_child.value is Some);
                    proof {
                        assert(new_child.in_order().to_multiset() == s0.right_order().to_multiset().insert(value));
                        if lawful_order::<T>() && s0.ordered() {
                            assert(new_child.ordered());
                            assert forall|x: T| #[trigger] new_child.in_order().contains(x) implies
                                s0.right_order().contains(x) || x == value by {
                                assert(new_child.in_order().to_multiset().count(x) > 0);
                            }
                        }
                    }
                    self.right = Some(new_child);
                    assert(self.left == s0.left);
                    assert(self.wf());
                    assert(self.in_order() =~= s0.left_order() + seq![s0.value->0] + self.right_order());
                }
            },
        }
    }
}


/// The node's own value, as a sequence of zero or one values.
pub open spec fn value_seq<T>(t: BinarySearchTree<T>) -> Seq<T> {
    match t.value {
        Some(v) => seq![v],
        None => Seq::empty(),
    }
}

/// What a stack of nodes still has to yield, when the left subtree of each
/// node on it has been yielded already: from the top of the stack down,
/// each node's value, then its right subtree in order.
pub open spec fn pending<T>(stack: Seq<&BinarySearchTree<T>>) -> Seq<T>
    decreases stack.len(),
{
    if stack.len() == 0 {
        Seq::empty()
    } else {
        value_seq(*stack.last()) + stack.last().right_order() + pending(stack.drop_last())
    }
}

/// An in-order walk over a tree, kept as a stack of the nodes whose value
/// is still to come.
pub struct BinarySearchTreeIter<'a, T> {
    stack: Vec<&'a BinarySearchTree<T>>,
}

impl<'a, T> BinarySearchTreeIter<'a, T> {
    pub closed spec fn wf(&self) -> bool {
        forall|i: int|
            0 <= i < self.stack@.len() ==> (#[trigger] self.stack@[i]).wf() && (self.stack@[i].value is None
                ==> self.stack@.len() == 1 && self.stack@[i].right is None)
    }

    /// The values that the walk has still to yield.
    pub closed spec fn remaining(&self) -> Seq<T> {
        pending(self.stack@)
    }

    /// A walk over `tree`, in order.
    pub fn new(tree: &'a BinarySearchTree<T>) -> (r: BinarySearchTreeIter<'a, T>)
        requires
            tree.wf(),
        ensures
            r.wf(),
            r.remaining() == tree.in_order(),
    {
        let mut iter = BinarySearchTreeIter { stack: vec![tree] };
        proof {
            assert(iter.stack@.drop_last() =~= Seq::<&BinarySearchTree<T>>::empty());
            assert(tree.in_order() =~= tree.left_order() + value_seq(*tree) + tree.right_order());
        }
        iter.stack_push_left();
        iter
    }

    /// Pushes the left spine of the node on top of the stack, whose left
    /// subtree has not been yielded yet.
    fn stack_push_left(&mut self)
        requires
            old(self).stack@.len() > 0,
            old(self).wf(),
        ensures
            final(self).wf(),
            final(self).remaining() == old(self).stack@.last().in_order() + pending(
                old(self).stack@.drop_last(),
            ),
    {
        let ghost target = self.stack@.last().in_order() + pending(self.stack@.drop_last());
        loop
            invariant
                self.stack@.len() > 0,
                self.wf(),
                self.stack@.last().in_order() + pending(self.stack@.drop_last()) == target,
                target == old(self).stack@.last().in_order() + pending(old(self).stack@.drop_last()),
            decreases self.stack@.last().in_order().len(),
        {
            let top = self.stack[self.stack.len() - 1];
            proof {
                assert(top.in_order() =~= top.left_order() + value_seq(*top) + top.right_order());
            }
            match &top.left {
                Some(child) => {
                    let ghost st0 = self.stack@;
                    let c: &'a BinarySearchTree<T> = child;
                    self.stack.push(c);
                    proof {
                        assert(self.stack@.drop_last() =~= st0);
                        assert(pending(st0) =~= value_seq(*top) + top.right_order() + pending(st0.drop_last()));
                        assert(top.left_order() == c.in_order());
                        assert forall|i: int| 0 <= i < self.stack@.len() implies (#[trigger] self.stack@[i]).wf() && (self.stack@[i].value is None
                            ==> self.stack@.len() == 1 && self.stack@[i].right is None) by {
                            if i < st0.len() {
                                assert(self.stack@[i] == st0[i]);
                                assert(st0[st0.len() - 1].value is Some);
                            }
                        }
                        assert(target =~= c.in_order() + pending(self.stack@.drop_last()));
                    }
                },
                None => {
                    proof {
                        assert(*top == *self.stack@.last());
                        assert(top.left_order() =~= Seq::<T>::empty());
                        assert(top.in_order() =~= value_seq(*top) + top.right_order());
                        assert(pending(self.stack@) =~= value_seq(*top) + top.right_order() + pending(self.stack@.drop_last()));
                        assert(self.remaining() == pending(self.stack@));
                        assert(pending(self.stack@) =~= target);
                    }
                    return;
                },
            }
        }
    }

    /// The next value in order, or `None` when the walk is over.
    pub fn next(&mut self) -> (r: Option<&'a T>)
        requires
            old(self).wf(),
        ensures
            final(self).wf(),
            match r {
                Some(v) => old(self).remaining() == seq![*v] + final(self).remaining(),
                None => old(self).remaining().len() == 0 && final(self).remaining().len() == 0,
            },
    {
        if self.stack.len() == 0 {
            None
        } else {
            let ghost st0 = self.stack@;
            let node = self.stack.pop().unwrap();
            proof {
                assert(self.stack@ =~= st0.drop_last());
                assert forall|i: int| 0 <= i < self.stack@.len() implies (#[trigger] self.stack@[i]).wf() && (self.stack@[i].value is None
                    ==> self.stack@.len() == 1 && self.stack@[i].right is None) by {
                    assert(self.stack@[i] == st0[i]);
                }
            }
            match &node.right {
                Some(child) => {
                    let ghost st1 = self.stack@;
                    let c: &'a BinarySearchTree<T> = child;
                    self.stack.push(c);
                    proof {
                        assert(self.stack@.drop_last() =~= st1);
                        assert(self.stack@.last() == c);
                        assert forall|i: int| 0 <= i < self.stack@.len() implies (#[trigger] self.stack@[i]).wf() && (self.stack@[i].value is None
                            ==> self.stack@.len() == 1 && self.stack@[i].right is None) by {
                            if i < st1.len() {
                                assert(self.stack@[i] == st1[i]);
                            }
                        }
                    }
                    self.stack_push_left();
                },
                None => {},
            }
            let r = node.value.as_ref();
            proof {
                if node.value is None {
                    assert(st0.len() == 1);
                    assert(self.stack@.len() == 0);
                }
            }
            r
        }
    }
}

impl<T> BinarySearchTree<T> {
    /// A walk over the values of the tree, in order.
    pub fn iter(&self) -> (r: BinarySearchTreeIter<'_, T>)
        requires
            self.wf(),
        ensures
            r.wf(),
            r.remaining() == self.in_order(),
    {
        BinarySearchTreeIter::new(self)
    }
}


} // verus!
