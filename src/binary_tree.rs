//! A binary tree of owned nodes and a depth-first (pre-order) traversal
//! driven by an explicit stack instead of recursion.
use vstd::prelude::*;

verus! {

/// A node: either a value with two owned children, or an empty leaf.
#[derive(Debug)]
pub enum BinaryTreeNode<T> {
    Node { value: T, children: (Box<BinaryTreeNode<T>>, Box<BinaryTreeNode<T>>) },
    Leaf,
}

impl<T> BinaryTreeNode<T> {
    /// The values of the subtree in pre-order: the node's own value, then
    /// its left subtree, then its right subtree.
    pub open spec fn preorder(self) -> Seq<T>
        decreases self,
    {
        match self {
            BinaryTreeNode::Node { value, children } => seq![value] + children.0.preorder()
                + children.1.preorder(),
            BinaryTreeNode::Leaf => seq![],
        }
    }

    /// A node holding `value` with two leaves below it.
    pub fn new(value: T) -> (r: Self)
        ensures
            r matches BinaryTreeNode::Node { value: v, children } && v == value && *children.0
                == BinaryTreeNode::<T>::Leaf && *children.1 == BinaryTreeNode::<T>::Leaf,
    {
        BinaryTreeNode::Node {
            value,
            children: (Box::new(BinaryTreeNode::Leaf), Box::new(BinaryTreeNode::Leaf)),
        }
    }

    /// The value held, or `None` for a leaf.
    pub fn value(&self) -> (r: Option<&T>)
        ensures
            self is Leaf ==> r is None,
            self is Node ==> (r matches Some(v) && *v == self->value),
    {
        match self {
            BinaryTreeNode::Node { value, children: _ } => Some(value),
            BinaryTreeNode::Leaf => None,
        }
    }

    /// The left child; a leaf is its own left child.
    pub fn left(&self) -> (r: &BinaryTreeNode<T>)
        ensures
            self is Leaf ==> *r == *self,
            self is Node ==> *r == *self->children.0,
    {
        match self {
            BinaryTreeNode::Node { value: _, children } => &children.0,
            BinaryTreeNode::Leaf => self,
        }
    }

    /// The right child; a leaf is its own right child.
    pub fn right(&self) -> (r: &BinaryTreeNode<T>)
        ensures
            self is Leaf ==> *r == *self,
            self is Node ==> *r == *self->children.1,
    {
        match self {
            BinaryTreeNode::Node { value: _, children } => &children.1,
            BinaryTreeNode::Leaf => self,
        }
    }
}

/// The values still to come from a stack entry: the whole subtree in state
/// 0, its two subtrees in state 1, the right subtree in state 2, nothing
/// after that or for a leaf.
pub open spec fn entry_rest<T>(node: BinaryTreeNode<T>, state: u8) -> Seq<T> {
    match node {
        BinaryTreeNode::Node { value, children } => if state == 0 {
            node.preorder()
        } else if state == 1 {
            children.0.preorder() + children.1.preorder()
        } else if state == 2 {
            children.1.preorder()
        } else {
            seq![]
        },
        BinaryTreeNode::Leaf => seq![],
    }
}

proof fn lemma_fresh_entry<T>(node: BinaryTreeNode<T>)
    ensures
        entry_rest(node, 0) == node.preorder(),
{
}

/// The values still to come from a stack whose top is its last entry.
pub open spec fn stack_rest<'r, T>(st: Seq<(&'r BinaryTreeNode<T>, u8)>) -> Seq<T>
    decreases st.len(),
{
    if st.len() == 0 {
        seq![]
    } else {
        entry_rest(*st.last().0, st.last().1) + stack_rest(st.drop_last())
    }
}

/// Steps a traversal from scratch of this subtree takes.
spec fn fresh_steps<T>(node: BinaryTreeNode<T>) -> nat
    decreases node,
{
    match node {
        BinaryTreeNode::Node { value: _, children } => 4 + fresh_steps(*children.0) + fresh_steps(
            *children.1,
        ),
        BinaryTreeNode::Leaf => 1,
    }
}

/// Steps left for a stack entry.
spec fn entry_steps<T>(node: BinaryTreeNode<T>, state: u8) -> nat {
    match node {
        BinaryTreeNode::Node { value: _, children } => if state == 0 {
            fresh_steps(node)
        } else if state == 1 {
            3 + fresh_steps(*children.0) + fresh_steps(*children.1)
        } else if state == 2 {
            2 + fresh_steps(*children.1)
        } else {
            1
        },
        BinaryTreeNode::Leaf => 1,
    }
}

/// Steps left for a whole stack.
spec fn stack_steps<'r, T>(st: Seq<(&'r BinaryTreeNode<T>, u8)>) -> nat
    decreases st.len(),
{
    if st.len() == 0 {
        0
    } else {
        entry_steps(*st.last().0, st.last().1) + stack_steps(st.drop_last())
    }
}

/// A depth-first traversal in progress: a stack of nodes, each with how far
/// its visit has gone (0: not yet visited, 1: value given, 2: left subtree
/// done, 3: finished).
pub struct DfsIter<'r, T> {
    stack: Vec<(&'r BinaryTreeNode<T>, u8)>,
}

impl<'r, T> DfsIter<'r, T> {
    /// The values the traversal has still to give, in order.
    pub closed spec fn remaining(&self) -> Seq<T> {
        stack_rest(self.stack@)
    }

    /// The next value in pre-order, or `None` once every value has been given.
    pub fn next(&mut self) -> (r: Option<&'r T>)
        ensures
            old(self).remaining().len() == 0 ==> r is None && final(self).remaining() == old(
                self,
            ).remaining(),
            old(self).remaining().len() > 0 ==> (r matches Some(v) && *v == old(
                self,
            ).remaining()[0] && final(self).remaining() == old(self).remaining().drop_first()),
    {
        loop
            invariant
                self.remaining() == old(self).remaining(),
            decreases stack_steps(self.stack@),
        {
            let ghost st = self.stack@;
            match self.stack.pop() {
                None => {
                    return None;
                },
                Some((node, state)) => {
                    proof {
                        assert(self.stack@ == st.drop_last());
                        assert(stack_steps(st) == entry_steps(*node, state) + stack_steps(
                            self.stack@,
                        ));
                    }
                    match node {
                        BinaryTreeNode::Leaf => {},
                        BinaryTreeNode::Node { value, children } => {
                            if state == 0 {
                                self.stack.push((node, 1));
                                proof {
                                    assert(self.stack@.drop_last() == st.drop_last());
                                    assert(old(self).remaining() =~= seq![*value]
                                        + self.remaining());
                                }
                                return Some(value);
                            } else if state == 1 {
                                self.stack.push((node, 2));
                                self.stack.push((&children.0, 0));
                                proof {
                                    let d = st.drop_last();
                                    assert(self.stack@.drop_last().drop_last() == d);
                                    lemma_fresh_entry(*children.0);
                                    assert(stack_steps(self.stack@) == entry_steps(*children.0, 0)
                                        + stack_steps(self.stack@.drop_last()));
                                    assert(stack_steps(self.stack@.drop_last()) == entry_steps(*node, 2)
                                        + stack_steps(d));
                                    assert(stack_rest(self.stack@) == entry_rest(*children.0, 0)
                                        + stack_rest(self.stack@.drop_last()));
                                    assert(stack_rest(self.stack@.drop_last()) == entry_rest(*node, 2)
                                        + stack_rest(d));
                                    assert(stack_rest(st) == entry_rest(*node, state) + stack_rest(d));
                                    assert(self.remaining() =~= old(self).remaining());
                                }
                            } else if state == 2 {
                                self.stack.push((node, 3));
                                self.stack.push((&children.1, 0));
                                proof {
                                    let d = st.drop_last();
                                    assert(self.stack@.drop_last().drop_last() == d);
                                    lemma_fresh_entry(*children.1);
                                    assert(stack_steps(self.stack@) == entry_steps(*children.1, 0)
                                        + stack_steps(self.stack@.drop_last()));
                                    assert(stack_steps(self.stack@.drop_last()) == entry_steps(*node, 3)
                                        + stack_steps(d));
                                    assert(stack_rest(self.stack@) == entry_rest(*children.1, 0)
                                        + stack_rest(self.stack@.drop_last()));
                                    assert(stack_rest(self.stack@.drop_last()) == entry_rest(*node, 3)
                                        + stack_rest(d));
                                    assert(stack_rest(st) == entry_rest(*node, state) + stack_rest(d));
                                    assert(self.remaining() =~= old(self).remaining());
                                }
                            }
                        },
                    }
                },
            }
        }
    }
}

/// A binary tree given by its root node.
#[derive(Debug)]
pub struct BinaryTree<T> {
    pub root: BinaryTreeNode<T>,
}

impl<T> BinaryTree<T> {
    /// A tree of one node holding `root`.
    pub fn new(root: T) -> (r: Self)
        ensures
            r.root matches BinaryTreeNode::Node { value: v, children } && v == root && *children.0
                == BinaryTreeNode::<T>::Leaf && *children.1 == BinaryTreeNode::<T>::Leaf,
    {
        BinaryTree { root: BinaryTreeNode::new(root) }
    }

    /// A traversal that gives the values of the tree in pre-order; the tree
    /// itself is left as it is.
    pub fn dfs(&self) -> (r: DfsIter<'_, T>)
        ensures
            r.remaining() == self.root.preorder(),
    {
        let mut stack = Vec::new();
        stack.push((&self.root, 0u8));
        let r = DfsIter { stack };
        proof {
            assert(r.stack@.drop_last() =~= Seq::<(&BinaryTreeNode<T>, u8)>::empty());
            lemma_fresh_entry(self.root);
            assert(stack_rest(r.stack@) == entry_rest(self.root, 0) + stack_rest(
                r.stack@.drop_last(),
            ));
            assert(r.remaining() =~= self.root.preorder());
        }
        r
    }
}

} // verus!
