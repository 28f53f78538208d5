//! A binary search tree that keeps larger values to the left, so that an
//! in-order walk yields its values in descending order.
use vstd::prelude::*;
use crate::order::{leq, total_order, lemma_total_order, is_greater};
use crate::seqs::lemma_in_multiset;

verus! {

/// A tree is either empty or a node.
#[derive(Debug)]
pub enum BinaryTree<T> {
    Empty,
    NonEmpty(Box<TreeNode<T>>),
}

/// A node holds a value and its two subtrees.
#[derive(Debug)]
pub struct TreeNode<T> {
    val: T,
    left: BinaryTree<T>,
    right: BinaryTree<T>,
}

/// `s` is in descending order.
pub open spec fn sorted_desc<T: Ord>(s: Seq<T>) -> bool {
    forall|i: int, j: int| 0 <= i < j < s.len() ==> leq(#[trigger] s[j], #[trigger] s[i])
}

impl<T> BinaryTree<T> {
    /// The values of the tree in order: left subtree, node, right subtree.
    pub closed spec fn inorder(self) -> Seq<T>
        decreases self,
    {
        match self {
            BinaryTree::Empty => Seq::empty(),
            BinaryTree::NonEmpty(node) => node.left.inorder() + seq![node.val] + node.right.inorder(),
        }
    }
}

impl<T: Ord> BinaryTree<T> {
    /// Every node's left subtree holds only greater values, and its right
    /// subtree none.
    pub closed spec fn wf(self) -> bool
        decreases self,
    {
        match self {
            BinaryTree::Empty => true,
            BinaryTree::NonEmpty(node) => {
                &&& node.left.wf()
                &&& node.right.wf()
                &&& forall|k: int| 0 <= k < node.left.inorder().len() ==> !leq(
                    #[trigger] node.left.inorder()[k], node.val)
                &&& forall|k: int| 0 <= k < node.right.inorder().len() ==> leq(
                    #[trigger] node.right.inorder()[k], node.val)
            },
        }
    }
}

impl<T> View for BinaryTree<T> {
    type V = Seq<T>;

    open spec fn view(&self) -> Seq<T> {
        self.inorder()
    }
}

/// A well-formed tree yields its values in descending order.
pub proof fn lemma_tree_descending<T: Ord>(t: BinaryTree<T>)
    requires
        total_order::<T>(),
        t.wf(),
    ensures
        sorted_desc(t@),
    decreases t,
{
    lemma_total_order::<T>();
    if let BinaryTree::NonEmpty(node) = t {
        lemma_tree_descending(node.left);
        lemma_tree_descending(node.right);
        let l = node.left@;
        let r = node.right@;
        let v = node.val;
        let s = l + seq![v] + r;
        assert forall|i: int, j: int| 0 <= i < j < s.len() implies leq(#[trigger] s[j], #[trigger] s[i]) by {
            if j < l.len() {
                assert(s[i] == l[i] && s[j] == l[j]);
            } else if j == l.len() {
                assert(!leq(l[i], v));
            } else if i < l.len() {
                assert(!leq(l[i], v));
                assert(leq(r[j - l.len() - 1], v));
            } else if i == l.len() {
                assert(leq(r[j - l.len() - 1], v));
            } else {
                assert(s[i] == r[i - l.len() - 1] && s[j] == r[j - l.len() - 1]);
            }
        }
    }
}

impl<T> BinaryTree<T> where T: Copy + Clone + Ord {
    /// A tree of a single value.
    pub fn new(val: T) -> (t: BinaryTree<T>)
        ensures
            t.wf(),
            t@ == seq![val],
    {
        let t = BinaryTree::NonEmpty(Box::new(TreeNode { val, left: BinaryTree::Empty, right: BinaryTree::Empty }));
        assert(BinaryTree::<T>::Empty.inorder() == Seq::<T>::empty());
        assert(BinaryTree::<T>::Empty.wf());
        assert(t@ =~= seq![val]);
        t
    }

    /// Adds a value: to the left of every node smaller than it, to the
    /// right of every other.
    pub fn add(&mut self, val: T)
        requires
            total_order::<T>(),
            old(self).wf(),
        ensures
            final(self).wf(),
            final(self)@.to_multiset() == old(self)@.to_multiset().insert(val),
        decreases old(self)@.len(),
    {
        broadcast use vstd::seq_lib::group_to_multiset_ensures, vstd::multiset::group_multiset_axioms;
        proof {
            lemma_total_order::<T>();
        }
        match self {
            BinaryTree::Empty => {
                *self = BinaryTree::NonEmpty(Box::new(TreeNode { val, left: BinaryTree::Empty, right: BinaryTree::Empty }));
                assert(BinaryTree::<T>::Empty.inorder() == Seq::<T>::empty());
                assert(BinaryTree::<T>::Empty.wf());
                assert(self@ =~= seq![val]);
                assert(Seq::<T>::empty().push(val) =~= seq![val]);
            },
            BinaryTree::NonEmpty(node) => {
                let ghost l0 = node.left@;
                let ghost r0 = node.right@;
                let ghost v = node.val;
                proof {
                    vstd::seq_lib::lemma_multiset_commutative(l0 + seq![v], r0);
                    vstd::seq_lib::lemma_multiset_commutative(l0, seq![v]);
                }
                if is_greater(&val, &node.val) {
                    node.left.add(val);
                    proof {
                        let l1 = node.left@;
                        vstd::seq_lib::lemma_multiset_commutative(l1 + seq![v], r0);
                        vstd::seq_lib::lemma_multiset_commutative(l1, seq![v]);
                        assert forall|k: int| 0 <= k < l1.len() implies !leq(#[trigger] l1[k], v) by {
                            assert(l0.push(val).to_multiset() == l0.to_multiset().insert(val));
                            lemma_in_multiset(l1, l0.push(val), k);
                            let q = choose|q: int| 0 <= q < l0.push(val).len() && l0.push(val)[q] == l1[k];
                            if q < l0.len() {
                                assert(l0.push(val)[q] == l0[q]);
                            }
                        }
                    }
                } else {
                    node.right.add(val);
                    proof {
                        let r1 = node.right@;
                        vstd::seq_lib::lemma_multiset_commutative(l0 + seq![v], r1);
                        assert forall|k: int| 0 <= k < r1.len() implies leq(#[trigger] r1[k], v) by {
                            assert(r0.push(val).to_multiset() == r0.to_multiset().insert(val));
                            lemma_in_multiset(r1, r0.push(val), k);
                            let q = choose|q: int| 0 <= q < r0.push(val).len() && r0.push(val)[q] == r1[k];
                            if q < r0.len() {
                                assert(r0.push(val)[q] == r0[q]);
                            }
                        }
                    }
                }
            },
        }
    }

    /// Iterates over the values in order, largest first.
    pub fn iter(&self) -> (it: TreeIter<'_, T>)
        ensures
            it.rest() == self@,
    {
        let mut titer = TreeIter { stack: Vec::new() };
        titer.push_left_tree(self);
        titer
    }
}

/// An in-order iterator over a tree: a stack of the nodes still to visit.
pub struct TreeIter<'a, T> {
    stack: Vec<&'a TreeNode<T>>,
}

/// The values still to come from a stack of nodes, each node followed by
/// its right subtree, from the top of the stack.
pub closed spec fn stack_rest<'a, T>(s: Seq<&'a TreeNode<T>>) -> Seq<T>
    decreases s.len(),
{
    if s.len() == 0 {
        Seq::empty()
    } else {
        seq![s.last().val] + s.last().right.inorder() + stack_rest(s.drop_last())
    }
}

impl<'a, T> TreeIter<'a, T> {
    /// The values the iterator has still to yield.
    pub closed spec fn rest(&self) -> Seq<T> {
        stack_rest(self.stack@)
    }

    /// Pushes the left spine of `tree`.
    fn push_left_tree(&mut self, tree: &'a BinaryTree<T>)
        ensures
            final(self).rest() == tree@ + old(self).rest(),
    {
        let mut tree = tree;
        let ghost goal = tree@ + self.rest();
        loop
            invariant
                tree@ + stack_rest(self.stack@) == goal,
            ensures
                stack_rest(self.stack@) == goal,
            decreases tree@.len(),
        {
            match tree {
                BinaryTree::Empty => {
                    assert(tree@ == Seq::<T>::empty());
                    assert(tree@ + stack_rest(self.stack@) =~= stack_rest(self.stack@));
                    break;
                },
                BinaryTree::NonEmpty(node) => {
                    let ghost s0 = self.stack@;
                    self.stack.push(node);
                    assert(self.stack@.drop_last() =~= s0);
                    assert(node.left@ + stack_rest(self.stack@) =~= tree@ + stack_rest(s0));
                    tree = &node.left;
                },
            }
        }
    }

    /// The next value in order, if any is left.
    pub fn next(&mut self) -> (r: Option<&'a T>)
        ensures
            old(self).rest().len() == 0 ==> r is None && final(self).rest() == old(self).rest(),
            old(self).rest().len() > 0 ==> r == Some(&old(self).rest()[0])
                && final(self).rest() == old(self).rest().drop_first(),
    {
        match self.stack.pop() {
            None => None,
            Some(node) => {
                let ghost s0 = old(self).stack@;
                assert(s0.drop_last() =~= self.stack@);
                self.push_left_tree(&node.right);
                assert(old(self).rest().drop_first() =~= node.right@ + stack_rest(s0.drop_last()));
                Some(&node.val)
            },
        }
    }
}

} // verus!
