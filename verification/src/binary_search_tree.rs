//! A binary search tree of integers.
//!
//! Every value in the left subtree of a node is below the node's value and
//! every value in its right subtree is above it, so that no value stands in
//! the tree twice.

use vstd::prelude::*;
use crate::text::{int_decimal, int_text, push_str, text_of};

verus! {

/// A node of the tree with its two subtrees.
#[derive(Debug)]
pub struct TreeNode {
    pub value: i32,
    pub left: Option<Box<TreeNode>>,
    pub right: Option<Box<TreeNode>>,
}

/// The values that stand in the tree below `node`.
pub open spec fn contents(node: Option<Box<TreeNode>>) -> Set<int>
    decreases node,
{
    match node {
        None => Set::empty(),
        Some(n) => contents(n.left).union(contents(n.right)).insert(n.value as int),
    }
}

/// The search order: at every node, what is on the left is below the
/// node's value and what is on the right is above it.
pub open spec fn ordered(node: Option<Box<TreeNode>>) -> bool
    decreases node,
{
    match node {
        None => true,
        Some(n) => {
            &&& ordered(n.left)
            &&& ordered(n.right)
            &&& forall|x: int| contents(n.left).contains(x) ==> x < n.value
            &&& forall|x: int| contents(n.right).contains(x) ==> x > n.value
        },
    }
}

/// The number of nodes of the tree.
pub open spec fn node_count(node: Option<Box<TreeNode>>) -> nat
    decreases node,
{
    match node {
        None => 0,
        Some(n) => 1 + node_count(n.left) + node_count(n.right),
    }
}

/// The number of nodes on the longest way from the root down.
pub open spec fn height(node: Option<Box<TreeNode>>) -> nat
    decreases node,
{
    match node {
        None => 0,
        Some(n) => 1 + if height(n.left) >= height(n.right) {
            height(n.left)
        } else {
            height(n.right)
        },
    }
}

/// The values of the tree: left subtree, node, right subtree.
pub open spec fn inorder(node: Option<Box<TreeNode>>) -> Seq<i32>
    decreases node,
{
    match node {
        None => Seq::empty(),
        Some(n) => inorder(n.left).push(n.value) + inorder(n.right),
    }
}

/// The values of the tree: node, left subtree, right subtree.
pub open spec fn preorder(node: Option<Box<TreeNode>>) -> Seq<i32>
    decreases node,
{
    match node {
        None => Seq::empty(),
        Some(n) => seq![n.value] + preorder(n.left) + preorder(n.right),
    }
}

/// The values of the tree: left subtree, right subtree, node.
pub open spec fn postorder(node: Option<Box<TreeNode>>) -> Seq<i32>
    decreases node,
{
    match node {
        None => Seq::empty(),
        Some(n) => (postorder(n.left) + postorder(n.right)).push(n.value),
    }
}

/// A tree of one node.
pub open spec fn leaf(value: i32) -> Option<Box<TreeNode>> {
    Some(Box::new(TreeNode { value, left: None, right: None }))
}

/// The tree after `value` is put in: a new leaf where the search for it
/// ends, and the same tree where the value stands in it already.
pub open spec fn inserted(node: Option<Box<TreeNode>>, value: i32) -> Option<Box<TreeNode>>
    decreases node,
{
    match node {
        None => leaf(value),
        Some(n) => if value < n.value {
            Some(
                Box::new(
                    TreeNode { value: n.value, left: inserted(n.left, value), right: n.right },
                ),
            )
        } else if value > n.value {
            Some(
                Box::new(
                    TreeNode { value: n.value, left: n.left, right: inserted(n.right, value) },
                ),
            )
        } else {
            node
        },
    }
}

/// The value of the leftmost node of a tree that is not empty.
pub open spec fn leftmost(node: Option<Box<TreeNode>>) -> i32
    decreases node,
{
    match node {
        None => 0,
        Some(n) => if n.left is None {
            n.value
        } else {
            leftmost(n.left)
        },
    }
}

/// The value of the rightmost node of a tree that is not empty.
pub open spec fn rightmost(node: Option<Box<TreeNode>>) -> i32
    decreases node,
{
    match node {
        None => 0,
        Some(n) => if n.right is None {
            n.value
        } else {
            rightmost(n.right)
        },
    }
}

/// The tree without its leftmost node, whose right subtree takes its place.
pub open spec fn without_leftmost(node: Option<Box<TreeNode>>) -> Option<Box<TreeNode>>
    decreases node,
{
    match node {
        None => None,
        Some(n) => if n.left is None {
            n.right
        } else {
            Some(
                Box::new(
                    TreeNode { value: n.value, left: without_leftmost(n.left), right: n.right },
                ),
            )
        },
    }
}

/// The tree after `value` is taken out. A node with one subtree gives its
/// place to that subtree; a node with two takes the least value of its
/// right subtree, which leaves that subtree.
pub open spec fn removed(node: Option<Box<TreeNode>>, value: i32) -> Option<Box<TreeNode>>
    decreases node,
{
    match node {
        None => None,
        Some(n) => if value < n.value {
            Some(
                Box::new(
                    TreeNode { value: n.value, left: removed(n.left, value), right: n.right },
                ),
            )
        } else if value > n.value {
            Some(
                Box::new(
                    TreeNode { value: n.value, left: n.left, right: removed(n.right, value) },
                ),
            )
        } else if n.left is None {
            n.right
        } else if n.right is None {
            n.left
        } else {
            Some(
                Box::new(
                    TreeNode {
                        value: leftmost(n.right),
                        left: n.left,
                        right: without_leftmost(n.right),
                    },
                ),
            )
        },
    }
}

/// A value stands in a tree where it stands at the root or in one of the
/// two subtrees.
pub proof fn lemma_contents(node: Option<Box<TreeNode>>, x: int)
    ensures
        contents(node).contains(x) <==> match node {
            None => false,
            Some(n) => x == n.value || contents(n.left).contains(x) || contents(n.right).contains(
                x,
            ),
        },
{
}

/// A tree has at most as many levels as nodes.
pub proof fn lemma_height_bound(node: Option<Box<TreeNode>>)
    ensures
        height(node) <= node_count(node),
    decreases node,
{
    match node {
        None => {},
        Some(n) => {
            lemma_height_bound(n.left);
            lemma_height_bound(n.right);
        },
    }
}

/// The in-order walk of an ordered tree lists the values of the tree, each
/// once, in increasing order.
pub proof fn lemma_inorder_sorted(node: Option<Box<TreeNode>>)
    requires
        ordered(node),
    ensures
        forall|i: int, j: int|
            0 <= i < j < inorder(node).len() ==> inorder(node)[i] < inorder(node)[j],
        forall|x: int|
            contents(node).contains(x) <==> exists|i: int|
                0 <= i < inorder(node).len() && inorder(node)[i] == x,
        inorder(node).len() == node_count(node),
    decreases node,
{
    match node {
        None => {},
        Some(n) => {
            lemma_inorder_sorted(n.left);
            lemma_inorder_sorted(n.right);
            let l = inorder(n.left);
            let r = inorder(n.right);
            let all = inorder(node);
            assert(all =~= l.push(n.value) + r);
            assert forall|x: int| contents(node).contains(x) implies exists|i: int|
                0 <= i < all.len() && all[i] == x by {
                if contents(n.left).contains(x) {
                    let i = choose|i: int| 0 <= i < l.len() && l[i] == x;
                    assert(all[i] == x);
                } else if contents(n.right).contains(x) {
                    let i = choose|i: int| 0 <= i < r.len() && r[i] == x;
                    assert(all[l.len() + 1 + i] == x);
                } else {
                    assert(all[l.len() as int] == x);
                }
            }
            assert forall|i: int| 0 <= i < all.len() implies contents(node).contains(
                #[trigger] all[i] as int,
            ) by {
                lemma_contents(node, all[i] as int);
                if i < l.len() {
                    assert(l[i] == all[i]);
                    assert(contents(n.left).contains(l[i] as int));
                } else if i > l.len() {
                    assert(r[i - l.len() - 1] == all[i]);
                    assert(contents(n.right).contains(r[i - l.len() - 1] as int));
                }
            }
            assert forall|i: int, j: int| 0 <= i < j < all.len() implies all[i] < all[j] by {
                assert(contents(node).contains(all[i] as int));
                assert(contents(node).contains(all[j] as int));
                if i < l.len() {
                    assert(l[i] == all[i]);
                    assert(contents(n.left).contains(all[i] as int));
                }
                if i > l.len() {
                    assert(r[i - l.len() - 1] == all[i]);
                    assert(contents(n.right).contains(all[i] as int));
                }
                if j < l.len() {
                    assert(l[j] == all[j]);
                    assert(contents(n.left).contains(all[j] as int));
                }
                if j > l.len() {
                    assert(r[j - l.len() - 1] == all[j]);
                    assert(contents(n.right).contains(all[j] as int));
                }
            }
        },
    }
}

impl TreeNode {
    /// A node without subtrees.
    pub fn new(value: i32) -> (node: TreeNode)
        ensures
            node.value == value,
            node.left is None,
            node.right is None,
    {
        TreeNode { value, left: None, right: None }
    }
}

/// A binary search tree with a count of what was put in and not taken out.
#[derive(Debug)]
pub struct BinarySearchTree {
    root: Option<Box<TreeNode>>,
    size: usize,
}

impl BinarySearchTree {
    /// The tree of nodes.
    pub closed spec fn tree(&self) -> Option<Box<TreeNode>> {
        self.root
    }

    /// The count that `size` returns.
    pub closed spec fn count(&self) -> nat {
        self.size as nat
    }

    /// The values that stand in the tree.
    pub open spec fn contents(&self) -> Set<int> {
        contents(self.tree())
    }

    /// The tree is in search order and has no more nodes than were counted.
    pub open spec fn wf(&self) -> bool {
        &&& ordered(self.tree())
        &&& node_count(self.tree()) <= self.count()
    }

    /// The empty tree.
    pub fn new() -> (tree: BinarySearchTree)
        ensures
            tree.tree() is None,
            tree.count() == 0,
            tree.wf(),
    {
        BinarySearchTree { root: None, size: 0 }
    }

    /// Puts `value` in the tree and counts it, also where the tree holds it
    /// already and stays as it is.
    pub fn insert(&mut self, value: i32)
        requires
            old(self).wf(),
            old(self).count() < usize::MAX,
        ensures
            final(self).wf(),
            final(self).tree() == inserted(old(self).tree(), value),
            final(self).contents() == old(self).contents().insert(value as int),
            final(self).count() == old(self).count() + 1,
    {
        self.root = Self::insert_recursive(self.root.take(), value);
        self.size += 1;
    }

    /// The tree `node` with `value` put in.
    pub fn insert_recursive(node: Option<Box<TreeNode>>, value: i32) -> (r: Option<Box<TreeNode>>)
        requires
            ordered(node),
        ensures
            r == inserted(node, value),
            ordered(r),
            contents(r) == contents(node).insert(value as int),
            node_count(node) <= node_count(r) <= node_count(node) + 1,
        decreases node,
    {
        match node {
            None => {
                let r = Some(Box::new(TreeNode::new(value)));
                proof {
                    let target = contents(node).insert(value as int);
                    assert forall|x: int| contents(r).contains(x) == target.contains(x) by {
                        lemma_contents(r, x);
                        lemma_contents(node, x);
                    }
                    assert(contents(r) =~= target);
                }
                r
            },
            Some(mut n) => {
                if value < n.value {
                    let ghost before = n.left;
                    n.left = Self::insert_recursive(n.left.take(), value);
                    let r = Some(n);
                    proof {
                        let target = contents(node).insert(value as int);
                        assert forall|x: int| contents(r).contains(x) == target.contains(x) by {
                            lemma_contents(r, x);
                            lemma_contents(node, x);
                        }
                        assert(contents(r) =~= target);
                    }
                    r
                } else if value > n.value {
                    n.right = Self::insert_recursive(n.right.take(), value);
                    let r = Some(n);
                    proof {
                        let target = contents(node).insert(value as int);
                        assert forall|x: int| contents(r).contains(x) == target.contains(x) by {
                            lemma_contents(r, x);
                            lemma_contents(node, x);
                        }
                        assert(contents(r) =~= target);
                    }
                    r
                } else {
                    let r = Some(n);
                    proof {
                        let target = contents(node).insert(value as int);
                        assert forall|x: int| contents(r).contains(x) == target.contains(x) by {
                            lemma_contents(r, x);
                            lemma_contents(node, x);
                        }
                        assert(contents(r) =~= target);
                    }
                    r
                }
            },
        }
    }

    /// Whether `value` stands in the tree.
    pub fn search(&self, value: &i32) -> (found: bool)
        requires
            self.wf(),
        ensures
            found == self.contents().contains(*value as int),
    {
        Self::search_recursive(&self.root, value)
    }

    /// Whether `value` stands in the tree `node`.
    pub fn search_recursive(node: &Option<Box<TreeNode>>, value: &i32) -> (found: bool)
        requires
            ordered(*node),
        ensures
            found == contents(*node).contains(*value as int),
        decreases *node,
    {
        proof {
            lemma_contents(*node, *value as int);
        }
        match node {
            None => false,
            Some(n) => {
                if *value == n.value {
                    true
                } else if *value < n.value {
                    Self::search_recursive(&n.left, value)
                } else {
                    Self::search_recursive(&n.right, value)
                }
            },
        }
    }

    /// Takes `value` out of the tree and says whether it stood in it.
    pub fn delete(&mut self, value: &i32) -> (deleted: bool)
        requires
            old(self).wf(),
        ensures
            final(self).wf(),
            deleted == old(self).contents().contains(*value as int),
            final(self).tree() == removed(old(self).tree(), *value),
            final(self).contents() == old(self).contents().remove(*value as int),
            final(self).count() == if deleted {
                old(self).count() - 1
            } else {
                old(self).count() as int
            },
    {
        let (new_root, deleted) = Self::delete_recursive(self.root.take(), value);
        self.root = new_root;
        if deleted {
            self.size -= 1;
        }
        deleted
    }

    /// The tree `node` with `value` taken out, and whether it stood in it.
    pub fn delete_recursive(node: Option<Box<TreeNode>>, value: &i32) -> (r: (
        Option<Box<TreeNode>>,
        bool,
    ))
        requires
            ordered(node),
        ensures
            r.0 == removed(node, *value),
            r.1 == contents(node).contains(*value as int),
            ordered(r.0),
            contents(r.0) == contents(node).remove(*value as int),
            node_count(r.0) + (if r.1 {
                1int
            } else {
                0int
            }) == node_count(node),
        decreases node,
    {
        proof {
            lemma_contents(node, *value as int);
            if node is Some {
                assert(node_count(node) == 1 + node_count(node->0.left) + node_count(
                    node->0.right,
                ));
                lemma_contents(node->0.left, *value as int);
                lemma_contents(node->0.right, *value as int);
            }
        }
        match node {
            None => {
                proof {
                    let target = contents(node).remove(*value as int);
                    assert forall|x: int| contents(None).contains(x) == target.contains(x) by {
                        lemma_contents(None, x);
                        lemma_contents(node, x);
                    }
                    assert(contents(None) =~= target);
                }
                (None, false)
            },
            Some(mut n) => {
                if *value < n.value {
                    let (new_left, deleted) = Self::delete_recursive(n.left.take(), value);
                    n.left = new_left;
                    let r = Some(n);
                    proof {
                        let target = contents(node).remove(*value as int);
                        assert forall|x: int| contents(r).contains(x) == target.contains(x) by {
                            lemma_contents(r, x);
                            lemma_contents(node, x);
                        }
                        assert(contents(r) =~= target);
                    }
                    (r, deleted)
                } else if *value > n.value {
                    let (new_right, deleted) = Self::delete_recursive(n.right.take(), value);
                    n.right = new_right;
                    let r = Some(n);
                    proof {
                        let target = contents(node).remove(*value as int);
                        assert forall|x: int| contents(r).contains(x) == target.contains(x) by {
                            lemma_contents(r, x);
                            lemma_contents(node, x);
                        }
                        assert(contents(r) =~= target);
                    }
                    (r, deleted)
                } else {
                    let left = n.left.take();
                    let right = n.right.take();
                    if left.is_none() {
                        proof {
                            let target = contents(node).remove(*value as int);
                            assert forall|x: int| contents(right).contains(x) == target.contains(x) by {
                                lemma_contents(right, x);
                                lemma_contents(node, x);
                            }
                            assert(contents(right) =~= target);
                        }
                        (right, true)
                    } else if right.is_none() {
                        proof {
                            let target = contents(node).remove(*value as int);
                            assert forall|x: int| contents(left).contains(x) == target.contains(x) by {
                                lemma_contents(left, x);
                                lemma_contents(node, x);
                            }
                            assert(contents(left) =~= target);
                        }
                        (left, true)
                    } else {
                        let (min_value, new_right) = Self::extract_min(right);
                        let mut new_node = TreeNode::new(min_value);
                        new_node.left = left;
                        new_node.right = new_right;
                        let r = Some(Box::new(new_node));
                        proof {
                            let target = contents(node).remove(*value as int);
                            assert forall|x: int| contents(r).contains(x) == target.contains(x) by {
                                lemma_contents(r, x);
                                lemma_contents(node, x);
                            }
                            assert(contents(r) =~= target);
                        }
                        (r, true)
                    }
                }
            },
        }
    }

    /// The least value of the tree `node`, which is not empty, and the
    /// tree without it.
    pub fn extract_min(node: Option<Box<TreeNode>>) -> (r: (i32, Option<Box<TreeNode>>))
        requires
            node is Some,
            ordered(node),
        ensures
            r.0 == leftmost(node),
            r.1 == without_leftmost(node),
            contents(node).contains(r.0 as int),
            forall|x: int| contents(node).contains(x) ==> r.0 <= x,
            ordered(r.1),
            contents(r.1) == contents(node).remove(r.0 as int),
            node_count(r.1) + 1 == node_count(node),
        decreases node,
    {
        proof {
            assert forall|x: int| contents(node).contains(x) implies x == node->0.value
                || contents(node->0.left).contains(x) || contents(node->0.right).contains(x) by {
                lemma_contents(node, x);
            }
            lemma_contents(node, node->0.value as int);
            assert(node_count(node) == 1 + node_count(node->0.left) + node_count(node->0.right));
        }
        let mut n = node.unwrap();
        if n.left.is_none() {
            let right = n.right.take();
            proof {
                let target = contents(node).remove(n.value as int);
                assert forall|x: int| contents(right).contains(x) == target.contains(x) by {
                    lemma_contents(right, x);
                    lemma_contents(node, x);
                }
                assert(contents(right) =~= target);
            }
            (n.value, right)
        } else {
            let (min_value, new_left) = Self::extract_min(n.left.take());
            n.left = new_left;
            let r = Some(n);
            proof {
                let target = contents(node).remove(min_value as int);
                assert forall|x: int| contents(r).contains(x) == target.contains(x) by {
                    lemma_contents(r, x);
                    lemma_contents(node, x);
                }
                assert(contents(r) =~= target);
            }
            proof {
                assert(node_count(r) == 1 + node_count(new_left) + node_count(node->0.right));
            }
            (min_value, r)
        }
    }

    /// The values of the tree in increasing order.
    pub fn inorder_traversal(&self) -> (result: Vec<i32>)
        ensures
            result@ == inorder(self.tree()),
    {
        let mut result = Vec::new();
        Self::inorder_recursive(&self.root, &mut result);
        proof {
            assert(result@ =~= inorder(self.tree()));
        }
        result
    }

    /// Appends the values of the tree `node` to `result`: left subtree,
    /// node, right subtree.
    pub fn inorder_recursive(node: &Option<Box<TreeNode>>, result: &mut Vec<i32>)
        ensures
            final(result)@ == old(result)@ + inorder(*node),
        decreases *node,
    {
        match node {
            Some(n) => {
                Self::inorder_recursive(&n.left, result);
                result.push(n.value);
                Self::inorder_recursive(&n.right, result);
                proof {
                    assert(result@ =~= old(result)@ + inorder(*node));
                }
            },
            None => {
                proof {
                    assert(result@ =~= old(result)@ + inorder(*node));
                }
            },
        }
    }

    /// The values of the tree, every node before its subtrees.
    pub fn preorder_traversal(&self) -> (result: Vec<i32>)
        ensures
            result@ == preorder(self.tree()),
    {
        let mut result = Vec::new();
        Self::preorder_recursive(&self.root, &mut result);
        proof {
            assert(result@ =~= preorder(self.tree()));
        }
        result
    }

    /// Appends the values of the tree `node` to `result`: node, left
    /// subtree, right subtree.
    pub fn preorder_recursive(node: &Option<Box<TreeNode>>, result: &mut Vec<i32>)
        ensures
            final(result)@ == old(result)@ + preorder(*node),
        decreases *node,
    {
        match node {
            Some(n) => {
                result.push(n.value);
                Self::preorder_recursive(&n.left, result);
                Self::preorder_recursive(&n.right, result);
                proof {
                    assert(result@ =~= old(result)@ + preorder(*node));
                }
            },
            None => {
                proof {
                    assert(result@ =~= old(result)@ + preorder(*node));
                }
            },
        }
    }

    /// The values of the tree, every node after its subtrees.
    pub fn postorder_traversal(&self) -> (result: Vec<i32>)
        ensures
            result@ == postorder(self.tree()),
    {
        let mut result = Vec::new();
        Self::postorder_recursive(&self.root, &mut result);
        proof {
            assert(result@ =~= postorder(self.tree()));
        }
        result
    }

    /// Appends the values of the tree `node` to `result`: left subtree,
    /// right subtree, node.
    pub fn postorder_recursive(node: &Option<Box<TreeNode>>, result: &mut Vec<i32>)
        ensures
            final(result)@ == old(result)@ + postorder(*node),
        decreases *node,
    {
        match node {
            Some(n) => {
                Self::postorder_recursive(&n.left, result);
                Self::postorder_recursive(&n.right, result);
                result.push(n.value);
                proof {
                    assert(result@ =~= old(result)@ + postorder(*node));
                }
            },
            None => {
                proof {
                    assert(result@ =~= old(result)@ + postorder(*node));
                }
            },
        }
    }

    /// The number of levels of the tree.
    pub fn height(&self) -> (h: usize)
        requires
            self.wf(),
        ensures
            h == height(self.tree()),
    {
        Self::height_recursive(&self.root)
    }

    /// The number of levels of the tree `node`.
    pub fn height_recursive(node: &Option<Box<TreeNode>>) -> (h: usize)
        requires
            node_count(*node) <= usize::MAX,
        ensures
            h == height(*node),
        decreases *node,
    {
        match node {
            None => 0,
            Some(n) => {
                let left_height = Self::height_recursive(&n.left);
                let right_height = Self::height_recursive(&n.right);
                proof {
                    lemma_height_bound(*node);
                }
                if left_height >= right_height {
                    1 + left_height
                } else {
                    1 + right_height
                }
            },
        }
    }

    /// The number of values put in less the number of values taken out.
    pub fn size(&self) -> (n: usize)
        ensures
            n == self.count(),
    {
        self.size
    }

    /// Whether the tree holds no value.
    pub fn is_empty(&self) -> (b: bool)
        ensures
            b == (self.tree() is None),
            b == (self.contents() == Set::<int>::empty()),
    {
        proof {
            if self.root is Some {
                assert(contents(self.root).contains(self.root->0.value as int));
            }
        }
        self.root.is_none()
    }

    /// The least value of the tree, if it holds one.
    pub fn find_min(&self) -> (r: Option<&i32>)
        requires
            self.wf(),
        ensures
            match r {
                None => self.tree() is None,
                Some(m) => {
                    &&& self.tree() is Some
                    &&& *m == leftmost(self.tree())
                    &&& self.contents().contains(*m as int)
                    &&& forall|x: int| self.contents().contains(x) ==> *m <= x
                },
            },
    {
        Self::find_min_recursive(&self.root)
    }

    /// The least value of the tree `node`, if it holds one.
    pub fn find_min_recursive(node: &Option<Box<TreeNode>>) -> (r: Option<&i32>)
        requires
            ordered(*node),
        ensures
            match r {
                None => *node is None,
                Some(m) => {
                    &&& *node is Some
                    &&& *m == leftmost(*node)
                    &&& contents(*node).contains(*m as int)
                    &&& forall|x: int| contents(*node).contains(x) ==> *m <= x
                },
            },
        decreases *node,
    {
        proof {
            assert forall|x: int| contents(*node).contains(x) implies match *node {
                None => false,
                Some(n) => x == n.value || contents(n.left).contains(x) || contents(
                    n.right,
                ).contains(x),
            } by {
                lemma_contents(*node, x);
            }
            if *node is Some {
                lemma_contents(*node, node->0.value as int);
                lemma_contents(node->0.left, 0);
            }
        }
        match node {
            None => None,
            Some(n) => {
                if n.left.is_none() {
                    Some(&n.value)
                } else {
                    Self::find_min_recursive(&n.left)
                }
            },
        }
    }

    /// The greatest value of the tree, if it holds one.
    pub fn find_max(&self) -> (r: Option<&i32>)
        requires
            self.wf(),
        ensures
            match r {
                None => self.tree() is None,
                Some(m) => {
                    &&& self.tree() is Some
                    &&& *m == rightmost(self.tree())
                    &&& self.contents().contains(*m as int)
                    &&& forall|x: int| self.contents().contains(x) ==> *m >= x
                },
            },
    {
        Self::find_max_recursive(&self.root)
    }

    /// The greatest value of the tree `node`, if it holds one.
    pub fn find_max_recursive(node: &Option<Box<TreeNode>>) -> (r: Option<&i32>)
        requires
            ordered(*node),
        ensures
            match r {
                None => *node is None,
                Some(m) => {
                    &&& *node is Some
                    &&& *m == rightmost(*node)
                    &&& contents(*node).contains(*m as int)
                    &&& forall|x: int| contents(*node).contains(x) ==> *m >= x
                },
            },
        decreases *node,
    {
        proof {
            assert forall|x: int| contents(*node).contains(x) implies match *node {
                None => false,
                Some(n) => x == n.value || contents(n.left).contains(x) || contents(
                    n.right,
                ).contains(x),
            } by {
                lemma_contents(*node, x);
            }
            if *node is Some {
                lemma_contents(*node, node->0.value as int);
                lemma_contents(node->0.right, 0);
            }
        }
        match node {
            None => None,
            Some(n) => {
                if n.right.is_none() {
                    Some(&n.value)
                } else {
                    Self::find_max_recursive(&n.right)
                }
            },
        }
    }
}

/// `depth` times two spaces.
pub open spec fn indent(depth: nat) -> Seq<char> {
    Seq::new(2 * depth, |i: int| ' ')
}

/// The lines that show the tree `node`, `depth` levels deep: the value of
/// the node after `prefix`, then, where the node has a subtree, the left
/// one marked `L--- ` and the right one marked `R--- `, each a level
/// deeper.
pub open spec fn tree_lines(node: Option<Box<TreeNode>>, depth: nat, prefix: Seq<char>) -> Seq<
    Seq<char>,
>
    decreases node,
{
    match node {
        None => Seq::empty(),
        Some(n) => seq![indent(depth) + prefix + int_decimal(n.value as int)] + if n.left is Some
            || n.right is Some {
            tree_lines(n.left, depth + 1, "L--- "@) + tree_lines(n.right, depth + 1, "R--- "@)
        } else {
            Seq::empty()
        },
    }
}

/// The texts as characters.
pub open spec fn line_texts(lines: Seq<String>) -> Seq<Seq<char>> {
    Seq::new(lines.len(), |i: int| lines[i]@)
}

impl BinarySearchTree {
    /// The lines that show the tree: a heading and one line per node, or
    /// one line that says that the tree is empty.
    pub fn display_tree(&self) -> (lines: Vec<String>)
        requires
            self.wf(),
        ensures
            line_texts(lines@) == if self.tree() is None {
                seq!["Tree is empty"@]
            } else {
                seq!["Tree structure:"@] + tree_lines(self.tree(), 0, "Root: "@)
            },
    {
        let mut lines: Vec<String> = Vec::new();
        if self.is_empty() {
            lines.push("Tree is empty".to_owned());
            proof {
                assert(line_texts(lines@) =~= seq!["Tree is empty"@]);
            }
            return lines;
        }
        lines.push("Tree structure:".to_owned());
        proof {
            assert(line_texts(lines@) =~= seq!["Tree structure:"@]);
        }
        Self::display_recursive(&self.root, 0, "Root: ", &mut lines);
        lines
    }

    /// Appends the lines that show the tree `node` to `lines`.
    pub fn display_recursive(
        node: &Option<Box<TreeNode>>,
        depth: usize,
        prefix: &str,
        lines: &mut Vec<String>,
    )
        requires
            depth + node_count(*node) <= usize::MAX,
        ensures
            line_texts(final(lines)@) == line_texts(old(lines)@) + tree_lines(
                *node,
                depth as nat,
                prefix@,
            ),
        decreases *node,
    {
        match node {
            Some(n) => {
                let mut line: Vec<char> = Vec::new();
                let mut i: usize = 0;
                while i < depth
                    invariant
                        i <= depth,
                        line@ == indent(i as nat),
                    decreases depth - i,
                {
                    line.push(' ');
                    line.push(' ');
                    i += 1;
                    proof {
                        assert(line@ =~= indent(i as nat));
                    }
                }
                push_str(&mut line, prefix);
                let value = int_text(n.value);
                push_str(&mut line, value.as_str());
                let ghost before = line_texts(lines@);
                lines.push(text_of(&line));
                proof {
                    assert(line_texts(lines@) =~= before.push(
                        indent(depth as nat) + prefix@ + int_decimal(n.value as int),
                    ));
                }
                if n.left.is_some() || n.right.is_some() {
                    Self::display_recursive(&n.left, depth + 1, "L--- ", lines);
                    Self::display_recursive(&n.right, depth + 1, "R--- ", lines);
                }
                proof {
                    assert(line_texts(lines@) =~= line_texts(old(lines)@) + tree_lines(
                        *node,
                        depth as nat,
                        prefix@,
                    ));
                }
            },
            None => {
                proof {
                    assert(line_texts(lines@) =~= line_texts(old(lines)@) + tree_lines(
                        *node,
                        depth as nat,
                        prefix@,
                    ));
                }
            },
        }
    }
}

} // verus!
