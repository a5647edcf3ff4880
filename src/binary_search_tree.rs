use vstd::prelude::*;
use crate::diva::{copy_keys, sort_keys};

verus! {

/// A binary search tree of keys: smaller keys to the left, keys at least as large to
/// the right.
pub struct BinarySearchTree {
    root: Option<Box<TreeNode>>,
}

struct TreeNode {
    key: u64,
    left: Option<Box<TreeNode>>,
    right: Option<Box<TreeNode>>,
}

/// The keys held in a subtree.
spec fn node_keys(node: Option<Box<TreeNode>>) -> Set<u64>
    decreases node,
{
    match node {
        None => Set::empty(),
        Some(n) => node_keys(n.left).union(node_keys(n.right)).insert(n.key),
    }
}

/// The search-tree order: every key on the left is at most the node's key, every key on
/// the right at least.
spec fn node_ordered(node: Option<Box<TreeNode>>) -> bool
    decreases node,
{
    match node {
        None => true,
        Some(n) => node_ordered(n.left) && node_ordered(n.right) && (forall|x: u64|
            #[trigger] node_keys(n.left).contains(x) ==> x <= n.key) && (forall|x: u64|
            #[trigger] node_keys(n.right).contains(x) ==> x >= n.key),
    }
}

impl View for BinarySearchTree {
    type V = Set<u64>;

    closed spec fn view(&self) -> Set<u64> {
        node_keys(self.root)
    }
}

impl BinarySearchTree {
    pub closed spec fn wf(&self) -> bool {
        node_ordered(self.root)
    }

    /// An empty tree.
    pub fn new() -> (t: Self)
        ensures
            t.wf(),
            t@ == Set::<u64>::empty(),
    {
        BinarySearchTree { root: None }
    }

    /// A balanced tree of `keys`.
    pub fn new_with_keys(keys: &[u64]) -> (t: Self)
        ensures
            t.wf(),
            forall|x: u64| t@.contains(x) <==> keys@.contains(x),
    {
        if keys.len() == 0 {
            proof {
                assert(node_keys(None::<Box<TreeNode>>) =~= Set::empty());
            }
            return BinarySearchTree { root: None };
        }
        let mut sorted_keys = copy_keys(keys);
        sort_keys(&mut sorted_keys);
        let root = Self::top_down_bst_insertion(&sorted_keys, 0, sorted_keys.len());
        proof {
            assert forall|x: u64| node_keys(root).contains(x) <==> keys@.contains(x) by {
                if keys@.contains(x) {
                    assert(sorted_keys@.contains(x));
                    let i = choose|i: int| 0 <= i < sorted_keys@.len() && sorted_keys@[i] == x;
                }
                if node_keys(root).contains(x) {
                    let i = choose|i: int| 0 <= i < sorted_keys@.len() && sorted_keys@[i] == x;
                    assert(sorted_keys@.contains(x));
                }
            }
        }
        BinarySearchTree { root }
    }

    /// A balanced tree of `keys[start..end)`, which are sorted.
    fn top_down_bst_insertion(keys: &Vec<u64>, start: usize, end: usize) -> (node: Option<
        Box<TreeNode>,
    >)
        requires
            start <= end <= keys@.len(),
            forall|i: int, j: int| 0 <= i <= j < keys@.len() ==> keys@[i] <= keys@[j],
        ensures
            node_ordered(node),
            forall|x: u64|
                #[trigger] node_keys(node).contains(x) <==> exists|i: int|
                    start <= i < end && keys@[i] == x,
        decreases end - start,
    {
        if start >= end {
            return None;
        }
        let mid = start + (end - start) / 2;
        let left = Self::top_down_bst_insertion(keys, start, mid);
        let right = Self::top_down_bst_insertion(keys, mid + 1, end);
        let node = TreeNode { key: keys[mid], left, right };
        proof {
            assert forall|x: u64| #[trigger] node_keys(left).contains(x) implies x <= keys@[mid as int] by {
                let i = choose|i: int| start <= i < mid && keys@[i] == x;
            }
            assert forall|x: u64| #[trigger] node_keys(right).contains(x) implies x >= keys@[mid as int] by {
                let i = choose|i: int| mid + 1 <= i < end && keys@[i] == x;
            }
            let r = Some(Box::new(node));
            assert forall|x: u64| #[trigger] node_keys(r).contains(x) <==> exists|i: int|
                start <= i < end && keys@[i] == x by {
                if exists|i: int| start <= i < end && keys@[i] == x {
                    let i = choose|i: int| start <= i < end && keys@[i] == x;
                    if i < mid {
                        assert(node_keys(left).contains(x));
                    } else if i > mid {
                        assert(node_keys(right).contains(x));
                    }
                }
                if node_keys(r).contains(x) {
                    if x == keys@[mid as int] {
                    } else if node_keys(left).contains(x) {
                        let i = choose|i: int| start <= i < mid && keys@[i] == x;
                    } else {
                        assert(node_keys(right).contains(x));
                        let i = choose|i: int| mid + 1 <= i < end && keys@[i] == x;
                    }
                }
            }
        }
        Some(Box::new(node))
    }

    /// Add `key` to the tree.
    pub fn insert(&mut self, key: u64)
        requires
            old(self).wf(),
        ensures
            final(self).wf(),
            final(self)@ == old(self)@.insert(key),
    {
        let root = self.root.take();
        self.root = Self::insert_recursive(root, key);
    }

    /// The subtree `node` with `key` added.
    fn insert_recursive(node: Option<Box<TreeNode>>, key: u64) -> (r: Option<Box<TreeNode>>)
        requires
            node_ordered(node),
        ensures
            node_ordered(r),
            node_keys(r) == node_keys(node).insert(key),
        decreases node,
    {
        match node {
            None => {
                let r = Some(Box::new(TreeNode { key, left: None, right: None }));
                proof {
                    assert(node_keys(r) =~= node_keys(node).insert(key));
                }
                r
            },
            Some(n) => {
                let TreeNode { key: k, left, right } = *n;
                if key < k {
                    let new_left = Self::insert_recursive(left, key);
                    let r = Some(Box::new(TreeNode { key: k, left: new_left, right }));
                    proof {
                        assert(node_keys(r) =~= node_keys(node).insert(key));
                    }
                    r
                } else {
                    let new_right = Self::insert_recursive(right, key);
                    let r = Some(Box::new(TreeNode { key: k, left, right: new_right }));
                    proof {
                        assert(node_keys(r) =~= node_keys(node).insert(key));
                    }
                    r
                }
            },
        }
    }

    /// Whether `key` is in the tree.
    pub fn contains(&self, key: u64) -> (found: bool)
        requires
            self.wf(),
        ensures
            found == self@.contains(key),
    {
        Self::contains_recursive(&self.root, key)
    }

    fn contains_recursive(node: &Option<Box<TreeNode>>, key: u64) -> (found: bool)
        requires
            node_ordered(*node),
        ensures
            found == node_keys(*node).contains(key),
        decreases *node,
    {
        match node {
            None => false,
            Some(n) => {
                if key == n.key {
                    true
                } else if key < n.key {
                    let found = Self::contains_recursive(&n.left, key);
                    proof {
                        if node_keys(n.right).contains(key) {
                            assert(key >= n.key);
                        }
                    }
                    found
                } else {
                    let found = Self::contains_recursive(&n.right, key);
                    proof {
                        if node_keys(n.left).contains(key) {
                            assert(key <= n.key);
                        }
                    }
                    found
                }
            },
        }
    }
}

} // verus!
