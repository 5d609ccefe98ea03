//! A binary search tree over `i32` values, seen abstractly as the set of
//! values it holds.

use vstd::prelude::*;

verus! {

#[derive(Debug)]
struct Node {
    val: i32,
    left: Link,
    right: Link,
}

#[derive(Debug)]
enum Link {
    Empty,
    More(Box<Node>),
}

/// The tree; its abstract value is a set of integers.
#[derive(Debug)]
pub struct BST {
    root: Link,
}

impl Link {
    /// The set of values in this subtree.
    spec fn as_set(self) -> Set<i32>
        decreases self,
    {
        match self {
            Link::Empty => Set::empty(),
            Link::More(n) => n.left.as_set().insert(n.val).union(n.right.as_set()),
        }
    }

    /// The search-tree ordering: left holds smaller, right larger values.
    spec fn wf(self) -> bool
        decreases self,
    {
        match self {
            Link::Empty => true,
            Link::More(n) => {
                &&& n.left.wf()
                &&& n.right.wf()
                &&& (forall|x: i32| n.left.as_set().contains(x) ==> x < n.val)
                &&& (forall|x: i32| n.right.as_set().contains(x) ==> x > n.val)
            },
        }
    }

    fn insert(&mut self, val: i32) -> (r: bool)
        requires
            old(self).wf(),
        ensures
            final (self).wf(),
            final (self).as_set() == old(self).as_set().insert(val),
            r == !old(self).as_set().contains(val),
        decreases *old(self),
    {
        match self {
            Link::Empty => {
                *self = Link::More(
                    Box::new(Node { val: val, left: Link::Empty, right: Link::Empty }),
                );
                proof {
                    assert(final(self).as_set() =~= old(self).as_set().insert(val));
                }
                return true;
            },
            Link::More(node) => {
                if val == node.val {
                    proof {
                        assert(old(self).as_set().insert(val) =~= old(self).as_set());
                    }
                    return false;
                } else if val < node.val {
                    proof {
                        if node.right.as_set().contains(val) {
                            assert(val > node.val);
                        }
                    }
                    let r = node.left.insert(val);
                    proof {
                        assert(final(self).as_set() =~= old(self).as_set().insert(val));
                    }
                    return r;
                } else {
                    proof {
                        if node.left.as_set().contains(val) {
                            assert(val < node.val);
                        }
                    }
                    let r = node.right.insert(val);
                    proof {
                        assert(final(self).as_set() =~= old(self).as_set().insert(val));
                    }
                    return r;
                }
            },
        }
    }

    fn search(&self, target: i32) -> (r: bool)
        requires
            self.wf(),
        ensures
            r == self.as_set().contains(target),
        decreases *self,
    {
        match self {
            Link::Empty => false,
            Link::More(node) => {
                if target == node.val {
                    true
                } else if target < node.val {
                    proof {
                        if node.right.as_set().contains(target) {
                            assert(target > node.val);
                        }
                    }
                    node.left.search(target)
                } else {
                    proof {
                        if node.left.as_set().contains(target) {
                            assert(target < node.val);
                        }
                    }
                    node.right.search(target)
                }
            },
        }
    }
}

impl BST {
    /// The set of values in the tree.
    pub closed spec fn as_set(self) -> Set<i32> {
        self.root.as_set()
    }

    /// The search-tree ordering holds everywhere.
    pub closed spec fn wf(self) -> bool {
        self.root.wf()
    }

    /// An empty tree.
    pub fn new() -> (t: Self)
        ensures
            t.wf(),
            t.as_set() == Set::<i32>::empty(),
    {
        BST { root: Link::Empty }
    }

    /// Adds `val`; reports whether it was newly inserted.
    pub fn insert(&mut self, val: i32) -> (r: bool)
        requires
            old(self).wf(),
        ensures
            final (self).wf(),
            final (self).as_set() == old(self).as_set().insert(val),
            r == !old(self).as_set().contains(val),
    {
        self.root.insert(val)
    }

    /// Whether `target` is in the tree.
    pub fn search(&self, target: i32) -> (r: bool)
        requires
            self.wf(),
        ensures
            r == self.as_set().contains(target),
    {
        self.root.search(target)
    }
}

} // verus!
