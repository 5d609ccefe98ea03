//! A binary search tree generic over its element type, with iterators that
//! walk the right spine of the tree (by value, by reference, and by mutable
//! reference).

use vstd::prelude::*;

verus! {

/// A strict total order on the element type, with executable comparisons
/// that agree with it. Equality in the comparisons is spec equality.
pub trait StrictOrder: Sized {
    /// The strict order relation.
    spec fn lt_spec(self, other: Self) -> bool;

    proof fn lemma_irreflexive(a: Self)
        ensures
            !Self::lt_spec(a, a),
    ;

    proof fn lemma_transitive(a: Self, b: Self, c: Self)
        requires
            Self::lt_spec(a, b),
            Self::lt_spec(b, c),
        ensures
            Self::lt_spec(a, c),
    ;

    proof fn lemma_connected(a: Self, b: Self)
        ensures
            a != b ==> Self::lt_spec(a, b) || Self::lt_spec(b, a),
    ;

    /// Executable strict comparison.
    fn lt(&self, other: &Self) -> (r: bool)
        ensures
            r == Self::lt_spec(*self, *other),
    ;

    /// Executable equality.
    fn eq_val(&self, other: &Self) -> (r: bool)
        ensures
            r == (*self == *other),
    ;
}

impl StrictOrder for i32 {
    open spec fn lt_spec(self, other: Self) -> bool {
        self < other
    }

    proof fn lemma_irreflexive(a: Self) {
    }

    proof fn lemma_transitive(a: Self, b: Self, c: Self) {
    }

    proof fn lemma_connected(a: Self, b: Self) {
    }

    fn lt(&self, other: &Self) -> (r: bool) {
        *self < *other
    }

    fn eq_val(&self, other: &Self) -> (r: bool) {
        *self == *other
    }
}

#[derive(Debug)]
struct Node<T> {
    val: T,
    left: Link<T>,
    right: Link<T>,
}

type Link<T> = Option<Box<Node<T>>>;

/// The tree; its abstract value is the set of elements it holds.
#[derive(Debug)]
pub struct BST<T> {
    root: Link<T>,
}

/// The set of values in a subtree.
spec fn link_set<T>(link: Link<T>) -> Set<T>
    decreases link,
{
    match link {
        None => Set::empty(),
        Some(n) => link_set(n.left).insert(n.val).union(link_set(n.right)),
    }
}

/// The search-tree ordering: left holds smaller, right larger values.
spec fn link_wf<T: StrictOrder>(link: Link<T>) -> bool
    decreases link,
{
    match link {
        None => true,
        Some(n) => {
            &&& link_wf(n.left)
            &&& link_wf(n.right)
            &&& (forall|x: T| link_set(n.left).contains(x) ==> x.lt_spec(n.val))
            &&& (forall|x: T| link_set(n.right).contains(x) ==> n.val.lt_spec(x))
        },
    }
}

/// The values along the right spine of a subtree, root first.
spec fn right_spine<T>(link: Link<T>) -> Seq<T>
    decreases link,
{
    match link {
        None => Seq::empty(),
        Some(n) => seq![n.val] + right_spine(n.right),
    }
}

/// Every value on the right spine is in the subtree's set.
proof fn lemma_spine_in_set<T>(link: Link<T>)
    ensures
        forall|i: int|
            0 <= i < right_spine(link).len() ==> link_set(link).contains(
                #[trigger] right_spine(link)[i],
            ),
    decreases link,
{
    match link {
        None => {},
        Some(n) => {
            lemma_spine_in_set(n.right);
            assert forall|i: int| 0 <= i < right_spine(link).len() implies link_set(link).contains(
                right_spine(link)[i],
            ) by {
                if i == 0 {
                    assert(right_spine(link)[0] == n.val);
                } else {
                    assert(right_spine(link)[i] == right_spine(n.right)[i - 1]);
                    assert(link_set(n.right).contains(right_spine(n.right)[i - 1]));
                }
            }
        },
    }
}

/// A nonempty well-formed tree whose root is not below `e` has no spine
/// element below `e`, so inserting `e` cannot extend the spine.
proof fn lemma_spine_not_extended<T: StrictOrder>(link: Link<T>, e: T)
    requires
        link_wf(link),
        link is Some,
        !link->Some_0.val.lt_spec(e),
    ensures
        right_spine(link).len() > 0,
        !right_spine(link).last().lt_spec(e),
{
    let n = link->Some_0;
    let spine = right_spine(link);
    if right_spine(n.right).len() == 0 {
        assert(spine.last() == n.val);
    } else {
        assert(spine.last() == right_spine(n.right).last());
        lemma_spine_in_set(n.right);
        let k = right_spine(n.right).len() - 1;
        assert(link_set(n.right).contains(right_spine(n.right)[k]));
        assert(n.val.lt_spec(spine.last()));
        if spine.last().lt_spec(e) {
            T::lemma_transitive(n.val, spine.last(), e);
        }
    }
}

/// The spine after inserting `e`: extended at the end when `e` is larger
/// than everything on the spine, unchanged otherwise.
spec fn spine_after_insert<T: StrictOrder>(spine: Seq<T>, e: T) -> Seq<T> {
    if spine.len() == 0 || spine.last().lt_spec(e) {
        spine.push(e)
    } else {
        spine
    }
}

trait InsertSearch<T: StrictOrder>: Sized {
    spec fn elems(self) -> Set<T>;

    spec fn sorted(self) -> bool;

    spec fn spine_of(self) -> Seq<T>;

    fn my_insert(&mut self, e: T) -> (r: bool)
        requires
            old(self).sorted(),
        ensures
            final (self).sorted(),
            final (self).elems() == old(self).elems().insert(e),
            r == !old(self).elems().contains(e),
            final (self).spine_of() == spine_after_insert(old(self).spine_of(), e),
    ;

    fn my_search(&self, e: T) -> (r: bool)
        requires
            self.sorted(),
        ensures
            r == self.elems().contains(e),
    ;
}

impl<T: StrictOrder> InsertSearch<T> for Link<T> {
    spec fn elems(self) -> Set<T> {
        link_set(self)
    }

    spec fn sorted(self) -> bool {
        link_wf(self)
    }

    spec fn spine_of(self) -> Seq<T> {
        right_spine(self)
    }

    fn my_insert(&mut self, e: T) -> (r: bool)
        decreases *old(self),
    {
        match self {
            None => {
                *self = Some(Box::new(Node { val: e, left: None, right: None }));
                proof {
                    assert(link_set(*final(self)) =~= link_set(*old(self)).insert(e));
                    assert(right_spine(*final(self)) =~= right_spine(*old(self)).push(e));
                }
                return true;
            },
            Some(node) => {
                if node.val.eq_val(&e) {
                    proof {
                        assert(link_set(*old(self)).insert(e) =~= link_set(*old(self)));
                        T::lemma_irreflexive(e);
                        assert(!node.val.lt_spec(e));
                        lemma_spine_not_extended(*old(self), e);
                    }
                    return false;
                } else if e.lt(&node.val) {
                    proof {
                        if link_set(node.right).contains(e) {
                            assert(node.val.lt_spec(e));
                            T::lemma_transitive(e, node.val, e);
                            T::lemma_irreflexive(e);
                        }
                        if node.val.lt_spec(e) {
                            T::lemma_transitive(e, node.val, e);
                            T::lemma_irreflexive(e);
                        }
                        lemma_spine_not_extended(*old(self), e);
                    }
                    let r = node.left.my_insert(e);
                    proof {
                        assert(link_set(*final(self)) =~= link_set(*old(self)).insert(e));
                        assert(right_spine(*final(self)) =~= right_spine(*old(self)));
                    }
                    return r;
                } else {
                    proof {
                        T::lemma_connected(e, node.val);
                        assert(node.val.lt_spec(e));
                        if link_set(node.left).contains(e) {
                            assert(e.lt_spec(node.val));
                            T::lemma_transitive(e, node.val, e);
                            T::lemma_irreflexive(e);
                        }
                    }
                    let ghost pre_right = node.right;
                    let r = node.right.my_insert(e);
                    proof {
                        assert(link_set(*final(self)) =~= link_set(*old(self)).insert(e));
                        assert(right_spine(*old(self)) =~= seq![node.val] + right_spine(pre_right));
                        assert(right_spine(*final(self)) =~= seq![node.val] + right_spine(
                            node.right,
                        ));
                        if right_spine(pre_right).len() == 0 {
                            assert(right_spine(*old(self)).last() == node.val);
                            assert(right_spine(*final(self)) =~= right_spine(*old(self)).push(e));
                        } else {
                            assert(right_spine(*old(self)).last() == right_spine(
                                pre_right,
                            ).last());
                            if right_spine(pre_right).last().lt_spec(e) {
                                assert(right_spine(*final(self)) =~= right_spine(
                                    *old(self),
                                ).push(e));
                            } else {
                                assert(right_spine(*final(self)) =~= right_spine(*old(self)));
                            }
                        }
                    }
                    return r;
                }
            },
        }
    }

    fn my_search(&self, e: T) -> (r: bool)
        decreases *self,
    {
        match self {
            None => false,
            Some(node) => {
                if node.val.eq_val(&e) {
                    true
                } else if e.lt(&node.val) {
                    proof {
                        if link_set(node.right).contains(e) {
                            assert(node.val.lt_spec(e));
                            T::lemma_transitive(e, node.val, e);
                            T::lemma_irreflexive(e);
                        }
                    }
                    node.left.my_search(e)
                } else {
                    proof {
                        T::lemma_connected(e, node.val);
                        assert(node.val.lt_spec(e));
                        if link_set(node.left).contains(e) {
                            assert(e.lt_spec(node.val));
                            T::lemma_transitive(e, node.val, e);
                            T::lemma_irreflexive(e);
                        }
                    }
                    node.right.my_search(e)
                }
            },
        }
    }
}

impl<T: StrictOrder> BST<T> {
    /// The set of values in the tree.
    pub closed spec fn as_set(self) -> Set<T> {
        link_set(self.root)
    }

    /// The search-tree ordering holds everywhere.
    pub closed spec fn wf(self) -> bool {
        link_wf(self.root)
    }

    /// The values along the right spine, root first: what the iterators
    /// visit.
    pub closed spec fn spine(self) -> Seq<T> {
        right_spine(self.root)
    }

    /// An empty tree.
    pub fn new() -> (t: Self)
        ensures
            t.wf(),
            t.as_set() == Set::<T>::empty(),
            t.spine() == Seq::<T>::empty(),
    {
        let t = BST { root: None };
        proof {
            assert(t.spine() =~= Seq::<T>::empty());
        }
        t
    }

    /// Adds `val`; reports whether it was newly inserted. The right spine —
    /// what the iterators visit — gains `val` at its end exactly when `val`
    /// is above the whole spine, and is otherwise untouched.
    pub fn insert(&mut self, val: T) -> (r: bool)
        requires
            old(self).wf(),
        ensures
            final (self).wf(),
            final (self).as_set() == old(self).as_set().insert(val),
            r == !old(self).as_set().contains(val),
            final (self).spine() == (if old(self).spine().len() == 0 || old(
                self,
            ).spine().last().lt_spec(val) {
                old(self).spine().push(val)
            } else {
                old(self).spine()
            }),
    {
        self.root.my_insert(val)
    }

    /// Whether `target` is in the tree.
    pub fn search(&self, target: T) -> (r: bool)
        requires
            self.wf(),
        ensures
            r == self.as_set().contains(target),
    {
        self.root.my_search(target)
    }
}

/// Consuming iterator over the right spine of the tree.
#[derive(Debug)]
pub struct BSTIntoIter<T> {
    current_node: Link<T>,
}

impl<T> BSTIntoIter<T> {
    /// The values still to be yielded.
    pub closed spec fn remaining(self) -> Seq<T> {
        right_spine(self.current_node)
    }

    /// Yields the next value down the right spine, if any.
    pub fn next(&mut self) -> (r: Option<T>)
        ensures
            (old(self).remaining().len() == 0 ==> (r is None && final(self).remaining() == old(
                self,
            ).remaining())),
            (old(self).remaining().len() > 0 ==> (r == Some(old(self).remaining().first())
                && final(self).remaining() == old(self).remaining().drop_first())),
    {
        match self.current_node.take() {
            None => None,
            Some(node) => {
                let n = *node;
                self.current_node = n.right;
                proof {
                    assert((seq![n.val] + right_spine(n.right)).drop_first() =~= right_spine(
                        n.right,
                    ));
                }
                Some(n.val)
            },
        }
    }
}

impl<T: StrictOrder> BST<T> {
    /// A consuming iterator over the right spine.
    pub fn into_iter(self) -> (it: BSTIntoIter<T>)
        ensures
            it.remaining() == self.spine(),
    {
        BSTIntoIter { current_node: self.root }
    }
}

/// Borrowing iterator over the right spine of the tree.
pub struct BSTIter<'a, T> {
    current_node: Option<&'a Node<T>>,
}

/// The values still to be yielded by a borrowing iterator.
spec fn spine_of_ref<T>(o: Option<&Node<T>>) -> Seq<T>
    decreases o,
{
    match o {
        None => Seq::empty(),
        Some(n) => seq![n.val] + right_spine(n.right),
    }
}

impl<'a, T> BSTIter<'a, T> {
    /// The values still to be yielded.
    pub closed spec fn remaining(self) -> Seq<T> {
        spine_of_ref(self.current_node)
    }

    /// Yields a reference to the next value down the right spine, if any.
    pub fn next(&mut self) -> (r: Option<&'a T>)
        ensures
            (old(self).remaining().len() == 0 ==> (r is None && final(self).remaining() == old(
                self,
            ).remaining())),
            (old(self).remaining().len() > 0 ==> ((r matches Some(v) && *v == old(
                self,
            ).remaining().first()) && final(self).remaining() == old(
                self,
            ).remaining().drop_first())),
    {
        match self.current_node {
            None => None,
            Some(node) => {
                self.current_node = match &node.right {
                    None => None,
                    Some(b) => Some(&**b),
                };
                proof {
                    assert((seq![node.val] + right_spine(node.right)).drop_first() =~= right_spine(
                        node.right,
                    ));
                }
                Some(&node.val)
            },
        }
    }
}

impl<T: StrictOrder> BST<T> {
    /// A borrowing iterator over the right spine.
    pub fn iter(&self) -> (it: BSTIter<'_, T>)
        ensures
            it.remaining() == self.spine(),
    {
        let it = BSTIter {
            current_node: match &self.root {
                None => None,
                Some(b) => Some(&**b),
            },
        };
        it
    }
}

/// Mutably borrowing iterator over the right spine of the tree.
pub struct BSTIterMut<'a, T> {
    current_node: Option<&'a mut Node<T>>,
}

impl<'a, T> BSTIterMut<'a, T> {
    /// Yields a mutable reference to the next value down the right spine.
    /// A mutable borrow is opaque to specifications, so this iterator
    /// carries no contract; the behaviour is pinned by the tests.
    pub fn next(&mut self) -> (r: Option<&'a mut T>) {
        match self.current_node.take() {
            None => None,
            Some(node) => {
                self.current_node = match &mut node.right {
                    None => None,
                    Some(b) => Some(&mut **b),
                };
                Some(&mut node.val)
            },
        }
    }
}

impl<T: StrictOrder> BST<T> {
    /// A mutably borrowing iterator over the right spine.
    pub fn iter_mut(&mut self) -> (it: BSTIterMut<'_, T>) {
        let it = BSTIterMut {
            current_node: match &mut self.root {
                None => None,
                Some(b) => Some(&mut **b),
            },
        };
        it
    }
}

} // verus!

