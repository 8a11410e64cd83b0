//! The binary search tree, its mathematical model, and its traversals.

use vstd::prelude::*;
use crate::order::Comparison;
use crate::order::TotalOrder;

verus! {

/// The mathematical model of a binary search tree: a bare binary tree of
/// values. Every operation of [`BST`] is specified as a function on this
/// model.
pub enum SpecTree<T> {
    /// An absent subtree.
    Nil,
    /// A node holding one value and two subtrees.
    Node { value: T, left: Box<SpecTree<T>>, right: Box<SpecTree<T>> },
}

impl<T: TotalOrder> SpecTree<T> {
    /// The set of values held in the tree.
    pub open spec fn to_set(self) -> Set<T>
        decreases self,
    {
        match self {
            SpecTree::Nil => Set::empty(),
            SpecTree::Node { value, left, right } => left.to_set().union(
                right.to_set(),
            ).insert(value),
        }
    }

    /// Whether `v` is one of the values held in the tree.
    pub open spec fn contains(self, v: T) -> bool {
        self.to_set().contains(v)
    }

    /// The number of nodes in the tree.
    pub open spec fn count(self) -> nat
        decreases self,
    {
        match self {
            SpecTree::Nil => 0,
            SpecTree::Node { value, left, right } => left.count() + right.count() + 1,
        }
    }

    /// The ordering invariant: at every node, all values to the left are
    /// smaller and all values to the right are greater.
    pub open spec fn wf(self) -> bool
        decreases self,
    {
        match self {
            SpecTree::Nil => true,
            SpecTree::Node { value, left, right } => {
                &&& (forall|x: T| #[trigger] left.to_set().contains(x) ==> x.lt(value))
                &&& (forall|x: T| #[trigger] right.to_set().contains(x) ==> value.lt(x))
                &&& left.wf()
                &&& right.wf()
            },
        }
    }

    /// What the standard descent finds: `v` is reached by comparing at each
    /// node and turning left or right. On a well-formed tree this agrees
    /// with [`SpecTree::contains`] (see `crate::laws::lemma_has_iff_contains`).
    pub open spec fn has(self, v: T) -> bool
        decreases self,
    {
        match self {
            SpecTree::Nil => false,
            SpecTree::Node { value, left, right } => if v == value {
                true
            } else if v.lt(value) {
                left.has(v)
            } else {
                right.has(v)
            },
        }
    }

    /// The tree after the standard insertion descent for `v`: a node whose
    /// value compares equal stops the descent unchanged, and an absent child
    /// slot is filled with a new leaf.
    pub open spec fn insert(self, v: T) -> SpecTree<T>
        decreases self,
    {
        match self {
            SpecTree::Nil => (SpecTree::Node {
                value: v,
                left: Box::new(SpecTree::Nil),
                right: Box::new(SpecTree::Nil),
            }),
            SpecTree::Node { value, left, right } => if v == value {
                (SpecTree::Node { value, left, right })
            } else if v.lt(value) {
                (SpecTree::Node { value, left: Box::new(left.insert(v)), right })
            } else {
                (SpecTree::Node { value, left, right: Box::new(right.insert(v)) })
            },
        }
    }

    /// The tree after all of `vs`, in order, have been inserted.
    pub open spec fn insert_all(self, vs: Seq<T>) -> SpecTree<T>
        decreases vs.len(),
    {
        if vs.len() == 0 {
            self
        } else {
            self.insert(vs[0]).insert_all(vs.drop_first())
        }
    }

    /// The tree after the descent for `target` has replaced the value of the
    /// node it reached by `w`; an unsuccessful descent leaves the tree
    /// unchanged. The shape of the tree never changes.
    pub open spec fn replace(self, target: T, w: T) -> SpecTree<T>
        decreases self,
    {
        match self {
            SpecTree::Nil => SpecTree::Nil,
            SpecTree::Node { value, left, right } => if target == value {
                (SpecTree::Node { value: w, left, right })
            } else if target.lt(value) {
                (SpecTree::Node { value, left: Box::new(left.replace(target, w)), right })
            } else {
                (SpecTree::Node { value, left, right: Box::new(right.replace(target, w)) })
            },
        }
    }

    /// The pre-order sequence: node, left subtree, right subtree.
    pub open spec fn pre_order(self) -> Seq<T>
        decreases self,
    {
        match self {
            SpecTree::Nil => Seq::empty(),
            SpecTree::Node { value, left, right } => seq![value] + left.pre_order()
                + right.pre_order(),
        }
    }

    /// The in-order sequence: left subtree, node, right subtree.
    pub open spec fn in_order(self) -> Seq<T>
        decreases self,
    {
        match self {
            SpecTree::Nil => Seq::empty(),
            SpecTree::Node { value, left, right } => left.in_order() + seq![value]
                + right.in_order(),
        }
    }

    /// The post-order sequence: left subtree, right subtree, node.
    pub open spec fn post_order(self) -> Seq<T>
        decreases self,
    {
        match self {
            SpecTree::Nil => Seq::empty(),
            SpecTree::Node { value, left, right } => left.post_order() + right.post_order()
                + seq![value],
        }
    }
}

struct Node<T: TotalOrder> {
    value: T,
    left: Option<Box<Node<T>>>,
    right: Option<Box<Node<T>>>,
}

impl<T: TotalOrder> Node<T> {
    fn insert_into_optional(node: &mut Option<Box<Node<T>>>, value: T)
        ensures
            opt_model(*final(node)) == opt_model(*old(node)).insert(value),
        decreases *old(node),
    {
        match node.take() {
            None => {
                *node = Some(Box::new(Node { value, left: None, right: None }));
                proof {
                    assert(opt_model::<T>(None) == SpecTree::<T>::Nil);
                }
            },
            Some(mut boxed) => {
                match value.compare(&boxed.value) {
                    Comparison::Equal => {
                        *node = Some(boxed);
                    },
                    Comparison::Less => {
                        Node::insert_into_optional(&mut boxed.left, value);
                        *node = Some(boxed);
                    },
                    Comparison::Greater => {
                        Node::insert_into_optional(&mut boxed.right, value);
                        *node = Some(boxed);
                    },
                }
            },
        }
    }

    fn has_in_optional(node: &Option<Box<Node<T>>>, value: T) -> (r: bool)
        ensures
            r == opt_model(*node).has(value),
        decreases node,
    {
        match node {
            None => false,
            Some(n) => match value.compare(&n.value) {
                Comparison::Equal => true,
                Comparison::Less => Node::has_in_optional(&n.left, value),
                Comparison::Greater => Node::has_in_optional(&n.right, value),
            },
        }
    }

    fn retrieve_mut_in_optional(node: &mut Option<Box<Node<T>>>, value: T) -> (r: Option<&mut T>)
        ensures
            r is Some <==> opt_model(*old(node)).has(value),
            r is Some ==> *r.unwrap() == value && opt_model(*final(node)) == opt_model(
                *old(node),
            ).replace(value, *final(r.unwrap())),
            r is None ==> *final(node) == *old(node),
        decreases *old(node),
    {
        match node {
            None => None,
            Some(n) => match value.compare(&n.value) {
                Comparison::Equal => Some(&mut n.value),
                Comparison::Less => Node::retrieve_mut_in_optional(&mut n.left, value),
                Comparison::Greater => Node::retrieve_mut_in_optional(&mut n.right, value),
            },
        }
    }

    fn pre_order_walk(node: Option<Box<Node<T>>>, out: &mut Vec<T>)
        ensures
            final(out)@ == old(out)@ + opt_model(node).pre_order(),
        decreases node,
    {
        let ghost t = opt_model(node);
        match node {
            None => {
                proof {
                    assert(out@ =~= old(out)@ + t.pre_order());
                }
            },
            Some(boxed) => {
                let Node { value, left, right } = *boxed;
                out.push(value);
                Node::pre_order_walk(left, out);
                Node::pre_order_walk(right, out);
                proof {
                    assert(out@ =~= old(out)@ + t.pre_order());
                }
            },
        }
    }

    fn in_order_walk(node: Option<Box<Node<T>>>, out: &mut Vec<T>)
        ensures
            final(out)@ == old(out)@ + opt_model(node).in_order(),
        decreases node,
    {
        let ghost t = opt_model(node);
        match node {
            None => {
                proof {
                    assert(out@ =~= old(out)@ + t.in_order());
                }
            },
            Some(boxed) => {
                let Node { value, left, right } = *boxed;
                Node::in_order_walk(left, out);
                out.push(value);
                Node::in_order_walk(right, out);
                proof {
                    assert(out@ =~= old(out)@ + t.in_order());
                }
            },
        }
    }

    fn post_order_walk(node: Option<Box<Node<T>>>, out: &mut Vec<T>)
        ensures
            final(out)@ == old(out)@ + opt_model(node).post_order(),
        decreases node,
    {
        let ghost t = opt_model(node);
        match node {
            None => {
                proof {
                    assert(out@ =~= old(out)@ + t.post_order());
                }
            },
            Some(boxed) => {
                let Node { value, left, right } = *boxed;
                Node::post_order_walk(left, out);
                Node::post_order_walk(right, out);
                out.push(value);
                proof {
                    assert(out@ =~= old(out)@ + t.post_order());
                }
            },
        }
    }

    fn retrieve_in_optional(node: &Option<Box<Node<T>>>, value: T) -> (r: Option<&T>)
        ensures
            r is Some <==> opt_model(*node).has(value),
            r matches Some(p) ==> *p == value,
        decreases node,
    {
        match node {
            None => None,
            Some(n) => match value.compare(&n.value) {
                Comparison::Equal => Some(&n.value),
                Comparison::Less => Node::retrieve_in_optional(&n.left, value),
                Comparison::Greater => Node::retrieve_in_optional(&n.right, value),
            },
        }
    }
}

/// An ordered binary search tree holding distinct values of `T`.
pub struct BST<T: TotalOrder> {
    root: Option<Box<Node<T>>>,
}

/// The model of an optional subtree.
spec fn opt_model<T: TotalOrder>(o: Option<Box<Node<T>>>) -> SpecTree<T>
    decreases o,
{
    match o {
        None => SpecTree::Nil,
        Some(n) => (SpecTree::Node {
            value: n.value,
            left: Box::new(opt_model(n.left)),
            right: Box::new(opt_model(n.right)),
        }),
    }
}

impl<T: TotalOrder> View for BST<T> {
    type V = SpecTree<T>;

    closed spec fn view(&self) -> SpecTree<T> {
        opt_model(self.root)
    }
}

impl<T: TotalOrder> BST<T> {
    /// Whether the tree satisfies the ordering invariant.
    pub open spec fn well_formed(self) -> bool {
        self@.wf()
    }

    /// Returns a tree with no root.
    pub fn empty() -> (t: Self)
        ensures
            t@ == SpecTree::<T>::Nil,
            t.well_formed(),
    {
        BST { root: None }
    }

    /// Returns a tree whose root holds `value` and has no children.
    pub fn new(value: T) -> (t: Self)
        ensures
            t@ == SpecTree::<T>::Nil.insert(value),
            t.well_formed(),
    {
        let t = BST { root: Some(Box::new(Node { value, left: None, right: None })) };
        proof {
            assert(opt_model::<T>(None) == SpecTree::<T>::Nil);
            assert(t@ == SpecTree::<T>::Nil.insert(value));
            assert(SpecTree::<T>::Nil.wf());
            assert(SpecTree::<T>::Nil.to_set() == Set::<T>::empty());
        }
        t
    }

    /// Inserts `value` by the standard descent; a value already present is
    /// silently dropped. Inserting into a well-formed tree keeps it well
    /// formed.
    pub fn insert(&mut self, value: T)
        ensures
            final(self)@ == old(self)@.insert(value),
            old(self).well_formed() ==> final(self).well_formed(),
    {
        proof {
            if old(self).well_formed() {
                crate::laws::lemma_insert_preserves_wf(old(self)@, value);
            }
        }
        Node::insert_into_optional(&mut self.root, value);
    }

    /// Reports whether the descent for `value` reaches a node comparing
    /// equal to it. On a well-formed tree this is membership; see
    /// `crate::laws::lemma_has_iff_contains`.
    pub fn has_element(&self, value: T) -> (r: bool)
        ensures
            r == self@.has(value),
            self.well_formed() ==> r == self@.contains(value),
    {
        proof {
            if self.well_formed() {
                crate::laws::lemma_has_iff_contains(self@, value);
            }
        }
        Node::has_in_optional(&self.root, value)
    }

    /// Returns a reference to the stored value the descent for `value`
    /// reaches, or `None` if the descent bottoms out.
    pub fn retrieve(&self, value: T) -> (r: Option<&T>)
        ensures
            r is Some <==> self@.has(value),
            r matches Some(p) ==> *p == value,
            self.well_formed() ==> (r is Some <==> self@.contains(value)),
    {
        proof {
            if self.well_formed() {
                crate::laws::lemma_has_iff_contains(self@, value);
            }
        }
        Node::retrieve_in_optional(&self.root, value)
    }

    /// Returns a mutable reference to the stored value the descent for
    /// `value` reaches, or `None` if the descent bottoms out. Writing
    /// through the reference replaces that value in place; the final tree is
    /// the old one with that node's value exchanged for whatever the caller
    /// leaves behind. A replacement that does not order like the old value
    /// breaks the invariant for later lookups — the caller's responsibility;
    /// see `crate::laws::lemma_replace_preserves_wf`.
    pub fn retrieve_as_mut(&mut self, value: T) -> (r: Option<&mut T>)
        ensures
            r is Some <==> old(self)@.has(value),
            r is Some ==> *r.unwrap() == value && final(self)@ == old(self)@.replace(
                value,
                *final(r.unwrap()),
            ),
            r is None ==> final(self)@ == old(self)@,
            old(self).well_formed() ==> (r is Some <==> old(self)@.contains(value)),
    {
        proof {
            if old(self).well_formed() {
                crate::laws::lemma_has_iff_contains(old(self)@, value);
            }
        }
        Node::retrieve_mut_in_optional(&mut self.root, value)
    }

    /// Consumes the tree and yields its elements in pre-order: node, left
    /// subtree, right subtree.
    pub fn into_pre_order_iter(self) -> (it: IntoPreOrderIter<T>)
        ensures
            it@ == self@.pre_order(),
    {
        let ghost t = self@;
        let BST { root } = self;
        let mut elems: Vec<T> = Vec::new();
        Node::pre_order_walk(root, &mut elems);
        proof {
            assert(elems@ =~= t.pre_order());
        }
        IntoPreOrderIter { elems }
    }

    /// Consumes the tree and yields its elements in in-order: left subtree,
    /// node, right subtree — ascending order on a well-formed tree; see
    /// `crate::laws::lemma_in_order_sorted`.
    pub fn into_in_order_iter(self) -> (it: IntoInOrderIter<T>)
        ensures
            it@ == self@.in_order(),
    {
        let ghost t = self@;
        let BST { root } = self;
        let mut elems: Vec<T> = Vec::new();
        Node::in_order_walk(root, &mut elems);
        proof {
            assert(elems@ =~= t.in_order());
        }
        IntoInOrderIter { elems }
    }

    /// Consumes the tree and yields its elements in post-order: left
    /// subtree, right subtree, node.
    pub fn into_post_order_iter(self) -> (it: IntoPostOrderIter<T>)
        ensures
            it@ == self@.post_order(),
    {
        let ghost t = self@;
        let BST { root } = self;
        let mut elems: Vec<T> = Vec::new();
        Node::post_order_walk(root, &mut elems);
        proof {
            assert(elems@ =~= t.post_order());
        }
        IntoPostOrderIter { elems }
    }
}

/// A one-pass sequence of the elements of a consumed tree, in pre-order.
pub struct IntoPreOrderIter<T> {
    elems: Vec<T>,
}

/// A one-pass sequence of the elements of a consumed tree, in in-order.
pub struct IntoInOrderIter<T> {
    elems: Vec<T>,
}

/// A one-pass sequence of the elements of a consumed tree, in post-order.
pub struct IntoPostOrderIter<T> {
    elems: Vec<T>,
}

impl<T> View for IntoPreOrderIter<T> {
    type V = Seq<T>;

    closed spec fn view(&self) -> Seq<T> {
        self.elems@
    }
}

impl<T> View for IntoInOrderIter<T> {
    type V = Seq<T>;

    closed spec fn view(&self) -> Seq<T> {
        self.elems@
    }
}

impl<T> View for IntoPostOrderIter<T> {
    type V = Seq<T>;

    closed spec fn view(&self) -> Seq<T> {
        self.elems@
    }
}

impl<T> IntoPreOrderIter<T> {
    /// Yields the next element, or `None` once the sequence is exhausted.
    pub fn next(&mut self) -> (r: Option<T>)
        ensures
            old(self)@.len() == 0 ==> r is None && final(self)@ == old(self)@,
            old(self)@.len() > 0 ==> r == Some(old(self)@[0]) && final(self)@ == old(
                self,
            )@.drop_first(),
    {
        if self.elems.len() == 0 {
            None
        } else {
            let v = self.elems.remove(0);
            proof {
                assert(self@ =~= old(self)@.drop_first());
            }
            Some(v)
        }
    }
}

impl<T> IntoInOrderIter<T> {
    /// Yields the next element, or `None` once the sequence is exhausted.
    pub fn next(&mut self) -> (r: Option<T>)
        ensures
            old(self)@.len() == 0 ==> r is None && final(self)@ == old(self)@,
            old(self)@.len() > 0 ==> r == Some(old(self)@[0]) && final(self)@ == old(
                self,
            )@.drop_first(),
    {
        if self.elems.len() == 0 {
            None
        } else {
            let v = self.elems.remove(0);
            proof {
                assert(self@ =~= old(self)@.drop_first());
            }
            Some(v)
        }
    }
}

impl<T> IntoPostOrderIter<T> {
    /// Yields the next element, or `None` once the sequence is exhausted.
    pub fn next(&mut self) -> (r: Option<T>)
        ensures
            old(self)@.len() == 0 ==> r is None && final(self)@ == old(self)@,
            old(self)@.len() > 0 ==> r == Some(old(self)@[0]) && final(self)@ == old(
                self,
            )@.drop_first(),
    {
        if self.elems.len() == 0 {
            None
        } else {
            let v = self.elems.remove(0);
            proof {
                assert(self@ =~= old(self)@.drop_first());
            }
            Some(v)
        }
    }
}

} // verus!
