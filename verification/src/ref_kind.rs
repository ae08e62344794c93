//! The reference discipline: cursors over the tree grant either shared
//! read access — any number may coexist — or exclusive write access —
//! at most one cursor of any kind while it lives. Rust's borrows
//! enforce the "many shared readers XOR one exclusive writer" rule at
//! the type level, so a cursor records which capability it was created
//! with as a marker type, and navigating to a child preserves it.

use crate::node::Node;
use vstd::prelude::*;

verus! {

/// Seals [`RefKind`]: the two access kinds below are the only ones.
pub trait Sealed {

}

/// Exclusive (write) access: while a cursor of this kind lives, it is
/// the only cursor over data reachable from it.
pub struct Mutable;

/// Shared (read) access: any number of such cursors may coexist.
pub struct Immutable;

impl Sealed for Mutable {

}

impl Sealed for Immutable {

}

/// An access kind for cursors over the tree.
pub trait RefKind: Sealed {

}

impl RefKind for Mutable {

}

impl RefKind for Immutable {

}

/// A cursor over one node of a tree. `R` is the access kind it was
/// created with; casting the cursor down to a child keeps the kind.
/// The cursor itself only reads; what exclusive access adds is the
/// caller's right to hold it while mutating elsewhere is impossible.
pub struct NodeRef<'a, T, R: RefKind> {
    node: &'a Node<T>,
    kind: R,
}

impl<'a, T, R: RefKind> NodeRef<'a, T, R> {
    /// The node this cursor stands on.
    pub closed spec fn target(self) -> Node<T> {
        *self.node
    }

    /// Makes a cursor of the given access kind over a node.
    pub fn new(node: &'a Node<T>, kind: R) -> (r: Self)
        ensures
            r.target() == *node,
    {
        NodeRef { node, kind }
    }

    /// Whether the cursor stands on a leaf.
    pub fn is_leaf(&self) -> (r: bool)
        ensures
            r == (self.target() is Leaf),
    {
        self.node.is_leaf()
    }

    /// The number of entries held directly by this node.
    pub fn length(&self) -> (r: usize)
        ensures
            r == self.target().spec_length(),
    {
        self.node.length()
    }

    /// Moves the cursor down to child `i` of an internal node,
    /// preserving the access kind.
    pub fn into_child(self, i: usize) -> (r: Self)
        requires
            self.target() is Internal,
            i < self.target().spec_length(),
        ensures
            r.target() == self.target().kids()[i as int],
    {
        match self.node {
            Node::Internal { children, .. } => NodeRef { node: &children[i], kind: self.kind },
            Node::Leaf { .. } => {
                proof {
                    assert(false);
                }
                NodeRef { node: self.node, kind: self.kind }
            },
        }
    }

    /// The cached element count of child `i` of an internal node.
    pub fn size_of_child(&self, i: usize) -> (r: usize)
        requires
            self.target() is Internal,
            self.target().sizes_exact(),
            i < self.target().spec_length(),
        ensures
            r == self.target().kids()[i as int].elems().len(),
    {
        match self.node {
            Node::Internal { sizes, .. } => sizes[i],
            Node::Leaf { .. } => {
                proof {
                    assert(false);
                }
                0
            },
        }
    }

    /// Borrows element `i` of a leaf.
    pub fn element(&self, i: usize) -> (r: &'a T)
        requires
            self.target() is Leaf,
            i < self.target().spec_length(),
        ensures
            *r == self.target().elems()[i as int],
    {
        match self.node {
            Node::Leaf { elems } => &elems[i],
            Node::Internal { .. } => {
                proof {
                    assert(false);
                }
                vstd::pervasive::unreached()
            },
        }
    }
}

} // verus!
