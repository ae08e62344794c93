//! A growable sequence (vector) implemented as a B+ tree, indexed by
//! position rather than by key.
//!
//! Random access, insertion and removal at arbitrary positions all take
//! O(log n) time, in contrast to the linear shifting cost of an
//! array-backed vector. The branching factor `B` is configurable and must
//! be at least 3.

use vstd::prelude::*;

pub mod debug;
pub mod node;
pub mod ref_kind;
mod insert;
mod remove;

use node::Node;

verus! {

/// A growable sequence backed by a B+ tree with branching factor `B`.
pub struct BTreeVec<T, const B: usize> {
    root: Option<Node<T>>,
    size: usize,
}

impl<T, const B: usize> BTreeVec<T, B> {
    /// The sequence of elements held, in positional order.
    pub closed spec fn view(&self) -> Seq<T> {
        match self.root {
            Some(root) => root.elems(),
            None => Seq::empty(),
        }
    }

    /// Well-formedness of the whole container. The root is present
    /// exactly when the sequence is not empty; the tree is well formed
    /// under branching factor `B`, the recorded size equals the number of
    /// elements actually in the tree, and an internal root always holds
    /// at least two children (one with a single child is collapsed away).
    /// For a branching factor of at least 4, no internal node anywhere
    /// holds a single child, which makes the occupancy bounds hold with
    /// no exemptions.
    pub closed spec fn wf(&self) -> bool {
        &&& B >= 3
        &&& match self.root {
            Some(root) => {
                &&& root.wf(B as int)
                &&& self.size == root.elems().len()
                &&& self.size > 0
                &&& (root is Internal ==> root.spec_length() >= 2)
                &&& (B >= 4 ==> root.lone_free())
            },
            None => self.size == 0,
        }
    }

    /// The height of the tree: zero when empty, one for a single leaf,
    /// and one more for each internal level above the leaves.
    pub closed spec fn spec_height(&self) -> nat {
        match self.root {
            Some(root) => root.height() + 1,
            None => 0,
        }
    }

    /// The root node, if any, as a specification value.
    pub closed spec fn spec_root(&self) -> Option<Node<T>> {
        self.root
    }

    /// Creates a new, empty sequence. The branching factor `B` must be at
    /// least 3: below that no valid split or merge strategy exists.
    pub fn new() -> (r: Self)
        requires
            B >= 3,
        ensures
            r.wf(),
            r@ == Seq::<T>::empty(),
    {
        BTreeVec { root: None, size: 0 }
    }

    /// Creates a new, empty sequence; an alias of [`Self::new`].
    pub fn create() -> (r: Self)
        requires
            B >= 3,
        ensures
            r.wf(),
            r@ == Seq::<T>::empty(),
    {
        Self::new()
    }

    /// Gets the length of the vector.
    pub fn len(&self) -> (r: usize)
        requires
            self.wf(),
        ensures
            r == self@.len(),
    {
        self.size
    }

    /// Checks whether the vector is empty.
    pub fn is_empty(&self) -> (r: bool)
        requires
            self.wf(),
        ensures
            r == (self@.len() == 0),
    {
        self.size == 0
    }

    /// Gets the item at `index`, or `None` if no such item exists.
    pub fn get(&self, index: usize) -> (r: Option<&T>)
        requires
            self.wf(),
        ensures
            match r {
                Some(x) => index < self@.len() && *x == self@[index as int],
                None => index >= self@.len(),
            },
    {
        if index < self.size {
            match &self.root {
                Some(root) => Some(root.get_rec(index, B)),
                None => {
                    proof {
                        assert(false);
                    }
                    None
                },
            }
        } else {
            None
        }
    }

    /// Gets the first item in the vector, or `None` if the vector is
    /// empty.
    pub fn first(&self) -> (r: Option<&T>)
        requires
            self.wf(),
        ensures
            match r {
                Some(x) => self@.len() > 0 && *x == self@[0],
                None => self@.len() == 0,
            },
    {
        self.get(0)
    }

    /// Inserts `item` at `index`, which must be at most the current
    /// length. The first leaf is made lazily on the first insertion into
    /// an empty container; a full leaf splits, and the split may cascade
    /// up to the root, growing the tree by at most one level.
    pub fn insert(&mut self, index: usize, item: T)
        requires
            old(self).wf(),
            index <= old(self)@.len(),
            old(self)@.len() < usize::MAX,
        ensures
            final(self).wf(),
            final(self)@ == old(self)@.insert(index as int, item),
            // the tree grows by at most one level per insertion
            old(self).spec_height() <= final(self).spec_height() <= old(self).spec_height() + 1,
            // and grows only by making a brand-new root with exactly two
            // children: the old root and its new sibling
            (old(self)@.len() > 0 && final(self).spec_height() == old(self).spec_height() + 1)
                ==> (final(self).spec_root() matches Some(n) && n is Internal && n.spec_length()
                == 2),
    {
        if self.root.is_none() {
            self.root = Some(Node::Leaf { elems: Vec::new() });
            proof {
                assert(self@ =~= old(self)@);
                assert(self.root->0.kids_lone_free());
            }
        }
        let root = self.root.take().unwrap();
        let (root2, split) = root.insert_rec(index, item, B);
        match split {
            None => {
                self.root = Some(root2);
            },
            Some((sib, sz)) => {
                let ghost r2e = root2.elems();
                let ghost sbe = sib.elems();
                proof {
                    assert((r2e + sbe).len() == self.size + 1);
                }
                let left_sz = self.size + 1 - sz;
                let mut sizes: Vec<usize> = Vec::new();
                sizes.push(left_sz);
                sizes.push(sz);
                let mut children: Vec<Node<T>> = Vec::new();
                children.push(root2);
                children.push(sib);
                proof {
                    assert(children@.drop_last() =~= seq![children@[0]]);
                    Node::<T>::lemma_elems_of_singleton(children@[0]);
                    assert(Node::<T>::elems_of(children@) == r2e + sbe);
                    if B >= 4 {
                        let r0 = Node::Internal { sizes, children };
                        assert(r0.kids() =~= children@);
                        assert(r0.kids_lone_free());
                    }
                }
                self.root = Some(Node::Internal { sizes, children });
            },
        }
        self.size = self.size + 1;
    }

    /// Inserts `item` at the end of the vector.
    pub fn push(&mut self, item: T)
        requires
            old(self).wf(),
            old(self)@.len() < usize::MAX,
        ensures
            final(self).wf(),
            final(self)@ == old(self)@.push(item),
    {
        let n = self.size;
        self.insert(n, item);
        proof {
            assert(old(self)@.insert(old(self)@.len() as int, item) =~= old(self)@.push(item));
        }
    }

    /// Replaces the item at `index`, which must be less than the current
    /// length, with `value`, and returns the item that was there. This
    /// is the in-place mutation primitive of the container; the shape of
    /// the tree is untouched.
    pub fn replace(&mut self, index: usize, value: T) -> (r: T)
        requires
            old(self).wf(),
            index < old(self)@.len(),
        ensures
            final(self).wf(),
            final(self)@ == old(self)@.update(index as int, value),
            r == old(self)@[index as int],
    {
        let root = self.root.take().unwrap();
        let (root2, old_value) = root.set_rec(index, value, B);
        self.root = Some(root2);
        old_value
    }

    /// Removes and returns the item at `index`, which must be less than
    /// the current length. Removal may leave nodes under-occupied; they
    /// are mended by borrowing from or merging with siblings, cascading
    /// up to the root, and an internal root left with a single child is
    /// collapsed away.
    pub fn remove(&mut self, index: usize) -> (r: T)
        requires
            old(self).wf(),
            index < old(self)@.len(),
        ensures
            final(self).wf(),
            final(self)@ == old(self)@.remove(index as int),
            r == old(self)@[index as int],
            // the tree shrinks by at most one level while elements remain
            final(self).spec_height() <= old(self).spec_height(),
            final(self)@.len() > 0 ==> old(self).spec_height() <= final(self).spec_height() + 1,
    {
        let root = self.root.take().unwrap();
        let (root2, item) = root.remove_rec(index, B);
        let root3 = match root2 {
            Node::Internal { sizes, mut children } => {
                if children.len() == 1 {
                    // root collapse: promote the sole child
                    let ghost cs = children@;
                    let child = children.pop().unwrap();
                    proof {
                        assert(cs =~= seq![child]);
                        Node::<T>::lemma_elems_of_singleton(child);
                        if B >= 4 {
                            assert(root2.kids()[0].lone_free());
                        }
                    }
                    child
                } else {
                    proof {
                        if B >= 4 {
                            let r0 = Node::Internal { sizes, children };
                            assert(r0.kids() =~= root2.kids());
                            assert(r0.kids_lone_free());
                            assert(r0.lone_free());
                        }
                    }
                    Node::Internal { sizes, children }
                }
            },
            leaf => {
                proof {
                    assert(leaf.kids_lone_free());
                }
                leaf
            },
        };
        self.size = self.size - 1;
        if self.size == 0 {
            // the root is absent exactly when the sequence is empty
            self.root = None;
            proof {
                assert(old(self)@.remove(index as int) =~= Seq::<T>::empty());
            }
        } else {
            self.root = Some(root3);
        }
        item
    }

    /// Removes and returns the last item in the vector, or `None` if the
    /// vector is empty.
    pub fn pop(&mut self) -> (r: Option<T>)
        requires
            old(self).wf(),
        ensures
            final(self).wf(),
            match r {
                Some(x) => old(self)@.len() > 0 && x == old(self)@.last() && final(self)@ == old(
                    self,
                )@.drop_last(),
                None => old(self)@.len() == 0 && final(self)@ == old(self)@,
            },
    {
        if self.size == 0 {
            None
        } else {
            let n = self.size - 1;
            let x = self.remove(n);
            proof {
                assert(old(self)@.remove(old(self)@.len() - 1) =~= old(self)@.drop_last());
            }
            Some(x)
        }
    }

    /// Gets the last item in the vector, or `None` if the vector is
    /// empty.
    pub fn last(&self) -> (r: Option<&T>)
        requires
            self.wf(),
        ensures
            match r {
                Some(x) => self@.len() > 0 && *x == self@[self@.len() - 1],
                None => self@.len() == 0,
            },
    {
        if self.size == 0 {
            None
        } else {
            self.get(self.size - 1)
        }
    }
    /// Read-only access to the root node, for external collaborators
    /// that walk the tree without mutating it (a graph export, a
    /// structural check). Besides well-formedness, the contract carries
    /// the structural laws of the tree: every cached size entry is the
    /// true element count of its child's subtree, occupancy bounds hold
    /// everywhere, and an internal root never has a single child. For a
    /// branching factor of at least 4 the occupancy bounds hold with no
    /// exemptions: every node but the root holds between `B / 2` and `B`
    /// entries.
    pub fn root_node(&self) -> (r: Option<&Node<T>>)
        requires
            self.wf(),
        ensures
            match r {
                Some(n) => {
                    &&& self.spec_root() == Some(*n)
                    &&& self@.len() > 0
                    &&& n.elems() == self@
                    &&& n.wf(B as int)
                    &&& n.sizes_exact()
                    &&& n.occupancy_ok(B as int)
                    &&& (n is Internal ==> n.spec_length() >= 2)
                    &&& (B >= 4 ==> n.occupancy_strict(B as int))
                },
                None => self.spec_root() is None && self@.len() == 0,
            },
    {
        proof {
            if self.root is Some {
                self.root->0.lemma_wf_sizes_exact(B as int);
                self.root->0.lemma_wf_occupancy(B as int);
                if B >= 4 {
                    self.root->0.lemma_wf_occupancy_strict(B as int);
                }
            }
        }
        self.root.as_ref()
    }

    /// Gets an iterator that returns references to each item in the
    /// vector, in positional order.
    pub fn iter(&self) -> (it: Iter<'_, T, B>)
        requires
            self.wf(),
        ensures
            it.iter_wf(),
            it.remaining() == self@,
    {
        Iter { vec: self, index: 0 }
    }

    /// Turns the vector into an owning iterator over its items, in
    /// positional order.
    pub fn into_iter(self) -> (it: IntoIter<T, B>)
        requires
            self.wf(),
        ensures
            it.iter_wf(),
            it.remaining() == self@,
    {
        IntoIter { vec: self }
    }
}

/// An iterator over the items in a [`BTreeVec`], yielding references in
/// positional order. Once exhausted it stays exhausted.
#[derive(Clone, Copy)]
pub struct Iter<'a, T, const B: usize> {
    vec: &'a BTreeVec<T, B>,
    index: usize,
}

impl<'a, T, const B: usize> Iter<'a, T, B> {
    /// The iterator is over a well-formed vector and in bounds.
    pub closed spec fn iter_wf(&self) -> bool {
        &&& self.vec.wf()
        &&& self.index <= self.vec@.len()
    }

    /// The items not yet returned, in the order they will come.
    pub closed spec fn remaining(&self) -> Seq<T> {
        self.vec@.skip(self.index as int)
    }

    /// Returns the next item, or `None` when the iterator is exhausted.
    pub fn next(&mut self) -> (r: Option<&'a T>)
        requires
            old(self).iter_wf(),
        ensures
            final(self).iter_wf(),
            match r {
                Some(x) => old(self).remaining().len() > 0 && *x == old(self).remaining()[0]
                    && final(self).remaining() == old(self).remaining().skip(1),
                None => old(self).remaining().len() == 0 && final(self).remaining()
                    == old(self).remaining(),
            },
    {
        if self.index < self.vec.size {
            let r = self.vec.get(self.index);
            self.index = self.index + 1;
            proof {
                assert(old(self).remaining().skip(1) =~= self.vec@.skip(self.index as int));
                assert(old(self).remaining()[0] == self.vec@[old(self).index as int]);
            }
            r
        } else {
            None
        }
    }

    /// Skips `n` items and returns the one after them, advancing the
    /// iterator past it; `None` if fewer than `n + 1` items remain, which
    /// exhausts the iterator.
    pub fn nth(&mut self, n: usize) -> (r: Option<&'a T>)
        requires
            old(self).iter_wf(),
        ensures
            final(self).iter_wf(),
            match r {
                Some(x) => n < old(self).remaining().len() && *x == old(self).remaining()[n as int]
                    && final(self).remaining() == old(self).remaining().skip(n as int + 1),
                None => old(self).remaining().len() <= n && final(self).remaining().len() == 0,
            },
    {
        let avail = self.vec.size - self.index;
        if n < avail {
            self.index = self.index + n;
            proof {
                vstd::seq_lib::lemma_seq_skip_of_skip(
                    self.vec@,
                    old(self).index as int,
                    n as int,
                );
                assert(self.remaining() == old(self).remaining().skip(n as int));
            }
            let ghost m = *self;
            let r = self.next();
            proof {
                vstd::seq_lib::lemma_seq_skip_of_skip(old(self).remaining(), n as int, 1);
                assert(old(self).remaining()[n as int] == m.remaining()[0]);
            }
            r
        } else {
            self.index = self.vec.size;
            proof {
                assert(self.remaining().len() == 0);
            }
            None
        }
    }

    /// How many items remain to be returned.
    pub fn remaining_len(&self) -> (r: usize)
        requires
            self.iter_wf(),
        ensures
            r == self.remaining().len(),
    {
        self.vec.size - self.index
    }
}

/// An owning iterator over the items in a [`BTreeVec`], yielding them in
/// positional order.
pub struct IntoIter<T, const B: usize> {
    vec: BTreeVec<T, B>,
}

impl<T, const B: usize> IntoIter<T, B> {
    /// The underlying vector is well formed.
    pub closed spec fn iter_wf(&self) -> bool {
        self.vec.wf()
    }

    /// The items not yet returned, in the order they will come.
    pub closed spec fn remaining(&self) -> Seq<T> {
        self.vec@
    }

    /// Removes and returns the next item, or `None` when none remain.
    pub fn next(&mut self) -> (r: Option<T>)
        requires
            old(self).iter_wf(),
        ensures
            final(self).iter_wf(),
            match r {
                Some(x) => old(self).remaining().len() > 0 && x == old(self).remaining()[0]
                    && final(self).remaining() == old(self).remaining().skip(1),
                None => old(self).remaining().len() == 0 && final(self).remaining()
                    == old(self).remaining(),
            },
    {
        if self.vec.size == 0 {
            None
        } else {
            let x = self.vec.remove(0);
            proof {
                assert(old(self).remaining().remove(0) =~= old(self).remaining().skip(1));
            }
            Some(x)
        }
    }

    /// How many items remain to be returned.
    pub fn remaining_len(&self) -> (r: usize)
        requires
            self.iter_wf(),
        ensures
            r == self.remaining().len(),
    {
        self.vec.size
    }
}

/// Law: inserting an item at a position and immediately removing it from
/// the same position leaves the sequence unchanged. Together with the
/// contracts of [`BTreeVec::insert`] and [`BTreeVec::remove`], this says
/// the container's observable sequence is restored by such a pair.
pub proof fn lemma_insert_remove_round_trip<A>(s: Seq<A>, i: int, x: A)
    requires
        0 <= i <= s.len(),
    ensures
        s.insert(i, x).remove(i) == s,
{
    assert(s.insert(i, x).remove(i) =~= s);
}

} // verus!

