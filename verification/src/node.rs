//! The node representation of the tree: a tagged sum over leaf and
//! internal nodes, together with the specification-level model of a
//! subtree (its element sequence, height and well-formedness) and the
//! lemmas that relate a sequence of sibling subtrees to the elements
//! under them.

use vstd::prelude::*;

verus! {

/// One node of the tree. A leaf holds up to `B` elements of the sequence;
/// an internal node holds up to `B` children together with a parallel
/// array of cached subtree element counts, used to route positional
/// lookups.
pub enum Node<T> {
    Leaf { elems: Vec<T> },
    Internal { sizes: Vec<usize>, children: Vec<Node<T>> },
}

/// The two ways a full node may be divided when an entry must be placed
/// in it: keep the larger half on the left, or on the right. The side
/// that stays smaller is the one the pending entry then goes into.
#[derive(Clone, Copy, Debug)]
pub enum SplitStrategy {
    LargerLeft,
    LargerRight,
}

impl SplitStrategy {
    /// The `(left, right)` entry counts produced by splitting a full node
    /// of `b` entries under this strategy.
    pub open spec fn spec_sizes(self, b: int) -> (int, int) {
        match self {
            SplitStrategy::LargerLeft => (b - b / 2, b / 2),
            SplitStrategy::LargerRight => (b / 2, b - b / 2),
        }
    }

    /// Returns `(left, right)`. `b` is the branching factor.
    pub fn sizes(self, b: usize) -> (r: (usize, usize))
        ensures
            r.0 == self.spec_sizes(b as int).0,
            r.1 == self.spec_sizes(b as int).1,
            r.0 + r.1 == b,
    {
        match self {
            SplitStrategy::LargerLeft => (b - b / 2, b / 2),
            SplitStrategy::LargerRight => (b / 2, b - b / 2),
        }
    }
}

impl<T> Node<T> {
    /// The elements of the subtree rooted here, in positional order.
    pub open spec fn elems(self) -> Seq<T>
        decreases self,
    {
        match self {
            Node::Leaf { elems } => elems@,
            Node::Internal { children, .. } => Self::elems_of(children@),
        }
    }

    /// The elements under a sequence of sibling subtrees, concatenated in
    /// order.
    pub open spec fn elems_of(nodes: Seq<Node<T>>) -> Seq<T>
        decreases nodes,
    {
        if nodes.len() == 0 {
            Seq::empty()
        } else {
            Self::elems_of(nodes.drop_last()) + nodes.last().elems()
        }
    }

    /// The number of entries held directly by this node: elements for a
    /// leaf, children for an internal node.
    pub open spec fn spec_length(self) -> nat {
        match self {
            Node::Leaf { elems } => elems@.len(),
            Node::Internal { children, .. } => children@.len(),
        }
    }

    /// Distance from this node down to its leftmost leaf. Leaves have
    /// height zero; an internal node is one above its first child.
    pub open spec fn height(self) -> nat
        decreases self,
    {
        match self {
            Node::Leaf { .. } => 0,
            Node::Internal { children, .. } => {
                if children@.len() == 0 {
                    1
                } else {
                    1 + children@[0].height()
                }
            },
        }
    }

    /// Well-formedness of a subtree under branching factor `b`.
    ///
    /// An internal node holds between 1 and `b` children, with a size
    /// entry for each child recording exactly the number of elements in
    /// that child's subtree, and all children sit at the same height,
    /// which keeps every leaf of the tree at the same depth. When a node
    /// holds at least two children, each of them meets the minimum
    /// occupancy `b / 2`; a node's only child has no sibling to borrow
    /// from or merge with, so it alone may shrink below that (and the
    /// node itself is constrained by its own parent, so a root may be
    /// arbitrarily small).
    pub open spec fn wf(self, b: int) -> bool
        decreases self,
    {
        match self {
            Node::Leaf { elems } => elems@.len() <= b,
            Node::Internal { sizes, children } => {
                &&& 1 <= children@.len() <= b
                &&& sizes@.len() == children@.len()
                &&& forall|i: int|
                    0 <= i < children@.len() ==> (#[trigger] children@[i]).wf(b)
                &&& forall|i: int|
                    0 <= i < children@.len()
                        ==> (#[trigger] sizes@[i]) == children@[i].elems().len()
                &&& children@.len() >= 2 ==> forall|i: int|
                    0 <= i < children@.len()
                        ==> (#[trigger] children@[i]).spec_length() >= b / 2
                &&& forall|i: int|
                    0 <= i < children@.len()
                        ==> (#[trigger] children@[i]).height() == children@[0].height()
            },
        }
    }

    /// The direct children of this node; empty for a leaf.
    pub open spec fn kids(self) -> Seq<Node<T>> {
        match self {
            Node::Leaf { .. } => Seq::empty(),
            Node::Internal { children, .. } => children@,
        }
    }

    /// Every direct child of this node meets the minimum occupancy
    /// `b / 2`. Trivially true of a leaf.
    pub open spec fn kids_occupied(self, b: int) -> bool {
        forall|i: int|
            0 <= i < self.kids().len() ==> (#[trigger] self.kids()[i]).spec_length() >= b / 2
    }

    /// Whether every internal node in this subtree records, for each
    /// child, exactly the number of elements reachable in that child's
    /// subtree.
    pub open spec fn sizes_exact(self) -> bool
        decreases self,
    {
        match self {
            Node::Leaf { .. } => true,
            Node::Internal { sizes, children } => {
                &&& sizes@.len() == children@.len()
                &&& forall|i: int|
                    0 <= i < children@.len()
                        ==> (#[trigger] sizes@[i]) == children@[i].elems().len()
                &&& forall|i: int|
                    0 <= i < children@.len() ==> (#[trigger] children@[i]).sizes_exact()
            },
        }
    }

    /// Occupancy throughout this subtree: no node holds more than `b`
    /// entries, and wherever a node has at least two children, each of
    /// those children holds at least `b / 2` entries (a node's only
    /// child has no sibling to rebalance against, so it alone may shrink
    /// below that).
    pub open spec fn occupancy_ok(self, b: int) -> bool
        decreases self,
    {
        match self {
            Node::Leaf { elems } => elems@.len() <= b,
            Node::Internal { children, .. } => {
                &&& 1 <= children@.len() <= b
                &&& children@.len() >= 2 ==> forall|i: int|
                    0 <= i < children@.len()
                        ==> (#[trigger] children@[i]).spec_length() >= b / 2
                &&& forall|i: int|
                    0 <= i < children@.len() ==> (#[trigger] children@[i]).occupancy_ok(b)
            },
        }
    }

    /// No internal node in this subtree, including this one, holds a
    /// single child. For a branching factor of at least 4 the engines
    /// keep this true of the whole tree between operations: an internal
    /// node is born with at least two children and is mended or
    /// collapsed away before a removal returns. (At branching factor 3
    /// the minimum occupancy is 1, so a node whose sibling merged away
    /// may legitimately keep a single child.)
    pub open spec fn lone_free(self) -> bool
        decreases self, 1int,
    {
        &&& self is Internal ==> self.spec_length() >= 2
        &&& self.kids_lone_free()
    }

    /// Every direct child of this node is [`Self::lone_free`].
    pub open spec fn kids_lone_free(self) -> bool
        decreases self, 0int,
    {
        forall|i: int| 0 <= i < self.kids().len() ==> (#[trigger] self.kids()[i]).lone_free()
    }

    /// Occupancy with no exemptions: every node below this one holds
    /// between `b / 2` and `b` entries, and this node holds at most `b`.
    pub open spec fn occupancy_strict(self, b: int) -> bool
        decreases self,
    {
        match self {
            Node::Leaf { elems } => elems@.len() <= b,
            Node::Internal { children, .. } => {
                &&& 1 <= children@.len() <= b
                &&& forall|i: int|
                    0 <= i < children@.len()
                        ==> (#[trigger] children@[i]).spec_length() >= b / 2
                &&& forall|i: int|
                    0 <= i < children@.len() ==> (#[trigger] children@[i]).occupancy_strict(b)
            },
        }
    }

    /// Law: in a well-formed subtree with no lone internal nodes, the
    /// occupancy bounds hold with no exemptions: every node other than
    /// this one (the subtree's root) has between `b / 2` and `b`
    /// entries.
    pub proof fn lemma_wf_occupancy_strict(self, b: int)
        requires
            self.wf(b),
            self.lone_free(),
        ensures
            self.occupancy_strict(b),
        decreases self,
    {
        match self {
            Node::Leaf { .. } => {},
            Node::Internal { children, .. } => {
                assert forall|i: int| 0 <= i < children@.len() implies (
                #[trigger] children@[i]).occupancy_strict(b) && children@[i].spec_length() >= b
                    / 2 by {
                    assert(self.kids()[i].lone_free());
                    children@[i].lemma_wf_occupancy_strict(b);
                }
            },
        }
    }

    /// Law: in a well-formed subtree, every cached size entry equals the
    /// true element count of the child it describes.
    pub proof fn lemma_wf_sizes_exact(self, b: int)
        requires
            self.wf(b),
        ensures
            self.sizes_exact(),
        decreases self,
    {
        match self {
            Node::Leaf { .. } => {},
            Node::Internal { children, .. } => {
                assert forall|i: int| 0 <= i < children@.len() implies (
                #[trigger] children@[i]).sizes_exact() by {
                    children@[i].lemma_wf_sizes_exact(b);
                }
            },
        }
    }

    /// Law: a well-formed subtree meets the occupancy bounds everywhere:
    /// each node holds at most `b` entries, and every child with a
    /// sibling holds at least `b / 2`.
    pub proof fn lemma_wf_occupancy(self, b: int)
        requires
            self.wf(b),
        ensures
            self.occupancy_ok(b),
        decreases self,
    {
        match self {
            Node::Leaf { .. } => {},
            Node::Internal { children, .. } => {
                assert forall|i: int| 0 <= i < children@.len() implies (
                #[trigger] children@[i]).occupancy_ok(b) by {
                    children@[i].lemma_wf_occupancy(b);
                }
            },
        }
    }

    /// The number of entries held directly by this node.
    pub fn length(&self) -> (r: usize)
        ensures
            r == self.spec_length(),
    {
        match self {
            Node::Leaf { elems } => elems.len(),
            Node::Internal { children, .. } => children.len(),
        }
    }

    /// Whether this node is a leaf.
    pub fn is_leaf(&self) -> (r: bool)
        ensures
            r == (self is Leaf),
    {
        match self {
            Node::Leaf { .. } => true,
            Node::Internal { .. } => false,
        }
    }

    /// Which child a positional index descends into, and the residual
    /// index within that child: the first child whose subtree still
    /// covers the remaining index after the earlier siblings' elements
    /// are subtracted; the last child absorbs any remainder.
    pub open spec fn spec_route(cs: Seq<Node<T>>, index: int) -> (int, int)
        decreases cs.len(),
    {
        if cs.len() <= 1 {
            (0, index)
        } else if index < cs[0].elems().len() {
            (0, index)
        } else {
            let sub = Self::spec_route(cs.drop_first(), index - cs[0].elems().len());
            (sub.0 + 1, sub.1)
        }
    }

    /// Positional routing within one internal node: scans the cached
    /// subtree sizes left to right, subtracting each from the running
    /// index, until a child is found whose subtree covers the remaining
    /// index; all but the last child are scanned, and the last child
    /// absorbs any remainder (which also routes an index equal to the
    /// node's total size, used when inserting at the end).
    ///
    /// Returns the child's position and the residual index within it.
    pub(crate) fn route(sizes: &Vec<usize>, index: usize, cs: Ghost<Seq<Node<T>>>) -> (r: (
        usize,
        usize,
    ))
        requires
            sizes@.len() == cs@.len(),
            sizes@.len() >= 1,
            forall|i: int| 0 <= i < cs@.len() ==> (#[trigger] sizes@[i]) == cs@[i].elems().len(),
            index <= Self::elems_of(cs@).len(),
        ensures
            r.0 < cs@.len(),
            index == Self::elems_of(cs@.take(r.0 as int)).len() + r.1,
            r.1 <= cs@[r.0 as int].elems().len(),
            index < Self::elems_of(cs@).len() ==> r.1 < cs@[r.0 as int].elems().len(),
            (r.0 as int, r.1 as int) == Self::spec_route(cs@, index as int),
    {
        let n = sizes.len();
        let mut k: usize = 0;
        let mut rem: usize = index;
        proof {
            assert(cs@.skip(0) =~= cs@);
        }
        while k + 1 < n
            invariant
                sizes@.len() == cs@.len(),
                n == sizes@.len(),
                forall|i: int| 0 <= i < cs@.len() ==> (#[trigger] sizes@[i]) == cs@[i].elems().len(),
                index <= Self::elems_of(cs@).len(),
                0 <= k < n,
                index == Self::elems_of(cs@.take(k as int)).len() + rem,
                Self::spec_route(cs@, index as int) == {
                    let sub = Self::spec_route(cs@.skip(k as int), rem as int);
                    (sub.0 + k, sub.1)
                },
            decreases n - k,
        {
            let sk = sizes[k];
            if rem < sk {
                proof {
                    assert(cs@.skip(k as int)[0] == cs@[k as int]);
                }
                return (k, rem);
            }
            proof {
                Self::lemma_elems_of_take_step(cs@, k as int);
                assert(cs@.skip(k as int)[0] == cs@[k as int]);
                assert(cs@.skip(k as int).drop_first() =~= cs@.skip(k as int + 1));
            }
            rem = rem - sk;
            k = k + 1;
        }
        proof {
            Self::lemma_elems_of_split(cs@, k as int);
            assert(cs@.skip(k as int) =~= seq![cs@[k as int]]);
            Self::lemma_elems_of_singleton(cs@[k as int]);
        }
        (k, rem)
    }

    /// Adds up a node's cached size entries, which by well-formedness is
    /// the number of elements under the corresponding children.
    pub(crate) fn sum_sizes(sizes: &Vec<usize>, cs: Ghost<Seq<Node<T>>>) -> (r: usize)
        requires
            sizes@.len() == cs@.len(),
            forall|i: int| 0 <= i < cs@.len() ==> (#[trigger] sizes@[i]) == cs@[i].elems().len(),
            Self::elems_of(cs@).len() <= usize::MAX,
        ensures
            r == Self::elems_of(cs@).len(),
    {
        let n = sizes.len();
        let mut acc: usize = 0;
        let mut i: usize = 0;
        while i < n
            invariant
                sizes@.len() == cs@.len(),
                n == sizes@.len(),
                forall|j: int| 0 <= j < cs@.len() ==> (#[trigger] sizes@[j]) == cs@[j].elems().len(),
                Self::elems_of(cs@).len() <= usize::MAX,
                0 <= i <= n,
                acc == Self::elems_of(cs@.take(i as int)).len(),
            decreases n - i,
        {
            proof {
                Self::lemma_elems_of_take_step(cs@, i as int);
                Self::lemma_elems_of_split(cs@, i + 1 as int);
            }
            acc = acc + sizes[i];
            i = i + 1;
        }
        proof {
            assert(cs@.take(n as int) =~= cs@);
        }
        acc
    }

    /// Concatenating two runs of sibling subtrees concatenates the
    /// elements under them.
    pub proof fn lemma_elems_of_concat(s: Seq<Node<T>>, t: Seq<Node<T>>)
        ensures
            Self::elems_of(s + t) == Self::elems_of(s) + Self::elems_of(t),
        decreases t.len(),
    {
        if t.len() == 0 {
            assert(s + t =~= s);
            assert(Self::elems_of(s) + Self::elems_of(t) =~= Self::elems_of(s));
        } else {
            Self::lemma_elems_of_concat(s, t.drop_last());
            assert((s + t).drop_last() =~= s + t.drop_last());
            assert((s + t).last() == t.last());
            assert(Self::elems_of(s) + Self::elems_of(t) =~= Self::elems_of(s)
                + Self::elems_of(t.drop_last()) + t.last().elems());
        }
    }

    /// A single subtree contributes exactly its own elements.
    pub proof fn lemma_elems_of_singleton(n: Node<T>)
        ensures
            Self::elems_of(seq![n]) == n.elems(),
    {
        assert(seq![n].drop_last() =~= Seq::<Node<T>>::empty());
        assert(Self::elems_of(Seq::<Node<T>>::empty()) =~= Seq::<T>::empty());
        assert(Self::elems_of(seq![n]) =~= n.elems());
    }

    /// The elements under siblings split at any point into the elements
    /// under the prefix and the elements under the suffix.
    pub proof fn lemma_elems_of_split(s: Seq<Node<T>>, k: int)
        requires
            0 <= k <= s.len(),
        ensures
            Self::elems_of(s) == Self::elems_of(s.take(k)) + Self::elems_of(s.skip(k)),
    {
        assert(s =~= s.take(k) + s.skip(k));
        Self::lemma_elems_of_concat(s.take(k), s.skip(k));
    }

    /// The elements under siblings decompose around any one child: the
    /// prefix before it, its own elements, and the suffix after it.
    pub proof fn lemma_elems_of_decompose(s: Seq<Node<T>>, k: int)
        requires
            0 <= k < s.len(),
        ensures
            Self::elems_of(s) == Self::elems_of(s.take(k)) + s[k].elems()
                + Self::elems_of(s.skip(k + 1)),
    {
        assert(s =~= s.take(k) + (seq![s[k]] + s.skip(k + 1)));
        Self::lemma_elems_of_concat(s.take(k), seq![s[k]] + s.skip(k + 1));
        Self::lemma_elems_of_concat(seq![s[k]], s.skip(k + 1));
        Self::lemma_elems_of_singleton(s[k]);
    }

    /// The elements under siblings decompose around two adjacent
    /// children.
    pub proof fn lemma_elems_of_decompose2(s: Seq<Node<T>>, k: int)
        requires
            0 <= k,
            k + 1 < s.len(),
        ensures
            Self::elems_of(s) == Self::elems_of(s.take(k)) + s[k].elems() + s[k + 1].elems()
                + Self::elems_of(s.skip(k + 2)),
    {
        Self::lemma_elems_of_decompose(s, k);
        Self::lemma_elems_of_decompose(s.skip(k + 1), 0);
        assert(s.skip(k + 1).take(0) =~= Seq::<Node<T>>::empty());
        assert(Self::elems_of(Seq::<Node<T>>::empty()) =~= Seq::<T>::empty());
        assert(s.skip(k + 1)[0] == s[k + 1]);
        assert(s.skip(k + 1).skip(1) =~= s.skip(k + 2));
    }

    /// Extending a prefix of siblings by one child appends that child's
    /// elements.
    pub proof fn lemma_elems_of_take_step(s: Seq<Node<T>>, k: int)
        requires
            0 <= k < s.len(),
        ensures
            Self::elems_of(s.take(k + 1)) == Self::elems_of(s.take(k)) + s[k].elems(),
    {
        assert(s.take(k + 1) =~= s.take(k) + seq![s[k]]);
        Self::lemma_elems_of_concat(s.take(k), seq![s[k]]);
        Self::lemma_elems_of_singleton(s[k]);
    }

    /// Reads the element at position `index` of this subtree, descending
    /// by the cached subtree sizes.
    pub(crate) fn get_rec(&self, index: usize, b: usize) -> (r: &T)
        requires
            self.wf(b as int),
            index < self.elems().len(),
        ensures
            *r == self.elems()[index as int],
        decreases self.height(),
    {
        match self {
            Node::Leaf { elems } => &elems[index],
            Node::Internal { sizes, children } => {
                let (k, rem) = Self::route(sizes, index, Ghost(children@));
                proof {
                    Self::lemma_elems_of_decompose(children@, k as int);
                }
                let child = &children[k];
                child.get_rec(rem, b)
            },
        }
    }

    /// Replaces the element at position `index` of this subtree with
    /// `value`, returning the element that was there. The shape of the
    /// tree and all cached sizes are untouched.
    pub(crate) fn set_rec(self, index: usize, value: T, b: usize) -> (r: (Node<T>, T))
        requires
            self.wf(b as int),
            index < self.elems().len(),
        ensures
            r.0.wf(b as int),
            r.0.height() == self.height(),
            r.0.spec_length() == self.spec_length(),
            r.0.elems() == self.elems().update(index as int, value),
            r.1 == self.elems()[index as int],
            self.lone_free() ==> r.0.lone_free(),
        decreases self.height(),
    {
        match self {
            Node::Leaf { mut elems } => {
                let ghost e0 = elems@;
                let old_value = elems.remove(index);
                elems.insert(index, value);
                proof {
                    assert(elems@ =~= e0.update(index as int, value));
                }
                (Node::Leaf { elems }, old_value)
            },
            Node::Internal { sizes, mut children } => {
                let ghost cs0 = children@;
                let ghost ss0 = sizes@;
                let (k, rem) = Self::route(&sizes, index, Ghost(children@));
                proof {
                    Self::lemma_elems_of_decompose(cs0, k as int);
                }
                let child = children.remove(k);
                let (child2, old_value) = child.set_rec(rem, value, b);
                children.insert(k, child2);
                let ghost u = children@;
                proof {
                    assert(u =~= cs0.update(k as int, child2));
                    assert(u.take(k as int) =~= cs0.take(k as int));
                    assert(u.skip(k as int + 1) =~= cs0.skip(k as int + 1));
                    Self::lemma_elems_of_decompose(u, k as int);
                    lemma_update_in_middle(
                        Self::elems_of(cs0.take(k as int)),
                        cs0[k as int].elems(),
                        Self::elems_of(cs0.skip(k as int + 1)),
                        rem as int,
                        value,
                    );
                    assert forall|i: int| 0 <= i < u.len() implies (#[trigger] u[i]).wf(b as int)
                        && u[i].height() == u[0].height() && ss0[i] == u[i].elems().len() && (u.len()
                        >= 2 ==> u[i].spec_length() >= b as int / 2) by {
                        if i != k {
                            assert(u[i] == cs0[i]);
                        }
                        if k > 0 {
                            assert(u[0] == cs0[0]);
                        }
                    }
                    if self.lone_free() {
                        assert forall|i: int| 0 <= i < u.len() implies (#[trigger] u[i]).lone_free() by {
                            if i != k {
                                assert(u[i] == cs0[i]);
                                assert(self.kids()[i].lone_free());
                            } else {
                                assert(self.kids()[k as int].lone_free());
                            }
                        }
                    }
                }
                (Node::Internal { sizes, children }, old_value)
            },
        }
    }

    /// Inserting one child inserts exactly its elements.
    pub proof fn lemma_elems_of_insert(s: Seq<Node<T>>, k: int, c: Node<T>)
        requires
            0 <= k <= s.len(),
        ensures
            Self::elems_of(s.insert(k, c)) == Self::elems_of(s.take(k)) + c.elems()
                + Self::elems_of(s.skip(k)),
    {
        assert(s.insert(k, c) =~= s.take(k) + (seq![c] + s.skip(k)));
        Self::lemma_elems_of_concat(s.take(k), seq![c] + s.skip(k));
        Self::lemma_elems_of_concat(seq![c], s.skip(k));
        Self::lemma_elems_of_singleton(c);
    }
}

/// Inserting into the middle run of a three-way concatenation is the same
/// as inserting into the concatenation at the shifted position.
pub proof fn lemma_insert_in_middle<A>(p: Seq<A>, m: Seq<A>, s: Seq<A>, j: int, x: A)
    requires
        0 <= j <= m.len(),
    ensures
        p + m.insert(j, x) + s == (p + m + s).insert(p.len() + j, x),
{
    assert(p + m.insert(j, x) + s =~= (p + m + s).insert(p.len() + j, x));
}

/// Replacing the two middle runs of a four-way concatenation by two runs
/// with the same concatenation leaves the whole unchanged.
pub proof fn lemma_concat4_middle<A>(
    p: Seq<A>,
    a1: Seq<A>,
    a2: Seq<A>,
    b1: Seq<A>,
    b2: Seq<A>,
    s: Seq<A>,
)
    requires
        a1 + a2 == b1 + b2,
    ensures
        p + a1 + a2 + s == p + b1 + b2 + s,
{
    assert(p + a1 + a2 =~= p + (a1 + a2));
    assert(p + b1 + b2 =~= p + (b1 + b2));
}

/// Updating within the middle run of a three-way concatenation is the
/// same as updating the concatenation at the shifted position.
pub proof fn lemma_update_in_middle<A>(p: Seq<A>, m: Seq<A>, s: Seq<A>, j: int, x: A)
    requires
        0 <= j < m.len(),
    ensures
        p + m.update(j, x) + s == (p + m + s).update(p.len() + j, x),
{
    assert(p + m.update(j, x) + s =~= (p + m + s).update(p.len() + j, x));
}

/// Removing from the middle run of a three-way concatenation is the same
/// as removing from the concatenation at the shifted position.
pub proof fn lemma_remove_in_middle<A>(p: Seq<A>, m: Seq<A>, s: Seq<A>, j: int)
    requires
        0 <= j < m.len(),
    ensures
        p + m.remove(j) + s == (p + m + s).remove(p.len() + j),
{
    assert(p + m.remove(j) + s =~= (p + m + s).remove(p.len() + j));
}

} // verus!
