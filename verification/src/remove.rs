//! The removal engine: taking one element out may leave a node under the
//! minimum occupancy, which is mended against a sibling — borrowing a
//! single entry from a sibling with surplus where possible, merging two
//! minimal siblings otherwise — and a merge removes a child from the
//! parent, so the same rule cascades upward. Borrowing is preferred over
//! merging, and the left sibling is tried before the right.

use crate::node::lemma_concat4_middle;
use crate::node::lemma_remove_in_middle;
use crate::node::Node;
use vstd::pervasive::unreached;
use vstd::prelude::*;

verus! {

impl<T> Node<T> {
    /// The facts an internal node's arrays satisfy about its children:
    /// parallel and exact size entries, well-formed children, and all
    /// children at one height.
    spec fn family_wf(cs: Seq<Node<T>>, ss: Seq<usize>, b: int) -> bool {
        &&& ss.len() == cs.len()
        &&& forall|i: int| 0 <= i < cs.len() ==> (#[trigger] cs[i]).wf(b)
        &&& forall|i: int| 0 <= i < cs.len() ==> (#[trigger] ss[i]) == cs[i].elems().len()
        &&& forall|i: int| 0 <= i < cs.len() ==> (#[trigger] cs[i]).height() == cs[0].height()
    }

    /// Merges `other`, this node's immediate right sibling in the tree,
    /// into this node, keeping element order.
    fn merge(self, other: Node<T>, b: usize) -> (r: Node<T>)
        requires
            self.wf(b as int),
            other.wf(b as int),
            b >= 3,
            self.height() == other.height(),
            self.spec_length() + other.spec_length() <= b,
            self.kids_occupied(b as int),
            other.kids_occupied(b as int),
        ensures
            r.wf(b as int),
            r.height() == self.height(),
            (r is Internal) == (self is Internal),
            r.elems() == self.elems() + other.elems(),
            r.spec_length() == self.spec_length() + other.spec_length(),
            r.kids() == self.kids() + other.kids(),
            (self.kids_lone_free() && other.kids_lone_free()) ==> r.kids_lone_free(),
    {
        match self {
            Node::Leaf { mut elems } => match other {
                Node::Leaf { elems: mut oelems } => {
                    elems.append(&mut oelems);
                    proof {
                        assert(Seq::<Node<T>>::empty() + Seq::<Node<T>>::empty()
                            =~= Seq::<Node<T>>::empty());
                        let r0 = Node::Leaf { elems };
                        assert(r0.kids_lone_free());
                    }
                    Node::Leaf { elems }
                },
                Node::Internal { .. } => {
                    proof {
                        assert(false);
                    }
                    unreached()
                },
            },
            Node::Internal { mut sizes, mut children } => match other {
                Node::Internal { sizes: mut osizes, children: mut ochildren } => {
                    let ghost cs = children@;
                    let ghost oc = ochildren@;
                    let ghost ss = sizes@;
                    let ghost os = osizes@;
                    sizes.append(&mut osizes);
                    children.append(&mut ochildren);
                    proof {
                        Self::lemma_elems_of_concat(cs, oc);
                        assert forall|i: int| 0 <= i < children@.len() implies (
                        #[trigger] children@[i]).wf(b as int) && children@[i].height()
                            == children@[0].height() && sizes@[i] == children@[i].elems().len()
                            && children@[i].spec_length() >= b as int / 2 by {
                            if i < cs.len() {
                                assert(children@[i] == cs[i]);
                                assert(sizes@[i] == ss[i]);
                                assert(self.kids()[i].spec_length() >= b as int / 2);
                            } else {
                                assert(children@[i] == oc[i - cs.len()]);
                                assert(sizes@[i] == os[i - cs.len()]);
                                assert(other.kids()[i - cs.len()].spec_length() >= b as int / 2);
                            }
                            assert(children@[0] == cs[0]);
                        }
                        if self.kids_lone_free() && other.kids_lone_free() {
                            assert forall|i: int| 0 <= i < children@.len() implies (
                            #[trigger] children@[i]).lone_free() by {
                                if i < cs.len() {
                                    assert(children@[i] == cs[i]);
                                    assert(self.kids()[i].lone_free());
                                } else {
                                    assert(children@[i] == oc[i - cs.len()]);
                                    assert(other.kids()[i - cs.len()].lone_free());
                                }
                            }
                            let r0 = Node::Internal { sizes, children };
                            assert(r0.kids() =~= children@);
                            assert(r0.kids_lone_free());
                        }
                    }
                    Node::Internal { sizes, children }
                },
                Node::Leaf { .. } => {
                    proof {
                        assert(false);
                    }
                    unreached()
                },
            },
        }
    }

    /// Moves the last entry of `left` to the front of `mid`: a borrow
    /// from the left sibling, preferred over merging when the sibling has
    /// surplus. Returns the two nodes and the number of elements that
    /// travelled with the moved entry.
    fn donate_last(left: Node<T>, mid: Node<T>, b: usize) -> (r: (Node<T>, Node<T>, usize))
        requires
            left.wf(b as int),
            mid.wf(b as int),
            b >= 3,
            left.height() == mid.height(),
            left.spec_length() >= 2,
            mid.spec_length() < b,
            mid.kids_occupied(b as int),
        ensures
            r.0.wf(b as int),
            r.1.wf(b as int),
            r.0.height() == left.height(),
            r.1.height() == mid.height(),
            r.0.spec_length() == left.spec_length() - 1,
            r.1.spec_length() == mid.spec_length() + 1,
            r.0.elems() + r.1.elems() == left.elems() + mid.elems(),
            r.0.elems().len() == left.elems().len() - r.2,
            r.2 <= left.elems().len(),
            (left.kids_lone_free() && mid.kids_lone_free()) ==> (r.0.kids_lone_free()
                && r.1.kids_lone_free()),
    {
        match left {
            Node::Leaf { elems: mut le } => match mid {
                Node::Leaf { elems: mut me } => {
                    let ghost le0 = le@;
                    let ghost me0 = me@;
                    let x = le.pop().unwrap();
                    me.insert(0, x);
                    proof {
                        assert(le@ + me@ =~= le0 + me0);
                        let l0 = Node::Leaf { elems: le };
                        let m0 = Node::Leaf { elems: me };
                        assert(l0.kids_lone_free() && m0.kids_lone_free());
                    }
                    (Node::Leaf { elems: le }, Node::Leaf { elems: me }, 1)
                },
                Node::Internal { .. } => {
                    proof {
                        assert(false);
                    }
                    unreached()
                },
            },
            Node::Internal { sizes: mut ls, children: mut lc } => match mid {
                Node::Internal { sizes: mut ms, children: mut mc } => {
                    let ghost lc0 = lc@;
                    let ghost mc0 = mc@;
                    let ghost ls0 = ls@;
                    let c = lc.pop().unwrap();
                    let s = ls.pop().unwrap();
                    mc.insert(0, c);
                    ms.insert(0, s);
                    proof {
                        assert(lc0.drop_last() =~= lc@);
                        assert(mc@ =~= seq![c] + mc0);
                        Self::lemma_elems_of_concat(seq![c], mc0);
                        Self::lemma_elems_of_singleton(c);
                        assert(Self::elems_of(lc0) == Self::elems_of(lc@) + c.elems());
                        assert forall|i: int| 0 <= i < mc@.len() implies (
                        #[trigger] mc@[i]).wf(b as int) && mc@[i].height() == mc@[0].height()
                            && ms@[i] == mc@[i].elems().len() && mc@[i].spec_length() >= b as int
                            / 2 by {
                            if i > 0 {
                                assert(mc@[i] == mc0[i - 1]);
                                assert(ms@[i] == mid.kids()[i - 1].elems().len());
                                assert(mc0[i - 1].spec_length() >= b as int / 2);
                            } else {
                                assert(mc@[0] == c);
                                assert(c == lc0[lc0.len() - 1]);
                                assert(c.spec_length() >= b as int / 2);
                            }
                        }
                        assert forall|i: int| 0 <= i < lc@.len() implies (
                        #[trigger] lc@[i]).wf(b as int) && lc@[i].height() == lc@[0].height()
                            && ls@[i] == lc@[i].elems().len() by {
                            assert(lc@[i] == lc0[i]);
                            assert(ls@[i] == ls0[i]);
                        }
                        if left.kids_lone_free() && mid.kids_lone_free() {
                            assert forall|i: int| 0 <= i < lc@.len() implies (
                            #[trigger] lc@[i]).lone_free() by {
                                assert(lc@[i] == lc0[i]);
                                assert(left.kids()[i].lone_free());
                            }
                            assert forall|i: int| 0 <= i < mc@.len() implies (
                            #[trigger] mc@[i]).lone_free() by {
                                if i > 0 {
                                    assert(mc@[i] == mc0[i - 1]);
                                    assert(mid.kids()[i - 1].lone_free());
                                } else {
                                    assert(mc@[0] == c);
                                    assert(left.kids()[lc0.len() - 1].lone_free());
                                }
                            }
                            let l0 = Node::Internal { sizes: ls, children: lc };
                            let m0 = Node::Internal { sizes: ms, children: mc };
                            assert(l0.kids() =~= lc@);
                            assert(m0.kids() =~= mc@);
                            assert(l0.kids_lone_free() && m0.kids_lone_free());
                        }
                    }
                    (
                        Node::Internal { sizes: ls, children: lc },
                        Node::Internal { sizes: ms, children: mc },
                        s,
                    )
                },
                Node::Leaf { .. } => {
                    proof {
                        assert(false);
                    }
                    unreached()
                },
            },
        }
    }

    /// Moves the first entry of `right` to the end of `mid`: a borrow
    /// from the right sibling, tried when the left sibling has no
    /// surplus. Returns the two nodes and the number of elements that
    /// travelled with the moved entry.
    fn donate_first(mid: Node<T>, right: Node<T>, b: usize) -> (r: (Node<T>, Node<T>, usize))
        requires
            mid.wf(b as int),
            right.wf(b as int),
            b >= 3,
            mid.height() == right.height(),
            right.spec_length() >= 2,
            mid.spec_length() < b,
            mid.kids_occupied(b as int),
        ensures
            r.0.wf(b as int),
            r.1.wf(b as int),
            r.0.height() == mid.height(),
            r.1.height() == right.height(),
            r.0.spec_length() == mid.spec_length() + 1,
            r.1.spec_length() == right.spec_length() - 1,
            r.0.elems() + r.1.elems() == mid.elems() + right.elems(),
            r.1.elems().len() == right.elems().len() - r.2,
            r.2 <= right.elems().len(),
            (mid.kids_lone_free() && right.kids_lone_free()) ==> (r.0.kids_lone_free()
                && r.1.kids_lone_free()),
    {
        match mid {
            Node::Leaf { elems: mut me } => match right {
                Node::Leaf { elems: mut re } => {
                    let ghost me0 = me@;
                    let ghost re0 = re@;
                    let x = re.remove(0);
                    me.push(x);
                    proof {
                        assert(me@ + re@ =~= me0 + re0);
                        let m0 = Node::Leaf { elems: me };
                        let r0 = Node::Leaf { elems: re };
                        assert(m0.kids_lone_free() && r0.kids_lone_free());
                    }
                    (Node::Leaf { elems: me }, Node::Leaf { elems: re }, 1)
                },
                Node::Internal { .. } => {
                    proof {
                        assert(false);
                    }
                    unreached()
                },
            },
            Node::Internal { sizes: mut ms, children: mut mc } => match right {
                Node::Internal { sizes: mut rs, children: mut rc } => {
                    let ghost mc0 = mc@;
                    let ghost rc0 = rc@;
                    let ghost rs0 = rs@;
                    let c = rc.remove(0);
                    let s = rs.remove(0);
                    mc.push(c);
                    ms.push(s);
                    proof {
                        assert(rc@ =~= rc0.skip(1));
                        Self::lemma_elems_of_decompose(rc0, 0);
                        assert(rc0.take(0) =~= Seq::<Node<T>>::empty());
                        assert(Self::elems_of(rc0) == c.elems() + Self::elems_of(rc@));
                        assert(mc@ =~= mc0 + seq![c]);
                        Self::lemma_elems_of_concat(mc0, seq![c]);
                        Self::lemma_elems_of_singleton(c);
                        assert forall|i: int| 0 <= i < mc@.len() implies (
                        #[trigger] mc@[i]).wf(b as int) && mc@[i].height() == mc@[0].height()
                            && ms@[i] == mc@[i].elems().len() && mc@[i].spec_length() >= b as int
                            / 2 by {
                            if i < mc0.len() {
                                assert(mc@[i] == mc0[i]);
                                assert(ms@[i] == mid.kids()[i].elems().len());
                                assert(mc0[i].spec_length() >= b as int / 2);
                            } else {
                                assert(mc@[i] == c);
                                assert(c == rc0[0]);
                                assert(c.spec_length() >= b as int / 2);
                            }
                            assert(mc@[0] == mc0[0]);
                        }
                        assert forall|i: int| 0 <= i < rc@.len() implies (
                        #[trigger] rc@[i]).wf(b as int) && rc@[i].height() == rc@[0].height()
                            && rs@[i] == rc@[i].elems().len() by {
                            assert(rc@[i] == rc0[i + 1]);
                            assert(rs@[i] == rs0[i + 1]);
                            assert(rc@[0] == rc0[1]);
                        }
                        if mid.kids_lone_free() && right.kids_lone_free() {
                            assert forall|i: int| 0 <= i < mc@.len() implies (
                            #[trigger] mc@[i]).lone_free() by {
                                if i < mc0.len() {
                                    assert(mc@[i] == mc0[i]);
                                    assert(mid.kids()[i].lone_free());
                                } else {
                                    assert(mc@[i] == c);
                                    assert(right.kids()[0].lone_free());
                                }
                            }
                            assert forall|i: int| 0 <= i < rc@.len() implies (
                            #[trigger] rc@[i]).lone_free() by {
                                assert(rc@[i] == rc0[i + 1]);
                                assert(right.kids()[i + 1].lone_free());
                            }
                            let m0 = Node::Internal { sizes: ms, children: mc };
                            let r0 = Node::Internal { sizes: rs, children: rc };
                            assert(m0.kids() =~= mc@);
                            assert(r0.kids() =~= rc@);
                            assert(m0.kids_lone_free() && r0.kids_lone_free());
                        }
                    }
                    (
                        Node::Internal { sizes: ms, children: mc },
                        Node::Internal { sizes: rs, children: rc },
                        s,
                    )
                },
                Node::Leaf { .. } => {
                    proof {
                        assert(false);
                    }
                    unreached()
                },
            },
        }
    }

    /// Mends the under-full child by borrowing the left sibling's last
    /// entry.
    #[verifier::rlimit(100)]
    fn rebalance_borrow_left(
        mut sizes: Vec<usize>,
        mut children: Vec<Node<T>>,
        k: usize,
        child2: Node<T>,
        b: usize,
    ) -> (r: Node<T>)
        requires
            b >= 3,
            k <= children@.len(),
            children@.len() >= 1,
            children@.len() + 1 <= b,
            Self::family_wf(children@.insert(k as int, child2), sizes@, b as int),
            forall|i: int|
                0 <= i < sizes@.len() && i != k ==> (#[trigger] children@.insert(
                    k as int,
                    child2,
                )[i]).spec_length() >= b as int / 2,
            child2.spec_length() < b as int / 2,
            child2.spec_length() + 1 >= b as int / 2,
            child2.kids_occupied(b as int),
            Self::elems_of(children@.insert(k as int, child2)).len() <= usize::MAX,
            k >= 1,
            children@[k as int - 1].spec_length() > b as int / 2,
        ensures
            r.wf(b as int),
            r is Internal,
            r.height() == 1 + child2.height(),
            r.elems() == Self::elems_of(children@.insert(k as int, child2)),
            children@.len() <= r.spec_length() <= children@.len() + 1,
            r.spec_length() == 1 ==> r.kids()[0].spec_length() >= b as int / 2 && (r.kids()[0]
                is Internal ==> r.kids()[0].spec_length() >= 2),
            (b >= 4 && child2.kids_lone_free() && (forall|i: int|
                0 <= i < children@.len() ==> (#[trigger] children@[i]).lone_free()))
                ==> r.kids_lone_free(),
            // a borrow: no child leaves; the donor gives up exactly one
            // entry, prepended to the under-full child, order kept
            r.spec_length() == children@.len() + 1,
            r.kids()[k as int - 1].spec_length() == children@[k as int - 1].spec_length() - 1,
            r.kids()[k as int].spec_length() == child2.spec_length() + 1,
            r.kids()[k as int - 1].elems() + r.kids()[k as int].elems() == children@[k as int
                - 1].elems() + child2.elems(),
            forall|j: int| 0 <= j < k - 1 ==> r.kids()[j] == children@[j],
            forall|j: int| k < j < children@.len() + 1 ==> r.kids()[j] == children@[j - 1],
    {
        let ghost cs_in = children@;
        let ghost w = children@.insert(k as int, child2);
        let ghost ws = sizes@;
        proof {
            assert(w[k as int] == child2);
        }
        // borrow from the left sibling
        let ghost left = w[k as int - 1];
        proof {
            assert(children@[k as int - 1] == w[k as int - 1]);
            Self::lemma_elems_of_decompose2(w, k as int - 1);
            assert(Self::elems_of(w) == Self::elems_of(w.take(k as int - 1)) + left.elems()
                + child2.elems() + Self::elems_of(w.skip(k as int + 1)));
        }
        let lnode = children.remove(k - 1);
        let (left2, child3, d) = Self::donate_last(lnode, child2, b);
        children.insert(k - 1, left2);
        children.insert(k, child3);
        let v = sizes[k - 1];
        sizes[k - 1] = v - d;
        let v2 = sizes[k];
        proof {
            assert(v2 == ws[k as int]);
            assert(left2.elems() + child3.elems() == left.elems() + child2.elems());
            assert((left2.elems() + child3.elems()).len() == left2.elems().len()
                + child3.elems().len());
            assert((left.elems() + child2.elems()).len() == left.elems().len()
                + child2.elems().len());
            assert(v2 + d == child3.elems().len());
        }
        sizes[k] = v2 + d;
        let ghost f = children@;
        proof {
            assert(f =~= w.update(k as int - 1, left2).update(k as int, child3));
            Self::lemma_elems_of_decompose2(f, k as int - 1);
            assert(f.take(k as int - 1) =~= w.take(k as int - 1));
            assert(f.skip(k as int + 1) =~= w.skip(k as int + 1));
            assert(Self::elems_of(f) == Self::elems_of(f.take(k as int - 1)) + left2.elems()
                + child3.elems() + Self::elems_of(f.skip(k as int + 1)));
            assert(left2.elems() + child3.elems() == left.elems() + child2.elems());
            lemma_concat4_middle(
                Self::elems_of(w.take(k as int - 1)),
                left2.elems(),
                child3.elems(),
                left.elems(),
                child2.elems(),
                Self::elems_of(w.skip(k as int + 1)),
            );
            assert(Self::elems_of(f) == Self::elems_of(w));
            assert forall|i: int| 0 <= i < f.len() implies (#[trigger] f[i]).wf(b as int)
                && f[i].height() == f[0].height() && sizes@[i] == f[i].elems().len()
                && f[i].spec_length() >= b as int / 2 by {
                if i != k && i != k - 1 {
                    assert(f[i] == w[i]);
                    assert(sizes@[i] == ws[i]);
                }
                assert(w[0].height() == f[0].height());
            }
        }
        proof {
            if b >= 4 && child2.kids_lone_free() && (forall|i: int|
                0 <= i < cs_in.len() ==> (#[trigger] cs_in[i]).lone_free()) {
                assert(cs_in[k as int - 1].lone_free());
                assert(left.kids_lone_free());
                assert(left2.kids_lone_free() && child3.kids_lone_free());
                assert forall|i: int| 0 <= i < f.len() implies (#[trigger] f[i]).lone_free() by {
                    if i == k - 1 {
                        assert(f[i] == left2);
                    } else if i == k {
                        assert(f[i] == child3);
                    } else if i < k - 1 {
                        assert(f[i] == w[i]);
                        assert(cs_in[i].lone_free());
                    } else {
                        assert(f[i] == w[i]);
                        assert(w[i] == cs_in[i - 1]);
                        assert(cs_in[i - 1].lone_free());
                    }
                }
                let r0 = Node::Internal { sizes, children };
                assert(r0.kids() =~= f);
                assert(r0.kids_lone_free());
            }
        }
        proof {
            assert(f[k as int - 1] == left2);
            assert(f[k as int] == child3);
            assert forall|j: int| 0 <= j < k - 1 implies f[j] == cs_in[j] by {
                assert(f[j] == w[j]);
            }
            assert forall|j: int| k < j < cs_in.len() + 1 implies f[j] == cs_in[j - 1] by {
                assert(f[j] == w[j]);
            }
        }
        Node::Internal { sizes, children }
    }

    /// Mends the under-full child by borrowing the right sibling's first
    /// entry.
    #[verifier::rlimit(100)]
    fn rebalance_borrow_right(
        mut sizes: Vec<usize>,
        mut children: Vec<Node<T>>,
        k: usize,
        child2: Node<T>,
        b: usize,
    ) -> (r: Node<T>)
        requires
            b >= 3,
            k <= children@.len(),
            children@.len() >= 1,
            children@.len() + 1 <= b,
            Self::family_wf(children@.insert(k as int, child2), sizes@, b as int),
            forall|i: int|
                0 <= i < sizes@.len() && i != k ==> (#[trigger] children@.insert(
                    k as int,
                    child2,
                )[i]).spec_length() >= b as int / 2,
            child2.spec_length() < b as int / 2,
            child2.spec_length() + 1 >= b as int / 2,
            child2.kids_occupied(b as int),
            Self::elems_of(children@.insert(k as int, child2)).len() <= usize::MAX,
            k < children@.len(),
            children@[k as int].spec_length() > b as int / 2,
        ensures
            r.wf(b as int),
            r is Internal,
            r.height() == 1 + child2.height(),
            r.elems() == Self::elems_of(children@.insert(k as int, child2)),
            children@.len() <= r.spec_length() <= children@.len() + 1,
            r.spec_length() == 1 ==> r.kids()[0].spec_length() >= b as int / 2 && (r.kids()[0]
                is Internal ==> r.kids()[0].spec_length() >= 2),
            (b >= 4 && child2.kids_lone_free() && (forall|i: int|
                0 <= i < children@.len() ==> (#[trigger] children@[i]).lone_free()))
                ==> r.kids_lone_free(),
            // a borrow: no child leaves; the donor gives up exactly one
            // entry, appended to the under-full child, order kept
            r.spec_length() == children@.len() + 1,
            r.kids()[k as int].spec_length() == child2.spec_length() + 1,
            r.kids()[k as int + 1].spec_length() == children@[k as int].spec_length() - 1,
            r.kids()[k as int].elems() + r.kids()[k as int + 1].elems() == child2.elems()
                + children@[k as int].elems(),
            forall|j: int| 0 <= j < k ==> r.kids()[j] == children@[j],
            forall|j: int| k + 1 < j < children@.len() + 1 ==> r.kids()[j] == children@[j - 1],
    {
        let ghost cs_in = children@;
        let ghost w = children@.insert(k as int, child2);
        let ghost ws = sizes@;
        proof {
            assert(w[k as int] == child2);
        }
        // borrow from the right sibling
        let ghost right = w[k as int + 1];
        proof {
            assert(children@[k as int] == w[k as int + 1]);
            Self::lemma_elems_of_decompose2(w, k as int);
            assert(Self::elems_of(w) == Self::elems_of(w.take(k as int)) + child2.elems()
                + right.elems() + Self::elems_of(w.skip(k as int + 2)));
        }
        let rnode = children.remove(k);
        let (child3, right2, d) = Self::donate_first(child2, rnode, b);
        children.insert(k, child3);
        children.insert(k + 1, right2);
        let v = sizes[k];
        proof {
            assert(v == ws[k as int]);
            assert(child3.elems() + right2.elems() == child2.elems() + right.elems());
            assert((child3.elems() + right2.elems()).len() == child3.elems().len()
                + right2.elems().len());
            assert((child2.elems() + right.elems()).len() == child2.elems().len()
                + right.elems().len());
            assert(v + d == child3.elems().len());
        }
        sizes[k] = v + d;
        let v2 = sizes[k + 1];
        sizes[k + 1] = v2 - d;
        let ghost f = children@;
        proof {
            assert(v2 == ws[k as int + 1]);
            assert(f =~= w.update(k as int, child3).update(k as int + 1, right2));
            Self::lemma_elems_of_decompose2(f, k as int);
            assert(f.take(k as int) =~= w.take(k as int));
            assert(f.skip(k as int + 2) =~= w.skip(k as int + 2));
            assert(Self::elems_of(f) == Self::elems_of(f.take(k as int)) + child3.elems()
                + right2.elems() + Self::elems_of(f.skip(k as int + 2)));
            assert(child3.elems() + right2.elems() == child2.elems() + right.elems());
            lemma_concat4_middle(
                Self::elems_of(w.take(k as int)),
                child3.elems(),
                right2.elems(),
                child2.elems(),
                right.elems(),
                Self::elems_of(w.skip(k as int + 2)),
            );
            assert(Self::elems_of(f) == Self::elems_of(w));
            assert forall|i: int| 0 <= i < f.len() implies (#[trigger] f[i]).wf(b as int)
                && f[i].height() == f[0].height() && sizes@[i] == f[i].elems().len()
                && f[i].spec_length() >= b as int / 2 by {
                if i != k && i != k + 1 {
                    assert(f[i] == w[i]);
                    assert(sizes@[i] == ws[i]);
                }
                assert(w[0].height() == f[0].height());
            }
        }
        proof {
            if b >= 4 && child2.kids_lone_free() && (forall|i: int|
                0 <= i < cs_in.len() ==> (#[trigger] cs_in[i]).lone_free()) {
                assert(cs_in[k as int].lone_free());
                assert(right.kids_lone_free());
                assert(child3.kids_lone_free() && right2.kids_lone_free());
                assert forall|i: int| 0 <= i < f.len() implies (#[trigger] f[i]).lone_free() by {
                    if i == k {
                        assert(f[i] == child3);
                    } else if i == k + 1 {
                        assert(f[i] == right2);
                    } else if i < k {
                        assert(f[i] == w[i]);
                        assert(cs_in[i].lone_free());
                    } else {
                        assert(f[i] == w[i]);
                        assert(w[i] == cs_in[i - 1]);
                        assert(cs_in[i - 1].lone_free());
                    }
                }
                let r0 = Node::Internal { sizes, children };
                assert(r0.kids() =~= f);
                assert(r0.kids_lone_free());
            }
        }
        proof {
            assert(f[k as int] == child3);
            assert(f[k as int + 1] == right2);
            assert forall|j: int| 0 <= j < k implies f[j] == cs_in[j] by {
                assert(f[j] == w[j]);
            }
            assert forall|j: int| k + 1 < j < cs_in.len() + 1 implies f[j] == cs_in[j - 1] by {
                assert(f[j] == w[j]);
            }
        }
        Node::Internal { sizes, children }
    }

    /// Mends the under-full child by merging the right sibling into it.
    #[verifier::rlimit(100)]
    fn rebalance_merge_right(
        mut sizes: Vec<usize>,
        mut children: Vec<Node<T>>,
        k: usize,
        child2: Node<T>,
        b: usize,
    ) -> (r: Node<T>)
        requires
            b >= 3,
            k <= children@.len(),
            children@.len() >= 1,
            children@.len() + 1 <= b,
            Self::family_wf(children@.insert(k as int, child2), sizes@, b as int),
            forall|i: int|
                0 <= i < sizes@.len() && i != k ==> (#[trigger] children@.insert(
                    k as int,
                    child2,
                )[i]).spec_length() >= b as int / 2,
            child2.spec_length() < b as int / 2,
            child2.spec_length() + 1 >= b as int / 2,
            child2.kids_occupied(b as int),
            Self::elems_of(children@.insert(k as int, child2)).len() <= usize::MAX,
            k < children@.len(),
            children@[k as int].spec_length() <= b as int / 2,
        ensures
            r.wf(b as int),
            r is Internal,
            r.height() == 1 + child2.height(),
            r.elems() == Self::elems_of(children@.insert(k as int, child2)),
            children@.len() <= r.spec_length() <= children@.len() + 1,
            r.spec_length() == 1 ==> r.kids()[0].spec_length() >= b as int / 2 && (r.kids()[0]
                is Internal ==> r.kids()[0].spec_length() >= 2),
            (b >= 4 && child2.kids_lone_free() && (forall|i: int|
                0 <= i < children@.len() ==> (#[trigger] children@[i]).lone_free()))
                ==> r.kids_lone_free(),
            // a merge: the right sibling's entries are appended to the
            // under-full child and the sibling leaves the node
            r.spec_length() == children@.len(),
            r.kids()[k as int].spec_length() == child2.spec_length() + children@[
                k as int].spec_length(),
            r.kids()[k as int].elems() == child2.elems() + children@[k as int].elems(),
            forall|j: int| 0 <= j < children@.len() && j != k ==> r.kids()[j] == children@[j],
    {
        let ghost cs_in = children@;
        let ghost w = children@.insert(k as int, child2);
        let ghost ws = sizes@;
        proof {
            assert(w[k as int] == child2);
        }
        // no sibling has surplus: merge the right sibling into the
        // child
        let ghost right = w[k as int + 1];
        proof {
            assert(children@[k as int] == w[k as int + 1]);
            Self::lemma_elems_of_decompose2(w, k as int);
            assert(Self::elems_of(w) == Self::elems_of(w.take(k as int)) + child2.elems()
                + right.elems() + Self::elems_of(w.skip(k as int + 2)));
            // the sibling's own children meet minimum occupancy
            if right is Internal {
                if right.spec_length() < 2 {
                    assert(right.height() >= 1);
                    assert(child2 is Internal);
                    assert(child2.spec_length() >= 1);
                    assert(false);
                }
            }
        }
        let rnode = children.remove(k);
        let merged = child2.merge(rnode, b);
        children.insert(k, merged);
        let rsz = sizes.remove(k + 1);
        let v = sizes[k];
        proof {
            assert(v == ws[k as int]);
            assert(rsz == ws[k as int + 1]);
            assert(v + rsz == merged.elems().len());
        }
        sizes[k] = v + rsz;
        let ghost f = children@;
        proof {
            assert(f =~= w.remove(k as int + 1).update(k as int, merged));
            Self::lemma_elems_of_decompose(f, k as int);
            assert(f.take(k as int) =~= w.take(k as int));
            assert(f.skip(k as int + 1) =~= w.skip(k as int + 2));
            assert(f[k as int] == merged);
            assert(Self::elems_of(f) == Self::elems_of(w));
            assert forall|i: int| 0 <= i < f.len() implies (#[trigger] f[i]).wf(b as int)
                && f[i].height() == f[0].height() && sizes@[i] == f[i].elems().len() && (f.len()
                >= 2 ==> f[i].spec_length() >= b as int / 2) by {
                if i < k {
                    assert(f[i] == w[i]);
                    assert(sizes@[i] == ws[i]);
                } else if i > k {
                    assert(f[i] == w[i + 1]);
                    assert(sizes@[i] == ws[i + 1]);
                }
                if k > 0 {
                    assert(w[0].height() == f[0].height());
                }
            }
        }
        proof {
            if b >= 4 && child2.kids_lone_free() && (forall|i: int|
                0 <= i < cs_in.len() ==> (#[trigger] cs_in[i]).lone_free()) {
                assert(cs_in[k as int].lone_free());
                assert(right.kids_lone_free());
                assert(merged.kids_lone_free());
                assert(merged.spec_length() >= 2);
                assert forall|i: int| 0 <= i < f.len() implies (#[trigger] f[i]).lone_free() by {
                    if i == k {
                        assert(f[i] == merged);
                    } else if i < k {
                        assert(f[i] == w[i]);
                        assert(cs_in[i].lone_free());
                    } else {
                        assert(f[i] == w[i + 1]);
                        assert(w[i + 1] == cs_in[i]);
                        assert(cs_in[i].lone_free());
                    }
                }
                let r0 = Node::Internal { sizes, children };
                assert(r0.kids() =~= f);
                assert(r0.kids_lone_free());
            }
        }
        proof {
            assert(f[k as int] == merged);
            assert forall|j: int| 0 <= j < cs_in.len() && j != k implies f[j] == cs_in[j] by {
                if j < k {
                    assert(f[j] == w[j]);
                } else {
                    assert(f[j] == w[j + 1]);
                }
            }
        }
        Node::Internal { sizes, children }
    }

    /// Mends the under-full child, which has no right sibling, by merging
    /// it into the left sibling.
    #[verifier::rlimit(100)]
    fn rebalance_merge_left(
        mut sizes: Vec<usize>,
        mut children: Vec<Node<T>>,
        k: usize,
        child2: Node<T>,
        b: usize,
    ) -> (r: Node<T>)
        requires
            b >= 3,
            k <= children@.len(),
            children@.len() >= 1,
            children@.len() + 1 <= b,
            Self::family_wf(children@.insert(k as int, child2), sizes@, b as int),
            forall|i: int|
                0 <= i < sizes@.len() && i != k ==> (#[trigger] children@.insert(
                    k as int,
                    child2,
                )[i]).spec_length() >= b as int / 2,
            child2.spec_length() < b as int / 2,
            child2.spec_length() + 1 >= b as int / 2,
            child2.kids_occupied(b as int),
            Self::elems_of(children@.insert(k as int, child2)).len() <= usize::MAX,
            k == children@.len(),
            k >= 1,
            children@[k as int - 1].spec_length() <= b as int / 2,
        ensures
            r.wf(b as int),
            r is Internal,
            r.height() == 1 + child2.height(),
            r.elems() == Self::elems_of(children@.insert(k as int, child2)),
            children@.len() <= r.spec_length() <= children@.len() + 1,
            r.spec_length() == 1 ==> r.kids()[0].spec_length() >= b as int / 2 && (r.kids()[0]
                is Internal ==> r.kids()[0].spec_length() >= 2),
            (b >= 4 && child2.kids_lone_free() && (forall|i: int|
                0 <= i < children@.len() ==> (#[trigger] children@[i]).lone_free()))
                ==> r.kids_lone_free(),
            // a merge: the under-full child's entries are appended to the
            // left sibling and the child leaves the node
            r.spec_length() == children@.len(),
            r.kids()[k as int - 1].spec_length() == children@[k as int - 1].spec_length()
                + child2.spec_length(),
            r.kids()[k as int - 1].elems() == children@[k as int - 1].elems() + child2.elems(),
            forall|j: int| 0 <= j < children@.len() && j != k - 1 ==> r.kids()[j] == children@[j],
    {
        let ghost cs_in = children@;
        let ghost w = children@.insert(k as int, child2);
        let ghost ws = sizes@;
        proof {
            assert(w[k as int] == child2);
        }
        // the child is the last one: merge it into the left sibling
        let ghost left = w[k as int - 1];
        proof {
            assert(children@[k as int - 1] == w[k as int - 1]);
            Self::lemma_elems_of_decompose(w, k as int - 1);
            assert(w.skip(k as int) =~= seq![child2]);
            Self::lemma_elems_of_singleton(child2);
            assert(w.skip(k as int - 1).skip(1) =~= w.skip(k as int));
            Self::lemma_elems_of_decompose(w.skip(k as int - 1), 0);
            assert(w.skip(k as int - 1).take(0) =~= Seq::<Node<T>>::empty());
            assert(Self::elems_of(Seq::<Node<T>>::empty()) =~= Seq::<T>::empty());
            assert(Self::elems_of(w) == Self::elems_of(w.take(k as int - 1)) + left.elems()
                + child2.elems());
            if left is Internal {
                if left.spec_length() < 2 {
                    assert(left.height() >= 1);
                    assert(child2 is Internal);
                    assert(child2.spec_length() >= 1);
                    assert(false);
                }
            }
        }
        let lnode = children.remove(k - 1);
        let merged = lnode.merge(child2, b);
        children.insert(k - 1, merged);
        let msz = sizes.remove(k);
        let v = sizes[k - 1];
        proof {
            assert(v == ws[k as int - 1]);
            assert(msz == ws[k as int]);
            assert(v + msz == merged.elems().len());
        }
        sizes[k - 1] = v + msz;
        let ghost f = children@;
        proof {
            assert(f =~= w.remove(k as int).update(k as int - 1, merged));
            Self::lemma_elems_of_decompose(f, k as int - 1);
            assert(f.take(k as int - 1) =~= w.take(k as int - 1));
            assert(f.skip(k as int) =~= Seq::<Node<T>>::empty());
            assert(Self::elems_of(f) == Self::elems_of(w));
            assert forall|i: int| 0 <= i < f.len() implies (#[trigger] f[i]).wf(b as int)
                && f[i].height() == f[0].height() && sizes@[i] == f[i].elems().len() && (f.len()
                >= 2 ==> f[i].spec_length() >= b as int / 2) by {
                if i < k - 1 {
                    assert(f[i] == w[i]);
                    assert(sizes@[i] == ws[i]);
                }
                if k > 1 {
                    assert(w[0].height() == f[0].height());
                }
            }
        }
        proof {
            if b >= 4 && child2.kids_lone_free() && (forall|i: int|
                0 <= i < cs_in.len() ==> (#[trigger] cs_in[i]).lone_free()) {
                assert(cs_in[k as int - 1].lone_free());
                assert(left.kids_lone_free());
                assert(merged.kids_lone_free());
                assert(merged.spec_length() >= 2);
                assert forall|i: int| 0 <= i < f.len() implies (#[trigger] f[i]).lone_free() by {
                    if i == k - 1 {
                        assert(f[i] == merged);
                    } else {
                        assert(f[i] == w[i]);
                        assert(cs_in[i].lone_free());
                    }
                }
                let r0 = Node::Internal { sizes, children };
                assert(r0.kids() =~= f);
                assert(r0.kids_lone_free());
            }
        }
        proof {
            assert(f[k as int - 1] == merged);
            assert forall|j: int| 0 <= j < cs_in.len() && j != k - 1 implies f[j] == cs_in[j] by {
                assert(f[j] == w[j]);
            }
        }
        Node::Internal { sizes, children }
    }

    /// Rebuilds an internal node around its under-full child `child2`,
    /// which belongs at position `k` among `children` (and has been taken
    /// out of that array; its stale size entry is still at `sizes[k]`).
    ///
    /// A sibling with surplus donates one entry — the left sibling is
    /// tried first, then the right; failing that, the child merges with
    /// the right sibling if it has one, and with the left otherwise.
    fn rebalance(
        sizes: Vec<usize>,
        children: Vec<Node<T>>,
        k: usize,
        child2: Node<T>,
        b: usize,
    ) -> (r: Node<T>)
        requires
            b >= 3,
            k <= children@.len(),
            children@.len() >= 1,
            children@.len() + 1 <= b,
            Self::family_wf(children@.insert(k as int, child2), sizes@, b as int),
            forall|i: int|
                0 <= i < sizes@.len() && i != k ==> (#[trigger] children@.insert(
                    k as int,
                    child2,
                )[i]).spec_length() >= b as int / 2,
            child2.spec_length() < b as int / 2,
            child2.spec_length() + 1 >= b as int / 2,
            child2.kids_occupied(b as int),
            Self::elems_of(children@.insert(k as int, child2)).len() <= usize::MAX,
        ensures
            r.wf(b as int),
            r is Internal,
            r.height() == 1 + child2.height(),
            r.elems() == Self::elems_of(children@.insert(k as int, child2)),
            children@.len() <= r.spec_length() <= children@.len() + 1,
            r.spec_length() == 1 ==> r.kids()[0].spec_length() >= b as int / 2 && (r.kids()[0]
                is Internal ==> r.kids()[0].spec_length() >= 2),
            (b >= 4 && child2.kids_lone_free() && (forall|i: int|
                0 <= i < children@.len() ==> (#[trigger] children@[i]).lone_free()))
                ==> r.kids_lone_free(),
            // border policy: a sibling with surplus donates one entry
            // instead of merging, and the left sibling is tried first
            (k >= 1 && children@[k as int - 1].spec_length() > b as int / 2) ==> (r.spec_length()
                == children@.len() + 1 && r.kids()[k as int - 1].spec_length() == children@[
            k as int - 1].spec_length() - 1 && r.kids()[k as int].spec_length()
                == child2.spec_length() + 1 && r.kids()[k as int - 1].elems() + r.kids()[
            k as int].elems() == children@[k as int - 1].elems() + child2.elems() && (
            forall|j: int| 0 <= j < k - 1 ==> r.kids()[j] == children@[j]) && (forall|j: int|
                k < j < children@.len() + 1 ==> r.kids()[j] == children@[j - 1])),
            (!(k >= 1 && children@[k as int - 1].spec_length() > b as int / 2) && k
                < children@.len() && children@[k as int].spec_length() > b as int / 2) ==> (
            r.spec_length() == children@.len() + 1 && r.kids()[k as int].spec_length()
                == child2.spec_length() + 1 && r.kids()[k as int + 1].spec_length() == children@[
            k as int].spec_length() - 1 && r.kids()[k as int].elems() + r.kids()[k as int
                + 1].elems() == child2.elems() + children@[k as int].elems() && (forall|j: int|
                0 <= j < k ==> r.kids()[j] == children@[j]) && (forall|j: int|
                k + 1 < j < children@.len() + 1 ==> r.kids()[j] == children@[j - 1])),
            // only when no sibling can donate does a merge happen: with
            // the right sibling when there is one, else into the left
            (!(k >= 1 && children@[k as int - 1].spec_length() > b as int / 2) && k
                < children@.len() && children@[k as int].spec_length() <= b as int / 2) ==> (
            r.spec_length() == children@.len() && r.kids()[k as int].elems() == child2.elems()
                + children@[k as int].elems() && (forall|j: int|
                0 <= j < children@.len() && j != k ==> r.kids()[j] == children@[j])),
            (!(k >= 1 && children@[k as int - 1].spec_length() > b as int / 2) && k
                == children@.len()) ==> (r.spec_length() == children@.len() && r.kids()[k as int
                - 1].elems() == children@[k as int - 1].elems() + child2.elems() && (forall|j: int|
                0 <= j < children@.len() && j != k - 1 ==> r.kids()[j] == children@[j])),
    {
        let n = children.len();
        if k > 0 && children[k - 1].length() > b / 2 {
            Self::rebalance_borrow_left(sizes, children, k, child2, b)
        } else if k < n && children[k].length() > b / 2 {
            Self::rebalance_borrow_right(sizes, children, k, child2, b)
        } else if k < n {
            Self::rebalance_merge_right(sizes, children, k, child2, b)
        } else {
            Self::rebalance_merge_left(sizes, children, k, child2, b)
        }
    }

    /// Removes and returns the element at position `index` within this
    /// subtree. The subtree that takes this one's place keeps every
    /// invariant except that it may itself have become under-full, which
    /// is this node's parent's business.
    #[verifier::rlimit(100)]
    pub(crate) fn remove_rec(self, index: usize, b: usize) -> (r: (Node<T>, T))
        requires
            self.wf(b as int),
            b >= 3,
            index < self.elems().len(),
            self.elems().len() <= usize::MAX,
        ensures
            r.0.wf(b as int),
            r.0.height() == self.height(),
            r.0.elems() == self.elems().remove(index as int),
            r.1 == self.elems()[index as int],
            self.spec_length() - 1 <= r.0.spec_length() <= self.spec_length(),
            (r.0 is Internal && r.0.spec_length() == 1 && self.spec_length() >= 2) ==> (
            r.0.kids()[0].spec_length() >= b as int / 2 && (r.0.kids()[0] is Internal
                ==> r.0.kids()[0].spec_length() >= 2)),
            (b >= 4 && self.lone_free()) ==> r.0.kids_lone_free(),
            // what happened at this level: either the removal was
            // absorbed — the routed child kept its minimum occupancy or
            // has no sibling — and only that child changed; or the child
            // fell under the minimum (it held exactly B / 2 entries) and
            // was mended against a sibling: a sibling with surplus
            // donates one entry, the left tried before the right, and
            // only when neither can donate do two siblings merge — with
            // the right one when it exists, else into the left
            self is Internal ==> ({
                let k = Self::spec_route(self.kids(), index as int).0;
                let rem = Self::spec_route(self.kids(), index as int).1;
                let left_surplus = k >= 1 && self.kids()[k - 1].spec_length() > b as int / 2;
                let right_surplus = k + 1 < self.kids().len() && self.kids()[k + 1].spec_length()
                    > b as int / 2;
                ||| ((r.0.kids()[k].spec_length() >= b as int / 2 || self.spec_length() == 1)
                    && r.0.spec_length() == self.spec_length() && (forall|j: int|
                    0 <= j < self.kids().len() && j != k ==> r.0.kids()[j] == self.kids()[j])
                    && r.0.kids()[k].elems() == self.kids()[k].elems().remove(rem))
                ||| (self.spec_length() >= 2 && self.kids()[k].spec_length() == b as int / 2 && ({
                    ||| (left_surplus && r.0.spec_length() == self.spec_length() && r.0.kids()[k
                        - 1].spec_length() == self.kids()[k - 1].spec_length() - 1
                        && r.0.kids()[k].spec_length() == b as int / 2 && r.0.kids()[k - 1].elems()
                        + r.0.kids()[k].elems() == self.kids()[k - 1].elems()
                        + self.kids()[k].elems().remove(rem) && (forall|j: int|
                        0 <= j < k - 1 ==> r.0.kids()[j] == self.kids()[j]) && (forall|j: int|
                        k < j < self.kids().len() ==> r.0.kids()[j] == self.kids()[j]))
                    ||| (!left_surplus && right_surplus && r.0.spec_length()
                        == self.spec_length() && r.0.kids()[
                        k].spec_length() == b as int / 2 && r.0.kids()[k + 1].spec_length()
                        == self.kids()[k + 1].spec_length() - 1 && r.0.kids()[k].elems()
                        + r.0.kids()[k + 1].elems() == self.kids()[k].elems().remove(rem)
                        + self.kids()[k + 1].elems() && (forall|j: int|
                        0 <= j < k ==> r.0.kids()[j] == self.kids()[j]) && (forall|j: int|
                        k + 1 < j < self.kids().len() ==> r.0.kids()[j] == self.kids()[j]))
                    ||| (!left_surplus && !right_surplus && k + 1 < self.kids().len()
                        && r.0.spec_length()
                        == self.spec_length() - 1 && r.0.kids()[k].elems()
                        == self.kids()[k].elems().remove(rem) + self.kids()[k + 1].elems() && (
                        forall|j: int| 0 <= j < k ==> r.0.kids()[j] == self.kids()[j]) && (
                        forall|j: int|
                        k < j < self.kids().len() - 1 ==> r.0.kids()[j] == self.kids()[j + 1]))
                    ||| (!left_surplus && k + 1 == self.kids().len() && r.0.spec_length()
                        == self.spec_length() - 1 && r.0.kids()[k - 1].elems()
                        == self.kids()[k - 1].elems() + self.kids()[k].elems().remove(rem) && (
                        forall|j: int| 0 <= j < k - 1 ==> r.0.kids()[j] == self.kids()[j]))}))
            }),
        decreases self.height(),
    {
        match self {
            Node::Leaf { mut elems } => {
                let item = elems.remove(index);
                proof {
                    let r0 = Node::Leaf { elems };
                    assert(r0.kids_lone_free());
                }
                (Node::Leaf { elems }, item)
            },
            Node::Internal { mut sizes, mut children } => {
                let ghost cs0 = children@;
                let ghost ws0 = sizes@;
                let ghost me = Self::elems_of(cs0);
                let ghost target = me.remove(index as int);
                let (k, rem) = Self::route(&sizes, index, Ghost(children@));
                proof {
                    Self::lemma_elems_of_decompose(cs0, k as int);
                }
                let ghost pre = Self::elems_of(cs0.take(k as int));
                let ghost mid = cs0[k as int].elems();
                let ghost suf = Self::elems_of(cs0.skip(k as int + 1));
                proof {
                    lemma_remove_in_middle(pre, mid, suf, rem as int);
                }
                let child = children.remove(k);
                let (child2, item) = child.remove_rec(rem, b);
                let nsz = sizes[k] - 1;
                sizes[k] = nsz;
                let ghost c2e = child2.elems();
                let clen = child2.length();
                if clen >= b / 2 || children.len() == 0 {
                    // absorbed: the child kept its minimum occupancy, or
                    // has no sibling to rebalance against
                    children.insert(k, child2);
                    let ghost u = children@;
                    proof {
                        assert(u =~= cs0.update(k as int, child2));
                        assert(u.take(k as int) =~= cs0.take(k as int));
                        assert(u.skip(k as int + 1) =~= cs0.skip(k as int + 1));
                        Self::lemma_elems_of_decompose(u, k as int);
                        assert(Self::elems_of(u) == target);
                        assert forall|i: int| 0 <= i < u.len() implies (#[trigger] u[i]).wf(
                            b as int,
                        ) && u[i].height() == u[0].height() && sizes@[i] == u[i].elems().len() by {
                            if i != k {
                                assert(u[i] == cs0[i]);
                                assert(sizes@[i] == ws0[i]);
                            }
                            if k > 0 {
                                assert(u[0] == cs0[0]);
                            }
                        }
                        if u.len() >= 2 {
                            assert forall|i: int| 0 <= i < u.len() implies (
                            #[trigger] u[i]).spec_length() >= b as int / 2 by {
                                if i != k {
                                    assert(u[i] == cs0[i]);
                                }
                            }
                        }
                        if b >= 4 && self.lone_free() {
                            assert(self.kids()[k as int].lone_free());
                            assert(child2.kids_lone_free());
                            assert(cs0.len() >= 2);
                            assert(clen >= b / 2 >= 2);
                            assert forall|i: int| 0 <= i < u.len() implies (
                            #[trigger] u[i]).lone_free() by {
                                if i != k {
                                    assert(u[i] == cs0[i]);
                                    assert(self.kids()[i].lone_free());
                                }
                            }
                        }
                        let r0 = Node::Internal { sizes, children };
                        assert(r0.kids() =~= u);
                        if b >= 4 && self.lone_free() {
                            assert(r0.kids_lone_free());
                        }
                        assert(self.kids() == cs0);
                        assert forall|j: int|
                            0 <= j < cs0.len() && j != k implies u[j] == cs0[j] by {}
                        assert(u[k as int] == child2);
                    }
                    (Node::Internal { sizes, children }, item)
                } else {
                    // the child fell under minimum occupancy and has a
                    // sibling: rebalance
                    let ghost w = children@.insert(k as int, child2);
                    proof {
                        assert(w =~= cs0.update(k as int, child2));
                        assert(w.take(k as int) =~= cs0.take(k as int));
                        assert(w.skip(k as int + 1) =~= cs0.skip(k as int + 1));
                        Self::lemma_elems_of_decompose(w, k as int);
                        assert(Self::elems_of(w) == target);
                        assert forall|i: int| 0 <= i < w.len() implies (#[trigger] w[i]).wf(
                            b as int,
                        ) && w[i].height() == w[0].height() && sizes@[i] == w[i].elems().len() by {
                            if i != k {
                                assert(w[i] == cs0[i]);
                                assert(sizes@[i] == ws0[i]);
                            }
                            if k > 0 {
                                assert(w[0] == cs0[0]);
                            }
                        }
                        assert forall|i: int|
                            0 <= i < sizes@.len() && i != k implies (#[trigger] w[i]).spec_length()
                            >= b as int / 2 by {
                            assert(w[i] == cs0[i]);
                        }
                        // the under-full child's own children still meet
                        // minimum occupancy
                        if child2 is Internal {
                            assert(cs0[k as int].spec_length() >= b as int / 2);
                            if child2.spec_length() == 1 {
                                assert(cs0[k as int].spec_length() >= 2) by {
                                    if cs0[k as int].spec_length() < 2 {
                                        assert(b as int / 2 <= 1);
                                        assert(child2.spec_length() < b as int / 2);
                                        assert(false);
                                    }
                                }
                                assert(child2.kids()[0].spec_length() >= b as int / 2);
                                assert(child2.kids().len() == 1);
                                assert(child2.kids_occupied(b as int));
                            } else {
                                assert(child2.spec_length() >= 2);
                                assert(child2.kids_occupied(b as int));
                            }
                        }
                    }
                    proof {
                        if b >= 4 && self.lone_free() {
                            assert(self.kids()[k as int].lone_free());
                            assert(child2.kids_lone_free());
                            assert forall|i: int| 0 <= i < children@.len() implies (
                            #[trigger] children@[i]).lone_free() by {
                                if i < k {
                                    assert(children@[i] == cs0[i]);
                                    assert(self.kids()[i].lone_free());
                                } else {
                                    assert(children@[i] == cs0[i + 1]);
                                    assert(self.kids()[i + 1].lone_free());
                                }
                            }
                        }
                    }
                    let ghost ca = children@;
                    proof {
                        assert(ca =~= cs0.remove(k as int));
                        assert(self.kids() == cs0);
                        assert forall|j: int| 0 <= j < k implies ca[j] == cs0[j] by {}
                        assert forall|j: int|
                            k <= j < ca.len() implies ca[j] == cs0[j + 1] by {}
                        // the child fell from exactly the minimum occupancy
                        assert(cs0[k as int].spec_length() == b as int / 2);
                    }
                    let node = Self::rebalance(sizes, children, k, child2, b);
                    proof {
                        let left_surplus = k >= 1 && cs0[k as int - 1].spec_length() > b as int
                            / 2;
                        let right_surplus = k + 1 < cs0.len() && cs0[k as int
                            + 1].spec_length() > b as int / 2;
                        if left_surplus {
                            assert forall|j: int|
                                k < j < cs0.len() implies node.kids()[j] == cs0[j] by {
                                assert(node.kids()[j] == ca[j - 1]);
                            }
                        } else if right_surplus {
                            assert forall|j: int|
                                k + 1 < j < cs0.len() implies node.kids()[j] == cs0[j] by {
                                assert(node.kids()[j] == ca[j - 1]);
                            }
                        } else if k + 1 < cs0.len() {
                            assert forall|j: int|
                                k < j < cs0.len() - 1 implies node.kids()[j] == cs0[j + 1] by {
                                assert(node.kids()[j] == ca[j]);
                            }
                        } else {
                            assert(k == ca.len());
                            assert forall|j: int|
                                0 <= j < k - 1 implies node.kids()[j] == cs0[j] by {
                                assert(node.kids()[j] == ca[j]);
                            }
                        }
                    }
                    (node, item)
                }
            },
        }
    }
}

} // verus!
