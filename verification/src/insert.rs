//! The insertion engine: placing one element turns into a possibly
//! cascading sequence of node splits. A node with room absorbs the entry
//! directly; a full node is divided under a [`SplitStrategy`] chosen from
//! where the entry would land, the entry goes into the smaller half, and
//! the new sibling is handed upward to be recorded in the parent.

use crate::node::lemma_insert_in_middle;
use crate::node::Node;
use crate::node::SplitStrategy;
use vstd::prelude::*;

verus! {

impl<T> Node<T> {
    /// Links a freshly split-off child (with `sz` elements under it) into
    /// an internal node at position `pos`, splitting this node as well if
    /// it is already full.
    ///
    /// Takes the node apart as its `sizes` and `children` arrays; returns
    /// the node in its place and, if it split, the new right sibling with
    /// its element count.
    #[verifier::rlimit(100)]
    fn insert_child(
        mut sizes: Vec<usize>,
        mut children: Vec<Node<T>>,
        pos: usize,
        sib: Node<T>,
        sz: usize,
        b: usize,
    ) -> (r: (Node<T>, Option<(Node<T>, usize)>))
        requires
            b >= 3,
            sizes@.len() == children@.len(),
            1 <= children@.len() <= b,
            forall|i: int| 0 <= i < children@.len() ==> (#[trigger] children@[i]).wf(b as int),
            forall|i: int|
                0 <= i < children@.len() ==> (#[trigger] sizes@[i]) == children@[i].elems().len(),
            forall|i: int|
                0 <= i < children@.len() ==> (#[trigger] children@[i]).spec_length() >= b as int
                    / 2,
            forall|i: int|
                0 <= i < children@.len() ==> (#[trigger] children@[i]).height()
                    == children@[0].height(),
            sib.wf(b as int),
            sib.height() == children@[0].height(),
            sib.spec_length() >= b as int / 2,
            sz == sib.elems().len(),
            1 <= pos <= children@.len(),
            Self::elems_of(children@.insert(pos as int, sib)).len() <= usize::MAX,
        ensures
            r.0.wf(b as int),
            r.0.height() == 1 + children@[0].height(),
            match r.1 {
                None => {
                    &&& r.0.elems() == Self::elems_of(children@.insert(pos as int, sib))
                    &&& r.0.spec_length() == children@.len() + 1
                },
                Some(pair) => {
                    &&& r.0.elems() + pair.0.elems() == Self::elems_of(
                        children@.insert(pos as int, sib),
                    )
                    &&& pair.0.wf(b as int)
                    &&& pair.0.height() == 1 + children@[0].height()
                    &&& pair.1 == pair.0.elems().len()
                    &&& r.0.spec_length() >= b / 2
                    &&& pair.0.spec_length() >= b / 2
                    &&& (sib.lone_free() && (forall|i: int|
                        0 <= i < children@.len() ==> (#[trigger] children@[i]).lone_free()))
                        ==> pair.0.lone_free()
                },
            },
            (sib.lone_free() && (forall|i: int|
                0 <= i < children@.len() ==> (#[trigger] children@[i]).lone_free()))
                ==> r.0.lone_free(),
            // this node splits exactly when it was already full
            (r.1 is Some) <==> children@.len() == b,
            r.1 is None ==> r.0.kids() == children@.insert(pos as int, sib),
            // a full node divides by the strategy the landing position picks,
            // at the exact cut the strategy names, keeping child order
            (r.1 is Some && pos >= b - b / 2) ==> (r.0.kids() == children@.take(
                b as int - b as int / 2,
            ) && (r.1->0).0.kids() == children@.skip(b as int - b as int / 2).insert(
                pos - (b as int - b as int / 2),
                sib,
            )),
            (r.1 is Some && pos < b - b / 2) ==> (r.0.kids() == children@.take(
                b as int / 2,
            ).insert(pos as int, sib) && (r.1->0).0.kids() == children@.skip(b as int / 2)),
    {
        let ghost cs_in = children@;
        let ghost w = children@.insert(pos as int, sib);
        let ghost ws = sizes@.insert(pos as int, sz);
        proof {
            assert forall|i: int| 0 <= i < w.len() implies (#[trigger] w[i]).wf(b as int) && (
            #[trigger] w[i]).height() == children@[0].height() && w[i].spec_length() >= b as int / 2
                && ws[i] == w[i].elems().len() by {
                if i < pos {
                    assert(w[i] == children@[i]);
                    assert(ws[i] == sizes@[i]);
                } else if i > pos {
                    assert(w[i] == children@[i - 1]);
                    assert(ws[i] == sizes@[i - 1]);
                }
            }
            assert(w[0] == children@[0]);
            if sib.lone_free() && (forall|i: int|
                0 <= i < children@.len() ==> (#[trigger] children@[i]).lone_free()) {
                assert forall|i: int| 0 <= i < w.len() implies (#[trigger] w[i]).lone_free() by {
                    if i < pos {
                        assert(w[i] == children@[i]);
                    } else if i > pos {
                        assert(w[i] == children@[i - 1]);
                    }
                }
            }
        }
        if children.len() < b {
            children.insert(pos, sib);
            sizes.insert(pos, sz);
            (Node::Internal { sizes, children }, None)
        } else if pos >= b - b / 2 {
            // the new child lands in the right half: larger left
            let (left_len, _) = SplitStrategy::LargerLeft.sizes(b);
            let mut rsizes = sizes.split_off(left_len);
            let mut rchildren = children.split_off(left_len);
            rchildren.insert(pos - left_len, sib);
            rsizes.insert(pos - left_len, sz);
            proof {
                assert(children@ =~= w.take(left_len as int));
                assert(sizes@ =~= ws.take(left_len as int));
                assert(rchildren@ =~= w.skip(left_len as int));
                assert(rsizes@ =~= ws.skip(left_len as int));
                Self::lemma_elems_of_split(w, left_len as int);
                assert(children@ =~= cs_in.take(left_len as int));
                assert(rchildren@ =~= cs_in.skip(left_len as int).insert(
                    pos - left_len,
                    sib,
                ));
            }
            let rtot = Self::sum_sizes(&rsizes, Ghost(rchildren@));
            (
                Node::Internal { sizes, children },
                Some((Node::Internal { sizes: rsizes, children: rchildren }, rtot)),
            )
        } else {
            // the new child stays in the left half: larger right
            let (left_len, _) = SplitStrategy::LargerRight.sizes(b);
            let rsizes = sizes.split_off(left_len);
            let rchildren = children.split_off(left_len);
            children.insert(pos, sib);
            sizes.insert(pos, sz);
            proof {
                assert(children@ =~= w.take(left_len as int + 1));
                assert(sizes@ =~= ws.take(left_len as int + 1));
                assert(rchildren@ =~= w.skip(left_len as int + 1));
                assert(rsizes@ =~= ws.skip(left_len as int + 1));
                Self::lemma_elems_of_split(w, left_len as int + 1);
                assert(children@ =~= cs_in.take(left_len as int).insert(pos as int, sib));
                assert(rchildren@ =~= cs_in.skip(left_len as int));
            }
            let rtot = Self::sum_sizes(&rsizes, Ghost(rchildren@));
            (
                Node::Internal { sizes, children },
                Some((Node::Internal { sizes: rsizes, children: rchildren }, rtot)),
            )
        }
    }

    /// Inserts `item` at position `index` within this subtree.
    ///
    /// Returns the subtree in place of this one, and, if it had to split,
    /// the freshly made right sibling together with its element count,
    /// for the caller to link in immediately after this node.
    #[verifier::rlimit(60)]
    pub(crate) fn insert_rec(self, index: usize, item: T, b: usize) -> (r: (
        Node<T>,
        Option<(Node<T>, usize)>,
    ))
        requires
            self.wf(b as int),
            b >= 3,
            index <= self.elems().len(),
            self.elems().len() < usize::MAX,
        ensures
            r.0.wf(b as int),
            r.0.height() == self.height(),
            match r.1 {
                None => {
                    &&& r.0.elems() == self.elems().insert(index as int, item)
                    &&& r.0.spec_length() >= self.spec_length()
                },
                Some(pair) => {
                    &&& r.0.elems() + pair.0.elems() == self.elems().insert(index as int, item)
                    &&& pair.0.wf(b as int)
                    &&& pair.0.height() == self.height()
                    &&& pair.1 == pair.0.elems().len()
                    &&& r.0.spec_length() >= b / 2
                    &&& pair.0.spec_length() >= b / 2
                    &&& self.lone_free() ==> pair.0.lone_free()
                },
            },
            self.lone_free() ==> r.0.lone_free(),
            // only a full node splits; a leaf splits exactly when full
            r.1 is Some ==> self.spec_length() == b,
            self is Leaf ==> ((r.1 is Some) <==> self.spec_length() == b),
            // a full leaf divides by the strategy the landing index picks,
            // at the exact cut, and the entry goes into the smaller half
            (self is Leaf && r.1 is Some && index >= b - b / 2) ==> (r.0.elems()
                == self.elems().take(b as int - b as int / 2) && (r.1->0).0.elems()
                == self.elems().skip(b as int - b as int / 2).insert(
                index - (b as int - b as int / 2),
                item,
            )),
            (self is Leaf && r.1 is Some && index < b - b / 2) ==> (r.0.elems()
                == self.elems().take(b as int / 2).insert(index as int, item) && (
            r.1->0).0.elems() == self.elems().skip(b as int / 2)),
            // a full internal node divides likewise, keyed on where the
            // routed child's new sibling lands
            (self is Internal && r.1 is Some && Self::spec_route(self.kids(), index as int).0 + 1
                >= b - b / 2) ==> (r.0.spec_length() == b - b / 2 && (r.1->0).0.spec_length()
                == b / 2 + 1),
            (self is Internal && r.1 is Some && Self::spec_route(self.kids(), index as int).0 + 1
                < b - b / 2) ==> (r.0.spec_length() == b / 2 + 1 && (r.1->0).0.spec_length()
                == b - b / 2),
            // without a split, only the routed child changes: either it
            // absorbed the entry, or it divided in two in place
            (self is Internal && r.1 is None) ==> ({
                let k = Self::spec_route(self.kids(), index as int).0;
                let rem = Self::spec_route(self.kids(), index as int).1;
                ||| (r.0.spec_length() == self.spec_length() && (forall|j: int|
                    0 <= j < self.kids().len() && j != k ==> r.0.kids()[j] == self.kids()[j])
                    && r.0.kids()[k].elems() == self.kids()[k].elems().insert(rem, item))
                ||| (r.0.spec_length() == self.spec_length() + 1 && (forall|j: int|
                    0 <= j < k ==> r.0.kids()[j] == self.kids()[j]) && (forall|j: int|
                    k + 1 < j < r.0.kids().len() ==> r.0.kids()[j] == self.kids()[j - 1])
                    && r.0.kids()[k].elems() + r.0.kids()[k + 1].elems()
                    == self.kids()[k].elems().insert(rem, item))
            }),
        decreases self.height(),
    {
        match self {
            Node::Leaf { mut elems } => {
                if elems.len() < b {
                    elems.insert(index, item);
                    proof {
                        let r0 = Node::Leaf { elems };
                        assert(r0.kids_lone_free());
                    }
                    (Node::Leaf { elems }, None)
                } else if index >= b - b / 2 {
                    // the entry would land in the right half: larger left
                    let (left_len, _) = SplitStrategy::LargerLeft.sizes(b);
                    let ghost whole = elems@;
                    let mut right = elems.split_off(left_len);
                    right.insert(index - left_len, item);
                    let sz = right.len();
                    proof {
                        lemma_insert_in_middle(
                            whole.take(left_len as int),
                            whole.skip(left_len as int),
                            Seq::<T>::empty(),
                            index - left_len,
                            item,
                        );
                        assert(elems@ + right@ + Seq::<T>::empty() =~= elems@ + right@);
                        assert(whole.take(left_len as int) + whole.skip(left_len as int)
                            + Seq::<T>::empty() =~= whole);
                        assert(elems@ =~= whole.take(left_len as int));
                        assert(right@ =~= whole.skip(left_len as int).insert(
                            index - left_len,
                            item,
                        ));
                        let l0 = Node::Leaf { elems };
                        let r0 = Node::Leaf { elems: right };
                        assert(l0.kids_lone_free() && l0.lone_free());
                        assert(r0.kids_lone_free() && r0.lone_free());
                    }
                    (Node::Leaf { elems }, Some((Node::Leaf { elems: right }, sz)))
                } else {
                    // the entry stays in the left half: larger right
                    let (left_len, _) = SplitStrategy::LargerRight.sizes(b);
                    let ghost whole = elems@;
                    let right = elems.split_off(left_len);
                    elems.insert(index, item);
                    let sz = right.len();
                    proof {
                        lemma_insert_in_middle(
                            Seq::<T>::empty(),
                            whole.take(left_len as int),
                            whole.skip(left_len as int),
                            index as int,
                            item,
                        );
                        assert(Seq::<T>::empty() + whole.take(left_len as int).insert(
                            index as int,
                            item,
                        ) + whole.skip(left_len as int) =~= elems@ + right@);
                        assert(Seq::<T>::empty() + whole.take(left_len as int) + whole.skip(
                            left_len as int,
                        ) =~= whole);
                        assert(elems@ =~= whole.take(left_len as int).insert(index as int, item));
                        assert(right@ =~= whole.skip(left_len as int));
                        let l0 = Node::Leaf { elems };
                        let r0 = Node::Leaf { elems: right };
                        assert(l0.kids_lone_free() && l0.lone_free());
                        assert(r0.kids_lone_free() && r0.lone_free());
                    }
                    (Node::Leaf { elems }, Some((Node::Leaf { elems: right }, sz)))
                }
            },
            Node::Internal { mut sizes, mut children } => {
                let ghost cs0 = children@;
                let ghost me = Self::elems_of(cs0);
                let ghost target = me.insert(index as int, item);
                let (k, rem) = Self::route(&sizes, index, Ghost(children@));
                proof {
                    Self::lemma_elems_of_decompose(cs0, k as int);
                }
                let ghost pre = Self::elems_of(cs0.take(k as int));
                let ghost mid = cs0[k as int].elems();
                let ghost suf = Self::elems_of(cs0.skip(k as int + 1));
                proof {
                    lemma_insert_in_middle(pre, mid, suf, rem as int, item);
                }
                let child = children.remove(k);
                let (child2, csplit) = child.insert_rec(rem, item, b);
                children.insert(k, child2);
                let nsz = match &csplit {
                    None => sizes[k] + 1,
                    Some(pair) => sizes[k] + 1 - pair.1,
                };
                sizes[k] = nsz;
                let ghost u = children@;
                proof {
                    assert(u =~= cs0.update(k as int, child2));
                    assert(u.take(k as int) =~= cs0.take(k as int));
                    assert(u.take(k as int + 1) =~= cs0.take(k as int).push(child2));
                    assert(u.skip(k as int + 1) =~= cs0.skip(k as int + 1));
                    assert forall|i: int| 0 <= i < u.len() implies (#[trigger] u[i]).wf(b as int)
                        && (#[trigger] u[i]).height() == u[0].height() && sizes@[i]
                        == u[i].elems().len() by {
                        if i != k {
                            assert(u[i] == cs0[i]);
                            assert(sizes@[i] == cs0[i].elems().len());
                        }
                        if k > 0 {
                            assert(u[0] == cs0[0]);
                        }
                    }
                    if self.lone_free() {
                        assert forall|i: int| 0 <= i < u.len() implies (
                        #[trigger] u[i]).lone_free() by {
                            if i != k {
                                assert(u[i] == cs0[i]);
                                assert(self.kids()[i].lone_free());
                            } else {
                                assert(self.kids()[k as int].lone_free());
                            }
                        }
                    }
                }
                match csplit {
                    None => {
                        proof {
                            Self::lemma_elems_of_decompose(u, k as int);
                            assert(Self::elems_of(u) == target);
                            if u.len() >= 2 {
                                assert forall|i: int| 0 <= i < u.len() implies (
                                #[trigger] u[i]).spec_length() >= b as int / 2 by {
                                    if i != k {
                                        assert(u[i] == cs0[i]);
                                    }
                                }
                            }
                            let r0 = Node::Internal { sizes, children };
                            assert(r0.kids() =~= u);
                            if self.lone_free() {
                                assert(r0.kids_lone_free());
                            }
                            assert forall|j: int|
                                0 <= j < cs0.len() && j != k implies u[j] == cs0[j] by {}
                        }
                        (Node::Internal { sizes, children }, None)
                    },
                    Some((sib, sz)) => {
                        proof {
                            Self::lemma_elems_of_insert(u, k as int + 1, sib);
                            Self::lemma_elems_of_take_step(u, k as int);
                            assert(u.skip(k as int + 1) =~= cs0.skip(k as int + 1));
                            assert(Self::elems_of(u.insert(k as int + 1, sib)) == target);
                            if self.lone_free() {
                                assert(self.kids()[k as int].lone_free());
                                assert(sib.lone_free());
                            }
                            assert forall|i: int| 0 <= i < u.len() implies (
                            #[trigger] u[i]).spec_length() >= b as int / 2 by {
                                if i != k {
                                    assert(u[i] == cs0[i]);
                                    assert(cs0.len() >= 2);
                                }
                            }
                        }
                        let r = Self::insert_child(sizes, children, k + 1, sib, sz, b);
                        proof {
                            if r.1 is None {
                                // the sibling fitted: second shape of the
                                // no-split frame
                                let v = u.insert(k as int + 1, sib);
                                assert(r.0.kids() == v);
                                assert forall|j: int| 0 <= j < k implies v[j] == cs0[j] by {
                                    assert(v[j] == u[j]);
                                }
                                assert forall|j: int|
                                    k + 1 < j < v.len() implies v[j] == cs0[j - 1] by {
                                    assert(v[j] == u[j - 1]);
                                }
                                assert(v[k as int] == child2);
                                assert(v[k as int + 1] == sib);
                            }
                        }
                        r
                    },
                }
            },
        }
    }
}

} // verus!
