//! Support for external read-only visitors of the tree, such as a
//! graph exporter: stable small identifiers for opaque node keys. The
//! visitor itself lives outside the library; it walks the tree through
//! [`crate::BTreeVec::root_node`] and the public [`crate::node::Node`]
//! shape, and uses a [`State`] to give each node a graph key.

use vstd::prelude::*;

verus! {

/// Assigns consecutive identifiers, starting at 1, to keys in the order
/// they are first seen. Asking again for a known key returns the same
/// identifier.
pub struct IdMap {
    keys: Vec<u64>,
}

impl IdMap {
    /// The keys seen so far, in first-seen order; the identifier of a
    /// key is its position here plus one.
    pub closed spec fn view(&self) -> Seq<u64> {
        self.keys@
    }

    /// No key occurs twice.
    pub closed spec fn wf(&self) -> bool {
        forall|i: int, j: int| 0 <= i < j < self.keys@.len() ==> self.keys@[i] != self.keys@[j]
    }

    /// Creates an empty identifier map.
    pub fn new() -> (r: Self)
        ensures
            r.wf(),
            r@ == Seq::<u64>::empty(),
    {
        IdMap { keys: Vec::new() }
    }

    /// Finds the position of `value` among the keys seen so far.
    fn find(keys: &Vec<u64>, value: u64) -> (r: Option<usize>)
        ensures
            match r {
                Some(i) => i < keys@.len() && keys@[i as int] == value,
                None => !keys@.contains(value),
            },
    {
        let n = keys.len();
        let mut i: usize = 0;
        while i < n
            invariant
                n == keys@.len(),
                0 <= i <= n,
                forall|j: int| 0 <= j < i ==> keys@[j] != value,
            decreases n - i,
        {
            if keys[i] == value {
                return Some(i);
            }
            i = i + 1;
        }
        None
    }

    /// Returns the identifier of `value`, assigning the next free one if
    /// `value` has not been seen before.
    pub fn get(&mut self, value: u64) -> (r: usize)
        requires
            old(self).wf(),
            old(self)@.len() < usize::MAX,
        ensures
            final(self).wf(),
            1 <= r <= final(self)@.len(),
            final(self)@[r as int - 1] == value,
            forall|j: int| 0 <= j < final(self)@.len() && j != r - 1 ==> final(self)@[j] != value,
            old(self)@.contains(value) ==> final(self)@ == old(self)@,
            !old(self)@.contains(value) ==> final(self)@ == old(self)@.push(value),
    {
        match Self::find(&self.keys, value) {
            Some(i) => i + 1,
            None => {
                self.keys.push(value);
                self.keys.len()
            },
        }
    }
}

/// The traversal state of one graph-export run: the identifier map that
/// keys every visited node.
pub struct State {
    ids: IdMap,
}

impl State {
    /// The node keys seen so far, in first-seen order.
    pub closed spec fn view(&self) -> Seq<u64> {
        self.ids@
    }

    /// No key occurs twice.
    pub closed spec fn wf(&self) -> bool {
        self.ids.wf()
    }

    /// Creates a fresh traversal state.
    pub fn new() -> (r: Self)
        ensures
            r.wf(),
            r@ == Seq::<u64>::empty(),
    {
        State { ids: IdMap::new() }
    }

    /// Returns the graph identifier for the node with the given opaque
    /// key, assigning the next free one on first sight.
    pub fn id(&mut self, key: u64) -> (r: usize)
        requires
            old(self).wf(),
            old(self)@.len() < usize::MAX,
        ensures
            final(self).wf(),
            1 <= r <= final(self)@.len(),
            final(self)@[r as int - 1] == key,
            forall|j: int| 0 <= j < final(self)@.len() && j != r - 1 ==> final(self)@[j] != key,
            old(self)@.contains(key) ==> final(self)@ == old(self)@,
            !old(self)@.contains(key) ==> final(self)@ == old(self)@.push(key),
    {
        self.ids.get(key)
    }
}

} // verus!
