use btree_vec::debug::IdMap;
use btree_vec::debug::State;
use btree_vec::node::Node;
use btree_vec::node::SplitStrategy;
use btree_vec::ref_kind::Immutable;
use btree_vec::ref_kind::NodeRef;
use btree_vec::BTreeVec;

/// Walks a subtree checking the structural invariants: parallel and
/// exact size entries, occupancy bounds, and equal leaf depth. Returns
/// the subtree's element count and its height.
fn check_node(node: &Node<u8>, b: usize, is_root: bool) -> (usize, usize) {
    match node {
        Node::Leaf { elems } => {
            assert!(elems.len() <= b);
            (elems.len(), 0)
        }
        Node::Internal { sizes, children } => {
            assert!(!children.is_empty());
            assert!(children.len() <= b);
            assert!(sizes.len() == children.len());
            if is_root || b >= 4 {
                // an internal root never has a single child, and for a
                // branching factor of at least 4 no internal node does
                assert!(children.len() >= 2);
            }
            let mut total: usize = 0;
            let mut height: usize = 0;
            for (i, child) in children.iter().enumerate() {
                if children.len() >= 2 || b >= 4 {
                    // minimum occupancy for every child with a sibling;
                    // at branching factor 4 and above, for every child
                    let child_len = match child {
                        Node::Leaf { elems } => elems.len(),
                        Node::Internal { children, .. } => children.len(),
                    };
                    assert!(child_len >= b / 2);
                }
                let (count, child_height) = check_node(child, b, false);
                assert!(sizes[i] == count);
                if i == 0 {
                    height = child_height + 1;
                } else {
                    // every leaf sits at the same depth
                    assert!(child_height + 1 == height);
                }
                total += count;
            }
            (total, height)
        }
    }
}

fn check_tree<const B: usize>(vec: &BTreeVec<u8, B>) {
    match vec.root_node() {
        Some(root) => {
            let (count, _) = check_node(root, B, true);
            assert!(count == vec.len());
        }
        None => assert!(vec.is_empty()),
    }
}

#[test]
fn structural_invariants_after_operations() {
    let mut vec = BTreeVec::<u8, 4>::create();
    for i in 0..64 {
        vec.push(i);
        check_tree(&vec);
    }
    for i in 0..32 {
        vec.remove(i as usize % 7);
        check_tree(&vec);
    }
    let mut vec8 = BTreeVec::<u8, 8>::create();
    for i in 0..128 {
        vec8.insert(i as usize / 2, i);
        check_tree(&vec8);
    }
    while !vec8.is_empty() {
        vec8.pop();
        check_tree(&vec8);
    }
}

#[test]
fn smallest_branching_factor_works() {
    // a branching factor of 3 is the smallest accepted one, and it must
    // survive at least 2 * 3 insertions and removals
    let mut vec = BTreeVec::<u8, 3>::create();
    for i in 0..6 {
        vec.push(i);
        check_tree(&vec);
    }
    assert!(vec.len() == 6);
    for i in 0..6 {
        assert!(*vec.get(i as usize).unwrap() == i);
    }
    for _ in 0..6 {
        vec.remove(0);
        check_tree(&vec);
    }
    assert!(vec.is_empty());
}

#[test]
fn insert_then_remove_restores_sequence() {
    let mut vec = BTreeVec::<u8, 5>::create();
    for i in 0..10 {
        vec.push(i);
    }
    for at in 0..11 {
        vec.insert(at, 99);
        assert!(*vec.get(at).unwrap() == 99);
        let back = vec.remove(at);
        assert!(back == 99);
        assert!(vec.len() == 10);
        for i in 0..10 {
            assert!(*vec.get(i as usize).unwrap() == i);
        }
    }
}

#[test]
fn replace_swaps_one_item() {
    let mut vec = BTreeVec::<u8, 4>::create();
    for i in 0..20 {
        vec.push(i);
    }
    let old = vec.replace(7, 99);
    assert!(old == 7);
    assert!(vec.len() == 20);
    for i in 0..20 {
        let want = if i == 7 { 99 } else { i };
        assert!(*vec.get(i as usize).unwrap() == want);
    }
    check_tree(&vec);
}

#[test]
fn reads_out_of_range_are_none() {
    let mut vec = BTreeVec::<u8, 4>::create();
    assert!(vec.get(0).is_none());
    assert!(vec.first().is_none());
    assert!(vec.last().is_none());
    assert!(vec.pop().is_none());
    assert!(vec.is_empty());
    vec.push(5);
    vec.push(6);
    assert!(*vec.first().unwrap() == 5);
    assert!(*vec.last().unwrap() == 6);
    assert!(vec.get(2).is_none());
    assert!(*vec.get(1).unwrap() == 6);
}

#[test]
fn push_matches_reference_vector() {
    // interleaved pushes and middle insertions, against an array-backed
    // reference
    let mut vec = BTreeVec::<u8, 6>::create();
    let mut reference: Vec<u8> = Vec::new();
    for i in 0..50 {
        if i % 3 == 0 {
            let at = (i as usize * 7) % (reference.len() + 1);
            vec.insert(at, i);
            reference.insert(at, i);
        } else {
            vec.push(i);
            reference.push(i);
        }
    }
    assert!(vec.len() == reference.len());
    let mut it = vec.iter();
    for want in reference.iter() {
        assert!(it.next().unwrap() == want);
    }
    assert!(it.next().is_none());
}

/// Runs a deterministic mix of operations against an array-backed
/// reference, checking contents and structure at every step.
fn stress<const B: usize>(steps: u32) {
    let mut vec = BTreeVec::<u8, B>::create();
    let mut reference: Vec<u8> = Vec::new();
    let mut state: u64 = 0x853c49e6748fea9b;
    for step in 0..steps {
        state = state
            .wrapping_mul(6364136223846793005)
            .wrapping_add(1442695040888963407);
        let value = (state >> 32) as u8;
        let choice = (state >> 16) % 6;
        let len = reference.len();
        match choice {
            0 | 1 => {
                vec.push(value);
                reference.push(value);
            }
            2 => {
                let at = (state as usize >> 8) % (len + 1);
                vec.insert(at, value);
                reference.insert(at, value);
            }
            3 => {
                if len > 0 {
                    let at = (state as usize >> 8) % len;
                    assert!(vec.remove(at) == reference.remove(at));
                }
            }
            4 => {
                assert!(vec.pop() == reference.pop());
            }
            _ => {
                if len > 0 {
                    let at = (state as usize >> 8) % len;
                    let old = reference[at];
                    reference[at] = value;
                    assert!(vec.replace(at, value) == old);
                }
            }
        }
        assert!(vec.len() == reference.len());
        if step % 7 == 0 {
            check_tree(&vec);
            let mut it = vec.iter();
            for want in reference.iter() {
                assert!(it.next().unwrap() == want);
            }
            assert!(it.next().is_none());
        }
    }
    check_tree(&vec);
    for (i, want) in reference.iter().enumerate() {
        assert!(vec.get(i).unwrap() == want);
    }
}

#[test]
fn stress_smallest_branching_factor() {
    stress::<3>(600);
}

#[test]
fn stress_even_branching_factor() {
    stress::<4>(600);
}

#[test]
fn stress_odd_branching_factor() {
    stress::<7>(600);
}

#[test]
fn drain_to_empty_and_refill() {
    // shrink a deep tree all the way down, so that nodes lose their
    // siblings and the root collapses level by level, then grow it back
    let mut vec = BTreeVec::<u8, 3>::create();
    for i in 0..40 {
        vec.push(i);
    }
    while vec.len() > 0 {
        let last = vec.len() - 1;
        vec.remove(last / 2);
        check_tree(&vec);
    }
    assert!(vec.is_empty());
    // the root is absent exactly when the sequence is empty
    assert!(vec.root_node().is_none());
    for i in 0..10 {
        vec.push(i);
        check_tree(&vec);
    }
    for i in 0..10 {
        assert!(*vec.get(i as usize).unwrap() == i);
    }
}

#[test]
fn cursor_walks_the_tree_read_only() {
    let mut vec = BTreeVec::<u8, 4>::create();
    for i in 0..20 {
        vec.push(i);
    }
    let root = vec.root_node().unwrap();
    // descend along first children to the leftmost leaf
    let mut cur = NodeRef::new(root, Immutable);
    while !cur.is_leaf() {
        cur = cur.into_child(0);
    }
    assert!(*cur.element(0) == 0);
    // the cached sizes at the root add up to the whole length
    let top = NodeRef::new(root, Immutable);
    assert!(!top.is_leaf());
    let mut total: usize = 0;
    for i in 0..top.length() {
        total += top.size_of_child(i);
    }
    assert!(total == vec.len());
}

#[test]
fn split_strategy_sizes_partition_the_node() {
    assert!(SplitStrategy::LargerLeft.sizes(7) == (4, 3));
    assert!(SplitStrategy::LargerRight.sizes(7) == (3, 4));
    assert!(SplitStrategy::LargerLeft.sizes(8) == (4, 4));
    assert!(SplitStrategy::LargerRight.sizes(8) == (4, 4));
    assert!(SplitStrategy::LargerLeft.sizes(3) == (2, 1));
    assert!(SplitStrategy::LargerRight.sizes(3) == (1, 2));
}

#[test]
fn id_map_numbers_keys_in_first_seen_order() {
    let mut ids = IdMap::new();
    assert!(ids.get(70) == 1);
    assert!(ids.get(10) == 2);
    assert!(ids.get(70) == 1);
    assert!(ids.get(99) == 3);
    assert!(ids.get(10) == 2);
}

#[test]
fn graph_state_assigns_stable_ids() {
    let mut state = State::new();
    let a = state.id(1000);
    let b = state.id(2000);
    let c = state.id(3000);
    assert!(a == 1 && b == 2 && c == 3);
    assert!(state.id(2000) == 2);
    assert!(state.id(1000) == 1);
    assert!(state.id(4000) == 4);
}
